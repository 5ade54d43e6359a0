use vstd::prelude::*;
use crate::commands::clone::{ascii_bytes, entry_mode, entry_mode_of, hex_bytes, views_of, EntryMode};
use crate::hashing::hex_lower;
use crate::objects::{object_content, object_content_of, ContentView, ObjectContent, ObjectError, TreeEntry, TreeEntryView};
use crate::packfile::ObjectKind;

verus! {

/// Work left in writing out a work tree: an object to read and write out
/// at a path, or the file or directory of a tree entry to make at a path.
/// A path is the list of names below the work tree's root.
#[derive(Debug, PartialEq, Eq)]
pub enum CheckoutTask {
    Visit { name: Vec<u8>, path: Vec<Vec<u8>> },
    Make { mode: Vec<u8>, path: Vec<Vec<u8>> },
}

/// A checkout task as a value.
pub enum TaskView {
    Visit { name: Seq<u8>, path: Seq<Seq<u8>> },
    Make { mode: Seq<u8>, path: Seq<Seq<u8>> },
}

impl View for CheckoutTask {
    type V = TaskView;

    open spec fn view(&self) -> TaskView {
        match self {
            CheckoutTask::Visit { name, path } => TaskView::Visit { name: name@, path: views_of(path@) },
            CheckoutTask::Make { mode, path } => TaskView::Make { mode: mode@, path: views_of(path@) },
        }
    }
}

/// What the caller of a checkout step hands in: a request for the next
/// step, or the object that the last step asked to read.
#[derive(Debug, PartialEq, Eq)]
pub enum CheckoutEvent {
    Next,
    Object { kind: ObjectKind, content: Vec<u8> },
}

/// A checkout event as a value.
pub enum CheckoutEventView {
    Next,
    Object { kind: ObjectKind, content: Seq<u8> },
}

impl View for CheckoutEvent {
    type V = CheckoutEventView;

    open spec fn view(&self) -> CheckoutEventView {
        match self {
            CheckoutEvent::Next => CheckoutEventView::Next,
            CheckoutEvent::Object { kind, content } => CheckoutEventView::Object { kind: *kind, content: content@ },
        }
    }
}

/// What a checkout step asks of its caller: read the object with this
/// (hexadecimal) name, create a file with these permission bits, create a
/// directory, write a blob's bytes into a file, nothing, or nothing more at
/// all.
#[derive(Debug, PartialEq, Eq)]
pub enum CheckoutAction {
    Read { name: Vec<u8> },
    CreateFile { path: Vec<Vec<u8>>, permissions: u32 },
    CreateDir { path: Vec<Vec<u8>> },
    WriteFile { path: Vec<Vec<u8>>, content: Vec<u8> },
    Continue,
    Done,
}

/// A checkout action as a value.
pub enum CheckoutActionView {
    Read { name: Seq<u8> },
    CreateFile { path: Seq<Seq<u8>>, permissions: u32 },
    CreateDir { path: Seq<Seq<u8>> },
    WriteFile { path: Seq<Seq<u8>>, content: Seq<u8> },
    Continue,
    Done,
}

impl View for CheckoutAction {
    type V = CheckoutActionView;

    open spec fn view(&self) -> CheckoutActionView {
        match self {
            CheckoutAction::Read { name } => CheckoutActionView::Read { name: name@ },
            CheckoutAction::CreateFile { path, permissions } => CheckoutActionView::CreateFile {
                path: views_of(path@),
                permissions: *permissions,
            },
            CheckoutAction::CreateDir { path } => CheckoutActionView::CreateDir { path: views_of(path@) },
            CheckoutAction::WriteFile { path, content } => CheckoutActionView::WriteFile {
                path: views_of(path@),
                content: content@,
            },
            CheckoutAction::Continue => CheckoutActionView::Continue,
            CheckoutAction::Done => CheckoutActionView::Done,
        }
    }
}

/// Errors that writing out a work tree can end in.
#[derive(Debug, Clone, Copy, PartialEq, Eq, Structural)]
pub enum CheckoutError {
    /// A tree entry has a mode other than a file, an executable or a directory.
    UnknownMode,
    /// An object read for the work tree cannot be decoded.
    BadObject { error: ObjectError },
    /// A step was handed an event that does not fit the checkout's state.
    UnexpectedEvent,
}

/// A work tree being written out: the work left, the last task on top, and
/// the path of the object asked for, while one is.
pub struct Checkout {
    tasks: Vec<CheckoutTask>,
    awaiting: Option<Vec<Vec<u8>>>,
}

/// A checkout as a value.
pub struct CheckoutView {
    pub tasks: Seq<TaskView>,
    pub awaiting: Option<Seq<Seq<u8>>>,
}

impl View for Checkout {
    type V = CheckoutView;

    closed spec fn view(&self) -> CheckoutView {
        CheckoutView {
            tasks: self.tasks@.map_values(|t: CheckoutTask| t@),
            awaiting: match self.awaiting {
                Some(p) => Some(views_of(p@)),
                None => None,
            },
        }
    }
}

/// The tasks for the entries of a tree at `path`, as they are put on top
/// of the work left: for the first entry, its file or directory is made
/// first and then its object is written into it, before the next entry is
/// begun.
pub open spec fn tree_tasks(entries: Seq<TreeEntryView>, path: Seq<Seq<u8>>) -> Seq<TaskView>
    decreases entries.len(),
{
    if entries.len() == 0 {
        Seq::empty()
    } else {
        let e = entries[0];
        let p = path.push(e.name);
        tree_tasks(entries.drop_first(), path) + seq![
            TaskView::Visit { name: ascii_bytes(hex_lower(e.hash)), path: p },
            TaskView::Make { mode: e.mode, path: p },
        ]
    }
}

/// The action that makes a tree entry with this mode at `path`: a file
/// with the mode's permission bits, or a directory.
pub open spec fn make_action(m: EntryMode, path: Seq<Seq<u8>>) -> CheckoutActionView {
    match m {
        EntryMode::Executable => CheckoutActionView::CreateFile { path, permissions: 0o755 },
        EntryMode::Regular => CheckoutActionView::CreateFile { path, permissions: 0o644 },
        EntryMode::Directory => CheckoutActionView::CreateDir { path },
    }
}

/// One step of writing out a work tree. With no object asked for, the task
/// on top is taken: an object to visit is asked for by its name; a tree
/// entry is made, or ends the checkout where its mode is unknown; with no
/// task left, the checkout is done. The object asked for is then written
/// out at its path: a tree puts the tasks of its entries on top, a blob is
/// written into its file, a commit puts its tree on top at the same path,
/// and a tag is passed over; an object that cannot be decoded ends the
/// checkout. An event that does not fit the state changes nothing.
pub open spec fn checkout_step(s: CheckoutView, ev: CheckoutEventView) -> (Result<CheckoutActionView, CheckoutError>, CheckoutView) {
    match (s.awaiting, ev) {
        (None, CheckoutEventView::Next) => if s.tasks.len() == 0 {
            (Ok(CheckoutActionView::Done), s)
        } else {
            let rest = s.tasks.drop_last();
            match s.tasks.last() {
                TaskView::Visit { name, path } => (
                    Ok(CheckoutActionView::Read { name }),
                    CheckoutView { tasks: rest, awaiting: Some(path) },
                ),
                TaskView::Make { mode, path } => match entry_mode_of(mode) {
                    Err(_) => (Err(CheckoutError::UnknownMode), CheckoutView { tasks: rest, awaiting: None }),
                    Ok(m) => (Ok(make_action(m, path)), CheckoutView { tasks: rest, awaiting: None }),
                },
            }
        },
        (Some(path), CheckoutEventView::Object { kind, content }) => match object_content_of(kind, content) {
            Err(e) => (Err(CheckoutError::BadObject { error: e }), CheckoutView { tasks: s.tasks, awaiting: None }),
            Ok(ContentView::Tree { entries }) => (
                Ok(CheckoutActionView::Continue),
                CheckoutView { tasks: s.tasks + tree_tasks(entries, path), awaiting: None },
            ),
            Ok(ContentView::Blob { blob_content }) => (
                Ok(CheckoutActionView::WriteFile { path, content: blob_content }),
                CheckoutView { tasks: s.tasks, awaiting: None },
            ),
            Ok(ContentView::Commit { tree_sha }) => (
                Ok(CheckoutActionView::Continue),
                CheckoutView { tasks: s.tasks.push(TaskView::Visit { name: tree_sha, path }), awaiting: None },
            ),
            Ok(ContentView::Tag) => (Ok(CheckoutActionView::Continue), CheckoutView { tasks: s.tasks, awaiting: None }),
        },
        _ => (Err(CheckoutError::UnexpectedEvent), s),
    }
}

/// The value of the outcome of a checkout step.
pub open spec fn checkout_result_view(r: Result<CheckoutAction, CheckoutError>) -> Result<CheckoutActionView, CheckoutError> {
    match r {
        Ok(a) => Ok(a@),
        Err(e) => Err(e),
    }
}

/// A copy of a path.
fn copy_path(path: &Vec<Vec<u8>>) -> (r: Vec<Vec<u8>>)
    ensures
        views_of(r@) == views_of(path@),
{
    let mut out: Vec<Vec<u8>> = Vec::new();
    let mut i: usize = 0;
    while i < path.len()
        invariant
            i <= path@.len(),
            views_of(out@) == views_of(path@).take(i as int),
        decreases path.len() - i,
    {
        let ghost before = out@;
        out.push(vstd::slice::slice_to_vec(path[i].as_slice()));
        assert(views_of(out@) =~= views_of(before).push(path@[i as int]@));
        assert(views_of(path@).take(i + 1) =~= views_of(path@).take(i as int).push(path@[i as int]@));
        i = i + 1;
    }
    assert(views_of(path@).take(i as int) =~= views_of(path@));
    out
}

impl Checkout {
    /// A checkout that writes out the object with this (hexadecimal) name
    /// at the root of the work tree.
    pub fn new(name: Vec<u8>) -> (r: Checkout)
        ensures
            r@ == (CheckoutView {
                tasks: seq![TaskView::Visit { name: name@, path: Seq::empty() }],
                awaiting: None,
            }),
    {
        let mut tasks: Vec<CheckoutTask> = Vec::new();
        let path: Vec<Vec<u8>> = Vec::new();
        assert(views_of(path@) =~= Seq::<Seq<u8>>::empty());
        tasks.push(CheckoutTask::Visit { name, path });
        let r = Checkout { tasks, awaiting: None };
        assert(r@.tasks =~= seq![TaskView::Visit { name: name@, path: Seq::empty() }]);
        r
    }

    /// Puts the tasks of the entries of a tree at `path` on top of the work
    /// left.
    fn push_tree(&mut self, entries: &Vec<TreeEntry>, path: &Vec<Vec<u8>>)
        requires
            old(self).awaiting is None,
        ensures
            final(self)@ == (CheckoutView {
                tasks: old(self)@.tasks + tree_tasks(entries@.map_values(|e: TreeEntry| e@), views_of(path@)),
                awaiting: None,
            }),
    {
        let ghost es = entries@.map_values(|e: TreeEntry| e@);
        let ghost p = views_of(path@);
        let ghost start = self@.tasks;
        let mut i: usize = entries.len();
        assert(es.subrange(i as int, es.len() as int) =~= Seq::<TreeEntryView>::empty());
        while i > 0
            invariant
                es == entries@.map_values(|e: TreeEntry| e@),
                p == views_of(path@),
                i <= entries@.len(),
                self.awaiting is None,
                self@.tasks == start + tree_tasks(es.subrange(i as int, es.len() as int), p),
            decreases i,
        {
            let e = &entries[i - 1];
            let mut entry_path = copy_path(path);
            entry_path.push(vstd::slice::slice_to_vec(e.name.as_slice()));
            let visit_path = copy_path(&entry_path);
            let name = hex_bytes(e.hash.as_slice());
            let ghost before = self@.tasks;
            assert(views_of(entry_path@) =~= p.push(e.name@));
            self.tasks.push(CheckoutTask::Visit { name, path: visit_path });
            self.tasks.push(CheckoutTask::Make { mode: vstd::slice::slice_to_vec(e.mode.as_slice()), path: entry_path });
            let ghost sub = es.subrange(i - 1, es.len() as int);
            assert(sub[0] == e@);
            assert(sub.drop_first() =~= es.subrange(i as int, es.len() as int));
            assert(self@.tasks =~= before + seq![
                TaskView::Visit { name: ascii_bytes(hex_lower(e.hash@)), path: p.push(e.name@) },
                TaskView::Make { mode: e.mode@, path: p.push(e.name@) },
            ]);
            i = i - 1;
        }
        assert(es.subrange(0, es.len() as int) =~= es);
    }

    /// Takes one step of writing out the work tree and says what the caller
    /// is to do: read an object and hand it in, make a file or a directory,
    /// write a blob, or nothing; or the error the checkout ends in.
    pub fn step(&mut self, event: CheckoutEvent) -> (r: Result<CheckoutAction, CheckoutError>)
        ensures
            checkout_step(old(self)@, event@) == (checkout_result_view(r), final(self)@),
    {
        let ghost s = self@;
        let ghost ev = event@;
        if self.awaiting.is_none() {
            match event {
                CheckoutEvent::Next => {},
                CheckoutEvent::Object { .. } => {
                    return Err(CheckoutError::UnexpectedEvent);
                },
            }
            match self.tasks.pop() {
                None => {
                    assert(self@.tasks =~= s.tasks);
                    return Ok(CheckoutAction::Done);
                },
                Some(CheckoutTask::Visit { name, path }) => {
                    self.awaiting = Some(path);
                    assert(self@.tasks =~= s.tasks.drop_last());
                    Ok(CheckoutAction::Read { name })
                },
                Some(CheckoutTask::Make { mode, path }) => {
                    assert(self@.tasks =~= s.tasks.drop_last());
                    match entry_mode(mode.as_slice()) {
                        Err(_) => Err(CheckoutError::UnknownMode),
                        Ok(EntryMode::Executable) => Ok(CheckoutAction::CreateFile { path, permissions: 0o755 }),
                        Ok(EntryMode::Regular) => Ok(CheckoutAction::CreateFile { path, permissions: 0o644 }),
                        Ok(EntryMode::Directory) => Ok(CheckoutAction::CreateDir { path }),
                    }
                },
            }
        } else {
            let (kind, content) = match event {
                CheckoutEvent::Next => {
                    return Err(CheckoutError::UnexpectedEvent);
                },
                CheckoutEvent::Object { kind, content } => (kind, content),
            };
            let path = match self.awaiting.take() {
                Some(p) => p,
                None => {
                    return Err(CheckoutError::UnexpectedEvent);
                },
            };
            assert(self@.tasks =~= s.tasks);
            assert(self@.awaiting is None);
            match object_content(kind, content) {
                Err(e) => Err(CheckoutError::BadObject { error: e }),
                Ok(ObjectContent::Tree { entries }) => {
                    self.push_tree(&entries, &path);
                    assert(entries@.map_values(|e: TreeEntry| e@) =~= crate::objects::entries_of(entries@));
                    Ok(CheckoutAction::Continue)
                },
                Ok(ObjectContent::Blob { blob_content }) => Ok(CheckoutAction::WriteFile { path, content: blob_content }),
                Ok(ObjectContent::Commit { tree_sha }) => {
                    let ghost v = TaskView::Visit { name: tree_sha@, path: views_of(path@) };
                    self.tasks.push(CheckoutTask::Visit { name: tree_sha, path });
                    assert(self@.tasks =~= s.tasks.push(v));
                    Ok(CheckoutAction::Continue)
                },
                Ok(ObjectContent::Tag) => Ok(CheckoutAction::Continue),
            }
        }
    }
}

/// Law: the entries of a tree are written out in the tree's order, each
/// before the next is begun: right after a tree is handed in, the next step
/// makes its first entry, at the tree's path followed by the entry's name.
pub proof fn lemma_first_entry_made_first(s: CheckoutView, kind: ObjectKind, content: Seq<u8>)
    requires
        s.awaiting is Some,
        object_content_of(kind, content) matches Ok(ContentView::Tree { entries }) && entries.len() > 0,
    ensures
        ({
            let s2 = checkout_step(s, CheckoutEventView::Object { kind, content }).1;
            let entries = object_content_of(kind, content)->Ok_0->Tree_entries;
            let e = entries[0];
            let p = s.awaiting->Some_0.push(e.name);
            checkout_step(s2, CheckoutEventView::Next).0 == match entry_mode_of(e.mode) {
                Ok(m) => Ok::<CheckoutActionView, CheckoutError>(make_action(m, p)),
                Err(_) => Err(CheckoutError::UnknownMode),
            }
        }),
{
}

/// Law: a tree entry with mode `100755` is made as a file with permissions
/// 0o755, one with `100644` as a file with 0o644, one with `40000` as a
/// directory, each at the entry's path; any other mode ends the checkout.
pub proof fn lemma_entry_modes_made(s: CheckoutView, mode: Seq<u8>, path: Seq<Seq<u8>>)
    requires
        s.awaiting is None,
        s.tasks.len() > 0,
        s.tasks.last() == (TaskView::Make { mode, path }),
    ensures
        mode == seq![0x31u8, 0x30, 0x30, 0x37, 0x35, 0x35] ==> checkout_step(s, CheckoutEventView::Next).0
            == Ok::<CheckoutActionView, CheckoutError>(CheckoutActionView::CreateFile { path, permissions: 0o755 }),
        mode == seq![0x31u8, 0x30, 0x30, 0x36, 0x34, 0x34] ==> checkout_step(s, CheckoutEventView::Next).0
            == Ok::<CheckoutActionView, CheckoutError>(CheckoutActionView::CreateFile { path, permissions: 0o644 }),
        mode == seq![0x34u8, 0x30, 0x30, 0x30, 0x30] ==> checkout_step(s, CheckoutEventView::Next).0
            == Ok::<CheckoutActionView, CheckoutError>(CheckoutActionView::CreateDir { path }),
        mode != seq![0x31u8, 0x30, 0x30, 0x37, 0x35, 0x35] && mode != seq![0x31u8, 0x30, 0x30, 0x36, 0x34, 0x34]
            && mode != seq![0x34u8, 0x30, 0x30, 0x30, 0x30] ==> checkout_step(s, CheckoutEventView::Next).0
            == Err::<CheckoutActionView, CheckoutError>(CheckoutError::UnknownMode),
{
}

} // verus!

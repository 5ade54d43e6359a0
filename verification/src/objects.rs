use vstd::prelude::*;
use crate::commands::cat_file::{all_digits, decimal_value, parse_u64, parse_u64_of};
use crate::commands::clone::{bytes_equal, find_byte, first_index_of, lemma_first_index_of_at, lemma_first_index_of_range};
use crate::hashing::{hex_encode, hex_lower, sha1_digest, sha1_of};
use crate::packfile::ObjectKind;
use crate::zlib::{deflate, inflate, zlib_deflate, zlib_inflate};

verus! {

/// Errors that reading a stored object can end in.
#[derive(Debug, Clone, Copy, PartialEq, Eq, Structural)]
pub enum ObjectError {
    /// The object has no NUL after its header.
    MissingNul,
    /// The header has no space after the kind.
    MissingKind,
    /// The header names no kind of object.
    UnknownKind,
    /// The header's size is not a decimal number that fits 64 bits.
    BadSize,
    /// The content is not as long as the header says.
    SizeMismatch,
    /// A tree entry is cut short.
    BadTree,
    /// A commit does not start with a `tree` line.
    BadCommit,
    /// The stored bytes are not a zlib stream.
    Corrupt,
}

/// The word that names a kind of object in its header.
pub open spec fn kind_word(k: ObjectKind) -> Seq<u8> {
    match k {
        ObjectKind::Commit => seq![0x63u8, 0x6f, 0x6d, 0x6d, 0x69, 0x74],
        ObjectKind::Tree => seq![0x74u8, 0x72, 0x65, 0x65],
        ObjectKind::Blob => seq![0x62u8, 0x6c, 0x6f, 0x62],
        ObjectKind::Tag => seq![0x74u8, 0x61, 0x67],
    }
}

/// The kind that a header word names, if any.
pub open spec fn kind_of_word(w: Seq<u8>) -> Option<ObjectKind> {
    if w == kind_word(ObjectKind::Commit) {
        Some(ObjectKind::Commit)
    } else if w == kind_word(ObjectKind::Tree) {
        Some(ObjectKind::Tree)
    } else if w == kind_word(ObjectKind::Blob) {
        Some(ObjectKind::Blob)
    } else if w == kind_word(ObjectKind::Tag) {
        Some(ObjectKind::Tag)
    } else {
        None
    }
}

/// `n` in decimal, with no leading zeros.
pub open spec fn decimal_digits(n: nat) -> Seq<u8>
    decreases n,
{
    if n < 10 {
        seq![(0x30 + n) as u8]
    } else {
        decimal_digits(n / 10) + seq![(0x30 + n % 10) as u8]
    }
}

/// What a stored object holds before compression: its kind's word, a
/// space, the content's length in decimal, a NUL, then the content.
pub open spec fn encoded_object(k: ObjectKind, content: Seq<u8>) -> Seq<u8> {
    kind_word(k) + seq![0x20u8] + decimal_digits(content.len()) + seq![0u8] + content
}

/// What the bytes of a stored object, once decompressed, hold: the kind
/// named before the first space of the header, the size after it up to
/// the first NUL, and the content after the NUL, which must be as long as
/// the size.
pub open spec fn decoded_object(raw: Seq<u8>) -> Result<(ObjectKind, Seq<u8>), ObjectError> {
    match first_index_of(raw, 0) {
        None => Err(ObjectError::MissingNul),
        Some(z) => {
            let header = raw.subrange(0, z);
            let content = raw.subrange(z + 1, raw.len() as int);
            match first_index_of(header, 0x20) {
                None => Err(ObjectError::MissingKind),
                Some(i) => match kind_of_word(header.subrange(0, i)) {
                    None => Err(ObjectError::UnknownKind),
                    Some(k) => match parse_u64_of(header.subrange(i + 1, z)) {
                        None => Err(ObjectError::BadSize),
                        Some(size) => if size != content.len() {
                            Err(ObjectError::SizeMismatch)
                        } else {
                            Ok((k, content))
                        },
                    },
                },
            }
        },
    }
}

/// The decimal form of a number is one or more digits that write it.
pub proof fn lemma_decimal_digits(n: nat)
    ensures
        all_digits(decimal_digits(n)),
        decimal_value(decimal_digits(n)) == n,
        1 <= decimal_digits(n).len(),
        decimal_digits(n)[0] != 0x2b,
    decreases n,
{
    if n >= 10 {
        lemma_decimal_digits(n / 10);
        let d = decimal_digits(n);
        assert(d.drop_last() =~= decimal_digits(n / 10));
        assert(d.last() == (0x30 + n % 10) as u8);
        assert(((0x30 + n % 10) as u8) as int == 0x30 + n % 10);
        assert(decimal_value(d) == (n / 10) * 10 + n % 10);
        assert forall|i: int| 0 <= i < d.len() implies 0x30 <= #[trigger] d[i] <= 0x39 by {
            if i < d.len() - 1 {
                assert(d[i] == decimal_digits(n / 10)[i]);
            }
        }
    } else {
        let d = decimal_digits(n);
        assert(d.drop_last() =~= Seq::<u8>::empty());
        assert(decimal_value(d.drop_last()) == 0);
        assert(d.last() == (0x30 + n) as u8);
        assert(((0x30 + n) as u8) as int == 0x30 + n);
        assert(decimal_value(d) == n);
    }
}

/// The digits of `n`, most significant first.
pub fn decimal(n: u64) -> (r: Vec<u8>)
    ensures
        r@ == decimal_digits(n as nat),
    decreases n,
{
    if n < 10 {
        let mut v = Vec::new();
        v.push(0x30 + n as u8);
        v
    } else {
        let mut v = decimal(n / 10);
        v.push(0x30 + (n % 10) as u8);
        v
    }
}

/// The word of a kind of object.
fn kind_bytes(k: ObjectKind) -> (r: Vec<u8>)
    ensures
        r@ == kind_word(k),
{
    let mut v = Vec::new();
    match k {
        ObjectKind::Commit => {
            v.push(0x63);
            v.push(0x6f);
            v.push(0x6d);
            v.push(0x6d);
            v.push(0x69);
            v.push(0x74);
        },
        ObjectKind::Tree => {
            v.push(0x74);
            v.push(0x72);
            v.push(0x65);
            v.push(0x65);
        },
        ObjectKind::Blob => {
            v.push(0x62);
            v.push(0x6c);
            v.push(0x6f);
            v.push(0x62);
        },
        ObjectKind::Tag => {
            v.push(0x74);
            v.push(0x61);
            v.push(0x67);
        },
    }
    assert(v@ =~= kind_word(k));
    v
}

/// The bytes of a stored object before compression: header and content.
pub fn encode_object(kind: ObjectKind, content: &[u8]) -> (r: Vec<u8>)
    ensures
        r@ == encoded_object(kind, content@),
{
    let mut out = kind_bytes(kind);
    out.push(0x20);
    let digits = decimal(content.len() as u64);
    out.extend_from_slice(digits.as_slice());
    out.push(0);
    out.extend_from_slice(content);
    assert(out@ =~= encoded_object(kind, content@));
    out
}

/// The name of an object: the SHA-1 of its encoded bytes, in hexadecimal.
pub fn object_name(kind: ObjectKind, content: &[u8]) -> (r: String)
    ensures
        r@ == hex_lower(sha1_of(encoded_object(kind, content@))),
{
    let encoded = encode_object(kind, content);
    let digest = sha1_digest(encoded.as_slice());
    hex_encode(digest.as_slice())
}

/// The kind that a header word names, if any.
fn kind_from_word(w: &[u8]) -> (r: Option<ObjectKind>)
    ensures
        r == kind_of_word(w@),
{
    let c = kind_bytes(ObjectKind::Commit);
    let t = kind_bytes(ObjectKind::Tree);
    let b = kind_bytes(ObjectKind::Blob);
    let g = kind_bytes(ObjectKind::Tag);
    if bytes_equal(w, c.as_slice()) {
        Some(ObjectKind::Commit)
    } else if bytes_equal(w, t.as_slice()) {
        Some(ObjectKind::Tree)
    } else if bytes_equal(w, b.as_slice()) {
        Some(ObjectKind::Blob)
    } else if bytes_equal(w, g.as_slice()) {
        Some(ObjectKind::Tag)
    } else {
        None
    }
}

/// Reads a stored object, once decompressed: its kind and its content.
pub fn decode_object(raw: &[u8]) -> (r: Result<(ObjectKind, Vec<u8>), ObjectError>)
    ensures
        decoded_object(raw@) == match r {
            Ok((k, v)) => Ok::<(ObjectKind, Seq<u8>), ObjectError>((k, v@)),
            Err(e) => Err::<(ObjectKind, Seq<u8>), ObjectError>(e),
        },
{
    let ghost s = raw@;
    let z = find_byte(raw, 0, 0);
    proof {
        lemma_first_index_of_at(s, 0, z as int);
    }
    if z == raw.len() {
        return Err(ObjectError::MissingNul);
    }
    let header = &raw[0..z];
    let sp = find_byte(header, 0, 0x20);
    proof {
        lemma_first_index_of_at(header@, 0x20, sp as int);
    }
    if sp == header.len() {
        return Err(ObjectError::MissingKind);
    }
    let kind = match kind_from_word(&header[0..sp]) {
        Some(k) => k,
        None => {
            return Err(ObjectError::UnknownKind);
        },
    };
    assert(header@.subrange(sp + 1, z as int) =~= header@.subrange(sp + 1, header@.len() as int));
    let size = match parse_u64(&header[sp + 1..z]) {
        Some(n) => n,
        None => {
            return Err(ObjectError::BadSize);
        },
    };
    let content = &raw[z + 1..raw.len()];
    if size != content.len() as u64 {
        return Err(ObjectError::SizeMismatch);
    }
    Ok((kind, vstd::slice::slice_to_vec(content)))
}

/// Law: reading back what `encode_object` wrote gives the kind and the
/// content that were written.
pub proof fn lemma_decode_encoded(k: ObjectKind, content: Seq<u8>)
    requires
        content.len() <= u64::MAX,
    ensures
        decoded_object(encoded_object(k, content)) == Ok::<(ObjectKind, Seq<u8>), ObjectError>((k, content)),
{
    let raw = encoded_object(k, content);
    let w = kind_word(k);
    let d = decimal_digits(content.len());
    lemma_decimal_digits(content.len());
    let z: int = (w.len() + 1 + d.len()) as int;
    assert forall|q: int| 0 <= q < z implies raw[q] != 0 by {
        if q < w.len() {
            assert(raw[q] == w[q]);
        } else if q > w.len() {
            assert(raw[q] == d[q - w.len() - 1]);
        }
    }
    assert(raw[z] == 0);
    lemma_first_index_of_at(raw, 0, z);
    let header = raw.subrange(0, z);
    assert forall|q: int| 0 <= q < w.len() implies header[q] != 0x20 by {
        assert(header[q] == w[q]);
    }
    lemma_first_index_of_at(header, 0x20, w.len() as int);
    assert(header.subrange(0, w.len() as int) =~= w);
    assert(header.subrange(w.len() as int + 1, z) =~= d);
    assert(raw.subrange(z + 1, raw.len() as int) =~= content);
}


/// Law: the decimal form of a 64-bit number parses back to the number.
pub proof fn lemma_parse_decimal(n: u64)
    ensures
        parse_u64_of(decimal_digits(n as nat)) == Some(n),
{
    lemma_decimal_digits(n as nat);
}

/// An entry of a tree object: its mode, its file name and the name (20
/// bytes) of the object it points to.
#[derive(Debug, PartialEq, Eq)]
pub struct TreeEntry {
    pub mode: Vec<u8>,
    pub name: Vec<u8>,
    pub hash: Vec<u8>,
}

/// A tree entry as a value.
pub struct TreeEntryView {
    pub mode: Seq<u8>,
    pub name: Seq<u8>,
    pub hash: Seq<u8>,
}

impl View for TreeEntry {
    type V = TreeEntryView;

    open spec fn view(&self) -> TreeEntryView {
        TreeEntryView { mode: self.mode@, name: self.name@, hash: self.hash@ }
    }
}

impl TreeEntry {
    /// The name of the object the entry points to, in hexadecimal.
    pub fn hash_hex(&self) -> (r: String)
        ensures
            r@ == hex_lower(self.hash@),
    {
        hex_encode(self.hash.as_slice())
    }
}

/// The values of a list of tree entries.
pub open spec fn entries_of(v: Seq<TreeEntry>) -> Seq<TreeEntryView> {
    v.map_values(|e: TreeEntry| e@)
}

/// The entries of a tree object from `q` on: each is a mode, a space, a
/// file name, a NUL and a 20-byte object name. `None` where an entry is cut
/// short.
pub open spec fn tree_entries_from(c: Seq<u8>, q: int) -> Option<Seq<TreeEntryView>>
    decreases c.len() - q,
{
    if q < 0 || q >= c.len() {
        Some(Seq::empty())
    } else {
        let rest = c.subrange(q, c.len() as int);
        match first_index_of(rest, 0x20) {
            None => None,
            Some(i) => {
                let after = c.subrange(q + i + 1, c.len() as int);
                match first_index_of(after, 0) {
                    None => None,
                    Some(j) => {
                        let h = q + i + 1 + j + 1;
                        if h + 20 > c.len() {
                            None
                        } else {
                            proof {
                                lemma_first_index_of_range(rest, 0x20);
                                lemma_first_index_of_range(after, 0);
                            }
                            match tree_entries_from(c, h + 20) {
                                None => None,
                                Some(es) => Some(seq![TreeEntryView {
                                    mode: c.subrange(q, q + i),
                                    name: c.subrange(q + i + 1, q + i + 1 + j),
                                    hash: c.subrange(h, h + 20),
                                }] + es),
                            }
                        }
                    },
                }
            },
        }
    }
}

/// The first `b` at or after `from` in `s`, as `first_index_of` sees the
/// rest of `s`.
proof fn lemma_index_from(s: Seq<u8>, from: int, r: int, b: u8)
    requires
        0 <= from <= r <= s.len(),
        forall|k: int| from <= k < r ==> s[k] != b,
        r < s.len() ==> s[r] == b,
    ensures
        first_index_of(s.subrange(from, s.len() as int), b) == if r < s.len() { Some(r - from) } else { None::<int> },
{
    let t = s.subrange(from, s.len() as int);
    assert forall|k: int| 0 <= k < r - from implies t[k] != b by {
        assert(t[k] == s[k + from]);
    }
    lemma_first_index_of_at(t, b, r - from);
}

/// Reads the entries of a tree object.
pub fn parse_tree(content: &[u8]) -> (r: Result<Vec<TreeEntry>, ObjectError>)
    ensures
        match r {
            Ok(v) => tree_entries_from(content@, 0) == Some(entries_of(v@)),
            Err(e) => tree_entries_from(content@, 0) is None && e == ObjectError::BadTree,
        },
{
    let ghost c = content@;
    let n = content.len();
    let mut out: Vec<TreeEntry> = Vec::new();
    let mut q: usize = 0;
    assert(entries_of(out@) =~= Seq::<TreeEntryView>::empty());
    while q < n
        invariant
            c == content@,
            n == c.len(),
            q <= n,
            tree_entries_from(c, 0) == match tree_entries_from(c, q as int) {
                Some(rest) => Some(entries_of(out@) + rest),
                None => None::<Seq<TreeEntryView>>,
            },
        decreases n - q,
    {
        let sp = find_byte(content, q, 0x20);
        proof {
            lemma_index_from(c, q as int, sp as int, 0x20);
        }
        if sp == n {
            return Err(ObjectError::BadTree);
        }
        let nul = find_byte(content, sp + 1, 0);
        proof {
            lemma_index_from(c, sp + 1, nul as int, 0);
        }
        if nul == n || n - (nul + 1) < 20 {
            return Err(ObjectError::BadTree);
        }
        let h = nul + 1;
        let entry = TreeEntry {
            mode: vstd::slice::slice_to_vec(&content[q..sp]),
            name: vstd::slice::slice_to_vec(&content[sp + 1..nul]),
            hash: vstd::slice::slice_to_vec(&content[h..h + 20]),
        };
        let ghost before = entries_of(out@);
        let ghost ev = entry@;
        out.push(entry);
        proof {
            assert(entries_of(out@) =~= before.push(ev));
            match tree_entries_from(c, h + 20) {
                Some(rest) => {
                    assert(before + (seq![ev] + rest) =~= entries_of(out@) + rest);
                },
                None => {},
            }
        }
        q = h + 20;
    }
    assert(entries_of(out@) + Seq::<TreeEntryView>::empty() =~= entries_of(out@));
    Ok(out)
}

/// The bytes of `tree `.
pub open spec fn tree_prefix() -> Seq<u8> {
    seq![0x74u8, 0x72, 0x65, 0x65, 0x20]
}

/// The tree a commit points to: the rest of its first line, which must
/// start with `tree ` and end with a newline.
pub open spec fn commit_tree_of(c: Seq<u8>) -> Option<Seq<u8>> {
    match first_index_of(c, 0x0a) {
        None => None,
        Some(e) => if e >= 5 && c.subrange(0, 5) == tree_prefix() {
            Some(c.subrange(5, e))
        } else {
            None
        },
    }
}

/// Reads the name of the tree a commit points to, from its first line.
pub fn commit_tree(content: &[u8]) -> (r: Result<Vec<u8>, ObjectError>)
    ensures
        match r {
            Ok(v) => commit_tree_of(content@) == Some(v@),
            Err(e) => commit_tree_of(content@) is None && e == ObjectError::BadCommit,
        },
{
    let ghost c = content@;
    let e = find_byte(content, 0, 0x0a);
    proof {
        lemma_index_from(c, 0, e as int, 0x0a);
        assert(c.subrange(0, c.len() as int) =~= c);
    }
    if e == content.len() || e < 5 {
        return Err(ObjectError::BadCommit);
    }
    let starts = content[0] == 0x74 && content[1] == 0x72 && content[2] == 0x65 && content[3] == 0x65 && content[4] == 0x20;
    proof {
        assert(starts == (c.subrange(0, 5) =~= tree_prefix()));
    }
    if !starts {
        return Err(ObjectError::BadCommit);
    }
    Ok(vstd::slice::slice_to_vec(&content[5..e]))
}


/// The compression level that objects are stored at (zlib's default).
pub const STORE_LEVEL: u32 = 6;

/// An object as it is stored on disk: its encoded bytes, compressed;
/// `None` where the compressor reports an error.
pub fn stored_object(kind: ObjectKind, content: &[u8]) -> (r: Option<Vec<u8>>)
    ensures
        zlib_deflate(encoded_object(kind, content@), STORE_LEVEL) == match r {
            Some(v) => Some(v@),
            None => None::<Seq<u8>>,
        },
{
    let encoded = encode_object(kind, content);
    deflate(encoded.as_slice(), STORE_LEVEL)
}

/// What a stored object holds: its bytes decompressed, then read as
/// `decoded_object` reads them.
pub open spec fn read_stored_of(stored: Seq<u8>) -> Result<(ObjectKind, Seq<u8>), ObjectError> {
    match zlib_inflate(stored) {
        None => Err(ObjectError::Corrupt),
        Some((raw, _, _)) => decoded_object(raw),
    }
}

/// Reads an object as it is stored on disk: decompresses it and returns
/// its kind and content.
pub fn read_stored_object(stored: &[u8]) -> (r: Result<(ObjectKind, Vec<u8>), ObjectError>)
    ensures
        read_stored_of(stored@) == match r {
            Ok((k, v)) => Ok::<(ObjectKind, Seq<u8>), ObjectError>((k, v@)),
            Err(e) => Err::<(ObjectKind, Seq<u8>), ObjectError>(e),
        },
{
    match inflate(stored) {
        None => Err(ObjectError::Corrupt),
        Some((raw, _, _)) => decode_object(raw.as_slice()),
    }
}


/// What an object holds, by kind: the entries of a tree, the bytes of a
/// blob, the tree a commit points to, or nothing more for a tag.
#[derive(Debug, PartialEq, Eq)]
pub enum ObjectContent {
    Tree { entries: Vec<TreeEntry> },
    Blob { blob_content: Vec<u8> },
    Commit { tree_sha: Vec<u8> },
    Tag,
}

/// What an object holds, as a value.
pub enum ContentView {
    Tree { entries: Seq<TreeEntryView> },
    Blob { blob_content: Seq<u8> },
    Commit { tree_sha: Seq<u8> },
    Tag,
}

impl View for ObjectContent {
    type V = ContentView;

    open spec fn view(&self) -> ContentView {
        match self {
            ObjectContent::Tree { entries } => ContentView::Tree { entries: entries_of(entries@) },
            ObjectContent::Blob { blob_content } => ContentView::Blob { blob_content: blob_content@ },
            ObjectContent::Commit { tree_sha } => ContentView::Commit { tree_sha: tree_sha@ },
            ObjectContent::Tag => ContentView::Tag,
        }
    }
}

/// What an object of kind `kind` with content `content` holds.
pub open spec fn object_content_of(kind: ObjectKind, content: Seq<u8>) -> Result<ContentView, ObjectError> {
    match kind {
        ObjectKind::Tree => match tree_entries_from(content, 0) {
            Some(es) => Ok(ContentView::Tree { entries: es }),
            None => Err(ObjectError::BadTree),
        },
        ObjectKind::Blob => Ok(ContentView::Blob { blob_content: content }),
        ObjectKind::Commit => match commit_tree_of(content) {
            Some(t) => Ok(ContentView::Commit { tree_sha: t }),
            None => Err(ObjectError::BadCommit),
        },
        ObjectKind::Tag => Ok(ContentView::Tag),
    }
}

/// Reads what an object holds, by its kind.
pub fn object_content(kind: ObjectKind, content: Vec<u8>) -> (r: Result<ObjectContent, ObjectError>)
    ensures
        object_content_of(kind, content@) == match r {
            Ok(c) => Ok::<ContentView, ObjectError>(c@),
            Err(e) => Err::<ContentView, ObjectError>(e),
        },
{
    match kind {
        ObjectKind::Tree => match parse_tree(content.as_slice()) {
            Ok(entries) => Ok(ObjectContent::Tree { entries }),
            Err(e) => Err(e),
        },
        ObjectKind::Blob => Ok(ObjectContent::Blob { blob_content: content }),
        ObjectKind::Commit => match commit_tree(content.as_slice()) {
            Ok(tree_sha) => Ok(ObjectContent::Commit { tree_sha }),
            Err(e) => Err(e),
        },
        ObjectKind::Tag => Ok(ObjectContent::Tag),
    }
}

/// Law: the header of a stored object names its kind with git's word for
/// it, followed by a space: `commit `, `tree `, `blob ` or `tag `.
pub proof fn lemma_encoded_header_words(content: Seq<u8>)
    ensures
        encoded_object(ObjectKind::Commit, content).subrange(0, 7) == seq![0x63u8, 0x6f, 0x6d, 0x6d, 0x69, 0x74, 0x20],
        encoded_object(ObjectKind::Tree, content).subrange(0, 5) == seq![0x74u8, 0x72, 0x65, 0x65, 0x20],
        encoded_object(ObjectKind::Blob, content).subrange(0, 5) == seq![0x62u8, 0x6c, 0x6f, 0x62, 0x20],
        encoded_object(ObjectKind::Tag, content).subrange(0, 4) == seq![0x74u8, 0x61, 0x67, 0x20],
{
    assert(encoded_object(ObjectKind::Commit, content).subrange(0, 7) =~= seq![0x63u8, 0x6f, 0x6d, 0x6d, 0x69, 0x74, 0x20]);
    assert(encoded_object(ObjectKind::Tree, content).subrange(0, 5) =~= seq![0x74u8, 0x72, 0x65, 0x65, 0x20]);
    assert(encoded_object(ObjectKind::Blob, content).subrange(0, 5) =~= seq![0x62u8, 0x6c, 0x6f, 0x62, 0x20]);
    assert(encoded_object(ObjectKind::Tag, content).subrange(0, 4) =~= seq![0x74u8, 0x61, 0x67, 0x20]);
}

/// Law: a stored object is read as the kind whose git word, followed by a
/// space, begins its header: `commit `, `tree `, `blob ` or `tag `.
pub proof fn lemma_decoded_kind_words(raw: Seq<u8>)
    ensures
        decoded_object(raw) matches Ok((k, _)) ==> match k {
            ObjectKind::Commit => raw.subrange(0, 7) == seq![0x63u8, 0x6f, 0x6d, 0x6d, 0x69, 0x74, 0x20],
            ObjectKind::Tree => raw.subrange(0, 5) == seq![0x74u8, 0x72, 0x65, 0x65, 0x20],
            ObjectKind::Blob => raw.subrange(0, 5) == seq![0x62u8, 0x6c, 0x6f, 0x62, 0x20],
            ObjectKind::Tag => raw.subrange(0, 4) == seq![0x74u8, 0x61, 0x67, 0x20],
        },
{
    if let Ok((k, _)) = decoded_object(raw) {
        lemma_first_index_of_range(raw, 0);
        let z = first_index_of(raw, 0).unwrap();
        let header = raw.subrange(0, z);
        lemma_first_index_of_range(header, 0x20);
        let i = first_index_of(header, 0x20).unwrap();
        let w = header.subrange(0, i);
        assert(w == kind_word(k));
        assert(raw.subrange(0, i + 1) =~= w + seq![0x20u8]);
        assert(raw.subrange(0, i + 1) =~= kind_word(k) + seq![0x20u8]);
    }
}

/// The entries read behind `pre` are those of the bytes after `pre`.
proof fn lemma_tree_entries_shift(pre: Seq<u8>, d: Seq<u8>, k: int)
    requires
        0 <= k,
    ensures
        tree_entries_from(pre + d, pre.len() + k) == tree_entries_from(d, k),
    decreases d.len() - k,
{
    if k < d.len() {
        let c = pre + d;
        let p = pre.len() as int;
        let rest = d.subrange(k, d.len() as int);
        assert(c.subrange(p + k, c.len() as int) =~= rest);
        lemma_first_index_of_range(rest, 0x20);
        if let Some(i) = first_index_of(rest, 0x20) {
            let after = d.subrange(k + i + 1, d.len() as int);
            assert(c.subrange(p + k + i + 1, c.len() as int) =~= after);
            lemma_first_index_of_range(after, 0);
            if let Some(j) = first_index_of(after, 0) {
                let h = k + i + 1 + j + 1;
                if h + 20 <= d.len() {
                    lemma_tree_entries_shift(pre, d, h + 20);
                    assert(c.subrange(p + k, p + k + i) =~= d.subrange(k, k + i));
                    assert(c.subrange(p + k + i + 1, p + k + i + 1 + j) =~= d.subrange(k + i + 1, k + i + 1 + j));
                    assert(c.subrange(p + h, p + h + 20) =~= d.subrange(h, h + 20));
                }
            }
        }
    }
}

/// Law: a tree entry's mode runs up to the entry's first space, and its
/// name from there up to the NUL, spaces included, followed by the 20 bytes
/// of the object's name; the entries after it are read on from there.
pub proof fn lemma_tree_entry_fields(mode: Seq<u8>, name: Seq<u8>, hash: Seq<u8>, rest: Seq<u8>)
    requires
        forall|i: int| 0 <= i < mode.len() ==> mode[i] != 0x20,
        forall|i: int| 0 <= i < name.len() ==> name[i] != 0,
        hash.len() == 20,
        tree_entries_from(rest, 0) is Some,
    ensures
        tree_entries_from(mode + seq![0x20u8] + name + seq![0u8] + hash + rest, 0)
            == Some(seq![TreeEntryView { mode, name, hash }] + tree_entries_from(rest, 0).unwrap()),
{
    let pre = mode + seq![0x20u8] + name + seq![0u8] + hash;
    let c = pre + rest;
    let m = mode.len() as int;
    let n = name.len() as int;
    assert(c.subrange(0, c.len() as int) =~= c);
    assert forall|k: int| 0 <= k < m implies c[k] != 0x20 by {
        assert(c[k] == mode[k]);
    }
    assert(c[m] == 0x20);
    lemma_first_index_of_at(c, 0x20, m);
    let after = c.subrange(m + 1, c.len() as int);
    assert forall|k: int| 0 <= k < n implies after[k] != 0 by {
        assert(after[k] == name[k]);
    }
    assert(after[n] == 0);
    lemma_first_index_of_at(after, 0, n);
    let h = m + 1 + n + 1;
    lemma_tree_entries_shift(pre, rest, 0);
    assert(pre.len() == h + 20);
    assert(c.subrange(0, m) =~= mode);
    assert(c.subrange(m + 1, m + 1 + n) =~= name);
    assert(c.subrange(h, h + 20) =~= hash);
}

/// Law: a commit whose first line is `tree `, a name without newlines and
/// a newline points to that name, whatever follows.
pub proof fn lemma_commit_tree_line(t: Seq<u8>, rest: Seq<u8>)
    requires
        forall|i: int| 0 <= i < t.len() ==> t[i] != 0x0a,
    ensures
        commit_tree_of(seq![0x74u8, 0x72, 0x65, 0x65, 0x20] + t + seq![0x0au8] + rest) == Some(t),
{
    let c = seq![0x74u8, 0x72, 0x65, 0x65, 0x20] + t + seq![0x0au8] + rest;
    let e = 5 + t.len() as int;
    assert forall|k: int| 0 <= k < e implies c[k] != 0x0a by {
        if k >= 5 {
            assert(c[k] == t[k - 5]);
        }
    }
    assert(c[e] == 0x0a);
    lemma_first_index_of_at(c, 0x0a, e);
    assert(c.subrange(0, 5) =~= tree_prefix());
    assert(c.subrange(5, e) =~= t);
}

} // verus!

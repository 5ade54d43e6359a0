use vstd::prelude::*;
use vstd::arithmetic::power2::{pow2, lemma_pow2_adds, lemma_pow2_strictly_increases, lemma2_to64};
use vstd::arithmetic::div_mod::lemma_small_mod;
use crate::varint::{
    group_end, le_base128, two64, lemma_group_end_range, lemma_group_end_skip,
    lemma_le_base128_bound, lemma_le_base128_push, lemma_or_shifted, ofs_offset_at, read_ofs_offset,
    delta_size_at,
};
use crate::delta::{resolve_delta, try_resolve_delta};
use crate::hashing::{hex_encode, hex_lower, sha1_digest, sha1_of, lemma_hex_lower_injective};
use crate::zlib::{inflate, zlib_inflate};

verus! {

/// The kind of an entry in a pack, as coded in bits 4..6 of its first byte.
#[derive(Debug, Clone, Copy, PartialEq, Eq, Structural)]
pub enum PackObject {
    Commit,
    Tree,
    Blob,
    Tag,
    OfsDelta,
    RefDelta,
}

/// Errors that reading a pack can end in.
#[derive(Debug, Clone, Copy, PartialEq, Eq, Structural)]
pub enum PackError {
    /// The type code of an entry is none of the six that packs use.
    NotAPackObject,
    /// The last 20 bytes are not the SHA-1 of what precedes them.
    ChecksumMismatch,
    /// The pack does not start with `PACK`.
    BadSignature,
    /// The pack's version is not 2.
    BadVersion,
    /// An entry's data cannot be decoded as a zlib stream.
    Inflate,
    /// An entry's data inflates to another size than its header gives.
    SizeMismatch,
    /// Fewer than 20 bytes remain for the base name of a delta.
    ShortBaseRef,
    /// A delta names another base size than its base has.
    BaseSizeMismatch,
    /// A delta builds another size than it names.
    TargetSizeMismatch,
    /// The pack holds another number of entries than its header gives.
    CountMismatch,
    /// A step was handed an event that does not fit the parse's state.
    UnexpectedEvent,
}

/// The entry kind that a type code stands for, if any.
pub open spec fn pack_object_of_code(b: u8) -> Option<PackObject> {
    if b == 1 {
        Some(PackObject::Commit)
    } else if b == 2 {
        Some(PackObject::Tree)
    } else if b == 3 {
        Some(PackObject::Blob)
    } else if b == 4 {
        Some(PackObject::Tag)
    } else if b == 6 {
        Some(PackObject::OfsDelta)
    } else if b == 7 {
        Some(PackObject::RefDelta)
    } else {
        None
    }
}

impl PackObject {
    /// Decodes a type code: 1 to 4 are the four object kinds, 6 and 7 the two
    /// delta kinds; every other value is refused.
    pub fn from(b: u8) -> (r: Result<Self, PackError>)
        ensures
            match pack_object_of_code(b) {
                Some(k) => r == Ok::<PackObject, PackError>(k),
                None => r == Err::<PackObject, PackError>(PackError::NotAPackObject),
            },
    {
        match b {
            1 => Ok(Self::Commit),
            2 => Ok(Self::Tree),
            3 => Ok(Self::Blob),
            4 => Ok(Self::Tag),
            6 => Ok(Self::OfsDelta),
            7 => Ok(Self::RefDelta),
            _ => Err(PackError::NotAPackObject),
        }
    }
}


/// The entry header at `pos`: its kind and its size, and the position the
/// read of it stops at. Bits 4..6 of the first byte give the kind, its low
/// four bits the low bits of the size; while a byte has its high bit set
/// another byte follows, each adding seven more bits of size above those
/// already read. The size is kept modulo 2^64. An unknown kind is an error
/// once the first byte is read, so the read stops right after it. `None`
/// where the header runs off the end of the content or needs a tenth size
/// byte, whose shift would leave the 64 bits.
pub open spec fn entry_header_at(c: Seq<u8>, pos: int) -> Option<(Result<(PackObject, u64), PackError>, int)> {
    if pos < 0 || pos >= c.len() {
        None
    } else {
        let lead = c[pos];
        match pack_object_of_code((lead / 16 % 8) as u8) {
            None => Some((Err(PackError::NotAPackObject), pos + 1)),
            Some(kind) => if lead < 128 {
                Some((Ok((kind, (lead % 16) as u64)), pos + 1))
            } else {
                match group_end(c, pos + 1) {
                    Some(e) => if e - (pos + 1) <= 9 {
                        Some((Ok((kind, (((lead % 16) as nat + 16 * le_base128(c.subrange(pos + 1, e))) % two64()) as u64)), e))
                    } else {
                        None
                    },
                    None => None,
                }
            },
        }
    }
}

/// The value of what reading an entry header gives.
pub open spec fn header_read_view(r: (Result<(PackObject, u64), PackError>, usize)) -> (Result<(PackObject, u64), PackError>, int) {
    (r.0, r.1 as int)
}

/// Reads the header of the entry at `pos`: its kind and its size, and the
/// position the read stops at (where the entry's data starts, or right
/// after the first byte where the kind is unknown); `None` where the header
/// runs off the end or is too long for a 64-bit size.
pub fn read_entry_header(content: &[u8], pos: usize) -> (r: Option<(Result<(PackObject, u64), PackError>, usize)>)
    ensures
        entry_header_at(content@, pos as int) == match r {
            Some(h) => Some(header_read_view(h)),
            None => None,
        },
{
    let ghost c = content@;
    if pos >= content.len() {
        return None;
    }
    let lead = content[pos];
    let code = (lead & 0b0111_0000) >> 4;
    proof {
        assert((lead & 0b0111_0000) >> 4 == lead / 16 % 8) by (bit_vector);
    }
    let obj_type = match PackObject::from(code) {
        Ok(k) => k,
        Err(e) => {
            return Some((Err(e), pos + 1));
        },
    };
    let lo: u64 = (lead & 0b0000_1111) as u64;
    proof {
        assert(lead & 0b0000_1111 == lead % 16) by (bit_vector);
        assert((lead >> 7) & 1 == 0 <==> lead < 128) by (bit_vector);
    }
    if (lead >> 7) & 1 == 0 {
        return Some((Ok((obj_type, lo)), pos + 1));
    }
    let start: usize = pos + 1;
    let mut size: u64 = lo;
    let mut step: usize = 0;
    loop
        invariant
            c == content@,
            c.len() == content.len(),
            start == pos + 1,
            pos < c.len(),
            lead == c[pos as int],
            lead >= 128,
            pack_object_of_code((lead / 16 % 8) as u8) == Some(obj_type),
            lo == lead % 16,
            start + step <= c.len(),
            step <= 9,
            forall|j: int| start <= j < start + step ==> c[j] >= 128,
            step <= 8 ==> size as nat == lo as nat + 16 * le_base128(c.subrange(start as int, start + step)),
        decreases 9 - step,
    {
        if step >= 9 || start + step >= content.len() {
            proof {
                lemma_group_end_skip(c, start as int, start + step);
                lemma_group_end_range(c, start as int);
            }
            return None;
        }
        let byte = content[start + step];
        let digit: u64 = (byte & 0x7f) as u64;
        let shift: u64 = (7 * step + 4) as u64;
        proof {
            assert(byte & 0x7f == byte % 128) by (bit_vector);
            let prefix = c.subrange(start as int, start + step);
            lemma_le_base128_bound(prefix);
            lemma_pow2_adds((7 * step) as nat, 4);
            lemma2_to64();
            let w = pow2((7 * step) as nat) as int;
            let l = le_base128(prefix) as int;
            assert(lo + 16 * l < 16 * w) by (nonlinear_arith)
                requires
                    0 <= lo < 16,
                    0 <= l < w,
            ;
            lemma_or_shifted(size, digit, shift);
            lemma_le_base128_push(c, start as int, start + step);
            assert(lo + 16 * (l + digit * w) == lo + 16 * l + digit * (16 * w)) by (nonlinear_arith);
        }
        size = size | (digit << shift);
        assert(size as nat == (lo as nat + 16 * le_base128(c.subrange(start as int, start + step + 1))) % two64());
        if (byte >> 7) & 1 == 0 {
            proof {
                assert((byte >> 7) & 1 == 0 ==> byte < 128) by (bit_vector);
                lemma_group_end_skip(c, start as int, start + step);
            }
            return Some((Ok((obj_type, size)), start + step + 1));
        }
        proof {
            assert((byte >> 7) & 1 != 0 ==> byte >= 128) by (bit_vector);
            if step + 1 <= 8 {
                let next = c.subrange(start as int, start + step + 1);
                lemma_le_base128_bound(next);
                lemma_pow2_adds((7 * (step + 1)) as nat, 4);
                lemma_pow2_strictly_increases((7 * (step + 1) + 4) as nat, 64);
                let w = pow2((7 * (step + 1)) as nat) as int;
                let l = le_base128(next) as int;
                assert(lo + 16 * l < 16 * w) by (nonlinear_arith)
                    requires
                        0 <= lo < 16,
                        0 <= l < w,
                ;
                lemma_small_mod((lo as nat + 16 * le_base128(next)) as nat, two64());
            }
        }
        step = step + 1;
    }
}

/// Reads the header of the entry at `pos`: its kind and its size, and the
/// position the read stops at.
pub fn get_obj_type_and_size(content: &[u8], pos: usize) -> (r: (Result<(PackObject, u64), PackError>, usize))
    requires
        entry_header_at(content@, pos as int) is Some,
    ensures
        entry_header_at(content@, pos as int) == Some(header_read_view(r)),
{
    match read_entry_header(content, pos) {
        Some(r) => r,
        None => {
            proof {
                assert(false);
            }
            (Err(PackError::NotAPackObject), pos)
        },
    }
}


/// The kind of a stored git object.
#[derive(Debug, Clone, Copy, PartialEq, Eq, Structural)]
pub enum ObjectKind {
    Commit,
    Tree,
    Blob,
    Tag,
}

/// The object kind that an entry of one of the four object kinds holds.
pub open spec fn object_kind_of(k: PackObject) -> ObjectKind {
    match k {
        PackObject::Commit => ObjectKind::Commit,
        PackObject::Tree => ObjectKind::Tree,
        PackObject::Blob => ObjectKind::Blob,
        _ => ObjectKind::Tag,
    }
}

/// The header of a pack: its signature, its version and the number of
/// entries it announces.
#[derive(Debug)]
pub struct PackHeader {
    signature: String,
    version: u8,
    obj_count: u32,
}

/// A pack header as a value.
pub struct HeaderView {
    pub signature: Seq<char>,
    pub version: u8,
    pub obj_count: u32,
}

impl View for PackHeader {
    type V = HeaderView;

    closed spec fn view(&self) -> HeaderView {
        HeaderView { signature: self.signature@, version: self.version, obj_count: self.obj_count }
    }
}

impl Default for PackHeader {
    fn default() -> (r: Self)
        ensures
            r@ == (HeaderView { signature: Seq::empty(), version: 0, obj_count: 0 }),
    {
        PackHeader { signature: String::new(), version: 0, obj_count: 0 }
    }
}

/// Where a parse stands: before a header, among the entries, or waiting
/// for the base object of a delta whose inflated size the header gave.
#[derive(Debug, Clone, Copy, PartialEq, Eq, Structural)]
pub enum ParseStage {
    Header,
    Entries,
    AwaitingBase { size: u64 },
}

/// What the caller of a parse step hands in: a request for the next step,
/// or the base object that the last step asked for.
#[derive(Debug, PartialEq, Eq)]
pub enum ParseEvent {
    Next,
    Base { kind: ObjectKind, content: Vec<u8> },
}

/// What a parse step asks of its caller: nothing, storing an object, finding
/// the object with the given (hexadecimal) name, or nothing more at all.
#[derive(Debug, PartialEq, Eq)]
pub enum ParseAction {
    Continue,
    Store { kind: ObjectKind, content: Vec<u8> },
    FindBase { base_ref: String },
    Done,
}

/// A parse event as a value.
pub enum EventView {
    Next,
    Base { kind: ObjectKind, content: Seq<u8> },
}

/// A parse action as a value.
pub enum ActionView {
    Continue,
    Store { kind: ObjectKind, content: Seq<u8> },
    FindBase { base_ref: Seq<char> },
    Done,
}

impl View for ParseEvent {
    type V = EventView;

    open spec fn view(&self) -> EventView {
        match self {
            ParseEvent::Next => EventView::Next,
            ParseEvent::Base { kind, content } => EventView::Base { kind: *kind, content: content@ },
        }
    }
}

impl View for ParseAction {
    type V = ActionView;

    open spec fn view(&self) -> ActionView {
        match self {
            ParseAction::Continue => ActionView::Continue,
            ParseAction::Store { kind, content } => ActionView::Store { kind: *kind, content: content@ },
            ParseAction::FindBase { base_ref } => ActionView::FindBase { base_ref: base_ref@ },
            ParseAction::Done => ActionView::Done,
        }
    }
}

/// The state of a parse, apart from the content.
#[derive(Debug)]
struct ParseState {
    header: PackHeader,
    pos: usize,
    parsed: u32,
    stage: ParseStage,
}

/// The state of a parse as a value.
pub struct StateView {
    pub signature: Seq<char>,
    pub version: u8,
    pub obj_count: u32,
    pub pos: int,
    pub parsed: u32,
    pub stage: ParseStage,
}

impl View for ParseState {
    type V = StateView;

    closed spec fn view(&self) -> StateView {
        StateView {
            signature: self.header@.signature,
            version: self.header@.version,
            obj_count: self.header@.obj_count,
            pos: self.pos as int,
            parsed: self.parsed,
            stage: self.stage,
        }
    }
}

/// A pack being parsed: its content without the trailing checksum, and how
/// far the parse has come.
#[derive(Debug)]
pub struct PackFile {
    content: Vec<u8>,
    state: ParseState,
}

/// A pack as a value.
pub struct PackView {
    pub content: Seq<u8>,
    pub state: StateView,
}

impl View for PackFile {
    type V = PackView;

    closed spec fn view(&self) -> PackView {
        PackView { content: self.content@, state: self.state@ }
    }
}

impl PackFile {
    /// The parse never stands past the end of the content.
    #[verifier::type_invariant]
    closed spec fn position_inside(&self) -> bool {
        self.state.pos <= self.content@.len()
    }
}

/// The big-endian 32-bit number in the four bytes at `p`.
pub open spec fn be_u32_at(c: Seq<u8>, p: int) -> u32 {
    (c[p] * 0x1000000 + c[p + 1] * 0x10000 + c[p + 2] * 0x100 + c[p + 3]) as u32
}

/// Whether the trailing 20 bytes of `data`, written in hexadecimal, are
/// the SHA-1 of the bytes before them, written in hexadecimal.
pub open spec fn checksum_matches(data: Seq<u8>) -> bool {
    let n = data.len() as int;
    hex_lower(sha1_of(data.subrange(0, n - 20))) == hex_lower(data.subrange(n - 20, n))
}

/// What accepting `data` as a pack gives: where its checksum matches, the
/// pack of the bytes before the checksum, not yet parsed; otherwise a
/// checksum mismatch.
pub open spec fn new_pack_of(data: Seq<u8>) -> Result<PackView, PackError> {
    if checksum_matches(data) {
        Ok(PackView { content: data.subrange(0, data.len() - 20), state: initial_state() })
    } else {
        Err(PackError::ChecksumMismatch)
    }
}

/// The value of an accepted pack, or the error.
pub open spec fn pack_result_view(r: Result<PackFile, PackError>) -> Result<PackView, PackError> {
    match r {
        Ok(pack) => Ok(pack@),
        Err(e) => Err(e),
    }
}

/// The state of a parse that has not begun.
pub open spec fn initial_state() -> StateView {
    StateView {
        signature: Seq::empty(),
        version: 0,
        obj_count: 0,
        pos: 0,
        parsed: 0,
        stage: ParseStage::Header,
    }
}

/// The state after a step that changed nothing but the position, the count
/// and the stage.
pub open spec fn moved(s: StateView, pos: int, parsed: u32, stage: ParseStage) -> StateView {
    StateView { pos, parsed, stage, ..s }
}

/// The state after a parse has ended, in an error or done, with the read
/// stopped at `pos`: the header read so far is kept, the count of entries
/// is gone, and a new parse starts with a header at `pos`.
pub open spec fn restarted(s: StateView, pos: int) -> StateView {
    StateView { pos, parsed: 0, stage: ParseStage::Header, ..s }
}

/// The step that reads the header: the signature `PACK`, the version 2
/// and the number of entries, each in four bytes, big-endian; all twelve
/// bytes are read before any is checked. `None` where fewer than twelve
/// bytes remain.
pub open spec fn header_step(c: Seq<u8>, s: StateView) -> Option<(Result<ActionView, PackError>, StateView)> {
    let p = s.pos;
    if c.len() - p < 12 {
        None
    } else if !(c[p] == 0x50 && c[p + 1] == 0x41 && c[p + 2] == 0x43 && c[p + 3] == 0x4b) {
        Some((Err(PackError::BadSignature), restarted(s, p + 12)))
    } else if be_u32_at(c, p + 4) != 2 {
        Some((Err(PackError::BadVersion), restarted(s, p + 12)))
    } else {
        Some((Ok(ActionView::Continue), StateView {
            signature: seq!['P', 'A', 'C', 'K'],
            version: 2,
            obj_count: be_u32_at(c, p + 8),
            pos: p + 12,
            parsed: s.parsed,
            stage: ParseStage::Entries,
        }))
    }
}

/// The step at an entry of one of the four object kinds whose data starts
/// at `p`: its data inflates to the size its header gives (the decoder's
/// count of produced bytes, which is the length of what it produced), the
/// parse moves past the compressed data, and the object is to be stored.
/// Where the data fails, the read stops at `p`.
pub open spec fn object_step(c: Seq<u8>, s: StateView, kind: PackObject, size: u64, p: int) -> Option<(Result<ActionView, PackError>, StateView)> {
    match zlib_inflate(c.subrange(p, c.len() as int)) {
        None => Some((Err(PackError::Inflate), restarted(s, p))),
        Some((out, consumed, _)) => if out.len() != size {
            Some((Err(PackError::SizeMismatch), restarted(s, p)))
        } else if s.parsed == u32::MAX {
            None
        } else {
            Some((Ok(ActionView::Store { kind: object_kind_of(kind), content: out }),
                moved(s, p + consumed, (s.parsed + 1) as u32, s.stage)))
        },
    }
}

/// The step at an offset delta whose offset starts at `p`: the object at
/// that distance back from the end of the offset must inflate; the delta
/// itself is counted and nothing else is done with it, the parse going on
/// right after the offset. Where that object does not inflate, the read
/// stops at its start. `None` where the offset runs off the end or
/// reaches back before the start of the content.
pub open spec fn ofs_delta_step(c: Seq<u8>, s: StateView, p: int) -> Option<(Result<ActionView, PackError>, StateView)> {
    match ofs_offset_at(c, p) {
        None => None,
        Some((offset, e)) => if offset > e {
            None
        } else {
            match zlib_inflate(c.subrange(e - offset, c.len() as int)) {
                None => Some((Err(PackError::Inflate), restarted(s, e - offset))),
                Some(_) => if s.parsed == u32::MAX {
                    None
                } else {
                    Some((Ok(ActionView::Continue), moved(s, e, (s.parsed + 1) as u32, s.stage)))
                },
            }
        },
    }
}

/// The step at a reference delta whose base name starts at `p`: the 20
/// bytes of the name are read and the base is asked for by its name in
/// hexadecimal. Where fewer than 20 bytes remain, the read takes them all.
pub open spec fn ref_delta_step(c: Seq<u8>, s: StateView, size: u64, p: int) -> Option<(Result<ActionView, PackError>, StateView)> {
    if c.len() - p < 20 {
        Some((Err(PackError::ShortBaseRef), restarted(s, c.len() as int)))
    } else {
        Some((Ok(ActionView::FindBase { base_ref: hex_lower(c.subrange(p, p + 20)) }),
            moved(s, p + 20, s.parsed, ParseStage::AwaitingBase { size })))
    }
}

/// The step among the entries: at the end of the content, the count of
/// entries must be the one the header announced, and the parse is done;
/// otherwise the entry at the position is read.
pub open spec fn entry_step(c: Seq<u8>, s: StateView) -> Option<(Result<ActionView, PackError>, StateView)> {
    if s.pos >= c.len() {
        if s.parsed == s.obj_count {
            Some((Ok(ActionView::Done), restarted(s, s.pos)))
        } else {
            Some((Err(PackError::CountMismatch), restarted(s, s.pos)))
        }
    } else {
        match entry_header_at(c, s.pos) {
            None => None,
            Some((Err(e), n)) => Some((Err(e), restarted(s, n))),
            Some((Ok((kind, size)), p)) => match kind {
                PackObject::RefDelta => ref_delta_step(c, s, size, p),
                PackObject::OfsDelta => ofs_delta_step(c, s, p),
                _ => object_step(c, s, kind, size, p),
            },
        }
    }
}

/// The step that receives the base of a reference delta: the delta's data
/// inflates to the size its header gave, the parse moves past it, the delta
/// is applied to the base and the result, of the base's kind, is to be
/// stored. Where the data fails, the read stops before it; where the delta
/// does not fit its base, right after it.
pub open spec fn base_step(c: Seq<u8>, s: StateView, size: u64, kind: ObjectKind, base: Seq<u8>) -> Option<(Result<ActionView, PackError>, StateView)> {
    match zlib_inflate(c.subrange(s.pos, c.len() as int)) {
        None => Some((Err(PackError::Inflate), restarted(s, s.pos))),
        Some((delta, consumed, _)) => if delta.len() != size {
            Some((Err(PackError::SizeMismatch), restarted(s, s.pos)))
        } else {
            match resolve_delta(base, delta) {
                None => None,
                Some(Err(e)) => Some((Err(e), restarted(s, s.pos + consumed))),
                Some(Ok(out)) => if s.parsed == u32::MAX {
                    None
                } else {
                    Some((Ok(ActionView::Store { kind, content: out }),
                        moved(s, s.pos + consumed, (s.parsed + 1) as u32, ParseStage::Entries)))
                },
            }
        },
    }
}

/// One step of a parse: what it asks of the caller, or the error it ends
/// in, and the state after it. A parse that ends, in an error or done,
/// keeps the position where its read stopped and starts over with a header
/// there; an event that does not fit the state changes nothing.
/// `None` where the step would run off the end of the content or of a
/// delta, reach outside a base, shift a size past 64 bits or count past
/// `u32::MAX` entries.
pub open spec fn parse_step(c: Seq<u8>, s: StateView, ev: EventView) -> Option<(Result<ActionView, PackError>, StateView)> {
    match (s.stage, ev) {
        (ParseStage::Header, EventView::Next) => header_step(c, s),
        (ParseStage::Entries, EventView::Next) => entry_step(c, s),
        (ParseStage::AwaitingBase { size }, EventView::Base { kind, content }) => base_step(c, s, size, kind, content),
        _ => Some((Err(PackError::UnexpectedEvent), s)),
    }
}


/// The value of the outcome of a step.
pub open spec fn result_view(r: Result<ParseAction, PackError>) -> Result<ActionView, PackError> {
    match r {
        Ok(a) => Ok(a@),
        Err(e) => Err(e),
    }
}

/// The value of the outcome of a step together with the state after it.
spec fn outcome_view(r: Option<(Result<ParseAction, PackError>, ParseState)>) -> Option<(Result<ActionView, PackError>, StateView)> {
    match r {
        Some((res, st)) => Some((result_view(res), st@)),
        None => None,
    }
}

/// Where the read of an entry header stops.
pub proof fn lemma_entry_header_bounds(c: Seq<u8>, pos: int)
    ensures
        entry_header_at(c, pos) matches Some((_, n)) ==> pos < n <= c.len(),
{
    lemma_group_end_range(c, pos + 1);
}

/// Where an offset that is read ends.
pub proof fn lemma_ofs_offset_bounds(c: Seq<u8>, pos: int)
    ensures
        ofs_offset_at(c, pos) matches Some((_, n)) ==> pos < n <= c.len(),
{
    lemma_group_end_range(c, pos);
}

/// The object kind of an entry of one of the four object kinds.
fn to_object_kind(k: PackObject) -> (r: ObjectKind)
    ensures
        r == object_kind_of(k),
{
    match k {
        PackObject::Commit => ObjectKind::Commit,
        PackObject::Tree => ObjectKind::Tree,
        PackObject::Blob => ObjectKind::Blob,
        _ => ObjectKind::Tag,
    }
}

/// Reads the big-endian 32-bit number in the four bytes at `p`.
fn be_u32(c: &[u8], p: usize) -> (r: u32)
    requires
        p + 4 <= c@.len(),
    ensures
        r == be_u32_at(c@, p as int),
{
    (c[p] as u32) * 0x1000000 + (c[p + 1] as u32) * 0x10000 + (c[p + 2] as u32) * 0x100 + (c[p + 3] as u32)
}

impl ParseState {
    /// A copy of this state.
    fn duplicate(&self) -> (r: ParseState)
        ensures
            r@ == self@,
    {
        ParseState {
            header: PackHeader {
                signature: self.header.signature.clone(),
                version: self.header.version,
                obj_count: self.header.obj_count,
            },
            pos: self.pos,
            parsed: self.parsed,
            stage: self.stage,
        }
    }

    /// This state with another position, count and stage.
    fn moved_to(&self, pos: usize, parsed: u32, stage: ParseStage) -> (r: ParseState)
        ensures
            r@ == moved(self@, pos as int, parsed, stage),
    {
        ParseState {
            header: PackHeader {
                signature: self.header.signature.clone(),
                version: self.header.version,
                obj_count: self.header.obj_count,
            },
            pos,
            parsed,
            stage,
        }
    }

    /// This state after the parse ended with its read stopped at `pos`.
    fn restart_at(&self, pos: usize) -> (r: ParseState)
        ensures
            r@ == restarted(self@, pos as int),
    {
        self.moved_to(pos, 0, ParseStage::Header)
    }
}

impl PackFile {
    /// Splits the trailing 20-byte checksum off `data` and accepts the rest
    /// as a pack to parse where the checksum, in hexadecimal, is the SHA-1 of
    /// the rest, in hexadecimal.
    pub fn new(data: Vec<u8>) -> (r: Result<PackFile, PackError>)
        requires
            data@.len() >= 20,
        ensures
            pack_result_view(r) == new_pack_of(data@),
    {
        let ghost whole = data@;
        let mut content = data;
        let n = content.len();
        let trailer = content.split_off(n - 20);
        let checksum = hex_encode(trailer.as_slice());
        let digest = sha1_digest(content.as_slice());
        let check = hex_encode(digest.as_slice());
        if check == checksum {
            let state = ParseState { header: PackHeader::default(), pos: 0, parsed: 0, stage: ParseStage::Header };
            Ok(PackFile { content, state })
        } else {
            Err(PackError::ChecksumMismatch)
        }
    }

    /// The outcome of the header step.
    fn header_outcome(&self) -> (r: Option<(Result<ParseAction, PackError>, ParseState)>)
        requires
            self.state.pos <= self.content@.len(),
        ensures
            outcome_view(r) == header_step(self.content@, self.state@),
            r matches Some((_, st)) ==> st.pos <= self.content@.len(),
    {
        let c = self.content.as_slice();
        let p = self.state.pos;
        if c.len() - p < 12 {
            return None;
        }
        if !(c[p] == 0x50 && c[p + 1] == 0x41 && c[p + 2] == 0x43 && c[p + 3] == 0x4b) {
            return Some((Err(PackError::BadSignature), self.state.restart_at(p + 12)));
        }
        let version = be_u32(c, p + 4);
        if version != 2 {
            return Some((Err(PackError::BadVersion), self.state.restart_at(p + 12)));
        }
        let obj_count = be_u32(c, p + 8);
        let signature = "PACK".to_string();
        proof {
            broadcast use vstd::string::to_string_from_display_ensures_for_str;
            reveal_strlit("PACK");
            assert(signature@ =~= seq!['P', 'A', 'C', 'K']);
        }
        let state = ParseState {
            header: PackHeader { signature, version: 2, obj_count },
            pos: p + 12,
            parsed: self.state.parsed,
            stage: ParseStage::Entries,
        };
        Some((Ok(ParseAction::Continue), state))
    }

    /// The outcome of the step at an entry of one of the four object kinds.
    fn object_outcome(&self, kind: PackObject, size: u64, p: usize) -> (r: Option<(Result<ParseAction, PackError>, ParseState)>)
        requires
            p <= self.content@.len(),
            self.state.pos <= self.content@.len(),
        ensures
            outcome_view(r) == object_step(self.content@, self.state@, kind, size, p as int),
            r matches Some((_, st)) ==> st.pos <= self.content@.len(),
    {
        let c = self.content.as_slice();
        match inflate(&c[p..c.len()]) {
            None => Some((Err(PackError::Inflate), self.state.restart_at(p))),
            Some((out, consumed, produced)) => {
                if produced != size {
                    return Some((Err(PackError::SizeMismatch), self.state.restart_at(p)));
                }
                if self.state.parsed == u32::MAX {
                    return None;
                }
                let next = p + consumed as usize;
                let state = self.state.moved_to(next, self.state.parsed + 1, self.state.stage);
                Some((Ok(ParseAction::Store { kind: to_object_kind(kind), content: out }), state))
            },
        }
    }

    /// The outcome of the step at an offset delta.
    fn ofs_delta_outcome(&self, p: usize) -> (r: Option<(Result<ParseAction, PackError>, ParseState)>)
        requires
            self.state.pos <= self.content@.len(),
        ensures
            outcome_view(r) == ofs_delta_step(self.content@, self.state@, p as int),
            r matches Some((_, st)) ==> st.pos <= self.content@.len(),
    {
        let c = self.content.as_slice();
        let (offset, e) = match read_ofs_offset(c, p) {
            Some(f) => f,
            None => {
                return None;
            },
        };
        proof {
            lemma_ofs_offset_bounds(c@, p as int);
        }
        if offset > e as u64 {
            return None;
        }
        let start = e - offset as usize;
        match inflate(&c[start..c.len()]) {
            None => Some((Err(PackError::Inflate), self.state.restart_at(start))),
            Some(_) => {
                if self.state.parsed == u32::MAX {
                    return None;
                }
                let state = self.state.moved_to(e, self.state.parsed + 1, self.state.stage);
                Some((Ok(ParseAction::Continue), state))
            },
        }
    }

    /// The outcome of the step at a reference delta.
    fn ref_delta_outcome(&self, size: u64, p: usize) -> (r: Option<(Result<ParseAction, PackError>, ParseState)>)
        requires
            p <= self.content@.len(),
            self.state.pos <= self.content@.len(),
        ensures
            outcome_view(r) == ref_delta_step(self.content@, self.state@, size, p as int),
            r matches Some((_, st)) ==> st.pos <= self.content@.len(),
    {
        let c = self.content.as_slice();
        if c.len() - p < 20 {
            return Some((Err(PackError::ShortBaseRef), self.state.restart_at(c.len())));
        }
        let base_ref = hex_encode(&c[p..p + 20]);
        let state = self.state.moved_to(p + 20, self.state.parsed, ParseStage::AwaitingBase { size });
        Some((Ok(ParseAction::FindBase { base_ref }), state))
    }

    /// The outcome of the step among the entries.
    fn entry_outcome(&self) -> (r: Option<(Result<ParseAction, PackError>, ParseState)>)
        requires
            self.state.pos <= self.content@.len(),
        ensures
            outcome_view(r) == entry_step(self.content@, self.state@),
            r matches Some((_, st)) ==> st.pos <= self.content@.len(),
    {
        let c = self.content.as_slice();
        let p = self.state.pos;
        if p >= c.len() {
            if self.state.parsed == self.state.header.obj_count {
                return Some((Ok(ParseAction::Done), self.state.restart_at(p)));
            } else {
                return Some((Err(PackError::CountMismatch), self.state.restart_at(p)));
            }
        }
        proof {
            lemma_entry_header_bounds(c@, p as int);
        }
        match read_entry_header(c, p) {
            None => None,
            Some((Err(e), next)) => Some((Err(e), self.state.restart_at(next))),
            Some((Ok((kind, size)), next)) => match kind {
                PackObject::RefDelta => self.ref_delta_outcome(size, next),
                PackObject::OfsDelta => self.ofs_delta_outcome(next),
                _ => self.object_outcome(kind, size, next),
            },
        }
    }

    /// The outcome of the step that receives the base of a reference delta.
    fn base_outcome(&self, size: u64, kind: ObjectKind, base: &[u8]) -> (r: Option<(Result<ParseAction, PackError>, ParseState)>)
        requires
            self.state.pos <= self.content@.len(),
        ensures
            outcome_view(r) == base_step(self.content@, self.state@, size, kind, base@),
            r matches Some((_, st)) ==> st.pos <= self.content@.len(),
    {
        let c = self.content.as_slice();
        let p = self.state.pos;
        match inflate(&c[p..c.len()]) {
            None => Some((Err(PackError::Inflate), self.state.restart_at(p))),
            Some((delta, consumed, produced)) => {
                if produced != size {
                    return Some((Err(PackError::SizeMismatch), self.state.restart_at(p)));
                }
                match try_resolve_delta(base, delta.as_slice()) {
                    None => None,
                    Some(Err(e)) => Some((Err(e), self.state.restart_at(p + consumed as usize))),
                    Some(Ok(out)) => {
                        if self.state.parsed == u32::MAX {
                            return None;
                        }
                        let state = self.state.moved_to(p + consumed as usize, self.state.parsed + 1, ParseStage::Entries);
                        Some((Ok(ParseAction::Store { kind, content: out }), state))
                    },
                }
            },
        }
    }

    /// The outcome of one step of the parse, without taking it.
    fn outcome(&self, event: &ParseEvent) -> (r: Option<(Result<ParseAction, PackError>, ParseState)>)
        ensures
            outcome_view(r) == parse_step(self@.content, self@.state, event@),
            r matches Some((_, st)) ==> st.pos <= self@.content.len(),
    {
        proof {
            use_type_invariant(self);
        }
        match (self.state.stage, event) {
            (ParseStage::Header, ParseEvent::Next) => self.header_outcome(),
            (ParseStage::Entries, ParseEvent::Next) => self.entry_outcome(),
            (ParseStage::AwaitingBase { size }, ParseEvent::Base { kind, content }) => self.base_outcome(size, *kind, content.as_slice()),
            _ => Some((Err(PackError::UnexpectedEvent), self.state.duplicate())),
        }
    }

    /// Whether the next step, with this event, is one that `parse` takes:
    /// one that runs off no end, shifts no size past 64 bits and counts no
    /// more than `u32::MAX` entries.
    pub fn can_parse(&self, event: &ParseEvent) -> (r: bool)
        ensures
            r == parse_step(self@.content, self@.state, event@) is Some,
    {
        self.outcome(event).is_some()
    }

    /// Takes one step of the parse: reads the header, or the next entry, or
    /// applies a delta to the base it was handed, and says what the caller
    /// is to do next. Once the parse ends, in an error or done, the position
    /// stays where the read stopped and the next step reads a header there;
    /// an event that does not fit the state changes nothing.
    pub fn parse(&mut self, event: ParseEvent) -> (r: Result<ParseAction, PackError>)
        requires
            parse_step(old(self)@.content, old(self)@.state, event@) is Some,
        ensures
            final(self)@.content == old(self)@.content,
            parse_step(old(self)@.content, old(self)@.state, event@) == Some((result_view(r), final(self)@.state)),
            final(self)@.state.pos <= final(self)@.content.len(),
    {
        match self.outcome(&event) {
            Some((r, state)) => {
                self.state = state;
                r
            },
            None => {
                proof {
                    assert(false);
                }
                Err(PackError::UnexpectedEvent)
            },
        }
    }

    /// Takes one step of the parse where it is one that `parse` takes, and
    /// returns what `parse` returns; otherwise returns `None` and leaves the
    /// parse as it is.
    pub fn try_parse(&mut self, event: ParseEvent) -> (r: Option<Result<ParseAction, PackError>>)
        ensures
            final(self)@.content == old(self)@.content,
            final(self)@.state.pos <= final(self)@.content.len(),
            r is Some <==> parse_step(old(self)@.content, old(self)@.state, event@) is Some,
            r matches Some(res) ==> parse_step(old(self)@.content, old(self)@.state, event@) == Some(
                (result_view(res), final(self)@.state),
            ),
            r is None ==> final(self)@.state == old(self)@.state,
    {
        proof {
            use_type_invariant(&*self);
        }
        if self.can_parse(&event) {
            Some(self.parse(event))
        } else {
            None
        }
    }
}


/// Law: a pack is accepted exactly when its last 20 bytes are the SHA-1
/// of the bytes before them.
pub proof fn lemma_checksum_is_sha1(data: Seq<u8>)
    requires
        data.len() >= 20,
    ensures
        checksum_matches(data) <==> sha1_of(data.subrange(0, data.len() - 20)) == data.subrange(data.len() - 20, data.len() as int),
{
    let n = data.len() as int;
    if checksum_matches(data) {
        lemma_hex_lower_injective(sha1_of(data.subrange(0, n - 20)), data.subrange(n - 20, n));
    }
}


/// Law: an event that does not fit the state changes nothing; any other
/// error ends the parse where its read stopped, keeping the header read so
/// far, forgetting the count and starting over with a header.
pub proof fn lemma_error_restarts(c: Seq<u8>, s: StateView, ev: EventView)
    ensures
        parse_step(c, s, ev) matches Some((Err(e), s2)) ==> {
            &&& e == PackError::UnexpectedEvent ==> s2 == s
            &&& e != PackError::UnexpectedEvent ==> s2 == restarted(s, s2.pos)
        },
{
}

/// Law: a step that goes on moves the parse forward and counts at most one
/// more entry.
pub proof fn lemma_step_moves_forward(c: Seq<u8>, s: StateView, ev: EventView)
    requires
        0 <= s.pos <= c.len(),
    ensures
        parse_step(c, s, ev) matches Some((r, s2)) ==> {
            &&& 0 <= s2.pos
            &&& (r is Ok && r != Ok::<ActionView, PackError>(ActionView::Done)) ==> {
                &&& s.pos <= s2.pos
                &&& (s2.parsed == s.parsed || s2.parsed == s.parsed + 1)
            }
        },
{
    lemma_entry_header_bounds(c, s.pos);
    if let Some((Ok(_), p)) = entry_header_at(c, s.pos) {
        lemma_ofs_offset_bounds(c, p);
    }
}

/// Law: a parse is done only at the end of the content, and only when it
/// has counted as many entries as the header announced; it then stays at
/// the end.
pub proof fn lemma_done_only_when_complete(c: Seq<u8>, s: StateView, ev: EventView)
    ensures
        parse_step(c, s, ev) matches Some((Ok(ActionView::Done), s2)) ==> {
            &&& s.pos >= c.len()
            &&& s.parsed == s.obj_count
            &&& s2 == restarted(s, s.pos)
        },
{
}

/// Law: the header step accepts only a pack that starts with `PACK` and
/// version 2, and records the announced number of entries.
pub proof fn lemma_header_checked(c: Seq<u8>, s: StateView)
    requires
        s.stage == ParseStage::Header,
        0 <= s.pos,
    ensures
        parse_step(c, s, EventView::Next) matches Some((Ok(_), s2)) ==> {
            &&& c.subrange(s.pos, s.pos + 4) == seq![0x50u8, 0x41, 0x43, 0x4b]
            &&& be_u32_at(c, s.pos + 4) == 2
            &&& s2.obj_count == be_u32_at(c, s.pos + 8)
            &&& s2.stage == ParseStage::Entries
        },
{
    if let Some((Ok(_), _)) = parse_step(c, s, EventView::Next) {
        assert(c.subrange(s.pos, s.pos + 4) =~= seq![0x50u8, 0x41, 0x43, 0x4b]);
    }
}

/// Law: an object stored from the entries has exactly the size its entry
/// header gives; only entries of the four object kinds are stored this way.
pub proof fn lemma_stored_object_has_header_size(c: Seq<u8>, s: StateView)
    requires
        s.stage == ParseStage::Entries,
    ensures
        parse_step(c, s, EventView::Next) matches Some((Ok(ActionView::Store { content, .. }), _)) ==> {
            &&& entry_header_at(c, s.pos) matches Some((Ok((kind, size)), _))
            &&& kind != PackObject::OfsDelta
            &&& kind != PackObject::RefDelta
            &&& content.len() == size
        },
{
}

/// Law: an object rebuilt from a reference delta has exactly the size the
/// delta names for its result.
pub proof fn lemma_rebuilt_object_has_target_size(c: Seq<u8>, s: StateView, size: u64, kind: ObjectKind, base: Seq<u8>)
    requires
        s.stage == (ParseStage::AwaitingBase { size }),
    ensures
        parse_step(c, s, EventView::Base { kind, content: base }) matches Some((Ok(ActionView::Store { content, .. }), _)) ==> {
            &&& zlib_inflate(c.subrange(s.pos, c.len() as int)) matches Some((delta, _, _))
            &&& delta_size_at(delta, 0) matches Some((_, q))
            &&& delta_size_at(delta, q) matches Some((target, _))
            &&& content.len() == target
        },
{
}

/// Law: the type code in bits 4..6 of an entry's first byte decides the
/// kind it is stored as: 1 a commit, 2 a tree, 3 a blob, 4 a tag; no other
/// code stores an object.
pub proof fn lemma_stored_kind_follows_code(c: Seq<u8>, s: StateView)
    requires
        s.stage == ParseStage::Entries,
    ensures
        parse_step(c, s, EventView::Next) matches Some((Ok(ActionView::Store { kind, .. }), _)) ==> {
            &&& 0 <= s.pos < c.len()
            &&& c[s.pos] / 16 % 8 == 1 ==> kind == ObjectKind::Commit
            &&& c[s.pos] / 16 % 8 == 2 ==> kind == ObjectKind::Tree
            &&& c[s.pos] / 16 % 8 == 3 ==> kind == ObjectKind::Blob
            &&& c[s.pos] / 16 % 8 == 4 ==> kind == ObjectKind::Tag
            &&& 1 <= c[s.pos] / 16 % 8 <= 4
        },
{
}

/// Law: the header step accepts the version only when its four bytes are
/// 0, 0, 0, 2, and records the number of entries as the big-endian number
/// in the header's last four bytes.
pub proof fn lemma_header_count_big_endian(c: Seq<u8>, s: StateView)
    requires
        s.stage == ParseStage::Header,
        0 <= s.pos,
    ensures
        parse_step(c, s, EventView::Next) matches Some((Ok(_), s2)) ==> {
            let p = s.pos;
            &&& c[p + 4] == 0 && c[p + 5] == 0 && c[p + 6] == 0 && c[p + 7] == 2
            &&& s2.obj_count == c[p + 8] * 0x1000000 + c[p + 9] * 0x10000 + c[p + 10] * 0x100 + c[p + 11]
        },
{
    let p = s.pos;
    if let Some((Ok(_), s2)) = parse_step(c, s, EventView::Next) {
        let v = c[p + 4] * 0x1000000 + c[p + 5] * 0x10000 + c[p + 6] * 0x100 + c[p + 7];
        assert(0 <= v <= 0xffff_ffff);
        assert(be_u32_at(c, p + 4) == v);
        let n = c[p + 8] * 0x1000000 + c[p + 9] * 0x10000 + c[p + 10] * 0x100 + c[p + 11];
        assert(0 <= n <= 0xffff_ffff);
        assert(be_u32_at(c, p + 8) == n);
    }
}

} // verus!

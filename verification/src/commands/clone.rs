use vstd::prelude::*;
use vstd::slice::slice_to_vec;
use crate::hashing::{hex_encode, hex_lower};
use crate::pattern::{regex_is_match, regex_match};
use crate::packfile::{new_pack_of, pack_result_view, PackError, PackFile};

verus! {

/// Errors that cloning can end in.
#[derive(Debug, Clone, Copy, PartialEq, Eq, Structural)]
pub enum CloneError {
    /// No directory name can be taken from the URL.
    InvalidUrl,
    /// The server answered with a status other than 200 or 304.
    BadStatus,
    /// The pattern for the service line does not compile.
    BadPattern,
    /// The first line is not the upload-pack service line.
    NotAdvertisement,
    /// The line that names HEAD is missing or malformed.
    MissingHead,
    /// The first advertised reference is not HEAD.
    HeadNotFirst,
    /// An advertised reference line has no space after its name.
    BadReference,
    /// A tree entry has a mode other than a file, an executable or a directory.
    UnknownMode,
}

/// The bytes of `.git`.
pub open spec fn git_suffix() -> Seq<u8> {
    seq![0x2eu8, 0x67, 0x69, 0x74]
}

/// `s` with every trailing `.git` removed, one after the other.
pub open spec fn trim_git_suffix(s: Seq<u8>) -> Seq<u8>
    decreases s.len(),
{
    if s.len() >= 4 && s.subrange(s.len() - 4, s.len() as int) == git_suffix() {
        trim_git_suffix(s.subrange(0, s.len() - 4))
    } else {
        s
    }
}

/// The index of the last `b` in `s`, if any.
pub open spec fn last_index_of(s: Seq<u8>, b: u8) -> Option<int>
    decreases s.len(),
{
    if s.len() == 0 {
        None
    } else if s.last() == b {
        Some(s.len() - 1)
    } else {
        last_index_of(s.drop_last(), b)
    }
}

/// The directory a clone goes into: the one given, or else the last
/// `/`-separated part of the URL once its trailing `.git`s are removed.
pub open spec fn destination_of(url: Seq<u8>, dir: Option<Seq<u8>>) -> Result<Seq<u8>, CloneError> {
    match dir {
        Some(d) => Ok(d),
        None => {
            let t = trim_git_suffix(url);
            match last_index_of(t, 0x2f) {
                Some(i) => Ok(t.subrange(i + 1, t.len() as int)),
                None => Err(CloneError::InvalidUrl),
            }
        },
    }
}

/// The directory that a clone of `url` goes into: `dir` where it is given,
/// else what follows the last `/` of the URL without its trailing `.git`s.
pub fn destination_dir(url: &[u8], dir: Option<&[u8]>) -> (r: Result<Vec<u8>, CloneError>)
    ensures
        destination_of(url@, match dir {
            Some(d) => Some(d@),
            None => None::<Seq<u8>>,
        }) == match r {
            Ok(v) => Ok::<Seq<u8>, CloneError>(v@),
            Err(e) => Err::<Seq<u8>, CloneError>(e),
        },
{
    if let Some(d) = dir {
        return Ok(slice_to_vec(d));
    }
    let ghost u = url@;
    let mut end: usize = url.len();
    assert(u.subrange(0, url.len() as int) =~= u);
    while end >= 4 && url[end - 4] == 0x2e && url[end - 3] == 0x67 && url[end - 2] == 0x69 && url[end - 1] == 0x74
        invariant
            u == url@,
            end <= url.len(),
            trim_git_suffix(u) == trim_git_suffix(u.subrange(0, end as int)),
        decreases end,
    {
        let ghost t = u.subrange(0, end as int);
        assert(t.subrange(t.len() - 4, t.len() as int) =~= git_suffix());
        assert(t.subrange(0, t.len() - 4) =~= u.subrange(0, end - 4));
        end = end - 4;
    }
    let ghost t = u.subrange(0, end as int);
    proof {
        if t.len() >= 4 {
            assert(t.subrange(t.len() - 4, t.len() as int) =~= seq![u[end - 4], u[end - 3], u[end - 2], u[end - 1]]);
        }
    }
    assert(trim_git_suffix(t) == t);
    let mut i: usize = end;
    assert(t.subrange(0, end as int) =~= t);
    while i > 0 && url[i - 1] != 0x2f
        invariant
            u == url@,
            i <= end <= url.len(),
            t == u.subrange(0, end as int),
            last_index_of(t, 0x2f) == last_index_of(t.subrange(0, i as int), 0x2f),
        decreases i,
    {
        let ghost s = t.subrange(0, i as int);
        assert(s.drop_last() =~= t.subrange(0, i - 1));
        i = i - 1;
    }
    if i == 0 {
        assert(t.subrange(0, 0) =~= Seq::<u8>::empty());
        return Err(CloneError::InvalidUrl);
    }
    let ghost s = t.subrange(0, i as int);
    assert(s.last() == 0x2f);
    let name = slice_to_vec(&url[i..end]);
    assert(name@ =~= t.subrange(i as int, t.len() as int));
    Ok(name)
}

/// Where the last `b` of `s` is: inside `s`, with no `b` after it.
pub proof fn lemma_last_index_of(s: Seq<u8>, b: u8)
    ensures
        last_index_of(s, b) matches Some(i) ==> {
            &&& 0 <= i < s.len()
            &&& s[i] == b
            &&& forall|k: int| i < k < s.len() ==> s[k] != b
        },
    decreases s.len(),
{
    if s.len() > 0 && s.last() != b {
        lemma_last_index_of(s.drop_last(), b);
        if let Some(i) = last_index_of(s, b) {
            assert forall|k: int| i < k < s.len() implies s[k] != b by {
                if k < s.len() - 1 {
                    assert(s[k] == s.drop_last()[k]);
                }
            }
        }
    }
}

/// Law: a directory name taken from a URL holds no `/`.
pub proof fn lemma_destination_has_no_slash(url: Seq<u8>)
    ensures
        destination_of(url, None) matches Ok(name) ==> !name.contains(0x2f),
{
    let t = trim_git_suffix(url);
    lemma_last_index_of(t, 0x2f);
    if let Some(i) = last_index_of(t, 0x2f) {
        let name = t.subrange(i + 1, t.len() as int);
        assert forall|k: int| 0 <= k < name.len() implies name[k] != 0x2f by {
            assert(name[k] == t[k + i + 1]);
        }
    }
}

/// What a tree entry becomes in the work tree.
#[derive(Debug, Clone, Copy, PartialEq, Eq, Structural)]
pub enum EntryMode {
    /// A file with permissions 0o755.
    Executable,
    /// A file with permissions 0o644.
    Regular,
    /// A directory.
    Directory,
}

/// The work-tree form of a tree entry's mode: `100755`, `100644` or
/// `40000`; any other mode is an error.
pub open spec fn entry_mode_of(mode: Seq<u8>) -> Result<EntryMode, CloneError> {
    if mode == seq![0x31u8, 0x30, 0x30, 0x37, 0x35, 0x35] {
        Ok(EntryMode::Executable)
    } else if mode == seq![0x31u8, 0x30, 0x30, 0x36, 0x34, 0x34] {
        Ok(EntryMode::Regular)
    } else if mode == seq![0x34u8, 0x30, 0x30, 0x30, 0x30] {
        Ok(EntryMode::Directory)
    } else {
        Err(CloneError::UnknownMode)
    }
}

impl EntryMode {
    /// The permission bits of a file created for this entry, if it is a file.
    pub fn permissions(&self) -> (r: Option<u32>)
        ensures
            r == match self {
                EntryMode::Executable => Some(0o755u32),
                EntryMode::Regular => Some(0o644u32),
                EntryMode::Directory => None::<u32>,
            },
    {
        match self {
            EntryMode::Executable => Some(0o755),
            EntryMode::Regular => Some(0o644),
            EntryMode::Directory => None,
        }
    }
}

/// Whether `s` holds exactly the bytes `lit`.
pub(crate) fn bytes_equal(s: &[u8], lit: &[u8]) -> (r: bool)
    ensures
        r == (s@ == lit@),
{
    if s.len() != lit.len() {
        return false;
    }
    let mut i: usize = 0;
    while i < s.len()
        invariant
            s.len() == lit.len(),
            i <= s.len(),
            forall|k: int| 0 <= k < i ==> s@[k] == lit@[k],
        decreases s.len() - i,
    {
        if s[i] != lit[i] {
            return false;
        }
        i = i + 1;
    }
    assert(s@ =~= lit@);
    true
}

/// The work-tree form of a tree entry's mode.
pub fn entry_mode(mode: &[u8]) -> (r: Result<EntryMode, CloneError>)
    ensures
        r == entry_mode_of(mode@),
{
    let executable: [u8; 6] = [0x31, 0x30, 0x30, 0x37, 0x35, 0x35];
    let regular: [u8; 6] = [0x31, 0x30, 0x30, 0x36, 0x34, 0x34];
    let directory: [u8; 5] = [0x34, 0x30, 0x30, 0x30, 0x30];
    assert(executable@ =~= seq![0x31u8, 0x30, 0x30, 0x37, 0x35, 0x35]);
    assert(regular@ =~= seq![0x31u8, 0x30, 0x30, 0x36, 0x34, 0x34]);
    assert(directory@ =~= seq![0x34u8, 0x30, 0x30, 0x30, 0x30]);
    if bytes_equal(mode, &executable) {
        Ok(EntryMode::Executable)
    } else if bytes_equal(mode, &regular) {
        Ok(EntryMode::Regular)
    } else if bytes_equal(mode, &directory) {
        Ok(EntryMode::Directory)
    } else {
        Err(CloneError::UnknownMode)
    }
}


/// The bytes that stand for characters below 128.
pub open spec fn ascii_bytes(cs: Seq<char>) -> Seq<u8> {
    cs.map_values(|c: char| c as u8)
}

/// The bytes of `want `.
pub open spec fn want_prefix() -> Seq<u8> {
    seq![0x77u8, 0x61, 0x6e, 0x74, 0x20]
}

/// The length field of the want line for reference `r`: the length of
/// `want <r>\n` kept to 16 bits, plus the four bytes of the field itself.
pub open spec fn want_line_len(r: Seq<u8>) -> int {
    ((r.len() + 6) % 65536 + 4) as int
}

/// Whether the length field of the want line for `r` stays within 16 bits.
pub open spec fn want_fits(r: Seq<u8>) -> bool {
    want_line_len(r) <= 65535
}

/// The pkt-line `want <r>\n`, preceded by its length in four lowercase
/// hexadecimal digits.
pub open spec fn want_pkt(r: Seq<u8>) -> Seq<u8> {
    let n = want_line_len(r);
    ascii_bytes(hex_lower(seq![(n / 256) as u8, (n % 256) as u8])) + want_prefix() + r + seq![0x0au8]
}

/// The want lines for references, in order.
pub open spec fn want_lines(refs: Seq<Seq<u8>>) -> Seq<u8>
    decreases refs.len(),
{
    if refs.len() == 0 {
        Seq::empty()
    } else {
        want_lines(refs.drop_last()) + want_pkt(refs.last())
    }
}

/// The body of an upload-pack request: a want line for each reference,
/// then the flush packet `0000` and the packet `0009done\n`.
pub open spec fn upload_request(refs: Seq<Seq<u8>>) -> Seq<u8> {
    want_lines(refs) + seq![0x30u8, 0x30, 0x30, 0x30] + seq![0x30u8, 0x30, 0x30, 0x39, 0x64, 0x6f, 0x6e, 0x65, 0x0a]
}

/// The values of a list of byte strings.
pub open spec fn views_of(v: Seq<Vec<u8>>) -> Seq<Seq<u8>> {
    v.map_values(|x: Vec<u8>| x@)
}

/// Hexadecimal digits are characters below 128.
proof fn lemma_hex_lower_ascii(data: Seq<u8>)
    ensures
        vstd::utf8::is_ascii_chars(hex_lower(data)),
    decreases data.len(),
{
    if data.len() > 0 {
        lemma_hex_lower_ascii(data.drop_last());
        let h = hex_lower(data);
        let p = hex_lower(data.drop_last());
        let x = data.last();
        assert forall|i: int| 0 <= i < h.len() implies '\0' <= #[trigger] h[i] <= '\u{7f}' by {
            if i >= p.len() {
                let n = if i == p.len() { (x / 16) as nat } else { (x % 16) as nat };
                assert(h[i] == crate::hashing::hex_digit(n));
                if n < 10 {
                    assert((48 + n) as char as int == 48 + n);
                } else {
                    assert((87 + n) as char as int == 87 + n);
                }
            }
        }
    }
}

/// The bytes of the lowercase hexadecimal form of `data`.
pub(crate) fn hex_bytes(data: &[u8]) -> (r: Vec<u8>)
    ensures
        r@ == ascii_bytes(hex_lower(data@)),
{
    let h = hex_encode(data);
    let b = h.as_str().as_bytes();
    proof {
        lemma_hex_lower_ascii(data@);
        vstd::utf8::is_ascii_chars_encode_utf8(h@);
        assert(b@ =~= ascii_bytes(hex_lower(data@)));
    }
    slice_to_vec(b)
}

/// Whether every want line for `advertise` keeps its length field within
/// 16 bits, as `upload_pack_request` needs.
pub fn request_fits(advertise: &[Vec<u8>]) -> (r: bool)
    ensures
        r == forall|i: int| 0 <= i < advertise@.len() ==> want_fits(#[trigger] advertise@[i]@),
{
    let mut i: usize = 0;
    while i < advertise.len()
        invariant
            i <= advertise@.len(),
            forall|k: int| 0 <= k < i ==> want_fits(#[trigger] advertise@[k]@),
        decreases advertise.len() - i,
    {
        let n = (advertise[i].len() % 65536 + 6) % 65536 + 4;
        if n > 65535 {
            return false;
        }
        i = i + 1;
    }
    true
}

/// The body of the upload-pack request that wants each of `advertise`:
/// for each, `want <ref>\n` preceded by its length in four hexadecimal
/// digits, then `0000` and `0009done\n`.
pub fn upload_pack_request(advertise: &[Vec<u8>]) -> (r: Vec<u8>)
    requires
        forall|i: int| 0 <= i < advertise@.len() ==> want_fits(#[trigger] advertise@[i]@),
    ensures
        r@ == upload_request(views_of(advertise@)),
{
    let ghost refs = views_of(advertise@);
    let mut body: Vec<u8> = Vec::new();
    let mut i: usize = 0;
    while i < advertise.len()
        invariant
            refs == views_of(advertise@),
            i <= advertise@.len(),
            forall|k: int| 0 <= k < advertise@.len() ==> want_fits(#[trigger] advertise@[k]@),
            body@ == want_lines(refs.take(i as int)),
        decreases advertise.len() - i,
    {
        let reference = &advertise[i];
        let n: usize = (reference.len() % 65536 + 6) % 65536 + 4;
        assert(n == want_line_len(reference@));
        let size: [u8; 2] = [(n / 256) as u8, (n % 256) as u8];
        let digits = hex_bytes(&size);
        assert(size@ =~= seq![(n / 256) as u8, (n % 256) as u8]);
        let ghost before = body@;
        body.extend_from_slice(digits.as_slice());
        body.push(0x77);
        body.push(0x61);
        body.push(0x6e);
        body.push(0x74);
        body.push(0x20);
        body.extend_from_slice(reference.as_slice());
        body.push(0x0a);
        assert(body@ =~= before + want_pkt(reference@));
        assert(refs.take(i + 1).drop_last() =~= refs.take(i as int));
        assert(refs.take(i + 1).last() == reference@);
        i = i + 1;
    }
    assert(refs.take(i as int) =~= refs);
    body.push(0x30);
    body.push(0x30);
    body.push(0x30);
    body.push(0x30);
    body.push(0x30);
    body.push(0x30);
    body.push(0x30);
    body.push(0x39);
    body.push(0x64);
    body.push(0x6f);
    body.push(0x6e);
    body.push(0x65);
    body.push(0x0a);
    assert(body@ =~= upload_request(refs));
    body
}


/// The index of the first `b` in `s`, if any.
pub open spec fn first_index_of(s: Seq<u8>, b: u8) -> Option<int>
    decreases s.len(),
{
    if s.len() == 0 {
        None
    } else if s[0] == b {
        Some(0)
    } else {
        match first_index_of(s.drop_first(), b) {
            Some(i) => Some(i + 1),
            None => None,
        }
    }
}

/// Where the first `b` of `s` is: inside `s`, with no `b` before it.
pub proof fn lemma_first_index_of_range(s: Seq<u8>, b: u8)
    ensures
        first_index_of(s, b) matches Some(i) ==> 0 <= i < s.len() && s[i] == b,
    decreases s.len(),
{
    if s.len() > 0 && s[0] != b {
        lemma_first_index_of_range(s.drop_first(), b);
    }
}

/// The first `b` of `s` is at `i` when `s[i]` is `b` and no byte before is.
pub proof fn lemma_first_index_of_at(s: Seq<u8>, b: u8, i: int)
    requires
        0 <= i <= s.len(),
        forall|k: int| 0 <= k < i ==> s[k] != b,
        i == s.len() || s[i] == b,
    ensures
        first_index_of(s, b) == if i < s.len() { Some(i) } else { None::<int> },
    decreases s.len(),
{
    if s.len() > 0 && i > 0 {
        lemma_first_index_of_at(s.drop_first(), b, i - 1);
    }
}

/// The parts of `s` between the bytes `b`, as `split` gives them: one more
/// part than there are `b`s, empty parts included.
pub open spec fn split_on(s: Seq<u8>, b: u8) -> Seq<Seq<u8>>
    decreases s.len(),
{
    match first_index_of(s, b) {
        Some(i) => {
            proof {
                lemma_first_index_of_range(s, b);
            }
            seq![s.subrange(0, i)] + split_on(s.subrange(i + 1, s.len() as int), b)
        },
        None => seq![s],
    }
}

/// Whether byte `n` of UTF-8 text `s` exists or is its end, and starts a
/// character: where slicing the text at `n` does not panic.
pub open spec fn sliceable_at(s: Seq<u8>, n: int) -> bool {
    s.len() >= n && (s.len() == n || !(0x80 <= s[n] && s[n] < 0xc0))
}

/// Whether `pat` occurs in `s`.
pub open spec fn contains_bytes(s: Seq<u8>, pat: Seq<u8>) -> bool {
    exists|i: int| 0 <= i && i + pat.len() <= s.len() && #[trigger] s.subrange(i, i + pat.len()) == pat
}

/// The bytes of `HEAD`.
pub open spec fn head_word() -> Seq<u8> {
    seq![0x48u8, 0x45, 0x41, 0x44]
}

/// The bytes of the flush packet `0000`.
pub open spec fn flush_packet() -> Seq<u8> {
    seq![0x30u8, 0x30, 0x30, 0x30]
}

/// The pattern that the first line of a reference advertisement matches.
pub open spec fn service_pattern() -> Seq<char> {
    "^[0-9a-f]{4}# service=git-upload-pack"@
}

/// The references advertised from line `k` on: up to the flush packet or
/// the last line, the name after the four length digits of each line, up
/// to its first space. A line without a space is an error; `None` where a
/// line is too short to slice after its length digits.
pub open spec fn refs_from(lines: Seq<Seq<u8>>, k: int) -> Option<Result<Seq<Seq<u8>>, CloneError>>
    decreases lines.len() - k,
{
    if k < 0 || k >= lines.len() {
        Some(Ok(Seq::empty()))
    } else {
        let r = lines[k];
        if r == flush_packet() {
            Some(Ok(Seq::empty()))
        } else if !sliceable_at(r, 4) {
            None
        } else {
            match first_index_of(r.subrange(4, r.len() as int), 0x20) {
                None => Some(Err(CloneError::BadReference)),
                Some(i) => match refs_from(lines, k + 1) {
                    None => None,
                    Some(Err(e)) => Some(Err(e)),
                    Some(Ok(rest)) => Some(Ok(seq![r.subrange(4, 4 + i)] + rest)),
                },
            }
        }
    }
}

/// What a reference advertisement tells, given what matching its first
/// line against the service pattern gave: the name of HEAD and the other
/// advertised references. The status must be 200 or 304, the first line
/// must match, the second line after its eight leading bytes must be a
/// name, a space and text that holds `HEAD`; the lines after it are read by
/// `refs_from`. `None` where a line is too short to slice.
pub open spec fn ref_discovery_given(status: u16, matched: Option<bool>, body: Seq<u8>) -> Option<Result<(Seq<u8>, Seq<Seq<u8>>), CloneError>> {
    let lines = split_on(body, 0x0a);
    if !(status == 200 || status == 304) {
        Some(Err(CloneError::BadStatus))
    } else {
        match matched {
            None => Some(Err(CloneError::BadPattern)),
            Some(false) => Some(Err(CloneError::NotAdvertisement)),
            Some(true) => if lines.len() < 2 {
                Some(Err(CloneError::MissingHead))
            } else {
                let h = lines[1];
                if !sliceable_at(h, 8) {
                    None
                } else {
                    match first_index_of(h.subrange(8, h.len() as int), 0x20) {
                        None => Some(Err(CloneError::MissingHead)),
                        Some(i) => if !contains_bytes(h.subrange(8 + i + 1, h.len() as int), head_word()) {
                            Some(Err(CloneError::HeadNotFirst))
                        } else {
                            match refs_from(lines, 2) {
                                None => None,
                                Some(Err(e)) => Some(Err(e)),
                                Some(Ok(refs)) => Some(Ok((h.subrange(8, 8 + i), refs))),
                            }
                        },
                    }
                }
            },
        }
    }
}

/// What a reference advertisement tells, its first line matched against
/// the service pattern by `regex_match`.
pub open spec fn ref_discovery_of(status: u16, body: Seq<u8>) -> Option<Result<(Seq<u8>, Seq<Seq<u8>>), CloneError>> {
    ref_discovery_given(status, regex_match(service_pattern(), split_on(body, 0x0a)[0]), body)
}

/// The value of the outcome of reading an advertisement.
pub open spec fn discovery_view(r: Option<Result<(Vec<u8>, Vec<Vec<u8>>), CloneError>>) -> Option<Result<(Seq<u8>, Seq<Seq<u8>>), CloneError>> {
    match r {
        Some(Ok((h, refs))) => Some(Ok((h@, views_of(refs@)))),
        Some(Err(e)) => Some(Err(e)),
        None => None,
    }
}

/// The references read so far put in front of those still to read.
pub open spec fn with_prefix(p: Seq<Seq<u8>>, r: Option<Result<Seq<Seq<u8>>, CloneError>>) -> Option<Result<Seq<Seq<u8>>, CloneError>> {
    match r {
        Some(Ok(rest)) => Some(Ok(p + rest)),
        other => other,
    }
}

/// The index of the first `b` in `s` at or after `from`, or the length of
/// `s` where there is none.
pub(crate) fn find_byte(s: &[u8], from: usize, b: u8) -> (r: usize)
    requires
        from <= s@.len(),
    ensures
        from <= r <= s@.len(),
        forall|k: int| from <= k < r ==> s@[k] != b,
        r < s@.len() ==> s@[r as int] == b,
{
    let mut i = from;
    while i < s.len() && s[i] != b
        invariant
            from <= i <= s@.len(),
            forall|k: int| from <= k < i ==> s@[k] != b,
        decreases s@.len() - i,
    {
        i = i + 1;
    }
    i
}

/// Splitting gives at least one part.
pub proof fn lemma_split_on_nonempty(s: Seq<u8>, b: u8)
    ensures
        split_on(s, b).len() >= 1,
{
}

/// Splitting text that starts at `start`, where the next `b` is at `j`.
proof fn lemma_split_at(body: Seq<u8>, start: int, j: int, b: u8)
    requires
        0 <= start <= j <= body.len(),
        forall|k: int| start <= k < j ==> body[k] != b,
        j == body.len() || body[j] == b,
    ensures
        split_on(body.subrange(start, body.len() as int), b) == if j < body.len() {
            seq![body.subrange(start, j)] + split_on(body.subrange(j + 1, body.len() as int), b)
        } else {
            seq![body.subrange(start, body.len() as int)]
        },
{
    let s = body.subrange(start, body.len() as int);
    lemma_first_index_of_at(s, b, j - start);
    if j < body.len() {
        assert(s.subrange(0, j - start) =~= body.subrange(start, j));
        assert(s.subrange(j - start + 1, s.len() as int) =~= body.subrange(j + 1, body.len() as int));
    }
}

/// Whether slicing `s` at `n` stays on a character boundary.
fn sliceable(s: &[u8], n: usize) -> (r: bool)
    ensures
        r == sliceable_at(s@, n as int),
{
    s.len() >= n && (s.len() == n || !(0x80 <= s[n] && s[n] < 0xc0))
}

/// Whether `pat` occurs in `s`.
fn contains_slice(s: &[u8], pat: &[u8]) -> (r: bool)
    ensures
        r == contains_bytes(s@, pat@),
{
    if pat.len() > s.len() {
        return false;
    }
    let last = s.len() - pat.len();
    let mut i: usize = 0;
    loop
        invariant
            pat@.len() <= s@.len(),
            last == s@.len() - pat@.len(),
            last + pat.len() == s.len(),
            i <= last,
            forall|k: int| 0 <= k < i ==> #[trigger] s@.subrange(k, k + pat@.len()) != pat@,
        decreases last - i,
    {
        if bytes_equal(&s[i..i + pat.len()], pat) {
            return true;
        }
        if i == last {
            assert forall|k: int| 0 <= k && k + pat@.len() <= s@.len() implies #[trigger] s@.subrange(k, k + pat@.len()) != pat@ by {}
            return false;
        }
        i = i + 1;
    }
}

/// Reads the advertised references from the line that starts at `start`,
/// which is line `k` of `lines`.
fn read_refs(body: &[u8], start: usize, Ghost(lines): Ghost<Seq<Seq<u8>>>, Ghost(k0): Ghost<int>) -> (r: Option<Result<Vec<Vec<u8>>, CloneError>>)
    requires
        start <= body@.len(),
        0 <= k0 < lines.len(),
        lines.subrange(k0, lines.len() as int) == split_on(body@.subrange(start as int, body@.len() as int), 0x0a),
    ensures
        refs_from(lines, k0) == match r {
            Some(Ok(v)) => Some(Ok::<Seq<Seq<u8>>, CloneError>(views_of(v@))),
            Some(Err(e)) => Some(Err::<Seq<Seq<u8>>, CloneError>(e)),
            None => None,
        },
{
    let ghost c = body@;
    let n = body.len();
    let mut out: Vec<Vec<u8>> = Vec::new();
    let mut start = start;
    let ghost mut k: int = k0;
    assert(views_of(out@) =~= Seq::<Seq<u8>>::empty());
    assert(with_prefix(views_of(out@), refs_from(lines, k)) == refs_from(lines, k));
    loop
        invariant
            c == body@,
            n == body@.len(),
            0 <= k0 <= k < lines.len(),
            start <= n,
            lines.subrange(k, lines.len() as int) == split_on(c.subrange(start as int, n as int), 0x0a),
            refs_from(lines, k0) == with_prefix(views_of(out@), refs_from(lines, k)),
        decreases n + 1 - start,
    {
        let j = find_byte(body, start, 0x0a);
        proof {
            lemma_split_at(c, start as int, j as int, 0x0a);
            assert(lines[k] == lines.subrange(k, lines.len() as int)[0]);
        }
        let line = &body[start..j];
        assert(line@ == lines[k]);
        let flush: [u8; 4] = [0x30, 0x30, 0x30, 0x30];
        assert(flush@ =~= flush_packet());
        if bytes_equal(line, &flush) {
            assert(views_of(out@) + Seq::<Seq<u8>>::empty() =~= views_of(out@));
            return Some(Ok(out));
        }
        if !sliceable(line, 4) {
            return None;
        }
        let sp = find_byte(line, 4, 0x20);
        proof {
            let h = line@;
            let t = h.subrange(4, h.len() as int);
            assert forall|q: int| 0 <= q < sp - 4 implies t[q] != 0x20 by {
                assert(t[q] == h[q + 4]);
            }
            lemma_first_index_of_at(t, 0x20, sp - 4);
        }
        if sp == line.len() {
            return Some(Err(CloneError::BadReference));
        }
        let name = slice_to_vec(&line[4..sp]);
        assert(name@ =~= line@.subrange(4, 4 + (sp - 4)));
        let ghost before = views_of(out@);
        out.push(name);
        proof {
            assert(views_of(out@) =~= before.push(name@));
            match refs_from(lines, k + 1) {
                Some(Ok(rest)) => {
                    assert(before + (seq![name@] + rest) =~= views_of(out@) + rest);
                },
                _ => {},
            }
        }
        if j == n {
            proof {
                assert(lines.subrange(k, lines.len() as int).len() == 1);
                assert(views_of(out@) + Seq::<Seq<u8>>::empty() =~= views_of(out@));
            }
            return Some(Ok(out));
        }
        proof {
            let tail = lines.subrange(k, lines.len() as int);
            assert(lines.subrange(k + 1, lines.len() as int) =~= tail.subrange(1, tail.len() as int));
            assert(tail.subrange(1, tail.len() as int) =~= split_on(c.subrange(j + 1, n as int), 0x0a));
            k = k + 1;
        }
        start = j + 1;
    }
}

/// Reads the line that names HEAD, which starts at `start` and is the
/// second of `lines`: the name of HEAD and where the line ends.
fn read_head(body: &[u8], start: usize, Ghost(lines): Ghost<Seq<Seq<u8>>>) -> (r: Option<Result<(Vec<u8>, usize), CloneError>>)
    requires
        start <= body@.len(),
        lines.len() >= 1,
        lines.subrange(1, lines.len() as int) == split_on(body@.subrange(start as int, body@.len() as int), 0x0a),
    ensures
        match r {
            Some(Ok((head, end))) => {
                &&& start <= end <= body@.len()
                &&& (end < body@.len() ==> lines.subrange(2, lines.len() as int) == split_on(body@.subrange(end + 1, body@.len() as int), 0x0a))
                &&& (end == body@.len() ==> lines.len() == 2)
                &&& sliceable_at(lines[1], 8)
                &&& first_index_of(lines[1].subrange(8, lines[1].len() as int), 0x20) matches Some(i)
                &&& head@ == lines[1].subrange(8, 8 + i)
                &&& contains_bytes(lines[1].subrange(8 + i + 1, lines[1].len() as int), head_word())
            },
            Some(Err(e)) => sliceable_at(lines[1], 8) && match first_index_of(lines[1].subrange(8, lines[1].len() as int), 0x20) {
                None => e == CloneError::MissingHead,
                Some(i) => e == CloneError::HeadNotFirst && !contains_bytes(lines[1].subrange(8 + i + 1, lines[1].len() as int), head_word()),
            },
            None => !sliceable_at(lines[1], 8),
        },
{
    let ghost c = body@;
    let n = body.len();
    let j1 = find_byte(body, start, 0x0a);
    proof {
        lemma_split_on_nonempty(c.subrange(start as int, c.len() as int), 0x0a);
        lemma_split_at(c, start as int, j1 as int, 0x0a);
        if j1 < n {
            lemma_split_on_nonempty(c.subrange(j1 + 1, c.len() as int), 0x0a);
        }
        let tail = lines.subrange(1, lines.len() as int);
        assert(lines[1] == tail[0]);
        if j1 < n {
            assert(lines.subrange(2, lines.len() as int) =~= tail.subrange(1, tail.len() as int));
        }
    }
    let head_line = &body[start..j1];
    if !sliceable(head_line, 8) {
        return None;
    }
    let sp = find_byte(head_line, 8, 0x20);
    proof {
        let h = head_line@;
        let t = h.subrange(8, h.len() as int);
        assert forall|k: int| 0 <= k < sp - 8 implies t[k] != 0x20 by {
            assert(t[k] == h[k + 8]);
        }
        lemma_first_index_of_at(t, 0x20, sp - 8);
    }
    if sp == head_line.len() {
        return Some(Err(CloneError::MissingHead));
    }
    let rest = &head_line[sp + 1..head_line.len()];
    let head_word_bytes: [u8; 4] = [0x48, 0x45, 0x41, 0x44];
    assert(head_word_bytes@ =~= head_word());
    proof {
        let h = head_line@;
        assert(rest@ =~= h.subrange(8 + (sp - 8) + 1, h.len() as int));
    }
    if !contains_slice(rest, &head_word_bytes) {
        return Some(Err(CloneError::HeadNotFirst));
    }
    let head = slice_to_vec(&head_line[8..sp]);
    assert(head@ =~= head_line@.subrange(8, 8 + (sp - 8)));
    Some(Ok((head, j1)))
}

/// Reads a reference advertisement; `None` where a line is too short to
/// slice where the protocol slices it.
pub fn try_parse_ref_discovery(status: u16, body: &[u8]) -> (r: Option<Result<(Vec<u8>, Vec<Vec<u8>>), CloneError>>)
    ensures
        discovery_view(r) == ref_discovery_of(status, body@),
{
    let ghost c = body@;
    if !(status == 200 || status == 304) {
        return Some(Err(CloneError::BadStatus));
    }
    let j0 = find_byte(body, 0, 0x0a);
    proof {
        lemma_split_at(c, 0, j0 as int, 0x0a);
        assert(c.subrange(0, c.len() as int) =~= c);
    }
    let matched = regex_is_match("^[0-9a-f]{4}# service=git-upload-pack", &body[0..j0]);
    read_ref_discovery(status, matched, body)
}

/// Reads a reference advertisement once its first line has been matched
/// against the service pattern, `matched` being what that gave: `None` for
/// a pattern that does not compile, else whether the line matches. The
/// result is `None` where a line is too short to slice where the protocol
/// slices it.
pub fn read_ref_discovery(status: u16, matched: Option<bool>, body: &[u8]) -> (r: Option<Result<(Vec<u8>, Vec<Vec<u8>>), CloneError>>)
    ensures
        discovery_view(r) == ref_discovery_given(status, matched, body@),
{
    let ghost c = body@;
    let ghost lines = split_on(c, 0x0a);
    let n = body.len();
    if !(status == 200 || status == 304) {
        return Some(Err(CloneError::BadStatus));
    }
    let j0 = find_byte(body, 0, 0x0a);
    proof {
        lemma_split_at(c, 0, j0 as int, 0x0a);
        assert(c.subrange(0, n as int) =~= c);
    }
    match matched {
        None => {
            return Some(Err(CloneError::BadPattern));
        },
        Some(false) => {
            return Some(Err(CloneError::NotAdvertisement));
        },
        Some(true) => {},
    }
    if j0 == n {
        return Some(Err(CloneError::MissingHead));
    }
    let start1 = j0 + 1;
    proof {
        assert(lines.subrange(1, lines.len() as int) =~= split_on(c.subrange(start1 as int, n as int), 0x0a));
    }
    let (head, j1) = match read_head(body, start1, Ghost(lines)) {
        Some(Ok(h)) => h,
        Some(Err(e)) => {
            return Some(Err(e));
        },
        None => {
            return None;
        },
    };
    if j1 == n {
        let out: Vec<Vec<u8>> = Vec::new();
        assert(lines.len() == 2);
        assert(views_of(out@) =~= Seq::<Seq<u8>>::empty());
        return Some(Ok((head, out)));
    }
    let start = j1 + 1;
    proof {
        lemma_split_on_nonempty(c.subrange(start as int, n as int), 0x0a);
        assert(lines.subrange(2, lines.len() as int).len() >= 1);
    }
    match read_refs(body, start, Ghost(lines), Ghost(2)) {
        None => None,
        Some(Err(e)) => Some(Err(e)),
        Some(Ok(refs)) => Some(Ok((head, refs))),
    }
}

/// Whether `parse_ref_discovery` can read this reply: whether every line
/// that it slices is long enough, and sliced on a character boundary.
pub fn can_parse_ref_discovery(status: u16, body: &[u8]) -> (r: bool)
    ensures
        r == ref_discovery_of(status, body@) is Some,
{
    try_parse_ref_discovery(status, body).is_some()
}

/// Reads the reply to a reference discovery request: the status must be
/// 200 or 304, the first line must announce the upload-pack service, the
/// second must name HEAD, and each following line up to the flush packet
/// names a reference. Returns the name of HEAD and the other references.
pub fn parse_ref_discovery(status: u16, body: &[u8]) -> (r: Result<(Vec<u8>, Vec<Vec<u8>>), CloneError>)
    requires
        ref_discovery_of(status, body@) is Some,
    ensures
        ref_discovery_of(status, body@) == discovery_view(Some(r)),
{
    match try_parse_ref_discovery(status, body) {
        Some(r) => r,
        None => {
            proof {
                assert(false);
            }
            Err(CloneError::BadStatus)
        },
    }
}

/// The first `b` of two pieces of text one after the other: that of the
/// first piece, or else that of the second, counted from the start.
proof fn lemma_first_index_of_append(s: Seq<u8>, t: Seq<u8>, b: u8)
    ensures
        first_index_of(s + t, b) == match first_index_of(s, b) {
            Some(i) => Some(i),
            None => match first_index_of(t, b) {
                Some(j) => Some(s.len() + j),
                None => None::<int>,
            },
        },
    decreases s.len(),
{
    if s.len() > 0 {
        assert((s + t)[0] == s[0]);
        assert((s + t).drop_first() =~= s.drop_first() + t);
        lemma_first_index_of_append(s.drop_first(), t, b);
    } else {
        assert(s + t =~= t);
    }
}

/// Splitting two pieces of text joined by a separator gives the parts of
/// the first followed by the parts of the second.
proof fn lemma_split_on_join(s: Seq<u8>, t: Seq<u8>, b: u8)
    ensures
        split_on(s + seq![b] + t, b) == split_on(s, b) + split_on(t, b),
    decreases s.len(),
{
    let whole = s + seq![b] + t;
    assert(whole =~= s + (seq![b] + t));
    lemma_first_index_of_append(s, seq![b] + t, b);
    assert(first_index_of(seq![b] + t, b) == Some(0int));
    lemma_first_index_of_range(s, b);
    match first_index_of(s, b) {
        Some(i) => {
            let s2 = s.subrange(i + 1, s.len() as int);
            assert(whole.subrange(0, i) =~= s.subrange(0, i));
            assert(whole.subrange(i + 1, whole.len() as int) =~= s2 + seq![b] + t);
            lemma_split_on_join(s2, t, b);
            assert(split_on(whole, b) =~= split_on(s, b) + split_on(t, b));
        },
        None => {
            assert(whole.subrange(0, s.len() as int) =~= s);
            assert(whole.subrange(s.len() as int + 1, whole.len() as int) =~= t);
            assert(split_on(whole, b) =~= split_on(s, b) + split_on(t, b));
        },
    }
}

/// The references read from line `j` on depend only on the lines up to a
/// flush packet.
proof fn lemma_refs_from_agree(l1: Seq<Seq<u8>>, l2: Seq<Seq<u8>>, j: int, k: int)
    requires
        0 <= j <= k,
        k < l1.len(),
        k < l2.len(),
        l1[k] == flush_packet(),
        forall|i: int| j <= i <= k ==> l1[i] == l2[i],
    ensures
        refs_from(l1, j) == refs_from(l2, j),
    decreases k - j,
{
    if l1[j] != flush_packet() {
        lemma_refs_from_agree(l1, l2, j + 1, k);
    }
}

/// The lines of a flush packet followed by text that is empty or starts a
/// new line: the flush packet, then the lines of that text.
proof fn lemma_flush_line(x: Seq<u8>)
    requires
        x.len() == 0 || x[0] == 0x0a,
    ensures
        split_on(flush_packet() + x, 0x0a)[0] == flush_packet(),
{
    let f = flush_packet();
    lemma_first_index_of_at(f, 0x0a, 4);
    if x.len() == 0 {
        assert(f + x =~= f);
    } else {
        let rest = x.subrange(1, x.len() as int);
        assert(f + x =~= f + seq![0x0au8] + rest);
        lemma_split_on_join(f, rest, 0x0a);
    }
}

/// Law: the lines after a flush packet that ends the list of references
/// are never read: in a reply whose flush packet stands on the third line
/// or later, whatever follows that line can be replaced without changing
/// what the reply is read as.
pub proof fn lemma_after_flush_ignored(status: u16, q: Seq<u8>, x: Seq<u8>, y: Seq<u8>)
    requires
        split_on(q, 0x0a).len() >= 2,
        x.len() == 0 || x[0] == 0x0a,
        y.len() == 0 || y[0] == 0x0a,
    ensures
        ref_discovery_of(status, q + seq![0x0au8] + (flush_packet() + x))
            == ref_discovery_of(status, q + seq![0x0au8] + (flush_packet() + y)),
{
    let f = flush_packet();
    let lq = split_on(q, 0x0a);
    let k = lq.len() as int;
    lemma_split_on_join(q, f + x, 0x0a);
    lemma_split_on_join(q, f + y, 0x0a);
    lemma_flush_line(x);
    lemma_flush_line(y);
    lemma_split_on_nonempty(f + x, 0x0a);
    lemma_split_on_nonempty(f + y, 0x0a);
    let l1 = split_on(q + seq![0x0au8] + (f + x), 0x0a);
    let l2 = split_on(q + seq![0x0au8] + (f + y), 0x0a);
    assert(l1 == lq + split_on(f + x, 0x0a));
    assert(l2 == lq + split_on(f + y, 0x0a));
    assert(l1[k] == f);
    assert forall|i: int| 2 <= i <= k implies l1[i] == l2[i] by {
        if i < k {
            assert(l1[i] == lq[i]);
            assert(l2[i] == lq[i]);
        }
    }
    lemma_refs_from_agree(l1, l2, 2, k);
    assert(l1[0] == l2[0]);
    assert(l1[1] == l2[1]);
}

/// The pack in the reply to an upload-pack request: the reply's first
/// eight bytes (the acknowledgement line) are dropped unread, and the rest
/// is accepted as `PackFile::new` accepts a pack.
pub fn pack_from_upload_response(response: Vec<u8>) -> (r: Result<PackFile, PackError>)
    requires
        response@.len() >= 28,
    ensures
        pack_result_view(r) == new_pack_of(response@.subrange(8, response@.len() as int)),
{
    let mut response = response;
    let ghost whole = response@;
    let data = response.split_off(8);
    assert(data@ =~= whole.subrange(8, whole.len() as int));
    PackFile::new(data)
}

} // verus!

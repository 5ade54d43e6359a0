use vstd::prelude::*;
use crate::commands::clone::{first_index_of, find_byte, lemma_first_index_of_at};
use crate::packfile::ObjectKind;
use crate::zlib::{inflate_prefix, inflate_until, zlib_inflate_prefix, zlib_read_until};

verus! {

/// Errors that `cat-file` can end in.
#[derive(Debug, Clone, Copy, PartialEq, Eq, Structural)]
pub enum CatFileError {
    /// `-p` was not given; no other mode is supported.
    ModeRequired,
    /// The object header has no space after its kind.
    MissingKind,
    /// The object header names a kind other than `blob`.
    UnknownKind,
    /// The object header's size is not a decimal number that fits 64 bits.
    BadSize,
    /// The object is a tree, which cannot be printed yet.
    TreeUnsupported,
    /// The object is neither a blob nor a tree.
    NotPrintable,
    /// Another number of bytes was printed than the header gives.
    SizeMismatch,
    /// The header line of the stored object could not be decompressed.
    ReadFailed,
    /// The content of the stored object could not be decompressed.
    ContentReadFailed,
    /// The object header is not valid UTF-8.
    NotUtf8,
}

/// The bytes of `blob`.
pub open spec fn blob_word() -> Seq<u8> {
    seq![0x62u8, 0x6c, 0x6f, 0x62]
}

/// Whether every byte of `s` is an ASCII digit.
pub open spec fn all_digits(s: Seq<u8>) -> bool {
    forall|i: int| 0 <= i < s.len() ==> 0x30 <= #[trigger] s[i] <= 0x39
}

/// The number that decimal digits write, most significant first.
pub open spec fn decimal_value(s: Seq<u8>) -> nat
    decreases s.len(),
{
    if s.len() == 0 {
        0
    } else {
        decimal_value(s.drop_last()) * 10 + (s.last() - 0x30) as nat
    }
}

/// What parsing text as a `u64` gives, as std's `from_str` documents it: an
/// optional `+`, then one or more digits whose value fits 64 bits.
pub open spec fn parse_u64_of(s: Seq<u8>) -> Option<u64> {
    let d = if s.len() > 0 && s[0] == 0x2b { s.drop_first() } else { s };
    if d.len() == 0 || !all_digits(d) || decimal_value(d) > u64::MAX {
        None
    } else {
        Some(decimal_value(d) as u64)
    }
}

/// More digits never make a smaller number.
pub proof fn lemma_decimal_value_prefix(s: Seq<u8>, k: int)
    requires
        0 <= k <= s.len(),
        all_digits(s),
    ensures
        decimal_value(s.subrange(0, k)) <= decimal_value(s),
    decreases s.len(),
{
    if k < s.len() {
        assert(s.drop_last().subrange(0, k) =~= s.subrange(0, k));
        assert forall|i: int| 0 <= i < s.drop_last().len() implies 0x30 <= #[trigger] s.drop_last()[i] <= 0x39 by {
            assert(s.drop_last()[i] == s[i]);
        }
        lemma_decimal_value_prefix(s.drop_last(), k);
    } else {
        assert(s.subrange(0, k) =~= s);
    }
}

/// Parses decimal text as a `u64`: an optional `+`, then one or more digits
/// whose value fits 64 bits.
pub fn parse_u64(s: &[u8]) -> (r: Option<u64>)
    ensures
        r == parse_u64_of(s@),
{
    let ghost full = s@;
    let start: usize = if s.len() > 0 && s[0] == 0x2b { 1 } else { 0 };
    let ghost d = if full.len() > 0 && full[0] == 0x2b { full.drop_first() } else { full };
    assert(d =~= full.subrange(start as int, full.len() as int));
    assert(parse_u64_of(full) == (if d.len() == 0 || !all_digits(d) || decimal_value(d) > u64::MAX {
        None
    } else {
        Some(decimal_value(d) as u64)
    }));
    if start == s.len() {
        return None;
    }
    let mut value: u64 = 0;
    let mut i: usize = start;
    while i < s.len()
        invariant
            full == s@,
            d == full.subrange(start as int, full.len() as int),
            parse_u64_of(full) == (if d.len() == 0 || !all_digits(d) || decimal_value(d) > u64::MAX {
                None
            } else {
                Some(decimal_value(d) as u64)
            }),
            start <= i <= full.len(),
            forall|k: int| start <= k < i ==> 0x30 <= #[trigger] full[k] <= 0x39,
            value as nat == decimal_value(full.subrange(start as int, i as int)),
        decreases s.len() - i,
    {
        let b = s[i];
        let ghost prefix = full.subrange(start as int, i as int);
        let ghost next = full.subrange(start as int, i + 1);
        assert(next.drop_last() =~= prefix);
        if b < 0x30 || b > 0x39 {
            assert(d[i - start] == b);
            return None;
        }
        let digit = (b - 0x30) as u64;
        if value > (u64::MAX - digit) / 10 {
            proof {
                assert(value * 10 + digit > u64::MAX);
                assert(decimal_value(next) == value * 10 + digit);
                if all_digits(d) {
                    lemma_decimal_value_prefix(d, i + 1 - start);
                    assert(d.subrange(0, i + 1 - start) =~= next);
                }
            }
            return None;
        }
        value = value * 10 + digit;
        i = i + 1;
    }
    assert(full.subrange(start as int, i as int) =~= d);
    Some(value)
}

/// What an object header (the bytes before its NUL) gives: the kind, up to
/// the first space, must be `blob`, and the rest must parse as the size.
pub open spec fn object_header_of(header: Seq<u8>) -> Result<u64, CatFileError> {
    match first_index_of(header, 0x20) {
        None => Err(CatFileError::MissingKind),
        Some(i) => if header.subrange(0, i) != blob_word() {
            Err(CatFileError::UnknownKind)
        } else {
            match parse_u64_of(header.subrange(i + 1, header.len() as int)) {
                None => Err(CatFileError::BadSize),
                Some(size) => Ok(size),
            }
        },
    }
}

/// Reads an object header, the bytes before its NUL: `blob`, a space and
/// the size in decimal. Returns the size.
pub fn parse_object_header(header: &[u8]) -> (r: Result<u64, CatFileError>)
    ensures
        r == object_header_of(header@),
{
    let ghost h = header@;
    let mut i: usize = 0;
    while i < header.len() && header[i] != 0x20
        invariant
            h == header@,
            i <= h.len(),
            forall|k: int| 0 <= k < i ==> h[k] != 0x20,
        decreases h.len() - i,
    {
        i = i + 1;
    }
    proof {
        crate::commands::clone::lemma_first_index_of_at(h, 0x20, i as int);
    }
    if i == header.len() {
        return Err(CatFileError::MissingKind);
    }
    let kind = &header[0..i];
    let is_blob = kind.len() == 4 && kind[0] == 0x62 && kind[1] == 0x6c && kind[2] == 0x6f && kind[3] == 0x62;
    proof {
        if kind@.len() == 4 {
            assert(is_blob == (kind@ =~= blob_word()));
        } else {
            assert(kind@ != blob_word());
        }
    }
    if !is_blob {
        return Err(CatFileError::UnknownKind);
    }
    match parse_u64(&header[i + 1..header.len()]) {
        None => Err(CatFileError::BadSize),
        Some(size) => Ok(size),
    }
}

/// Checks the mode of a `cat-file` call: only `-p` is supported.
pub fn check_mode(pretty_print: bool) -> (r: Result<(), CatFileError>)
    ensures
        r == if pretty_print { Ok::<(), CatFileError>(()) } else { Err(CatFileError::ModeRequired) },
{
    if pretty_print {
        Ok(())
    } else {
        Err(CatFileError::ModeRequired)
    }
}

/// Whether an object of this kind can be printed: a blob can; a tree
/// cannot yet; nothing else can.
pub fn check_printable(kind: ObjectKind) -> (r: Result<(), CatFileError>)
    ensures
        r == match kind {
            ObjectKind::Blob => Ok::<(), CatFileError>(()),
            ObjectKind::Tree => Err(CatFileError::TreeUnsupported),
            _ => Err(CatFileError::NotPrintable),
        },
{
    match kind {
        ObjectKind::Blob => Ok(()),
        ObjectKind::Tree => Err(CatFileError::TreeUnsupported),
        _ => Err(CatFileError::NotPrintable),
    }
}

/// Checks that as many bytes were printed as the object header gives.
pub fn check_printed_size(printed: u64, expected: u64) -> (r: Result<(), CatFileError>)
    ensures
        r == if printed == expected { Ok::<(), CatFileError>(()) } else { Err(CatFileError::SizeMismatch) },
{
    if printed == expected {
        Ok(())
    } else {
        Err(CatFileError::SizeMismatch)
    }
}

/// Whether `bytes` are valid UTF-8, as std's `str::from_utf8` decides.
#[verifier::external_body]
fn utf8_valid(bytes: &[u8]) -> (r: bool)
    ensures
        r == vstd::utf8::valid_utf8(bytes@),
{
    std::str::from_utf8(bytes).is_ok()
}

/// What the header line of an object (the bytes before its NUL) gives:
/// it must be UTF-8, then `blob`, a space and the size in decimal.
pub open spec fn header_line_of(line: Seq<u8>) -> Result<u64, CatFileError> {
    if !vstd::utf8::valid_utf8(line) {
        Err(CatFileError::NotUtf8)
    } else {
        object_header_of(line)
    }
}

/// Reads the header line of an object, the bytes before its NUL: it must be
/// UTF-8, then `blob`, a space and the size in decimal. Returns the size.
pub fn read_header_line(line: &[u8]) -> (r: Result<u64, CatFileError>)
    ensures
        r == header_line_of(line@),
{
    if !utf8_valid(line) {
        return Err(CatFileError::NotUtf8);
    }
    parse_object_header(line)
}

/// What `cat-file -p` prints of an object whose decompressed bytes are
/// `raw`: the header line up to the first NUL gives the size, and the first
/// that many bytes after the NUL are the content; fewer than that many is a
/// size mismatch. `None` where `raw` holds no NUL.
pub open spec fn blob_of_raw(raw: Seq<u8>) -> Option<Result<Seq<u8>, CatFileError>> {
    match first_index_of(raw, 0) {
        None => None,
        Some(i) => Some(match header_line_of(raw.subrange(0, i)) {
            Err(e) => Err(e),
            Ok(size) => if raw.len() - (i + 1) < size {
                Err(CatFileError::SizeMismatch)
            } else {
                Ok(raw.subrange(i + 1, i + 1 + size))
            },
        }),
    }
}

/// The content of a blob from its decompressed bytes: the header line up
/// to the first NUL, `blob`, a space and the size, then the first `size`
/// bytes after the NUL. An object without a NUL has no header line.
pub fn cat_blob_from_raw(raw: &[u8]) -> (r: Result<Vec<u8>, CatFileError>)
    requires
        first_index_of(raw@, 0) is Some,
    ensures
        blob_of_raw(raw@) == Some(match r {
            Ok(v) => Ok::<Seq<u8>, CatFileError>(v@),
            Err(e) => Err::<Seq<u8>, CatFileError>(e),
        }),
{
    let i = find_byte(raw, 0, 0);
    proof {
        lemma_first_index_of_at(raw@, 0, i as int);
    }
    let size = match read_header_line(&raw[0..i]) {
        Ok(size) => size,
        Err(e) => {
            return Err(e);
        },
    };
    let rest: usize = raw.len() - (i + 1);
    if (rest as u64) < size {
        return Err(CatFileError::SizeMismatch);
    }
    let end: usize = i + 1 + size as usize;
    Ok(vstd::slice::slice_to_vec(&raw[i + 1..end]))
}

/// What `cat-file -p` makes of a stored (zlib-compressed) object: the
/// decompressed bytes up to the first NUL are the header line; after them
/// at most as many bytes as the header gives are decompressed, and those
/// are the content to print, with the size the header gave. `None` where
/// the decompressed bytes end before any NUL.
pub open spec fn cat_blob_of(stored: Seq<u8>) -> Option<Result<(Seq<u8>, u64), CatFileError>> {
    match zlib_read_until(stored, 0) {
        None => Some(Err(CatFileError::ReadFailed)),
        Some(line) => if line.len() == 0 || line.last() != 0 {
            None
        } else {
            match header_line_of(line.drop_last()) {
                Err(e) => Some(Err(e)),
                Ok(size) => {
                    let limit = if line.len() + size > u64::MAX { u64::MAX } else { (line.len() + size) as u64 };
                    match zlib_inflate_prefix(stored, limit) {
                        None => Some(Err(CatFileError::ContentReadFailed)),
                        Some(out) => if out.len() < line.len() {
                            Some(Err(CatFileError::ContentReadFailed))
                        } else {
                            Some(Ok((out.subrange(line.len() as int, out.len() as int), size)))
                        },
                    }
                },
            }
        },
    }
}

/// The content to print of a stored (zlib-compressed) object, with the
/// size its header gives: the decompressed header line up to the first NUL
/// must be UTF-8, `blob`, a space and the size; then no more than that many
/// bytes of content are decompressed, however long the stream is. `None`
/// where the decompressed bytes end before any NUL.
pub fn cat_blob(stored: &[u8]) -> (r: Option<Result<(Vec<u8>, u64), CatFileError>>)
    ensures
        cat_blob_of(stored@) == match r {
            Some(Ok((content, size))) => Some(Ok::<(Seq<u8>, u64), CatFileError>((content@, size))),
            Some(Err(e)) => Some(Err::<(Seq<u8>, u64), CatFileError>(e)),
            None => None,
        },
        r matches Some(Ok((content, size))) ==> content@.len() <= size,
{
    let line = match inflate_until(stored, 0) {
        None => {
            return Some(Err(CatFileError::ReadFailed));
        },
        Some(line) => line,
    };
    let n = line.len();
    if n == 0 || line[n - 1] != 0 {
        return None;
    }
    assert(line@.drop_last() =~= line@.subrange(0, n - 1));
    let size = match read_header_line(&line.as_slice()[0..n - 1]) {
        Ok(size) => size,
        Err(e) => {
            return Some(Err(e));
        },
    };
    let limit: u64 = if (n as u64) > u64::MAX - size { u64::MAX } else { n as u64 + size };
    let out = match inflate_prefix(stored, limit) {
        None => {
            return Some(Err(CatFileError::ContentReadFailed));
        },
        Some(out) => out,
    };
    if out.len() < n {
        return Some(Err(CatFileError::ContentReadFailed));
    }
    let content = vstd::slice::slice_to_vec(&out.as_slice()[n..out.len()]);
    Some(Ok((content, size)))
}

} // verus!

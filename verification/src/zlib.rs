use vstd::prelude::*;

verus! {

/// What zlib decoding makes of the stream at the start of `input`: the
/// decoded bytes, the number of input bytes the decoder consumed and the
/// number of bytes it produced; `None` where `input` does not start with a
/// complete, valid zlib stream.
pub uninterp spec fn zlib_inflate(input: Seq<u8>) -> Option<(Seq<u8>, u64, u64)>;

/// Decodes the zlib stream at the start of `input` with flate2's
/// `bufread::ZlibDecoder`, reading it to its end with `Read::read_to_end`,
/// and reports `total_in` and `total_out` of the decoder. The contract
/// claims that the outcome is a function of `input`, named
/// `zlib_inflate` (what that function is, is zlib's format), and what
/// flate2 documents of the two counts: `total_in` is the number of bytes
/// the decompressor consumed, so no more than `input` holds, and
/// `total_out` the number it produced, all of which `read_to_end` appended.
#[verifier::external_body]
pub(crate) fn inflate(input: &[u8]) -> (r: Option<(Vec<u8>, u64, u64)>)
    ensures
        zlib_inflate(input@) == match r {
            Some((out, consumed, produced)) => Some((out@, consumed, produced)),
            None => None::<(Seq<u8>, u64, u64)>,
        },
        r matches Some((out, consumed, produced)) ==> consumed <= input@.len() && produced == out@.len(),
{
    let mut decoder = flate2::bufread::ZlibDecoder::new(input);
    let mut out = Vec::new();
    match std::io::Read::read_to_end(&mut decoder, &mut out) {
        Ok(_) => Some((out, decoder.total_in(), decoder.total_out())),
        Err(_) => None,
    }
}

/// What reading the zlib stream in `input` through a buffered reader up to
/// the first `delim` gives: the decoded bytes up to and including the first
/// `delim`, or up to the end of the stream where none comes; `None` where
/// the decoder reports an error first.
pub uninterp spec fn zlib_read_until(input: Seq<u8>, delim: u8) -> Option<Seq<u8>>;

/// Decodes the zlib stream in `input` with flate2's `read::ZlibDecoder`,
/// wrapped in std's `BufReader`, and reads with `BufRead::read_until` up to
/// the first `delim`. The contract claims that the outcome is a function of
/// `input` and `delim`, named `zlib_read_until`, and what std documents of
/// `read_until`: the bytes read hold `delim` at most as their last byte.
#[verifier::external_body]
pub(crate) fn inflate_until(input: &[u8], delim: u8) -> (r: Option<Vec<u8>>)
    ensures
        zlib_read_until(input@, delim) == match r {
            Some(v) => Some(v@),
            None => None::<Seq<u8>>,
        },
        r matches Some(v) ==> forall|i: int| 0 <= i < v@.len() - 1 ==> v@[i] != delim,
{
    let mut reader = std::io::BufReader::new(flate2::read::ZlibDecoder::new(input));
    let mut buf = Vec::new();
    match std::io::BufRead::read_until(&mut reader, delim, &mut buf) {
        Ok(_) => Some(buf),
        Err(_) => None,
    }
}

/// What decoding the zlib stream in `input` gives when no more than `limit`
/// decoded bytes are read; `None` where the decoder reports an error first.
pub uninterp spec fn zlib_inflate_prefix(input: Seq<u8>, limit: u64) -> Option<Seq<u8>>;

/// Decodes the zlib stream in `input` with flate2's `read::ZlibDecoder`,
/// limited by std's `Read::take` to `limit` bytes, and reads to the end
/// with `Read::read_to_end`. The contract claims that the outcome is a
/// function of `input` and `limit`, named `zlib_inflate_prefix`, and what
/// std documents of `take`: no more than `limit` bytes come out.
#[verifier::external_body]
pub(crate) fn inflate_prefix(input: &[u8], limit: u64) -> (r: Option<Vec<u8>>)
    ensures
        zlib_inflate_prefix(input@, limit) == match r {
            Some(v) => Some(v@),
            None => None::<Seq<u8>>,
        },
        r matches Some(v) ==> v@.len() <= limit,
{
    let mut reader = std::io::Read::take(flate2::read::ZlibDecoder::new(input), limit);
    let mut out = Vec::new();
    match std::io::Read::read_to_end(&mut reader, &mut out) {
        Ok(_) => Some(out),
        Err(_) => None,
    }
}

/// What zlib compression at `level` makes of `data`; `None` where the
/// encoder reports an error.
pub uninterp spec fn zlib_deflate(data: Seq<u8>, level: u32) -> Option<Seq<u8>>;

/// Compresses `data` into a zlib stream with flate2's
/// `write::ZlibEncoder` at `Compression::new(level)`, writing all of
/// `data` and finishing the stream. The contract claims only that the
/// outcome is a function of `data` and `level`, named `zlib_deflate`.
/// flate2 asserts in debug builds that the level is at most 10; zlib's
/// levels go up to 9, which is what is admitted here.
#[verifier::external_body]
pub(crate) fn deflate(data: &[u8], level: u32) -> (r: Option<Vec<u8>>)
    requires
        level <= 9,
    ensures
        zlib_deflate(data@, level) == match r {
            Some(v) => Some(v@),
            None => None::<Seq<u8>>,
        },
{
    let mut encoder = flate2::write::ZlibEncoder::new(Vec::new(), flate2::Compression::new(level));
    match std::io::Write::write_all(&mut encoder, data) {
        Ok(()) => match encoder.finish() {
            Ok(v) => Some(v),
            Err(_) => None,
        },
        Err(_) => None,
    }
}

} // verus!

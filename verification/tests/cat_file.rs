use std::io::Write;

use my_git::commands::cat_file::{
    cat_blob, cat_blob_from_raw, check_mode, check_printable, check_printed_size, parse_object_header, parse_u64,
    read_header_line, CatFileError,
};
use my_git::commands::ls_tree::{invoke, LsTreeError};
use my_git::packfile::ObjectKind;

#[test]
fn blob_header() {
    assert_eq!(parse_object_header(b"blob 12"), Ok(12));
    assert_eq!(parse_object_header(b"blob +7"), Ok(7));
    assert_eq!(parse_object_header(b"blob 0"), Ok(0));
}

#[test]
fn header_errors() {
    assert_eq!(parse_object_header(b"blob"), Err(CatFileError::MissingKind));
    assert_eq!(parse_object_header(b"tree 3"), Err(CatFileError::UnknownKind));
    assert_eq!(parse_object_header(b"blob x"), Err(CatFileError::BadSize));
    assert_eq!(parse_object_header(b"blob "), Err(CatFileError::BadSize));
    assert_eq!(parse_object_header(b"blob 1 2"), Err(CatFileError::BadSize));
}

#[test]
fn decimal_parse_bounds() {
    assert_eq!(parse_u64(b"18446744073709551615"), Some(u64::MAX));
    assert_eq!(parse_u64(b"18446744073709551616"), None);
    assert_eq!(parse_u64(b"+"), None);
    assert_eq!(parse_u64(b"-1"), None);
    assert_eq!(parse_u64(b"007"), Some(7));
    assert_eq!(parse_u64(b""), None);
}

#[test]
fn cat_file_checks() {
    assert_eq!(check_mode(true), Ok(()));
    assert_eq!(check_mode(false), Err(CatFileError::ModeRequired));
    assert_eq!(check_printable(ObjectKind::Blob), Ok(()));
    assert_eq!(check_printable(ObjectKind::Tree), Err(CatFileError::TreeUnsupported));
    assert_eq!(check_printable(ObjectKind::Commit), Err(CatFileError::NotPrintable));
    assert_eq!(check_printed_size(3, 3), Ok(()));
    assert_eq!(check_printed_size(2, 3), Err(CatFileError::SizeMismatch));
}

#[test]
fn ls_tree_needs_name_only() {
    assert_eq!(invoke(true), Ok(()));
    assert_eq!(invoke(false), Err(LsTreeError::NameOnlyRequired));
}

fn zlib(data: &[u8]) -> Vec<u8> {
    let mut e = flate2::write::ZlibEncoder::new(Vec::new(), flate2::Compression::default());
    e.write_all(data).unwrap();
    e.finish().unwrap()
}

#[test]
fn header_line_must_be_utf8() {
    assert_eq!(read_header_line(b"blob 3"), Ok(3));
    assert_eq!(read_header_line(&[0xff, b' ', b'3']), Err(CatFileError::NotUtf8));
    // the UTF-8 check comes before the kind is looked at
    assert_eq!(read_header_line(&[b't', 0xc3]), Err(CatFileError::NotUtf8));
    assert_eq!(read_header_line("tr\u{e9}e 3".as_bytes()), Err(CatFileError::UnknownKind));
}

#[test]
fn blob_from_raw_bytes() {
    assert_eq!(cat_blob_from_raw(b"blob 5\0hello"), Ok(b"hello".to_vec()));
    // only as many bytes as the header gives
    assert_eq!(cat_blob_from_raw(b"blob 3\0hello"), Ok(b"hel".to_vec()));
    assert_eq!(cat_blob_from_raw(b"blob 0\0"), Ok(Vec::new()));
    assert_eq!(cat_blob_from_raw(b"blob 6\0hello"), Err(CatFileError::SizeMismatch));
    assert_eq!(cat_blob_from_raw(b"tree 5\0hello"), Err(CatFileError::UnknownKind));
    assert_eq!(cat_blob_from_raw(b"blob\0hello"), Err(CatFileError::MissingKind));
    assert_eq!(cat_blob_from_raw(b"blob five\0hello"), Err(CatFileError::BadSize));
    assert_eq!(cat_blob_from_raw(&[0xfe, 0, b'x']), Err(CatFileError::NotUtf8));
}

#[test]
fn blob_from_stored_object() {
    let stored = zlib(b"blob 11\0hello world");
    assert_eq!(cat_blob(&stored), Some(Ok((b"hello world".to_vec(), 11))));
    // a longer stream is read no further than the header's size
    let stored = zlib(b"blob 3\0hello world");
    assert_eq!(cat_blob(&stored), Some(Ok((b"hel".to_vec(), 3))));
    // a shorter one gives what is there; the size check is then the caller's
    let stored = zlib(b"blob 9\0hello");
    let (content, size) = cat_blob(&stored).unwrap().unwrap();
    assert_eq!(content, b"hello".to_vec());
    assert_eq!(check_printed_size(content.len() as u64, size), Err(CatFileError::SizeMismatch));
}

#[test]
fn stored_object_errors() {
    assert_eq!(cat_blob(b"not zlib"), Some(Err(CatFileError::ReadFailed)));
    assert_eq!(cat_blob(&zlib(b"tree 1\0x")), Some(Err(CatFileError::UnknownKind)));
    assert_eq!(cat_blob(&zlib(&[0xff, 0, b'x'])), Some(Err(CatFileError::NotUtf8)));
    // no NUL at all: no header line
    assert_eq!(cat_blob(&zlib(b"blob 5")), None);
    assert_eq!(cat_blob(&zlib(b"")), None);
}

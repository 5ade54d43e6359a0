use my_git::objects::{
    commit_tree, decimal, decode_object, encode_object, object_content, object_name, parse_tree, read_stored_object,
    stored_object, ObjectContent, ObjectError, TreeEntry,
};
use my_git::packfile::ObjectKind;

#[test]
fn encode_blob() {
    assert_eq!(encode_object(ObjectKind::Blob, b"hi"), b"blob 2\0hi".to_vec());
    assert_eq!(encode_object(ObjectKind::Commit, b""), b"commit 0\0".to_vec());
}

#[test]
fn decimal_digits() {
    assert_eq!(decimal(0), b"0".to_vec());
    assert_eq!(decimal(1234), b"1234".to_vec());
    assert_eq!(decimal(u64::MAX), b"18446744073709551615".to_vec());
}

#[test]
fn decode_round_trip() {
    for kind in [ObjectKind::Commit, ObjectKind::Tree, ObjectKind::Blob, ObjectKind::Tag] {
        let raw = encode_object(kind, b"some content");
        assert_eq!(decode_object(&raw), Ok((kind, b"some content".to_vec())));
    }
}

#[test]
fn decode_errors() {
    assert_eq!(decode_object(b"blob 2"), Err(ObjectError::MissingNul));
    assert_eq!(decode_object(b"blob\0"), Err(ObjectError::MissingKind));
    assert_eq!(decode_object(b"file 2\0hi"), Err(ObjectError::UnknownKind));
    assert_eq!(decode_object(b"blob two\0hi"), Err(ObjectError::BadSize));
    assert_eq!(decode_object(b"blob 3\0hi"), Err(ObjectError::SizeMismatch));
}

#[test]
fn empty_blob_name() {
    assert_eq!(object_name(ObjectKind::Blob, b""), "e69de29bb2d1d6434b8b29ae775ad8c2e48c5391");
}

#[test]
fn tree_entries() {
    let mut content = b"100644 a.txt\0".to_vec();
    content.extend_from_slice(&[0x11; 20]);
    content.extend_from_slice(b"40000 dir\0");
    content.extend_from_slice(&[0x22; 20]);
    let entries = parse_tree(&content).unwrap();
    assert_eq!(
        entries,
        vec![
            TreeEntry { mode: b"100644".to_vec(), name: b"a.txt".to_vec(), hash: vec![0x11; 20] },
            TreeEntry { mode: b"40000".to_vec(), name: b"dir".to_vec(), hash: vec![0x22; 20] },
        ]
    );
    assert_eq!(entries[1].hash_hex(), "22".repeat(20));
    assert_eq!(parse_tree(b"100644 a.txt\0short"), Err(ObjectError::BadTree));
    assert_eq!(parse_tree(b""), Ok(vec![]));
}

#[test]
fn commit_tree_line() {
    assert_eq!(commit_tree(b"tree abcd\nparent x\n"), Ok(b"abcd".to_vec()));
    assert_eq!(commit_tree(b"parent x\n"), Err(ObjectError::BadCommit));
    assert_eq!(commit_tree(b"tree abcd"), Err(ObjectError::BadCommit));
}

#[test]
fn decimal_parses_back() {
    for n in [0u64, 9, 10, 99, 100, 65535, u64::MAX] {
        assert_eq!(my_git::commands::cat_file::parse_u64(&decimal(n)), Some(n));
    }
}

#[test]
fn stored_object_reads_back() {
    let stored = stored_object(ObjectKind::Tree, b"entries").unwrap();
    assert_eq!(read_stored_object(&stored), Ok((ObjectKind::Tree, b"entries".to_vec())));
    assert_eq!(read_stored_object(b"plain"), Err(ObjectError::Corrupt));
}

#[test]
fn content_by_kind() {
    assert_eq!(
        object_content(ObjectKind::Blob, b"x".to_vec()),
        Ok(ObjectContent::Blob { blob_content: b"x".to_vec() })
    );
    assert_eq!(
        object_content(ObjectKind::Commit, b"tree 1234\nauthor a\n".to_vec()),
        Ok(ObjectContent::Commit { tree_sha: b"1234".to_vec() })
    );
    assert_eq!(object_content(ObjectKind::Tag, b"anything".to_vec()), Ok(ObjectContent::Tag));
    assert_eq!(object_content(ObjectKind::Tree, b"100644 a".to_vec()), Err(ObjectError::BadTree));
}

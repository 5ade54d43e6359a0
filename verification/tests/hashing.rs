use my_git::commands::clone::{parse_ref_discovery, CloneError};
use my_git::objects::{object_name, read_stored_object, stored_object, ObjectError, TreeEntry};
use my_git::packfile::ObjectKind;

#[test]
fn hex_is_lowercase_pairs() {
    let entry = TreeEntry { mode: b"100644".to_vec(), name: b"f".to_vec(), hash: vec![0xde, 0xad, 0x01, 0xf0] };
    assert_eq!(entry.hash_hex(), "dead01f0");
}

#[test]
fn sha1_names_objects() {
    // git hash-object of the blob "hello\n"
    assert_eq!(object_name(ObjectKind::Blob, b"hello\n"), "ce013625030ba8dba906f756967f9e9ca394464a");
}

#[test]
fn stored_objects_are_compressed() {
    let content = b"some bytes to compress, some bytes to compress".to_vec();
    let stored = stored_object(ObjectKind::Blob, &content).unwrap();
    assert!(!stored.windows(content.len()).any(|w| w == content.as_slice()));
    assert_eq!(read_stored_object(&stored), Ok((ObjectKind::Blob, content)));
    assert_eq!(read_stored_object(b"garbage"), Err(ObjectError::Corrupt));
}

#[test]
fn service_line_is_matched_by_pattern() {
    assert_eq!(
        parse_ref_discovery(200, b"001e# service=git-upload-pack\n00000155aaaa HEAD"),
        Ok((b"aaaa".to_vec(), vec![]))
    );
    assert_eq!(
        parse_ref_discovery(200, b"zz1e# service=git-upload-pack\n00000155aaaa HEAD"),
        Err(CloneError::NotAdvertisement)
    );
    assert_eq!(
        parse_ref_discovery(200, b"# service=git-upload-pack\n00000155aaaa HEAD"),
        Err(CloneError::NotAdvertisement)
    );
}

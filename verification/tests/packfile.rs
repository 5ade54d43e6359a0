use std::io::Write;

use my_git::packfile::{
    get_obj_type_and_size, read_entry_header, ObjectKind, PackError, PackFile, PackObject, ParseAction,
    ParseEvent,
};
use sha1::Digest;

fn zlib(data: &[u8]) -> Vec<u8> {
    let mut e = flate2::write::ZlibEncoder::new(Vec::new(), flate2::Compression::default());
    e.write_all(data).unwrap();
    e.finish().unwrap()
}

fn with_checksum(mut content: Vec<u8>) -> Vec<u8> {
    let digest = sha1::Sha1::digest(&content);
    content.extend_from_slice(&digest);
    content
}

fn header(count: u32) -> Vec<u8> {
    let mut v = b"PACK".to_vec();
    v.extend_from_slice(&2u32.to_be_bytes());
    v.extend_from_slice(&count.to_be_bytes());
    v
}

#[test]
fn pack_object_codes() {
    assert_eq!(PackObject::from(1), Ok(PackObject::Commit));
    assert_eq!(PackObject::from(2), Ok(PackObject::Tree));
    assert_eq!(PackObject::from(3), Ok(PackObject::Blob));
    assert_eq!(PackObject::from(4), Ok(PackObject::Tag));
    assert_eq!(PackObject::from(6), Ok(PackObject::OfsDelta));
    assert_eq!(PackObject::from(7), Ok(PackObject::RefDelta));
    for b in [0u8, 5, 8, 255] {
        assert_eq!(PackObject::from(b), Err(PackError::NotAPackObject));
    }
}

#[test]
fn entry_header_single_byte() {
    assert_eq!(get_obj_type_and_size(&[0x35], 0), (Ok((PackObject::Blob, 5)), 1));
    assert_eq!(get_obj_type_and_size(&[0x00, 0x12], 1), (Ok((PackObject::Commit, 2)), 2));
}

#[test]
fn entry_header_continued() {
    // kind 1, low bits 15, then 1 << 4 from the next byte
    assert_eq!(get_obj_type_and_size(&[0x9f, 0x01], 0), (Ok((PackObject::Commit, 31)), 2));
    // two continuation bytes: 0x0f | 0x7f << 4 | 0x02 << 11
    assert_eq!(get_obj_type_and_size(&[0xaf, 0xff, 0x02], 0), (Ok((PackObject::Tree, 0x0f | (0x7f << 4) | (0x02 << 11))), 3));
}

#[test]
fn entry_header_bad_kind() {
    // the read stops right after the byte with the unknown kind
    assert_eq!(get_obj_type_and_size(&[0x50], 0), (Err(PackError::NotAPackObject), 1));
    assert_eq!(read_entry_header(&[0x80, 0x80, 0x01], 0), Some((Err(PackError::NotAPackObject), 1)));
}

#[test]
fn entry_header_undefined_inputs() {
    assert_eq!(read_entry_header(&[], 0), None);
    assert_eq!(read_entry_header(&[0xb0], 0), None);
    let mut long = vec![0xb0];
    long.extend_from_slice(&[0x80; 9]);
    long.push(0x00);
    assert_eq!(read_entry_header(&long, 0), None);
}

#[test]
fn entry_header_largest_size_wraps() {
    // nine continuation bytes: the last group is shifted by 60 and keeps its low four bits
    let mut bytes = vec![0xaf];
    bytes.extend_from_slice(&[0xff; 8]);
    bytes.push(0x7f);
    assert_eq!(read_entry_header(&bytes, 0), Some((Ok((PackObject::Tree, u64::MAX)), 10)));
}

#[test]
fn new_accepts_matching_checksum() {
    let data = with_checksum(header(0));
    assert!(PackFile::new(data).is_ok());
}

#[test]
fn new_refuses_bad_checksum() {
    let mut data = with_checksum(header(0));
    let n = data.len();
    data[n - 1] ^= 1;
    assert_eq!(PackFile::new(data).unwrap_err(), PackError::ChecksumMismatch);
}

#[test]
fn new_refuses_bare_checksum_of_other_content() {
    let mut data = header(0);
    data.extend_from_slice(&[0u8; 20]);
    assert_eq!(PackFile::new(data).unwrap_err(), PackError::ChecksumMismatch);
}

#[test]
fn empty_pack_parses_to_done() {
    let mut pack = PackFile::new(with_checksum(header(0))).unwrap();
    assert!(pack.can_parse(&ParseEvent::Next));
    assert_eq!(pack.parse(ParseEvent::Next), Ok(ParseAction::Continue));
    assert_eq!(pack.parse(ParseEvent::Next), Ok(ParseAction::Done));
    // a done parse would start over with a header at the end
    assert!(!pack.can_parse(&ParseEvent::Next));
}

#[test]
fn bad_signature_and_version() {
    let mut content = header(0);
    content[0] = b'K';
    let mut pack = PackFile::new(with_checksum(content)).unwrap();
    assert_eq!(pack.parse(ParseEvent::Next), Err(PackError::BadSignature));
    let mut content = header(0);
    content[7] = 3;
    let mut pack = PackFile::new(with_checksum(content)).unwrap();
    assert_eq!(pack.parse(ParseEvent::Next), Err(PackError::BadVersion));
}

#[test]
fn short_header_cannot_be_parsed() {
    let pack = PackFile::new(with_checksum(b"PACK".to_vec())).unwrap();
    assert!(!pack.can_parse(&ParseEvent::Next));
}

#[test]
fn count_mismatch() {
    let mut pack = PackFile::new(with_checksum(header(1))).unwrap();
    assert_eq!(pack.parse(ParseEvent::Next), Ok(ParseAction::Continue));
    assert_eq!(pack.parse(ParseEvent::Next), Err(PackError::CountMismatch));
    // the parse ended at the end of the content, where no header fits
    assert!(!pack.can_parse(&ParseEvent::Next));
}

#[test]
fn bad_signature_read_stops_after_header() {
    let mut content = header(0);
    content[0] = b'K';
    content.extend(header(0));
    let mut pack = PackFile::new(with_checksum(content)).unwrap();
    assert_eq!(pack.parse(ParseEvent::Next), Err(PackError::BadSignature));
    assert_eq!(pack.parse(ParseEvent::Next), Ok(ParseAction::Continue));
    assert_eq!(pack.parse(ParseEvent::Next), Ok(ParseAction::Done));
}

#[test]
fn bad_kind_read_stops_after_its_byte() {
    let mut content = header(1);
    content.push(0x50);
    content.extend(header(0));
    let mut pack = PackFile::new(with_checksum(content)).unwrap();
    assert_eq!(pack.parse(ParseEvent::Next), Ok(ParseAction::Continue));
    assert_eq!(pack.parse(ParseEvent::Next), Err(PackError::NotAPackObject));
    // the next parse reads the header right after the byte with the bad kind
    assert_eq!(pack.parse(ParseEvent::Next), Ok(ParseAction::Continue));
    assert_eq!(pack.parse(ParseEvent::Next), Ok(ParseAction::Done));
}

#[test]
fn bad_object_data_read_stops_at_data() {
    let mut content = header(1);
    content.push(0x35);
    content.extend(header(0));
    let mut pack = PackFile::new(with_checksum(content)).unwrap();
    pack.parse(ParseEvent::Next).unwrap();
    assert_eq!(pack.parse(ParseEvent::Next), Err(PackError::Inflate));
    assert_eq!(pack.parse(ParseEvent::Next), Ok(ParseAction::Continue));
    assert_eq!(pack.parse(ParseEvent::Next), Ok(ParseAction::Done));
}

#[test]
fn failed_ofs_delta_base_leaves_parse_at_base() {
    let mut content = header(1);
    content.push(0x63);
    // the offset ends at 14 and reaches back to 0, where the header is no zlib stream
    content.push(14);
    let mut pack = PackFile::new(with_checksum(content)).unwrap();
    assert_eq!(pack.parse(ParseEvent::Next), Ok(ParseAction::Continue));
    assert_eq!(pack.parse(ParseEvent::Next), Err(PackError::Inflate));
    // the read stopped at the base, the start of the content: its header parses again
    assert_eq!(pack.parse(ParseEvent::Next), Ok(ParseAction::Continue));
    assert_eq!(pack.parse(ParseEvent::Next), Err(PackError::Inflate));
}

#[test]
fn blob_then_ref_delta() {
    let mut content = header(2);
    content.push(0x35); // blob of 5 bytes
    content.extend(zlib(b"hello"));
    // delta against "hello": base 5, result 7, copy 1..5, add "!!!"
    let delta = vec![0x05, 0x07, 0x91, 0x01, 0x04, 0x03, b'!', b'!', b'!'];
    content.push(0x70 | delta.len() as u8); // ref delta, size 9
    let base_ref = [0xabu8; 20];
    content.extend_from_slice(&base_ref);
    content.extend(zlib(&delta));
    let mut pack = PackFile::new(with_checksum(content)).unwrap();
    assert_eq!(pack.parse(ParseEvent::Next), Ok(ParseAction::Continue));
    assert_eq!(
        pack.parse(ParseEvent::Next),
        Ok(ParseAction::Store { kind: ObjectKind::Blob, content: b"hello".to_vec() })
    );
    assert_eq!(pack.parse(ParseEvent::Next), Ok(ParseAction::FindBase { base_ref: "ab".repeat(20) }));
    // the parse now waits for the base
    assert_eq!(pack.parse(ParseEvent::Next), Err(PackError::UnexpectedEvent));
    let event = ParseEvent::Base { kind: ObjectKind::Blob, content: b"hello".to_vec() };
    assert!(pack.can_parse(&event));
    assert_eq!(
        pack.parse(event),
        Ok(ParseAction::Store { kind: ObjectKind::Blob, content: b"ello!!!".to_vec() })
    );
    assert_eq!(pack.parse(ParseEvent::Next), Ok(ParseAction::Done));
}

#[test]
fn ref_delta_with_wrong_base_size() {
    let mut content = header(1);
    let delta = vec![0x06, 0x01, 0x01, b'x'];
    content.push(0x70 | delta.len() as u8);
    content.extend_from_slice(&[0u8; 20]);
    content.extend(zlib(&delta));
    let mut pack = PackFile::new(with_checksum(content)).unwrap();
    pack.parse(ParseEvent::Next).unwrap();
    assert!(matches!(pack.parse(ParseEvent::Next), Ok(ParseAction::FindBase { .. })));
    let event = ParseEvent::Base { kind: ObjectKind::Blob, content: b"hello".to_vec() };
    assert_eq!(pack.parse(event), Err(PackError::BaseSizeMismatch));
    // the read stopped right after the delta's data, at the end
    assert!(!pack.can_parse(&ParseEvent::Next));
}

#[test]
fn ref_delta_wrong_base_read_stops_after_data() {
    let mut content = header(1);
    let delta = vec![0x06, 0x01, 0x01, b'x'];
    content.push(0x70 | delta.len() as u8);
    content.extend_from_slice(&[0u8; 20]);
    content.extend(zlib(&delta));
    content.extend(header(0));
    let mut pack = PackFile::new(with_checksum(content)).unwrap();
    pack.parse(ParseEvent::Next).unwrap();
    assert!(matches!(pack.parse(ParseEvent::Next), Ok(ParseAction::FindBase { .. })));
    let event = ParseEvent::Base { kind: ObjectKind::Blob, content: b"hello".to_vec() };
    assert_eq!(pack.parse(event), Err(PackError::BaseSizeMismatch));
    assert_eq!(pack.parse(ParseEvent::Next), Ok(ParseAction::Continue));
    assert_eq!(pack.parse(ParseEvent::Next), Ok(ParseAction::Done));
}

#[test]
fn ref_delta_cut_short() {
    let mut content = header(1);
    content.push(0x75);
    content.extend_from_slice(&[0u8; 10]);
    let mut pack = PackFile::new(with_checksum(content)).unwrap();
    pack.parse(ParseEvent::Next).unwrap();
    assert_eq!(pack.parse(ParseEvent::Next), Err(PackError::ShortBaseRef));
    // the short name was read to the end
    assert!(!pack.can_parse(&ParseEvent::Next));
}

#[test]
fn object_size_mismatch_and_bad_stream() {
    let mut content = header(1);
    content.push(0x36); // blob of 6 bytes, but "hello" has 5
    content.extend(zlib(b"hello"));
    let mut pack = PackFile::new(with_checksum(content)).unwrap();
    pack.parse(ParseEvent::Next).unwrap();
    assert_eq!(pack.parse(ParseEvent::Next), Err(PackError::SizeMismatch));

    let mut content = header(1);
    content.push(0x35);
    content.extend_from_slice(b"not zlib at all");
    let mut pack = PackFile::new(with_checksum(content)).unwrap();
    pack.parse(ParseEvent::Next).unwrap();
    assert_eq!(pack.parse(ParseEvent::Next), Err(PackError::Inflate));
}

#[test]
fn ofs_delta_is_counted_and_skipped() {
    let mut content = header(2);
    let blob_at = content.len();
    content.push(0x35);
    content.extend(zlib(b"hello"));
    let ofs_at = content.len();
    content.push(0x63); // offset delta of size 3
    // the offset reaches back from the end of the offset bytes to the blob's data
    let end_of_offset = ofs_at + 2;
    let back = (end_of_offset - (blob_at + 1)) as u8;
    content.push(back);
    let mut pack = PackFile::new(with_checksum(content)).unwrap();
    pack.parse(ParseEvent::Next).unwrap();
    assert!(matches!(pack.parse(ParseEvent::Next), Ok(ParseAction::Store { .. })));
    assert_eq!(pack.parse(ParseEvent::Next), Ok(ParseAction::Continue));
    assert_eq!(pack.parse(ParseEvent::Next), Ok(ParseAction::Done));
}

#[test]
fn ofs_delta_reaching_before_start_cannot_be_parsed() {
    let mut content = header(1);
    content.push(0x63);
    content.push(0x7f);
    let mut pack = PackFile::new(with_checksum(content)).unwrap();
    pack.parse(ParseEvent::Next).unwrap();
    assert!(!pack.can_parse(&ParseEvent::Next));
}

#[test]
fn try_parse_takes_only_steps_parse_takes() {
    let mut pack = PackFile::new(with_checksum(header(0))).unwrap();
    assert_eq!(pack.try_parse(ParseEvent::Next), Some(Ok(ParseAction::Continue)));
    assert_eq!(pack.try_parse(ParseEvent::Next), Some(Ok(ParseAction::Done)));
    // no header fits at the end: nothing is taken
    assert_eq!(pack.try_parse(ParseEvent::Next), None);
    assert_eq!(pack.try_parse(ParseEvent::Next), None);

    let mut content = header(1);
    content.push(0x63);
    content.push(0x7f);
    let mut pack = PackFile::new(with_checksum(content)).unwrap();
    assert_eq!(pack.try_parse(ParseEvent::Next), Some(Ok(ParseAction::Continue)));
    assert_eq!(pack.try_parse(ParseEvent::Next), None);
    // the parse is left as it was: the event that does not fit is still refused
    let event = ParseEvent::Base { kind: ObjectKind::Blob, content: Vec::new() };
    assert_eq!(pack.try_parse(event), Some(Err(PackError::UnexpectedEvent)));
}

#[test]
fn stored_object_has_header_size() {
    let mut content = header(1);
    content.push(0x35);
    content.extend(zlib(b"hello"));
    let mut pack = PackFile::new(with_checksum(content)).unwrap();
    pack.parse(ParseEvent::Next).unwrap();
    match pack.parse(ParseEvent::Next) {
        Ok(ParseAction::Store { content, .. }) => assert_eq!(content.len(), 5),
        other => panic!("unexpected {other:?}"),
    }
}

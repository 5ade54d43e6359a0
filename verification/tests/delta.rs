use my_git::delta::{
    apply_delta, get_delta_instructions, read_delta_instructions, resolve_ref_delta, try_resolve_delta,
    DeltaInstruction,
};
use my_git::packfile::PackError;
use my_git::varint::{get_ref_delta_size, read_delta_size, read_ofs_offset};

#[test]
fn delta_size_one_byte() {
    assert_eq!(get_ref_delta_size(&[0x05], 0), (5, 1));
    assert_eq!(get_ref_delta_size(&[0x00, 0x7f], 1), (127, 2));
}

#[test]
fn delta_size_little_endian() {
    assert_eq!(get_ref_delta_size(&[0x80, 0x01], 0), (128, 2));
    assert_eq!(get_ref_delta_size(&[0xe5, 0x8e, 0x26], 0), (624485, 3));
}

#[test]
fn delta_size_ten_bytes_reach_u64_max() {
    let mut bytes = vec![0xff; 9];
    bytes.push(0x01);
    assert_eq!(read_delta_size(&bytes, 0), Some((u64::MAX, 10)));
}

#[test]
fn delta_size_undefined_inputs() {
    assert_eq!(read_delta_size(&[], 0), None);
    assert_eq!(read_delta_size(&[0x80], 0), None);
    let mut bytes = vec![0x80; 10];
    bytes.push(0x00);
    assert_eq!(read_delta_size(&bytes, 0), None);
}

#[test]
fn ofs_offset_big_endian() {
    assert_eq!(read_ofs_offset(&[0x05], 0), Some((5, 1)));
    assert_eq!(read_ofs_offset(&[0x81, 0x00], 0), Some((128, 2)));
    assert_eq!(read_ofs_offset(&[0x00, 0x82, 0x03], 1), Some((0x103, 3)));
    assert_eq!(read_ofs_offset(&[0x81], 0), None);
}

#[test]
fn instructions_add_and_copy() {
    let delta = [0x03, b'a', b'b', b'c', 0x91, 0x02, 0x05];
    assert_eq!(
        get_delta_instructions(&delta, 0),
        vec![
            DeltaInstruction::Add { data: b"abc".to_vec() },
            DeltaInstruction::Copy { size: 5, offset: 2 },
        ]
    );
}

#[test]
fn copy_with_all_fields() {
    let delta = [0xff, 0x01, 0x02, 0x03, 0x04, 0x05, 0x06, 0x07];
    assert_eq!(
        get_delta_instructions(&delta, 0),
        vec![DeltaInstruction::Copy { size: 0x070605, offset: 0x04030201 }]
    );
}

#[test]
fn copy_without_fields_is_empty() {
    assert_eq!(get_delta_instructions(&[0x80], 0), vec![DeltaInstruction::Copy { size: 0, offset: 0 }]);
}

#[test]
fn instructions_cut_short() {
    assert_eq!(read_delta_instructions(&[0x05, b'a'], 0), None);
    assert_eq!(read_delta_instructions(&[0x91, 0x02], 0), None);
}

#[test]
fn apply_copies_and_adds() {
    let base = b"hello world";
    let ops = [
        DeltaInstruction::Copy { size: 5, offset: 6 },
        DeltaInstruction::Add { data: b"!!".to_vec() },
    ];
    assert_eq!(apply_delta(base, &ops), Some(b"world!!".to_vec()));
}

#[test]
fn apply_refuses_copy_past_base() {
    let ops = [DeltaInstruction::Copy { size: 6, offset: 6 }];
    assert_eq!(apply_delta(b"hello world", &ops), None);
}

#[test]
fn resolve_whole_delta() {
    let delta = [11, 7, 0x91, 6, 5, 2, b'!', b'!'];
    assert_eq!(resolve_ref_delta(b"hello world", &delta), Ok(b"world!!".to_vec()));
}

#[test]
fn resolve_size_errors() {
    let delta = [11, 7, 0x91, 6, 5, 2, b'!', b'!'];
    assert_eq!(resolve_ref_delta(b"hello worl", &delta), Err(PackError::BaseSizeMismatch));
    let delta = [11, 8, 0x91, 6, 5, 2, b'!', b'!'];
    assert_eq!(resolve_ref_delta(b"hello world", &delta), Err(PackError::TargetSizeMismatch));
}

#[test]
fn resolve_undefined_inputs() {
    assert_eq!(try_resolve_delta(b"abc", &[]), None);
    assert_eq!(try_resolve_delta(b"abc", &[3, 9, 0x91, 2, 9]), None);
}

#[test]
fn copy_whole_base_rebuilds_it() {
    let base = b"the whole base";
    let ops = [DeltaInstruction::Copy { size: base.len() as u64, offset: 0 }];
    assert_eq!(apply_delta(base, &ops), Some(base.to_vec()));
}

#[test]
fn additions_concatenate() {
    let ops = [DeltaInstruction::Add { data: b"ab".to_vec() }, DeltaInstruction::Add { data: b"cd".to_vec() }];
    let out = apply_delta(b"", &ops).unwrap();
    assert_eq!(out, b"abcd".to_vec());
    assert_eq!(out.len(), 4);
}

#[test]
fn delta_size_reads_back_its_encoding() {
    // 300 = 0b10_0101100: low group 0x2c with the high bit set, then 0x02
    let mut bytes = vec![0xac, 0x02];
    bytes.extend_from_slice(&[0xff, 0x80, 0x05]);
    assert_eq!(get_ref_delta_size(&bytes, 0), (300, 2));
    // the largest value takes ten bytes, whatever follows them
    let mut bytes = vec![0xff; 9];
    bytes.push(0x01);
    bytes.extend_from_slice(&[0x80, 0x80]);
    assert_eq!(get_ref_delta_size(&bytes, 0), (u64::MAX, 10));
}

#[test]
fn instruction_streams_concatenate() {
    let a = vec![0x02, b'h', b'i', 0x91, 0x03, 0x04];
    let b = vec![0xb0, 0x01, 0x02, 0x01, b'!'];
    let mut ab = a.clone();
    ab.extend_from_slice(&b);
    let mut expected = get_delta_instructions(&a, 0);
    expected.extend(get_delta_instructions(&b, 0));
    assert_eq!(get_delta_instructions(&ab, 0), expected);
    assert_eq!(
        expected,
        vec![
            DeltaInstruction::Add { data: b"hi".to_vec() },
            DeltaInstruction::Copy { size: 4, offset: 3 },
            DeltaInstruction::Copy { size: 0x0201, offset: 0 },
            DeltaInstruction::Add { data: b"!".to_vec() },
        ]
    );
}

use rcore_fs_dfs::codec::{decode_meta, encode_meta, type_index, type_of_index, DFileType, DMetadata};

fn sample() -> DMetadata {
    DMetadata {
        type_: DFileType::Dir,
        mode: 0o755,
        entries: vec![("ab".to_string(), (1, 2))],
        blocks: vec![(3, 4)],
        size: 5,
    }
}

fn le64(x: u64) -> Vec<u8> {
    x.to_le_bytes().to_vec()
}

#[test]
fn empty_directory_record_bytes() {
    let bytes = encode_meta(&DMetadata::new(DFileType::Dir, 0o777));
    let mut expected = vec![1, 0, 0, 0, 0xff, 0x01];
    expected.extend(le64(0));
    expected.extend(le64(0));
    expected.extend(le64(0));
    assert_eq!(bytes, expected);
    assert_eq!(bytes.len(), 30);
}

#[test]
fn record_bytes_follow_the_layout() {
    let bytes = encode_meta(&sample());
    let mut expected = vec![1, 0, 0, 0, 0xed, 0x01];
    expected.extend(le64(1));
    expected.extend(le64(2));
    expected.extend_from_slice(b"ab");
    expected.extend(le64(1));
    expected.extend(le64(2));
    expected.extend(le64(1));
    expected.extend(le64(3));
    expected.extend(le64(4));
    expected.extend(le64(5));
    assert_eq!(bytes, expected);
}

#[test]
fn records_decode_back() {
    let mut bytes = encode_meta(&sample());
    bytes.extend_from_slice(&[0xaa; 7]);
    let m = decode_meta(&bytes).unwrap();
    assert_eq!(m.type_, DFileType::Dir);
    assert_eq!(m.mode, 0o755);
    assert_eq!(m.entries, vec![("ab".to_string(), (1, 2))]);
    assert_eq!(m.blocks, vec![(3, 4)]);
    assert_eq!(m.size, 5);
}

#[test]
fn non_ascii_names_decode_back() {
    let mut m = DMetadata::new(DFileType::Dir, 0o700);
    m.entries.push(("żółw".to_string(), (7, 8)));
    let back = decode_meta(&encode_meta(&m)).unwrap();
    assert_eq!(back.entries, m.entries);
}

#[test]
fn malformed_records_are_refused() {
    assert!(decode_meta(&[]).is_none());
    assert!(decode_meta(&[1, 0, 0]).is_none());
    let mut bytes = encode_meta(&sample());
    bytes.truncate(bytes.len() - 1);
    assert!(decode_meta(&bytes).is_none());
    let mut bad_kind = encode_meta(&sample());
    bad_kind[0] = 9;
    assert!(decode_meta(&bad_kind).is_none());
    let mut huge_len = encode_meta(&sample());
    huge_len[6..14].copy_from_slice(&u64::MAX.to_le_bytes());
    assert!(decode_meta(&huge_len).is_none());
}

#[test]
fn kind_numbers() {
    assert_eq!(type_index(DFileType::File), 0);
    assert_eq!(type_index(DFileType::Dir), 1);
    assert_eq!(type_index(DFileType::Socket), 6);
    assert_eq!(type_of_index(4), Some(DFileType::BlockDevice));
    assert_eq!(type_of_index(7), None);
}

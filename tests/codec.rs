use log_sampling::record::{decode_records, DecodeError, Record};

fn rec(block: u64, log_count: u64, data_len: u64, topic_count: u64) -> Record {
    Record { block, log_count, data_len, topic_count }
}

#[test]
fn encode_is_little_endian_fields_in_order() {
    let r = rec(0x0102030405060708, 1, 0x100, u64::MAX);
    let bytes = r.encode();
    let mut expected = vec![8u8, 7, 6, 5, 4, 3, 2, 1];
    expected.extend_from_slice(&[1, 0, 0, 0, 0, 0, 0, 0]);
    expected.extend_from_slice(&[0, 1, 0, 0, 0, 0, 0, 0]);
    expected.extend_from_slice(&[0xff; 8]);
    assert_eq!(bytes, expected);
}

#[test]
fn decode_inverts_encode() {
    for r in [rec(0, 0, 0, 0), rec(17_400_000, 250, 12_345, 900), rec(u64::MAX, u64::MAX, 1, 2)] {
        assert_eq!(Record::decode(&r.encode()), r);
        assert_eq!(decode_records(&r.encode()), Ok(vec![r]));
    }
}

#[test]
fn file_of_appended_records_decodes_in_order() {
    let records = vec![rec(9, 1, 2, 3), rec(3, 4, 5, 6), rec(9, 7, 8, 9)];
    let mut file = Vec::new();
    for r in &records {
        file.extend_from_slice(&r.encode());
    }
    assert_eq!(file.len(), 96);
    assert_eq!(decode_records(&file), Ok(records));
}

#[test]
fn empty_file_decodes_to_no_records() {
    assert_eq!(decode_records(&[]), Ok(vec![]));
}

#[test]
fn misaligned_length_is_malformed() {
    for len in [1usize, 31, 33, 63, 65, 100] {
        let buf = vec![0u8; len];
        assert_eq!(decode_records(&buf), Err(DecodeError::MalformedFile));
    }
}

#[test]
fn any_aligned_bytes_decode() {
    let buf: Vec<u8> = (0..64u32).map(|i| (i * 37 % 256) as u8).collect();
    let records = decode_records(&buf).unwrap();
    assert_eq!(records.len(), 2);
    assert_eq!(records[1].encode(), buf[32..64].to_vec());
    assert_eq!(records[0].encode(), buf[0..32].to_vec());
}

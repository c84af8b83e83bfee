use custom_dmq::error::DmqError;
use custom_dmq::fetch_batch::{decode_records, encode_records};
use custom_dmq::partition_log::Record;

#[test]
fn fetch_batch_encode_decode_roundtrip() {
    let records = vec![Record { offset: 1, payload: b"a".to_vec() }, Record { offset: 2, payload: b"bb".to_vec() }];
    let bytes = encode_records(&records);
    let decoded = decode_records(&bytes).unwrap();
    assert_eq!(decoded, records);
}

#[test]
fn fetch_batch_layout() {
    let records = vec![Record { offset: 258, payload: b"hi".to_vec() }];
    let bytes = encode_records(&records);
    assert_eq!(bytes, vec![0, 1, 0, 0, 0, 0, 0, 0, 1, 2, 0, 2, b'h', b'i']);
}

#[test]
fn fetch_batch_errors() {
    assert_eq!(decode_records(&[0]), Err(DmqError::BatchTooShort));
    assert_eq!(decode_records(&[0, 1, 0, 0]), Err(DmqError::TruncatedRecordHeader));
    assert_eq!(decode_records(&[0, 1, 0, 0, 0, 0, 0, 0, 0, 1, 0, 5, b'a']), Err(DmqError::TruncatedRecordPayload));
    assert_eq!(decode_records(&[0, 0, 7, 7]).unwrap(), Vec::<Record>::new());
}

#[test]
fn fetch_batch_clips_long_payloads() {
    let records = vec![Record { offset: 0, payload: vec![7u8; 70_000] }];
    let decoded = decode_records(&encode_records(&records)).unwrap();
    assert_eq!(decoded.len(), 1);
    assert_eq!(decoded[0].payload.len(), 65_535);
}

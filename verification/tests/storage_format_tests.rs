use custom_dmq::error::DmqError;
use custom_dmq::log_store::{decode_log_data, encode_log_record};
use custom_dmq::metadata::{decode_id_list, decode_u32_value, decode_u64_value, encode_id_list, encode_u32_value, encode_u64_value};
use custom_dmq::partition_log::Record;

#[test]
fn log_records_reload_in_order() {
    let mut file = Vec::new();
    file.extend(encode_log_record(&Record { offset: 0, payload: b"hello".to_vec() }).unwrap());
    file.extend(encode_log_record(&Record { offset: 1, payload: b"world".to_vec() }).unwrap());
    let log = decode_log_data(&file, None).unwrap();
    assert_eq!(log.next_offset(), 2);
    assert_eq!(log.fetch(0, 1024).records[0].payload, b"hello");
    assert_eq!(log.fetch(1, 1024).records[0].payload, b"world");
}

#[test]
fn log_record_layout() {
    let bytes = encode_log_record(&Record { offset: 258, payload: b"ab".to_vec() }).unwrap();
    assert_eq!(bytes, vec![0, 0, 0, 0, 0, 0, 1, 2, 0, 2, b'a', b'b']);
    let big = Record { offset: 0, payload: vec![0u8; 70000] };
    assert_eq!(encode_log_record(&big), Err(DmqError::PayloadTooLarge { len: 70000, max: 65535 }));
}

#[test]
fn reload_keeps_retention_and_tolerates_a_torn_offset() {
    let mut file = Vec::new();
    for i in 0..3u64 {
        file.extend(encode_log_record(&Record { offset: i, payload: vec![i as u8] }).unwrap());
    }
    file.extend([0u8, 0, 0]);
    let log = decode_log_data(&file, Some(2)).unwrap();
    assert_eq!(log.base_offset(), 1);
    assert_eq!(log.next_offset(), 3);
    assert_eq!(log.len(), 2);
}

#[test]
fn truncated_log_record_is_refused() {
    let mut file = encode_log_record(&Record { offset: 0, payload: b"hello".to_vec() }).unwrap();
    file.pop();
    assert_eq!(decode_log_data(&file, None).err(), Some(DmqError::ShortBuffer));
    assert_eq!(decode_log_data(&[0u8; 9], None).err(), Some(DmqError::ShortBuffer));
}

#[test]
fn id_lists_roundtrip() {
    let bytes = encode_id_list(&[1, 42]);
    assert_eq!(bytes, vec![0, 0, 0, 2, 0, 1, 0, 42]);
    assert_eq!(decode_id_list(&bytes).unwrap(), vec![1, 42]);
    assert_eq!(decode_id_list(&[0, 0, 0, 3, 0, 1]), Err(DmqError::ShortBuffer));
    assert_eq!(decode_id_list(&[0, 0]), Err(DmqError::ShortBuffer));
}

#[test]
fn stored_numbers_roundtrip() {
    assert_eq!(decode_u32_value(&encode_u32_value(3)).unwrap(), 3);
    assert_eq!(decode_u64_value(&encode_u64_value(123)).unwrap(), 123);
    assert_eq!(decode_u64_value(&[1, 2, 3]), Err(DmqError::ShortBuffer));
}

#[test]
fn append_and_reload_roundtrip() {
    let file = encode_log_record(&Record { offset: 0, payload: b"hello".to_vec() }).unwrap();
    let log = decode_log_data(&file, None).unwrap();
    assert_eq!(log.next_offset(), 1);
    assert_eq!(log.fetch(0, 1024).records[0].payload, b"hello");
}

#[test]
fn broker_topic_list_roundtrip() {
    assert_eq!(decode_id_list(&encode_id_list(&[1, 42])).unwrap(), vec![1, 42]);
}

#[test]
fn topic_group_list_roundtrip() {
    assert_eq!(decode_id_list(&encode_id_list(&[3, 9])).unwrap(), vec![3, 9]);
}

#[test]
fn cgroup_partition_count_roundtrip() {
    assert_eq!(decode_u32_value(&encode_u32_value(3)).unwrap(), 3);
}

#[test]
fn committed_offset_roundtrip() {
    assert_eq!(decode_u64_value(&encode_u64_value(123)).unwrap(), 123);
}

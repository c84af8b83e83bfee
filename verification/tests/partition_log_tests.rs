use custom_dmq::partition_log::PartitionLog;

#[test]
fn append_returns_monotonic_offsets() {
    let mut log = PartitionLog::new();
    assert_eq!(log.append(b"a"), 0);
    assert_eq!(log.append(b"b"), 1);
    assert_eq!(log.append(b"c"), 2);
    assert_eq!(log.base_offset(), 0);
    assert_eq!(log.next_offset(), 3);
    assert_eq!(log.len(), 3);
}

#[test]
fn fetch_from_offset_returns_expected_records() {
    let mut log = PartitionLog::new();
    log.append(b"a");
    log.append(b"bb");
    log.append(b"ccc");

    let r = log.fetch(1, 1024);
    assert_eq!(r.records.len(), 2);
    assert_eq!(r.records[0].offset, 1);
    assert_eq!(r.records[0].payload, b"bb".to_vec());
    assert_eq!(r.records[1].offset, 2);
    assert_eq!(r.records[1].payload, b"ccc".to_vec());
}

#[test]
fn fetch_respects_max_bytes_with_at_least_one_record() {
    let mut log = PartitionLog::new();
    log.append(b"a");
    log.append(b"bb");
    log.append(b"ccc");

    let r = log.fetch(0, 1);
    assert_eq!(r.records.len(), 1);
    assert_eq!(r.records[0].payload, b"a".to_vec());

    let r = log.fetch(1, 2);
    assert_eq!(r.records.len(), 1);
    assert_eq!(r.records[0].payload, b"bb".to_vec());
}

#[test]
fn retention_evicts_oldest_and_advances_base_offset() {
    let mut log = PartitionLog::with_max_records(3);
    log.append(b"0");
    log.append(b"1");
    log.append(b"2");
    assert_eq!(log.base_offset(), 0);
    assert_eq!(log.len(), 3);

    log.append(b"3");
    assert_eq!(log.len(), 3);
    assert_eq!(log.base_offset(), 1);
    assert_eq!(log.next_offset(), 4);

    let r = log.fetch(0, 1024);
    assert_eq!(r.records[0].offset, 1);
    assert_eq!(r.records[0].payload, b"1".to_vec());
}

#[test]
fn fetch_past_the_end_is_empty_and_zero_retention_keeps_nothing() {
    let mut log = PartitionLog::with_max_records(0);
    assert_eq!(log.append(b"x"), 0);
    assert!(log.is_empty());
    assert_eq!(log.base_offset(), 1);
    assert_eq!(log.next_offset(), 1);
    let r = log.fetch(0, 100);
    assert!(r.records.is_empty());
    assert_eq!(r.base_offset, 1);
    assert_eq!(r.next_offset, 1);

    let mut log = PartitionLog::default();
    log.append(b"abc");
    assert!(log.fetch(1, 100).records.is_empty());
}

#[test]
fn read_after_append_returns_the_record() {
    let mut log = PartitionLog::with_max_records(2);
    for i in 0..5u8 {
        let off = log.append(&[i, i]);
        let r = log.fetch(off, 0);
        assert_eq!(r.records.len(), 1);
        assert_eq!(r.records[0].offset, off);
        assert_eq!(r.records[0].payload, vec![i, i]);
    }
}

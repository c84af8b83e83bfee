use custom_dmq::error::DmqError;
use custom_dmq::stress::{encode_payload, parse_duration, parse_payload, AuditReport, StressConfig};

#[test]
fn audit_ok_when_sets_match() {
    let report = AuditReport {
        run_id: "r".into(),
        expected: 3,
        fetched_for_run: 3,
        missing: vec![],
        unexpected: vec![],
        committed_offset: 3,
    };
    assert!(report.ok());
}

#[test]
fn audit_fails_on_gaps() {
    let report = AuditReport {
        run_id: "r".into(),
        expected: 3,
        fetched_for_run: 2,
        missing: vec![2],
        unexpected: vec![],
        committed_offset: 2,
    };
    assert!(!report.ok());
}

#[test]
fn payload_roundtrip() {
    let payload = encode_payload("run42", 7, 64);
    let (run_id, seq) = parse_payload(&payload).unwrap();
    assert_eq!(run_id, "run42");
    assert_eq!(seq, 7);
}

#[test]
fn payload_layout() {
    let payload = encode_payload("r", 12, 24);
    assert_eq!(payload, b"r:000000000012:xxxxxxxxx".to_vec());
    let short = encode_payload("run", 5, 4);
    assert_eq!(short, b"run:".to_vec());
}

#[test]
fn payload_errors() {
    assert_eq!(parse_payload(&[0xff, b':']), Err(DmqError::InvalidUtf8));
    assert_eq!(parse_payload(b"norun"), Err(DmqError::MissingRunId));
    assert_eq!(parse_payload(b"r:12"), Err(DmqError::MissingSeq));
    assert_eq!(parse_payload(b"r:1x:"), Err(DmqError::InvalidSeq));
}

#[test]
fn expected_messages_scales_with_duration() {
    let cfg = StressConfig {
        topic_id: 1,
        partition_id: 0,
        run_id: "t".into(),
        target_rps: 100,
        duration_secs: 10,
        warmup_secs: 0,
        workers: 4,
        payload_bytes: 64,
        producer_id: 1,
        ledger_path: None,
    };
    assert_eq!(cfg.expected_messages(), 1000);
}

#[test]
fn durations_parse_with_optional_suffix() {
    assert_eq!(parse_duration("30"), Some(30));
    assert_eq!(parse_duration("45s"), Some(45));
    assert_eq!(parse_duration("+5s"), Some(5));
    assert_eq!(parse_duration("s"), None);
    assert_eq!(parse_duration("10ss"), None);
    assert_eq!(parse_duration("-1"), None);
}

fn run_config(target_rps: u64, duration_secs: u64, workers: usize) -> StressConfig {
    StressConfig {
        topic_id: 1,
        partition_id: 0,
        run_id: "t".into(),
        target_rps,
        duration_secs,
        warmup_secs: 0,
        workers,
        payload_bytes: 64,
        producer_id: 1,
        ledger_path: None,
    }
}

#[test]
fn topic_capacity_has_a_floor() {
    assert_eq!(run_config(100, 10, 4).topic_capacity(), 10_000);
}

#[test]
fn topic_capacity_covers_the_run_and_its_workers() {
    assert_eq!(run_config(1000, 30, 8).topic_capacity(), 30_008);
}

#[test]
fn topic_capacity_saturates_then_keeps_low_bits() {
    assert_eq!(run_config(u64::MAX, 2, 8).topic_capacity(), u32::MAX);
}

use custom_dmq::error::DmqError;
use custom_dmq::ledger::{build_audit_report, parse_ledger, Ledger};
use custom_dmq::stress::encode_payload;

#[test]
fn ledger_records_each_number_once() {
    let mut ledger = Ledger::open("/tmp/ledger.seq".to_string());
    assert!(ledger.record(1));
    assert!(ledger.record(2));
    assert!(!ledger.record(1));
    assert_eq!(ledger.path(), "/tmp/ledger.seq");
    assert_eq!(ledger.into_seen(), vec![1, 2]);
}

#[test]
fn ledger_text_reads_back_as_a_set() {
    assert_eq!(parse_ledger(b"1\n2\n1\n").unwrap(), vec![1, 2]);
    assert_eq!(parse_ledger(b" 7 \r\n\n3\n").unwrap(), vec![3, 7]);
    assert_eq!(parse_ledger(b"").unwrap(), Vec::<u64>::new());
}

#[test]
fn ledger_line_that_is_not_a_number_is_refused() {
    assert_eq!(parse_ledger(b"1\nx\n2\n"), Err(DmqError::InvalidSeq));
    assert_eq!(parse_ledger(b"-1\n"), Err(DmqError::InvalidSeq));
}

#[test]
fn audit_compares_ledger_with_log() {
    let payloads = vec![
        encode_payload("run", 1, 32),
        encode_payload("other", 9, 32),
        encode_payload("run", 3, 32),
        encode_payload("run", 4, 32),
    ];
    let report = build_audit_report(&"run".to_string(), &vec![1, 2, 3], &payloads, 7).unwrap();
    assert_eq!(report.run_id, "run");
    assert_eq!(report.expected, 3);
    assert_eq!(report.fetched_for_run, 3);
    assert_eq!(report.missing, vec![2]);
    assert_eq!(report.unexpected, vec![4]);
    assert_eq!(report.committed_offset, 7);
    assert!(!report.ok());
}

#[test]
fn audit_passes_when_sets_match() {
    let payloads = vec![encode_payload("r", 2, 32), encode_payload("r", 1, 32)];
    let report = build_audit_report(&"r".to_string(), &vec![1, 2], &payloads, 2).unwrap();
    assert!(report.ok());
}

#[test]
fn audit_refuses_foreign_payloads() {
    let payloads = vec![b"no colon here".to_vec()];
    assert_eq!(
        build_audit_report(&"r".to_string(), &vec![1], &payloads, 0),
        Err(DmqError::MissingRunId)
    );
}

#[test]
fn ledger_roundtrip() {
    let mut ledger = Ledger::open("ledger.seq".to_string());
    assert!(ledger.record(1));
    assert!(ledger.record(2));
    assert!(!ledger.record(1));
    assert_eq!(ledger.into_seen(), vec![1, 2]);
    assert_eq!(parse_ledger(b"1\n2\n").unwrap(), vec![1, 2]);
}

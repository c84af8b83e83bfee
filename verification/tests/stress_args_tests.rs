use custom_dmq::stress::{parse_stress_args, parse_stress_args_with, parse_verify_args};

fn args(list: &[&str]) -> Vec<String> {
    list.iter().map(|s| s.to_string()).collect()
}

#[test]
fn stress_flags_are_read() {
    let a = args(&["dmq-stress", "stress", "--topic", "3", "--duration", "10s", "--workers", "2", "--payload-bytes", "32", "--ledger", "l.seq"]);
    let cfg = parse_stress_args_with(&a, "r0".to_string()).unwrap();
    assert_eq!(cfg.topic_id, 3);
    assert_eq!(cfg.duration_secs, 10);
    assert_eq!(cfg.warmup_secs, 5);
    assert_eq!(cfg.workers, 2);
    assert_eq!(cfg.payload_bytes, 32);
    assert_eq!(cfg.run_id, "r0");
    assert_eq!(cfg.ledger_path.as_deref(), Some("l.seq"));
    assert!(parse_stress_args(&args(&["x", "stress"])).is_ok());
}

#[test]
fn stress_flag_errors() {
    let e = |l: &[&str]| parse_stress_args_with(&args(l), "r".to_string()).unwrap_err();
    assert_eq!(e(&["x", "s", "--topic"]), "missing value for --topic");
    assert_eq!(e(&["x", "s", "--topic", "70000"]), "invalid --topic");
    assert_eq!(e(&["x", "s", "--duration", "soon"]), "invalid duration: soon");
    assert_eq!(e(&["x", "s", "--bogus"]), "unknown flag: --bogus");
    assert_eq!(e(&["x", "s", "--workers", "0"]), "workers must be >= 1");
    assert_eq!(e(&["x", "s", "--payload-bytes", "8"]), "payload-bytes must be >= 16");
    assert_eq!(e(&["x", "s", "--payload-bytes", "241"]), "payload-bytes must be <= 240 for v1 wire framing");
}

#[test]
fn verify_flags_require_a_run_id() {
    assert_eq!(parse_verify_args(&args(&["x", "verify"])).unwrap_err(), "--run-id is required for verify");
    let cfg = parse_verify_args(&args(&["x", "verify", "--run-id", "abc", "--group", "4"])).unwrap();
    assert_eq!(cfg.run_id, "abc");
    assert_eq!(cfg.group_id, 4);
    assert_eq!(cfg.topic_id, 1);
}

use custom_dmq::acl::{parse_rule, Acl, Operation};
use custom_dmq::error::DmqError;

#[test]
fn explicit_allow_permits_operation() {
    let mut acl = Acl::default();
    acl.allow(b"alice", Operation::Produce, 1);
    assert!(acl.check(b"alice", Operation::Produce, 1).is_ok());
    assert!(acl.check(b"bob", Operation::Produce, 1).is_err() == false);
}

#[test]
fn deny_by_default_blocks_unknown_principals() {
    let acl = Acl::new(true);
    assert!(acl.check(b"alice", Operation::Fetch, 1).is_err());
}

#[test]
fn wildcards_and_every_topic_rules() {
    let mut acl = Acl::new(true);
    acl.allow(b"*", Operation::Fetch, 0);
    acl.allow(b"bob", Operation::Produce, 0);
    assert!(acl.check(b"anyone", Operation::Fetch, 9).is_ok());
    assert!(acl.check(b"bob", Operation::Produce, 3).is_ok());
    assert_eq!(acl.check(b"bob", Operation::Admin, 3), Err(DmqError::AclDenied));
}

#[test]
fn settings_parse_into_rules() {
    let acl = Acl::from_settings(Some(b"TRUE"), Some(b"alice:PRODUCE:1;;bad;carol:fetch:x;dave:nope:1"));
    assert!(acl.is_configured());
    assert!(acl.check(b"alice", Operation::Produce, 1).is_ok());
    assert!(acl.check(b"carol", Operation::Fetch, 5).is_ok());
    assert!(acl.check(b"dave", Operation::Fetch, 1).is_err());
    let open = Acl::from_settings(None, None);
    assert!(!open.is_configured());
    assert!(open.check(b"x", Operation::Admin, 1).is_ok());
}

#[test]
fn rule_parsing() {
    let r = parse_rule(b"admin:admin:7").unwrap();
    assert_eq!(r.principal, b"admin".to_vec());
    assert_eq!(r.op, Operation::Admin);
    assert_eq!(r.topic_id, 7);
    assert!(parse_rule(b"a:b").is_none());
    assert!(parse_rule(b"a:fetch:1:2").is_none());
    assert_eq!(parse_rule(b"a:fetch:70000").unwrap().topic_id, 0);
}

#[test]
fn allowing_a_rule_twice_keeps_one_rule() {
    let mut acl = Acl::new(true);
    acl.allow(b"alice", Operation::Fetch, 2);
    acl.allow(b"alice", Operation::Fetch, 2);
    assert!(acl.check(b"alice", Operation::Fetch, 2).is_ok());
    assert!(acl.check(b"bob", Operation::Fetch, 2).is_err());
}

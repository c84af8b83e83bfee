use custom_dmq::auth::{principal_from_token, validate_token};
use custom_dmq::cluster::{BrokerNode, ClusterConfig, PartitionAssignment};
use custom_dmq::error::{DmqError, ErrorKind};
use custom_dmq::fsync::{fsync_policy, should_fsync_after_append, FsyncPolicy};
use custom_dmq::limits::{clamp_fetch_bytes, max_fetch_bytes, max_payload_bytes, validate_produce_payload};
use custom_dmq::message::{Message, ProducerRegister};
use custom_dmq::replication::{min_required_acks, requires_all_replicas};
use custom_dmq::request_log::request_name;
use custom_dmq::text::parse_unsigned;
use custom_dmq::topic_config::TopicConfig;

#[test]
fn clamp_fetch_respects_ceiling() {
    assert_eq!(clamp_fetch_bytes(1_000_000, max_fetch_bytes(None)), max_fetch_bytes(None));
    assert_eq!(max_fetch_bytes(None), 65536);
    assert_eq!(clamp_fetch_bytes(10, 100), 10);
}

#[test]
fn validate_rejects_oversized_payload() {
    let err = validate_produce_payload(max_payload_bytes(None) + 1, max_payload_bytes(None)).unwrap_err();
    assert_eq!(err.kind(), ErrorKind::InvalidInput);
    assert_eq!(err, DmqError::PayloadTooLarge { len: 256, max: 255 });
    assert!(validate_produce_payload(255, 255).is_ok());
    assert_eq!(max_payload_bytes(Some(9)), 9);
}

#[test]
fn fsync_policies() {
    assert_eq!(fsync_policy(None), FsyncPolicy::Always);
    assert_eq!(fsync_policy(Some(b"NEVER")), FsyncPolicy::Never);
    assert_eq!(fsync_policy(Some(b"0")), FsyncPolicy::Never);
    assert_eq!(fsync_policy(Some(b"1")), FsyncPolicy::Always);
    assert_eq!(fsync_policy(Some(b"every:3")), FsyncPolicy::EveryN(3));
    assert_eq!(fsync_policy(Some(b"every:x")), FsyncPolicy::EveryN(10));
    assert_eq!(fsync_policy(Some(b"every:0")), FsyncPolicy::EveryN(1));
    assert_eq!(fsync_policy(Some(b"5")), FsyncPolicy::EveryN(5));
    assert_eq!(fsync_policy(Some(b"sometimes")), FsyncPolicy::Always);
}

#[test]
fn every_n_triggers_periodically() {
    let hits: Vec<bool> = (1..7u32).map(|c| should_fsync_after_append(FsyncPolicy::EveryN(3), c)).collect();
    assert_eq!(hits, vec![false, false, true, false, false, true]);
    assert!(should_fsync_after_append(FsyncPolicy::Always, 5));
    assert!(!should_fsync_after_append(FsyncPolicy::Never, 0));
}

#[test]
fn acks_rules() {
    let cfg = ClusterConfig {
        min_insync_replicas: 0,
        brokers: vec![BrokerNode { id: 1, host: "h".into(), port: 1 }],
        assignments: vec![PartitionAssignment { topic_id: 1, partition_id: 0, leader: 1, replicas: vec![1] }],
    };
    assert!(requires_all_replicas(Some(b"ALL")));
    assert!(!requires_all_replicas(Some(b"leader")));
    assert!(!requires_all_replicas(None));
    assert_eq!(min_required_acks(&cfg, true), 1);
    assert_eq!(min_required_acks(&cfg, false), 1);
    let cfg3 = ClusterConfig { min_insync_replicas: 3, ..cfg };
    assert_eq!(min_required_acks(&cfg3, true), 3);
}

#[test]
fn topic_config_floors() {
    assert_eq!(TopicConfig::new(1, 0, 0), TopicConfig { topic_id: 1, partition_count: 1, max_records: 1 });
    assert_eq!(TopicConfig::default_for(4), TopicConfig { topic_id: 4, partition_count: 1, max_records: 10_000 });
}

#[test]
fn tokens_and_principals() {
    assert!(validate_token(b"secret", Some(b"secret")).is_ok());
    assert_eq!(validate_token(b"wrong", Some(b"secret")), Err(DmqError::InvalidToken));
    assert!(validate_token(b"anything", None).is_ok());
    assert_eq!(principal_from_token(b""), "anonymous");
    assert_eq!(principal_from_token(b"bob"), "bob");
    assert_eq!(principal_from_token(&[0xff]), "\u{fffd}");
}

#[test]
fn request_names() {
    assert_eq!(request_name(&Message::ListTopics), "LIST_TOPICS");
    assert_eq!(request_name(&Message::ProducerRegister(ProducerRegister { port: 1, topic_id: 2 })), "P_REG");
    assert_eq!(request_name(&Message::RError(1, "x".into())), "R_ERROR");
}

#[test]
fn unsigned_parsing() {
    assert_eq!(parse_unsigned(b"65535", 65535), Some(65535));
    assert_eq!(parse_unsigned(b"65536", 65535), None);
    assert_eq!(parse_unsigned(b"+12", 100), Some(12));
    assert_eq!(parse_unsigned(b"", 100), None);
    assert_eq!(parse_unsigned(b"+", 100), None);
    assert_eq!(parse_unsigned(b"1a", 100), None);
    assert_eq!(parse_unsigned(b"18446744073709551615", u64::MAX), Some(u64::MAX));
}

#[test]
fn leader_address_falls_back_to_local_port() {
    let cfg = ClusterConfig {
        min_insync_replicas: 1,
        brokers: vec![BrokerNode { id: 1, host: "10.0.0.5".into(), port: 9000 }],
        assignments: vec![PartitionAssignment { topic_id: 1, partition_id: 0, leader: 1, replicas: vec![1] }],
    };
    assert_eq!(ClusterConfig::resolve_leader_addr(Some(&cfg), 1, 0, 7777), "10.0.0.5:9000");
    assert_eq!(ClusterConfig::resolve_leader_addr(Some(&cfg), 2, 0, 7777), "127.0.0.1:7777");
    assert_eq!(ClusterConfig::resolve_leader_addr(None, 1, 0, 7000), "127.0.0.1:7000");
}

#[test]
fn request_names_are_distinct_per_kind() {
    let kinds = vec![
        Message::Echo("a".into()),
        Message::REcho("a".into()),
        Message::Pcm(vec![1]),
        Message::RPcm(0),
        Message::ListTopics,
        Message::GetCluster,
        Message::RProduce(3),
        Message::RError(1, "x".into()),
    ];
    for (i, a) in kinds.iter().enumerate() {
        for (j, b) in kinds.iter().enumerate() {
            assert_eq!(request_name(a) == request_name(b), i == j);
        }
    }
    assert_eq!(request_name(&Message::Pcm(vec![])), request_name(&Message::Pcm(vec![9, 9])));
}

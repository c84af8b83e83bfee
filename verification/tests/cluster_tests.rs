use custom_dmq::cluster::{BrokerNode, ClusterConfig, PartitionAssignment};

fn sample_config() -> ClusterConfig {
    ClusterConfig {
        min_insync_replicas: 2,
        brokers: vec![
            BrokerNode { id: 1, host: "127.0.0.1".into(), port: 7777 },
            BrokerNode { id: 2, host: "127.0.0.1".into(), port: 7778 },
            BrokerNode { id: 3, host: "127.0.0.1".into(), port: 7779 },
        ],
        assignments: vec![PartitionAssignment { topic_id: 1, partition_id: 0, leader: 1, replicas: vec![1, 2, 3] }],
    }
}

#[test]
fn cluster_encode_decode_roundtrip() {
    let cfg = sample_config();
    let bytes = cfg.encode();
    let decoded = ClusterConfig::decode(&bytes).unwrap();
    assert_eq!(cfg, decoded);
}

#[test]
fn leader_and_replica_lookup() {
    let cfg = sample_config();
    assert_eq!(cfg.leader_for(1, 0), Some(1));
    assert!(cfg.is_replica(2, 1, 0));
    assert!(!cfg.is_leader(2, 1, 0));
    assert_eq!(cfg.leader_addr(1, 0).as_deref(), Some("127.0.0.1:7777"));
}

#[test]
fn broker_address_comes_from_the_configuration_when_listed() {
    let cfg = ClusterConfig {
        min_insync_replicas: 1,
        brokers: vec![BrokerNode { id: 2, host: "10.0.0.2".into(), port: 7778 }],
        assignments: vec![],
    };
    assert_eq!(ClusterConfig::resolve_broker_addr(Some(&cfg), 2, 7777), "10.0.0.2:7778");
    assert_eq!(ClusterConfig::resolve_broker_addr(Some(&cfg), 3, 7777), "127.0.0.1:7777");
    assert_eq!(ClusterConfig::resolve_broker_addr(None, 2, 9000), "127.0.0.1:9000");
}

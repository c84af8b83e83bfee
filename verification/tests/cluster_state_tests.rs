use custom_dmq::cluster::{BrokerNode, ClusterConfig, PartitionAssignment};
use custom_dmq::cluster_state::ClusterState;

fn sample_seed() -> ClusterConfig {
    ClusterConfig {
        min_insync_replicas: 2,
        brokers: vec![
            BrokerNode { id: 1, host: "127.0.0.1".into(), port: 7777 },
            BrokerNode { id: 2, host: "127.0.0.1".into(), port: 7778 },
            BrokerNode { id: 3, host: "127.0.0.1".into(), port: 7779 },
        ],
        assignments: vec![PartitionAssignment { topic_id: 1, partition_id: 0, leader: 1, replicas: vec![1, 2, 3] }],
    }
}

#[test]
fn cluster_state_encode_decode_roundtrip() {
    let state = ClusterState::from_seed(&sample_seed());
    let decoded = ClusterState::decode(&state.encode()).unwrap();
    assert_eq!(state, decoded);
}

#[test]
fn failover_promotes_alive_replica() {
    let mut state = ClusterState::from_seed(&sample_seed());
    let now = 100_000u64;
    state.record_heartbeat(2, now);
    state.record_heartbeat(3, now);
    state.broker_last_seen_ms.insert(1, now - 20_000);

    let changed = state.failover_dead_leaders(now, 10_000);
    assert_eq!(changed.len(), 1);
    assert_eq!(state.leader_for(1, 0), Some(2));
    assert_eq!(state.leader_epoch(1, 0), 2);
}

#[test]
fn cluster_info_v2_roundtrip() {
    let state = ClusterState::from_seed(&sample_seed());
    let bytes = state.encode_cluster_info();
    let decoded = ClusterState::decode_cluster_info(&bytes).unwrap();
    assert_eq!(decoded.assignments, state.assignments);
}

#[test]
fn controller_is_lowest_broker_id() {
    let state = ClusterState::from_seed(&sample_seed());
    assert_eq!(state.controller_id(None), Some(1));
}

#[test]
fn controller_override_wins() {
    let state = ClusterState::from_seed(&sample_seed());
    assert_eq!(state.controller_id(Some(Some(3))), Some(3));
    assert_eq!(state.controller_id(Some(None)), None);
    assert!(state.is_controller(3, Some(Some(3))));
    assert!(!state.is_controller(1, Some(Some(3))));
}

#[test]
fn bootstrap_state_is_alive_at_epoch_one() {
    let state = ClusterState::from_seed_at(&sample_seed(), 5_000);
    assert_eq!(state.leader_epoch(1, 0), 1);
    assert_eq!(state.leader_epoch(9, 9), 0);
    assert_eq!(state.leader_for(9, 9), None);
    assert!(state.broker_alive(1, 5_000, 0));
    assert!(state.broker_alive(2, 6_000, 1_000));
    assert!(!state.broker_alive(2, 6_001, 1_000));
    assert!(!state.broker_alive(9, 5_000, 1_000));
}

#[test]
fn heartbeat_from_unknown_broker_is_ignored() {
    let mut state = ClusterState::from_seed_at(&sample_seed(), 0);
    state.record_heartbeat(42, 7);
    assert!(!state.broker_last_seen_ms.contains_key(&42));
    state.record_heartbeat(2, 7);
    assert_eq!(state.broker_last_seen_ms.get(&2), Some(&7));
}

#[test]
fn failover_without_alive_replica_keeps_leader() {
    let mut state = ClusterState::from_seed_at(&sample_seed(), 0);
    let changed = state.failover_dead_leaders(100_000, 10);
    assert!(changed.is_empty());
    assert_eq!(state.leader_for(1, 0), Some(1));
    assert_eq!(state.leader_epoch(1, 0), 1);
}

#[test]
fn decode_rejects_bad_magic_and_versions() {
    assert!(ClusterState::decode(b"XXXXXX").is_err());
    assert!(ClusterState::decode(b"").is_err());
    assert!(ClusterState::decode_cluster_info(&[]).is_err());
    assert!(ClusterState::decode_cluster_info(&[9, 0, 0]).is_err());
}

#[test]
fn cluster_info_v1_bootstraps_configuration() {
    let cfg = sample_seed();
    let mut bytes = vec![1u8];
    bytes.extend_from_slice(&cfg.encode());
    let state = ClusterState::decode_cluster_info_at(&bytes, 77).unwrap();
    assert_eq!(state.to_cluster_config(), cfg);
    assert_eq!(state.broker_last_seen_ms.get(&1), Some(&77));
}

#[test]
fn persisted_state_keeps_liveness() {
    let mut state = ClusterState::from_seed_at(&sample_seed(), 10);
    state.record_heartbeat(3, 99);
    let decoded = ClusterState::decode(&state.encode()).unwrap();
    assert_eq!(decoded.broker_last_seen_ms.get(&3), Some(&99));
    assert_eq!(decoded, state);
}

#[test]
fn bootstrap_and_persist() {
    let seed = sample_seed();
    let state = ClusterState::from_seed(&seed);
    assert_eq!(state.leader_for(1, 0), Some(1));
    assert_eq!(state.leader_epoch(1, 0), 1);
    let reloaded = ClusterState::decode(&state.encode()).unwrap();
    assert_eq!(reloaded.assignments, state.assignments);
}

#[test]
fn state_file_without_liveness_still_decodes() {
    let state = ClusterState::from_seed_at(&sample_seed(), 10);
    let bytes = state.encode();
    let entries = state.broker_last_seen_ms.len();
    let cut = &bytes[..bytes.len() - 2 - 10 * entries];
    let decoded = ClusterState::decode(cut).unwrap();
    assert_eq!(decoded.min_insync_replicas, state.min_insync_replicas);
    assert_eq!(decoded.brokers, state.brokers);
    assert_eq!(decoded.assignments, state.assignments);
    assert!(decoded.broker_last_seen_ms.is_empty());
}

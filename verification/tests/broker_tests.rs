use custom_dmq::broker::Broker;
use custom_dmq::cluster::{BrokerNode, ClusterConfig, PartitionAssignment};
use custom_dmq::error::DmqError;
use custom_dmq::message::{
    CommitOffsetRequest, ConsumerRegister, FetchRequest, IdempotentProduceRequest, ProducerRegister,
};
use custom_dmq::topic_config::TopicConfig;

fn fetch(topic_id: u16, partition_id: u16, offset: u64, max_bytes: u32) -> FetchRequest {
    FetchRequest { topic_id, partition_id, offset, max_bytes, max_wait_ms: 0 }
}

fn setup() -> Broker {
    let mut broker = Broker::new();
    broker.register_producer(&ProducerRegister { port: 7778, topic_id: 1 }).unwrap();
    broker
}

fn setup_with_group(group_id: u16) -> Broker {
    let mut broker = setup();
    broker.register_consumer(&ConsumerRegister { port: 7779, topic_id: 1, group_id }).unwrap();
    broker
}

#[test]
fn apply_replica_is_idempotent() {
    let mut broker = Broker::new();
    broker.create_topic(TopicConfig::new(1, 1, 100)).unwrap();
    broker.apply_replica(1, 0, 0, b"a").unwrap();
    broker.apply_replica(1, 0, 0, b"a").unwrap();
    let records = broker
        .fetch_log(&FetchRequest { topic_id: 1, partition_id: 0, offset: 0, max_bytes: 1024, max_wait_ms: 0 })
        .unwrap();
    assert_eq!(records.len(), 1);
}

#[test]
fn replica_gap_is_refused() {
    let mut broker = Broker::new();
    broker.apply_replica(1, 0, 0, b"a").unwrap();
    assert_eq!(broker.apply_replica(1, 0, 5, b"z"), Err(DmqError::ReplicaGap { expected: 1, got: 5 }));
}

#[test]
fn test_register_producer_auto_creates_topic() {
    let mut broker = Broker::new();
    let code = broker.register_producer(&ProducerRegister { port: 7778, topic_id: 1 }).unwrap();
    assert_eq!(code, 0);
    assert!(broker.has_topic(1));
}

#[test]
fn test_produce_to_staging_without_groups() {
    let mut broker = setup();
    let (_, o1) = broker.produce_pcm(1, b"msg-a").unwrap();
    let (_, o2) = broker.produce_pcm(1, b"msg-b").unwrap();
    assert_eq!(o1, 0);
    assert_eq!(o2, 1);
}

#[test]
fn test_consume_returns_messages_in_order() {
    let mut broker = setup_with_group(10);
    broker.produce_pcm(1, b"first").unwrap();
    broker.produce_pcm(1, b"second").unwrap();

    let mut payload = None;
    assert!(broker.consume_from_partition(1, 10, 0, &mut payload).unwrap());
    assert_eq!(payload.as_deref(), Some(b"first" as &[u8]));

    payload = None;
    assert!(broker.consume_from_partition(1, 10, 0, &mut payload).unwrap());
    assert_eq!(payload.as_deref(), Some(b"second" as &[u8]));
}

#[test]
fn test_two_groups_independent() {
    let mut broker = setup_with_group(1);
    broker.register_consumer(&ConsumerRegister { port: 7780, topic_id: 1, group_id: 2 }).unwrap();
    broker.produce_pcm(1, b"msg-a").unwrap();
    broker.produce_pcm(1, b"msg-b").unwrap();

    let mut a = None;
    let mut b = None;
    assert!(broker.consume_from_partition(1, 1, 0, &mut a).unwrap());
    assert!(broker.consume_from_partition(1, 2, 0, &mut b).unwrap());
    assert_eq!(a.as_deref(), Some(b"msg-a" as &[u8]));
    assert_eq!(b.as_deref(), Some(b"msg-a" as &[u8]));

    a = None;
    assert!(broker.consume_from_partition(1, 1, 0, &mut a).unwrap());
    assert_eq!(a.as_deref(), Some(b"msg-b" as &[u8]));
}

#[test]
fn test_staging_drains_when_group_registers_after_produce() {
    let mut broker = setup();
    broker.produce_pcm(1, b"early").unwrap();
    broker.register_consumer(&ConsumerRegister { port: 7779, topic_id: 1, group_id: 1 }).unwrap();
    broker.produce_pcm(1, b"late").unwrap();

    let mut payload = None;
    assert!(broker.consume_from_partition(1, 1, 0, &mut payload).unwrap());
    assert_eq!(payload.as_deref(), Some(b"early" as &[u8]));
    payload = None;
    assert!(broker.consume_from_partition(1, 1, 0, &mut payload).unwrap());
    assert_eq!(payload.as_deref(), Some(b"late" as &[u8]));
}

#[test]
fn commit_and_fetch_log_roundtrip() {
    let mut broker = Broker::new();
    broker.register_producer(&ProducerRegister { port: 7778, topic_id: 1 }).unwrap();
    broker.produce_pcm(1, b"a").unwrap();
    broker.produce_pcm(1, b"bb").unwrap();

    let records = broker
        .fetch_log(&FetchRequest { topic_id: 1, partition_id: 0, offset: 0, max_bytes: 1024, max_wait_ms: 0 })
        .unwrap();
    assert_eq!(records.len(), 2);
    assert_eq!(records[0].payload, b"a".to_vec());

    broker.commit_offset(&CommitOffsetRequest { group_id: 7, topic_id: 1, partition_id: 0, offset: 2 });
    assert_eq!(broker.committed_offset(7, 1, 0), Some(2));
}

#[test]
fn create_topic_and_describe() {
    let mut broker = Broker::new();
    let code = broker.create_topic(TopicConfig::new(9, 2, 100)).unwrap();
    assert_eq!(code, 0);
    let bytes = broker.describe_topic(9);
    let partition_count = u16::from_be_bytes([bytes[0], bytes[1]]);
    assert_eq!(partition_count, 2);
    let leader = u16::from_be_bytes([bytes[24], bytes[25]]);
    assert_eq!(leader, broker.broker_id());
}

#[test]
fn get_lag_reflects_uncommitted_records() {
    let mut broker = Broker::new();
    broker.append_log(1, 0, b"x").unwrap();
    broker.append_log(1, 0, b"y").unwrap();
    let bytes = broker.get_lag(1, 1);
    let lag = u64::from_be_bytes(bytes[20..28].try_into().unwrap());
    assert_eq!(lag, 2);
}

#[test]
fn creating_an_existing_topic_answers_one() {
    let mut broker = Broker::new();
    assert_eq!(broker.create_topic(TopicConfig::new(3, 1, 10)).unwrap(), 0);
    assert_eq!(broker.create_topic(TopicConfig::new(3, 4, 10)).unwrap(), 1);
    assert_eq!(broker.describe_topic(4), vec![0u8, 0]);
    broker.create_topic(TopicConfig::new(1, 1, 10)).unwrap();
    assert_eq!(broker.list_topics(), vec![0u8, 2, 0, 1, 0, 3]);
}

#[test]
fn describe_topic_lists_every_partition() {
    let mut broker = Broker::new();
    broker.create_topic(TopicConfig::new(9, 2, 100)).unwrap();
    broker.append_log(9, 1, b"abc").unwrap();
    let bytes = broker.describe_topic(9);
    let mut expected = vec![0u8, 2];
    for (p, next, len) in [(0u16, 0u64, 0u32), (1, 1, 1)] {
        expected.extend_from_slice(&p.to_be_bytes());
        expected.extend_from_slice(&0u64.to_be_bytes());
        expected.extend_from_slice(&next.to_be_bytes());
        expected.extend_from_slice(&len.to_be_bytes());
        expected.extend_from_slice(&1u16.to_be_bytes());
        expected.extend_from_slice(&1u16.to_be_bytes());
        expected.extend_from_slice(&1u16.to_be_bytes());
    }
    assert_eq!(bytes, expected);
}

#[test]
fn consumers_beyond_partitions_get_new_ones() {
    let mut broker = setup();
    let reg = ConsumerRegister { port: 1, topic_id: 1, group_id: 5 };
    assert_eq!(broker.register_consumer(&reg).unwrap(), 0);
    assert_eq!(broker.register_consumer(&reg).unwrap(), 1);
    assert_eq!(broker.topic_group_partition_count(1, 5), Some(2));
    assert_eq!(broker.topic_group_count(1), Some(1));
    assert_eq!(broker.topic_ids_with_groups(), vec![(1u16, vec![5u16])]);
    let mut out = Some(b"keep".to_vec());
    assert!(!broker.consume_from_partition(9, 5, 0, &mut out).unwrap());
    assert_eq!(out, Some(b"keep".to_vec()));
    assert!(!broker.consume_from_partition(1, 5, 7, &mut out).unwrap());
    assert_eq!(out, Some(b"keep".to_vec()));
    assert!(!broker.consume_from_partition(1, 5, 0, &mut out).unwrap());
    assert_eq!(out, None);
}

#[test]
fn staging_holds_messages_until_a_group_exists() {
    let mut broker = setup();
    broker.produce_pcm(1, b"a").unwrap();
    broker.produce_pcm(1, b"b").unwrap();
    assert_eq!(broker.topic_staging_len(1), Some(2));
    assert_eq!(broker.topic_staging_len(2), None);
    broker.register_consumer(&ConsumerRegister { port: 1, topic_id: 1, group_id: 1 }).unwrap();
    broker.produce_pcm(1, b"c").unwrap();
    assert_eq!(broker.topic_staging_len(1), Some(0));
}

#[test]
fn echo_answer_prefixes_the_text() {
    let broker = Broker::new();
    assert_eq!(broker.process_echo("hi"), "I have receiver: hi");
}

#[test]
fn append_fetch_commit_and_lag() {
    let mut broker = Broker::with_limits(1, None, 255, 65536);
    assert_eq!(broker.append_log(1, 0, b"one").unwrap(), 0);
    assert_eq!(broker.append_log(1, 0, b"two").unwrap(), 1);
    let records = broker.fetch_log(&fetch(1, 0, 1, 1024)).unwrap();
    assert_eq!(records.len(), 1);
    assert_eq!(records[0].payload, b"two".to_vec());
    broker.commit_offset(&CommitOffsetRequest { group_id: 3, topic_id: 1, partition_id: 0, offset: 2 });
    assert_eq!(broker.committed_offset(3, 1, 0), Some(2));
    assert_eq!(broker.committed_offset(4, 1, 0), None);
    let lag = broker.get_lag(3, 1);
    let mut expected = vec![0u8, 1, 0, 0];
    expected.extend_from_slice(&2u64.to_be_bytes());
    expected.extend_from_slice(&2u64.to_be_bytes());
    expected.extend_from_slice(&0u64.to_be_bytes());
    assert_eq!(lag, expected);
}

#[test]
fn oversized_payloads_are_refused() {
    let mut broker = Broker::with_limits(1, None, 4, 65536);
    assert_eq!(broker.append_log(1, 0, b"12345"), Err(DmqError::PayloadTooLarge { len: 5, max: 4 }));
    assert!(broker.log(1, 0).is_none());
}

#[test]
fn idempotent_produce_through_the_broker() {
    let mut broker = Broker::with_limits(1, None, 255, 65536);
    let req = |seq: u64| IdempotentProduceRequest { topic_id: 2, partition_id: 0, producer_id: 9, sequence: seq, payload: b"p".to_vec() };
    assert_eq!(broker.produce_idempotent(&req(0)), Ok(0));
    assert_eq!(broker.produce_idempotent(&req(0)), Ok(0));
    assert_eq!(broker.produce_idempotent(&req(1)), Ok(1));
    assert_eq!(broker.produce_idempotent(&req(3)), Err(DmqError::SequenceGap { expected: 2, got: 3 }));
    assert_eq!(broker.log(2, 0).unwrap().next_offset(), 2);
}

#[test]
fn clustered_broker_routes_by_assignment() {
    let cluster = ClusterConfig {
        min_insync_replicas: 1,
        brokers: vec![BrokerNode { id: 1, host: "a".into(), port: 1 }, BrokerNode { id: 2, host: "b".into(), port: 2 }],
        assignments: vec![PartitionAssignment { topic_id: 1, partition_id: 0, leader: 2, replicas: vec![2] }],
    };
    let mut broker = Broker::with_limits(1, Some(cluster), 255, 65536);
    assert_eq!(broker.partition_leader(1, 0), 2);
    assert!(!broker.is_partition_leader(1, 0));
    assert_eq!(broker.fetch_redirect_leader(1, 0, true), Some(2));
    assert_eq!(broker.fetch_redirect_leader(1, 0, false), None);
    assert!(!broker.is_partition_replica(1, 0));
    assert_eq!(broker.fetch_log(&fetch(1, 0, 0, 10)), Err(DmqError::NotReplica));
    assert_eq!(broker.apply_replica(1, 0, 0, b"x"), Err(DmqError::NotReplica));
    assert_eq!(broker.partition_replicas(1, 0), vec![2]);
    assert_eq!(broker.partition_leader(7, 7), 1);
}

#[test]
fn fetch_budget_is_capped_by_the_broker() {
    let mut broker = Broker::with_limits(1, None, 255, 3);
    broker.append_log(1, 0, b"aa").unwrap();
    broker.append_log(1, 0, b"bb").unwrap();
    let records = broker.fetch_log(&fetch(1, 0, 0, 1000)).unwrap();
    assert_eq!(records.len(), 1);
}

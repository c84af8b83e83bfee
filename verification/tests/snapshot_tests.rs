use custom_dmq::broker::Broker;
use custom_dmq::error::DmqError;
use custom_dmq::log_store::{decode_log_data, encode_log_record};
use custom_dmq::message::{ConsumerRegister, FetchRequest, ProducerRegister};

#[test]
fn broker_reopen_restores_staged_messages() {
    let mut broker = Broker::new();
    broker.register_producer(&ProducerRegister { port: 7778, topic_id: 5 }).unwrap();
    broker.produce_pcm(5, b"survives").unwrap();
    let stored = broker.stored_topic(5).unwrap();
    let mut reopened = Broker::new();
    reopened.restore_topic(&stored).unwrap();
    assert_eq!(reopened.topic_staging_len(5), Some(1));
}

#[test]
fn restored_groups_deliver_in_order() {
    let mut broker = Broker::new();
    broker.register_consumer(&ConsumerRegister { port: 7779, topic_id: 2, group_id: 9 }).unwrap();
    broker.produce_pcm(2, b"first").unwrap();
    broker.produce_pcm(2, b"second").unwrap();
    let stored = broker.stored_topic(2).unwrap();
    let mut reopened = Broker::new();
    reopened.restore_topic(&stored).unwrap();
    assert_eq!(reopened.topic_group_count(2), Some(1));
    assert_eq!(reopened.topic_group_partition_count(2, 9), Some(1));
    let mut out = None;
    assert_eq!(reopened.consume_from_partition(2, 9, 0, &mut out), Ok(true));
    assert_eq!(out, Some(b"first".to_vec()));
    assert_eq!(reopened.consume_from_partition(2, 9, 0, &mut out), Ok(true));
    assert_eq!(out, Some(b"second".to_vec()));
    assert_eq!(reopened.stored_topic(2).map(|b| b.len() < stored.len()), Some(true));
}

#[test]
fn unknown_topics_are_not_stored_and_corrupt_ones_refused() {
    let broker = Broker::new();
    assert_eq!(broker.stored_topic(1), None);
    let mut reopened = Broker::new();
    assert_eq!(reopened.restore_topic(&[0, 1, 0]), Err(DmqError::CorruptTopic));
    assert!(!reopened.has_topic(1));
}

#[test]
fn partition_log_survives_reopen() {
    let mut broker = Broker::new();
    broker.append_log(4, 0, b"one").unwrap();
    broker.append_log(4, 0, b"two").unwrap();
    let mut file = Vec::new();
    for rec in broker.log(4, 0).unwrap().fetch(0, 1024).records {
        file.extend(encode_log_record(&rec).unwrap());
    }
    let mut reopened = Broker::new();
    reopened.ensure_topic(4);
    reopened.restore_log(4, 0, decode_log_data(&file, Some(10_000)).unwrap());
    let records = reopened
        .fetch_log(&FetchRequest { topic_id: 4, partition_id: 0, offset: 0, max_bytes: 1024, max_wait_ms: 0 })
        .unwrap();
    assert_eq!(records.len(), 2);
    assert_eq!(records[0].payload, b"one".to_vec());
    assert_eq!(records[1].payload, b"two".to_vec());
}

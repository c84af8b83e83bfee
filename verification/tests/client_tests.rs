use custom_dmq::broker::Broker;
use custom_dmq::client::{
    decode_description, decode_lag_report, decode_topic_list, fetched_records, handshake_frame, handshake_reply,
    needs_handshake, page_records, produce_message, resume_offset, HandshakeReply, LagEntry, PartitionSummary,
};
use custom_dmq::compression::{wrap_batch, CODEC_LZ4, CODEC_NONE};
use custom_dmq::fetch_batch::encode_records;
use custom_dmq::message::{CommitOffsetRequest, HandshakeRequest, IdempotentProduceRequest, Message, ProduceRequest};
use custom_dmq::partition_log::Record;
use custom_dmq::topic_config::TopicConfig;

fn records() -> Vec<Record> {
    vec![Record { offset: 4, payload: b"a".to_vec() }, Record { offset: 5, payload: b"bc".to_vec() }]
}

fn compressible() -> Vec<Record> {
    let lines = [
        "the quick brown fox jumps over the lazy dog",
        "pack my box with five dozen liquor jugs now",
        "sphinx of black quartz, judge my vow today",
        "how vexingly quick daft zebras jump at noon",
    ];
    lines
        .iter()
        .enumerate()
        .map(|(i, l)| Record { offset: i as u64, payload: format!("{l} | {l}").into_bytes() })
        .collect()
}

#[test]
fn produce_message_is_plain_or_idempotent() {
    assert_eq!(
        produce_message(3, false, 9, 2, b"x".to_vec()),
        Message::Produce(ProduceRequest { topic_id: 3, partition_id: 0, payload: b"x".to_vec() })
    );
    assert_eq!(
        produce_message(3, true, 9, 2, b"x".to_vec()),
        Message::IdempotentProduce(IdempotentProduceRequest {
            topic_id: 3,
            partition_id: 0,
            producer_id: 9,
            sequence: 2,
            payload: b"x".to_vec()
        })
    );
}

#[test]
fn fetched_records_unwraps_then_decodes() {
    let batch = encode_records(&records());
    let wrapped = wrap_batch(CODEC_NONE, &batch).unwrap();
    assert_eq!(fetched_records(wrapped).unwrap(), records());
    let big = encode_records(&compressible());
    let compressed = wrap_batch(CODEC_LZ4, &big).unwrap();
    assert_eq!(compressed[0], CODEC_LZ4);
    assert_eq!(fetched_records(compressed).unwrap(), compressible());
}

#[test]
fn page_records_only_unwraps_lz4_pages() {
    let big = encode_records(&compressible());
    let compressed = wrap_batch(CODEC_LZ4, &big).unwrap();
    assert_eq!(compressed[0], CODEC_LZ4);
    assert_eq!(page_records(compressed).unwrap(), compressible());
    assert_eq!(page_records(encode_records(&records())).unwrap(), records());
}

#[test]
fn resume_offset_continues_past_the_last_record() {
    assert_eq!(resume_offset(&[], 7), Some(7));
    assert_eq!(resume_offset(&records(), 0), Some(6));
    assert_eq!(resume_offset(&[Record { offset: u64::MAX, payload: vec![] }], 0), None);
}

#[test]
fn topic_list_reads_back_the_broker_topics() {
    let mut broker = Broker::new();
    broker.create_topic(TopicConfig::new(3, 1, 10)).unwrap();
    broker.create_topic(TopicConfig::new(1, 1, 10)).unwrap();
    assert_eq!(decode_topic_list(&broker.list_topics()), Some((2, vec![1, 3])));
    assert_eq!(decode_topic_list(&[0]), None);
    assert_eq!(decode_topic_list(&[0, 5, 0, 9]), Some((5, vec![9])));
}

#[test]
fn lag_report_reads_back_each_partition() {
    let mut broker = Broker::new();
    broker.create_topic(TopicConfig::new(1, 2, 10)).unwrap();
    broker.append_log(1, 0, b"a").unwrap();
    broker.append_log(1, 0, b"b").unwrap();
    broker.append_log(1, 1, b"c").unwrap();
    broker.commit_offset(&CommitOffsetRequest { group_id: 7, topic_id: 1, partition_id: 0, offset: 1 });
    assert_eq!(
        decode_lag_report(&broker.get_lag(7, 1)),
        Some(vec![
            LagEntry { partition_id: 0, committed: 1, log_end: 2, lag: 1 },
            LagEntry { partition_id: 1, committed: 0, log_end: 1, lag: 1 },
        ])
    );
    assert_eq!(decode_lag_report(&[]), None);
}

#[test]
fn description_reads_back_a_single_partition() {
    let mut broker = Broker::new();
    broker.create_topic(TopicConfig::new(1, 1, 10)).unwrap();
    broker.append_log(1, 0, b"a").unwrap();
    broker.append_log(1, 0, b"b").unwrap();
    assert_eq!(
        decode_description(&broker.describe_topic(1)),
        Some((1, vec![PartitionSummary { partition_id: 0, base_offset: 0, next_offset: 2, records: 2 }]))
    );
    assert_eq!(decode_description(&broker.describe_topic(9)), Some((0, vec![])));
}

#[test]
fn handshakes_start_at_protocol_two() {
    assert!(!needs_handshake(1));
    assert!(needs_handshake(2));
    let f = handshake_frame(7, 2, b"tok".to_vec());
    assert_eq!(f.correlation_id, 7);
    assert_eq!(f.message, Message::Handshake(HandshakeRequest { protocol_version: 2, auth_token: b"tok".to_vec() }));
}

#[test]
fn handshake_replies_are_read() {
    assert_eq!(handshake_reply(&Message::RHandshake(0, 2)), HandshakeReply::Accepted(2));
    assert_eq!(handshake_reply(&Message::RHandshake(4, 2)), HandshakeReply::Rejected(4));
    assert_eq!(handshake_reply(&Message::RError(2, "bad token".into())), HandshakeReply::Refused(2, "bad token".into()));
    assert_eq!(handshake_reply(&Message::RProduce(1)), HandshakeReply::Unexpected);
}

use custom_dmq::message::{
    parse_frame, CommitOffsetRequest, ConsumerRegister, CreateTopicRequest, FetchRequest, IdempotentProduceRequest,
    Message, ProduceRequest, ProducerRegister, ReplicateRequest, ECHO, PCM,
};

#[test]
fn message_producer_register_roundtrip() {
    let reg = ProducerRegister { port: 7778, topic_id: 1 };
    let decoded = ProducerRegister::decode(&reg.encode()).unwrap();
    assert_eq!(reg, decoded);
}

#[test]
fn message_consumer_register_roundtrip() {
    let reg = ConsumerRegister { port: 7779, topic_id: 1, group_id: 2 };
    let decoded = ConsumerRegister::decode(&reg.encode()).unwrap();
    assert_eq!(reg, decoded);
}

#[test]
fn message_parse_echo_and_pcm() {
    let echo_body = [ECHO, b'h', b'i'];
    assert_eq!(parse_frame(&echo_body).unwrap(), Message::Echo("hi".to_string()));

    let pcm_body = [PCM, b'a', b'b', b'c'];
    assert_eq!(parse_frame(&pcm_body).unwrap(), Message::Pcm(b"abc".to_vec()));
}

#[test]
fn message_fetch_request_roundtrip() {
    let req = FetchRequest { topic_id: 7, partition_id: 2, offset: 42, max_bytes: 4096, max_wait_ms: 0 };
    let decoded = FetchRequest::decode(&req.encode()).unwrap();
    assert_eq!(req, decoded);
}

#[test]
fn message_commit_offset_roundtrip() {
    let req = CommitOffsetRequest { group_id: 1, topic_id: 7, partition_id: 2, offset: 42 };
    let decoded = CommitOffsetRequest::decode(&req.encode()).unwrap();
    assert_eq!(req, decoded);
}

#[test]
fn message_produce_request_roundtrip() {
    let req = ProduceRequest { topic_id: 1, partition_id: 0, payload: b"hello".to_vec() };
    let decoded = ProduceRequest::decode(&req.encode()).unwrap();
    assert_eq!(req, decoded);
}

#[test]
fn message_create_topic_roundtrip() {
    let req = CreateTopicRequest { topic_id: 5, partition_count: 3, max_records: 100 };
    let decoded = CreateTopicRequest::decode(&req.encode()).unwrap();
    assert_eq!(req, decoded);
}

#[test]
fn message_replicate_request_roundtrip() {
    let req = ReplicateRequest { topic_id: 1, partition_id: 0, offset: 42, payload: b"data".to_vec() };
    let decoded = ReplicateRequest::decode(&req.encode()).unwrap();
    assert_eq!(req, decoded);
}

#[test]
fn idempotent_produce_roundtrip() {
    let req = IdempotentProduceRequest { topic_id: 1, partition_id: 0, producer_id: 99, sequence: 3, payload: b"x".to_vec() };
    let decoded = IdempotentProduceRequest::decode(&req.encode()).unwrap();
    assert_eq!(req, decoded);
}

#[test]
fn long_handshake_token_length_is_cut_to_sixteen_bits() {
    let token = vec![7u8; 65538];
    let m = Message::Handshake(custom_dmq::message::HandshakeRequest { protocol_version: 2, auth_token: token });
    let body = custom_dmq::message::encode_message(&m).unwrap();
    assert_eq!(body.len(), 1 + 4 + 65538);
    assert_eq!(&body[1..5], &[0, 2, 0, 2]);
}

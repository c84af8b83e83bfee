use custom_dmq::message::{
    parse_frame, CommitOffsetRequest, ConsumerRegister, CreateTopicRequest, FetchRequest, Message, ProduceRequest,
    ProducerRegister, ReplicateRequest, ECHO, PCM,
};

#[test]
fn producer_register_roundtrip() {
    let reg = ProducerRegister { port: 7778, topic_id: 1 };
    let decoded = ProducerRegister::decode(&reg.encode()).unwrap();
    assert_eq!(reg, decoded);
}

#[test]
fn consumer_register_roundtrip() {
    let reg = ConsumerRegister { port: 7779, topic_id: 1, group_id: 2 };
    let decoded = ConsumerRegister::decode(&reg.encode()).unwrap();
    assert_eq!(reg, decoded);
}

#[test]
fn parse_echo_and_pcm() {
    let echo_body = [ECHO, b'h', b'i'];
    assert_eq!(parse_frame(&echo_body).unwrap(), Message::Echo("hi".to_string()));

    let pcm_body = [PCM, b'a', b'b', b'c'];
    assert_eq!(parse_frame(&pcm_body).unwrap(), Message::Pcm(b"abc".to_vec()));
}

#[test]
fn fetch_request_roundtrip() {
    let req = FetchRequest { topic_id: 7, partition_id: 2, offset: 42, max_bytes: 4096, max_wait_ms: 0 };
    let decoded = FetchRequest::decode(&req.encode()).unwrap();
    assert_eq!(req, decoded);
}

#[test]
fn commit_offset_roundtrip() {
    let req = CommitOffsetRequest { group_id: 1, topic_id: 7, partition_id: 2, offset: 42 };
    let decoded = CommitOffsetRequest::decode(&req.encode()).unwrap();
    assert_eq!(req, decoded);
}

#[test]
fn produce_request_roundtrip() {
    let req = ProduceRequest { topic_id: 1, partition_id: 0, payload: b"hello".to_vec() };
    let decoded = ProduceRequest::decode(&req.encode()).unwrap();
    assert_eq!(req, decoded);
}

#[test]
fn create_topic_roundtrip() {
    let req = CreateTopicRequest { topic_id: 5, partition_count: 3, max_records: 100 };
    let decoded = CreateTopicRequest::decode(&req.encode()).unwrap();
    assert_eq!(req, decoded);
}

#[test]
fn replicate_request_roundtrip() {
    let req = ReplicateRequest { topic_id: 1, partition_id: 0, offset: 42, payload: b"data".to_vec() };
    let decoded = ReplicateRequest::decode(&req.encode()).unwrap();
    assert_eq!(req, decoded);
}


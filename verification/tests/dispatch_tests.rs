use custom_dmq::broker::Broker;
use custom_dmq::dispatch::{
    dispatch_message, fetch_reply, replication_outcome, Action, ConnectionSession, DispatchSettings,
};
use custom_dmq::message::{
    CommitOffsetRequest, ConsumerRegister, CreateTopicRequest, DescribeTopicRequest, FetchRequest, GetLagRequest,
    HandshakeRequest, IdempotentProduceRequest, Message, ProduceRequest, ProducerRegister,
};
use custom_dmq::metrics::BrokerMetrics;
use custom_dmq::partition_log::Record;

fn settings() -> DispatchSettings {
    DispatchSettings {
        require_handshake: false,
        legacy_dialback: true,
        fetch_requires_leader: false,
        auth_token: None,
        heartbeat_timeout_ms: 10_000,
        session_timeout_ms: 15_000,
        broker_port: 7777,
    }
}

fn reply(a: Action) -> Message {
    match a {
        Action::Reply(m) => m,
        _ => panic!("expected a reply"),
    }
}

#[test]
fn produce_then_fetch_through_dispatch() {
    let mut broker = Broker::new();
    let mut metrics = BrokerMetrics::new();
    let mut session = ConnectionSession::new();
    let cfg = settings();
    let produce = Message::Produce(ProduceRequest { topic_id: 1, partition_id: 0, payload: b"hello".to_vec() });
    let a = dispatch_message(&mut broker, &mut metrics, &mut session, &produce, &cfg, 0);
    assert_eq!(reply(a), Message::RProduce(0));
    let a = dispatch_message(&mut broker, &mut metrics, &mut session, &produce, &cfg, 0);
    assert_eq!(reply(a), Message::RProduce(1));
    let fetch = Message::Fetch(FetchRequest { topic_id: 1, partition_id: 0, offset: 0, max_bytes: 1024, max_wait_ms: 0 });
    match dispatch_message(&mut broker, &mut metrics, &mut session, &fetch, &cfg, 0) {
        Action::Fetch(req) => assert_eq!(req.max_bytes, 1024),
        _ => panic!("expected a fetch"),
    }
    assert!(metrics.render_prometheus().contains("dmq_produce_total 2\n"));
}

#[test]
fn handshake_gates_requests() {
    let mut broker = Broker::new();
    let mut metrics = BrokerMetrics::new();
    let mut session = ConnectionSession::new();
    let mut cfg = settings();
    cfg.require_handshake = true;
    cfg.auth_token = Some(b"secret".to_vec());
    let echo = Message::Echo("hi".to_string());
    let a = dispatch_message(&mut broker, &mut metrics, &mut session, &echo, &cfg, 0);
    assert_eq!(reply(a), Message::RError(1, "handshake required".to_string()));

    let bad = Message::Handshake(HandshakeRequest { protocol_version: 2, auth_token: b"nope".to_vec() });
    let a = dispatch_message(&mut broker, &mut metrics, &mut session, &bad, &cfg, 0);
    assert_eq!(reply(a), Message::RError(2, "invalid auth token".to_string()));
    assert!(!session.handshaken);

    let good = Message::Handshake(HandshakeRequest { protocol_version: 2, auth_token: b"secret".to_vec() });
    let a = dispatch_message(&mut broker, &mut metrics, &mut session, &good, &cfg, 0);
    assert_eq!(reply(a), Message::RHandshake(0, 2));
    assert!(session.handshaken);
    assert_eq!(session.principal, "secret");
    assert_eq!(session.protocol_version, 2);

    let a = dispatch_message(&mut broker, &mut metrics, &mut session, &echo, &cfg, 0);
    assert_eq!(reply(a), Message::REcho("I have receiver: hi".to_string()));
}

#[test]
fn dial_back_registration() {
    let mut broker = Broker::new();
    let mut metrics = BrokerMetrics::new();
    let mut session = ConnectionSession::new();
    let mut cfg = settings();
    let reg = Message::ProducerRegister(ProducerRegister { port: 9000, topic_id: 4 });
    match dispatch_message(&mut broker, &mut metrics, &mut session, &reg, &cfg, 0) {
        Action::DialBackProducer { port, topic_id } => assert_eq!((port, topic_id), (9000, 4)),
        _ => panic!("expected a dial-back"),
    }
    assert!(broker.has_topic(4));
    let creg = Message::ConsumerRegister(ConsumerRegister { port: 9001, topic_id: 4, group_id: 2 });
    match dispatch_message(&mut broker, &mut metrics, &mut session, &creg, &cfg, 0) {
        Action::DialBackConsumer { partition_idx, .. } => assert_eq!(partition_idx, 0),
        _ => panic!("expected a dial-back"),
    }
    cfg.legacy_dialback = false;
    let a = dispatch_message(&mut broker, &mut metrics, &mut session, &reg, &cfg, 0);
    assert_eq!(reply(a), Message::RError(1, "dial-back disabled; use produce command".to_string()));
}

#[test]
fn admin_requests_through_dispatch() {
    let mut broker = Broker::new();
    let mut metrics = BrokerMetrics::new();
    let mut session = ConnectionSession::new();
    let cfg = settings();
    let create = Message::CreateTopic(CreateTopicRequest { topic_id: 9, partition_count: 0, max_records: 5 });
    assert_eq!(reply(dispatch_message(&mut broker, &mut metrics, &mut session, &create, &cfg, 0)), Message::RCreateTopic(0));
    assert_eq!(reply(dispatch_message(&mut broker, &mut metrics, &mut session, &create, &cfg, 0)), Message::RCreateTopic(1));
    let list = dispatch_message(&mut broker, &mut metrics, &mut session, &Message::ListTopics, &cfg, 0);
    assert_eq!(reply(list), Message::RListTopics(vec![0, 1, 0, 9]));
    let describe = Message::DescribeTopic(DescribeTopicRequest { topic_id: 9 });
    match reply(dispatch_message(&mut broker, &mut metrics, &mut session, &describe, &cfg, 0)) {
        Message::RDescribeTopic(bytes) => assert_eq!(&bytes[0..2], &[0, 1]),
        _ => panic!("expected a description"),
    }
    let commit = Message::CommitOffset(CommitOffsetRequest { group_id: 1, topic_id: 9, partition_id: 0, offset: 0 });
    assert_eq!(reply(dispatch_message(&mut broker, &mut metrics, &mut session, &commit, &cfg, 0)), Message::RCommitOffset(0));
    let lag = Message::GetLag(GetLagRequest { group_id: 1, topic_id: 9 });
    match reply(dispatch_message(&mut broker, &mut metrics, &mut session, &lag, &cfg, 0)) {
        Message::RGetLag(bytes) => assert_eq!(bytes.len(), 2 + 26),
        _ => panic!("expected a lag report"),
    }
    let a = dispatch_message(&mut broker, &mut metrics, &mut session, &Message::RPcm(0), &cfg, 0);
    assert!(matches!(a, Action::Close));
}

#[test]
fn idempotent_produce_through_dispatch() {
    let mut broker = Broker::new();
    let mut metrics = BrokerMetrics::new();
    let mut session = ConnectionSession::new();
    let cfg = settings();
    let req = |seq: u64| {
        Message::IdempotentProduce(IdempotentProduceRequest {
            topic_id: 1,
            partition_id: 0,
            producer_id: 5,
            sequence: seq,
            payload: b"x".to_vec(),
        })
    };
    assert_eq!(reply(dispatch_message(&mut broker, &mut metrics, &mut session, &req(0), &cfg, 0)), Message::RProduce(0));
    assert_eq!(reply(dispatch_message(&mut broker, &mut metrics, &mut session, &req(0), &cfg, 0)), Message::RProduce(0));
    assert_eq!(reply(dispatch_message(&mut broker, &mut metrics, &mut session, &req(1), &cfg, 0)), Message::RProduce(1));
    assert!(matches!(dispatch_message(&mut broker, &mut metrics, &mut session, &req(5), &cfg, 0), Action::Close));
    assert!(metrics.render_prometheus().contains("dmq_produce_total 2\n"));
    assert!(metrics.render_prometheus().contains("dmq_request_errors 1\n"));
}

#[test]
fn fetch_reply_wraps_the_batch() {
    let records = vec![Record { offset: 0, payload: b"a".to_vec() }];
    match fetch_reply(&records, 0) {
        Message::RFetch(bytes) => assert_eq!(bytes, vec![0, 0, 1, 0, 0, 0, 0, 0, 0, 0, 0, 0, 1, b'a']),
        _ => panic!("expected a fetch answer"),
    }
}

#[test]
fn too_few_replica_acks_refuse_the_produce() {
    let mut m = BrokerMetrics::new();
    assert_eq!(replication_outcome(&mut m, 7, 1, 2, true), Message::RError(4, "insufficient replicas acknowledged".into()));
    assert!(m.render_prometheus().contains("dmq_request_errors 1\n"));
    assert_eq!(replication_outcome(&mut m, 7, 2, 2, true), Message::RProduce(7));
    assert_eq!(replication_outcome(&mut m, 8, 0, 2, false), Message::RProduce(8));
    assert!(m.render_prometheus().contains("dmq_request_errors 1\n"));
}

//! The broker's answer to each request on a connection: what it changes in the
//! broker, the metrics and the connection, and what the connection does next.
//! Waiting, replication to followers, dial-backs and persistence are left to the
//! caller, which the returned action tells what to do.

use crate::broker::{
    appended_to_log, broker_heartbeat_answered, consumer_registration, group_heartbeat_answered, group_joined,
    idempotent_produced, lag_bytes, offset_committed, replica_applied, topic_created, Broker, BrokerView,
};
use crate::acl::Operation;
use crate::auth::principal_from_token;
use crate::compression::{spec_wrap, wrap_batch};
use crate::error::DmqError;
use crate::fetch_batch::{batch_bytes, encode_records};
use crate::partition_log::{records_view, Record, RecordView};
use crate::idempotency::{spec_entry_key, spec_resolve, IdempotencyAction};
use crate::message::{spec_join_group_response, encode_join_group_response, FetchRequest, Message, MessageView};
use crate::metrics::{BrokerMetrics, MetricsView};
use crate::protocol::{process_handshake, version_refusal, WireFormat, MAX_PROTOCOL_VERSION, PROTOCOL_V1};
use crate::text::{lossy_text, string_bytes};
use crate::topic_config::TopicConfig;
use crate::wire::{be16, to_vec};
use vstd::prelude::*;
use vstd::utf8::encode_utf8;

verus! {

/// What a connection has agreed so far.
pub struct ConnectionSession {
    pub wire_format: WireFormat,
    pub protocol_version: u16,
    pub principal: String,
    pub handshaken: bool,
}

impl ConnectionSession {
    /// A fresh connection: v1 framing and protocol, anonymous, no handshake.
    pub fn new() -> (s: ConnectionSession)
        ensures
            s.wire_format == WireFormat::V1,
            s.protocol_version == PROTOCOL_V1,
            s.principal@ == "anonymous"@,
            !s.handshaken,
    {
        ConnectionSession {
            wire_format: WireFormat::V1,
            protocol_version: PROTOCOL_V1,
            principal: "anonymous".to_string(),
            handshaken: false,
        }
    }
}

impl Default for ConnectionSession {
    fn default() -> (s: ConnectionSession)
        ensures
            s.wire_format == WireFormat::V1,
            s.protocol_version == PROTOCOL_V1,
            s.principal@ == "anonymous"@,
            !s.handshaken,
    {
        ConnectionSession::new()
    }
}

/// The operator's settings that requests are answered under.
pub struct DispatchSettings {
    /// Echo, fetch and produce need a handshake first.
    pub require_handshake: bool,
    /// Producers and consumers may register for dial-back delivery.
    pub legacy_dialback: bool,
    /// Fetches are redirected to the partition leader.
    pub fetch_requires_leader: bool,
    /// The token a handshake must present, if any.
    pub auth_token: Option<Vec<u8>>,
    /// How long a broker may stay silent before its leaderships move.
    pub heartbeat_timeout_ms: u64,
    /// How long a group member may stay silent before it is dropped.
    pub session_timeout_ms: u64,
    /// The port a standalone broker describes itself with.
    pub broker_port: u16,
}

/// What the connection does after a request.
pub enum Action {
    /// Send this answer.
    Reply(Message),
    /// Close the connection without an answer.
    Close,
    /// Start delivering to the producer listening on `port`, then answer
    /// `RProducerRegister(0)`.
    DialBackProducer { port: u16, topic_id: u16 },
    /// Start delivering partition `partition_idx` of the group to the consumer
    /// listening on `port`, then answer `RConsumerRegister(0)`.
    DialBackConsumer { port: u16, topic_id: u16, group_id: u16, partition_idx: u16 },
    /// Serve this fetch, waiting up to its `max_wait_ms` for records.
    Fetch(FetchRequest),
    /// Replicate the record just appended to the followers, then answer
    /// `RProduce(offset)`.
    Replicate { topic_id: u16, partition_id: u16, offset: u64, payload: Vec<u8> },
}

/// The action is the answer `m`.
pub open spec fn replies(a: Action, m: MessageView) -> bool {
    match a {
        Action::Reply(x) => x@ == m,
        _ => false,
    }
}

/// The metrics after one more request error.
pub open spec fn with_error(m: MetricsView) -> MetricsView {
    MetricsView { request_errors: m.request_errors.wrapping_add(1), ..m }
}

/// The metrics after a produce of `len` bytes.
pub open spec fn with_produce(m: MetricsView, len: nat) -> MetricsView {
    MetricsView {
        produce_total: m.produce_total.wrapping_add(1),
        produce_bytes: m.produce_bytes.wrapping_add(len as u64),
        ..m
    }
}

/// The metrics after a commit.
pub open spec fn with_commit(m: MetricsView) -> MetricsView {
    MetricsView { commit_total: m.commit_total.wrapping_add(1), ..m }
}

/// The request must wait for a handshake.
pub open spec fn gated(cfg: DispatchSettings, s: ConnectionSession) -> bool {
    cfg.require_handshake && !s.handshaken
}

/// The handshake refusal.
pub open spec fn handshake_required() -> MessageView {
    MessageView::RError(1, "handshake required"@)
}

/// The access refusal.
pub open spec fn acl_denied() -> MessageView {
    MessageView::RError(3, "acl denied"@)
}

/// The settings `TopicConfig::new` makes of a creation request.
pub open spec fn requested_config(topic_id: u16, partition_count: u16, max_records: u32) -> TopicConfig {
    TopicConfig {
        topic_id,
        partition_count: if partition_count < 1 {
            1
        } else {
            partition_count
        },
        max_records: if max_records < 1 {
            1
        } else {
            max_records
        },
    }
}

/// Whether `op` on `topic_id` is refused to the session's principal.
pub open spec fn refused(b: BrokerView, s: ConnectionSession, op: Operation, topic_id: u16) -> bool {
    b.acl.check(encode_utf8(s.principal@), op, topic_id) is Err
}

/// The session after an accepted handshake.
pub open spec fn handshaken_session(s0: ConnectionSession, s1: ConnectionSession, token: Seq<u8>, version: u16) -> bool {
    &&& s1.handshaken
    &&& s1.protocol_version == version
    &&& s1.wire_format == s0.wire_format
    &&& s1.principal@ == if token.len() == 0 {
        "anonymous"@
    } else {
        lossy_text(token)
    }
}

/// The answer to a produce whose record went to `offset`: replication first
/// when the broker is clustered.
pub open spec fn produce_ack(b: BrokerView, a: Action, topic_id: u16, partition_id: u16, offset: u64, payload: Seq<u8>) -> bool {
    if b.cluster is Some {
        a matches Action::Replicate { topic_id: t, partition_id: p, offset: o, payload: bytes } && t == topic_id && p
            == partition_id && o == offset && bytes@ == payload
    } else {
        replies(a, MessageView::RProduce(offset))
    }
}

/// What `dispatch_message` does with request `msg`: `b`, `m` and `s` are the
/// broker, the metrics and the session before (0) and after (1).
pub open spec fn dispatched(
    b0: BrokerView,
    b1: BrokerView,
    m0: MetricsView,
    m1: MetricsView,
    s0: ConnectionSession,
    s1: ConnectionSession,
    msg: Message,
    cfg: DispatchSettings,
    now_ms: u64,
    a: Action,
) -> bool {
    match msg {
        Message::Handshake(req) => {
            let token_ok = match cfg.auth_token {
                None => true,
                Some(e) => req.auth_token@ == e@,
            };
            &&& b1 == b0
            &&& m1 == m0
            &&& if !token_ok {
                s1 == s0 && replies(a, MessageView::RError(2, "invalid auth token"@))
            } else if req.protocol_version == 0 || req.protocol_version > MAX_PROTOCOL_VERSION {
                s1 == s0 && replies(a, MessageView::RError(1, version_refusal(req.protocol_version)))
            } else {
                handshaken_session(s0, s1, req.auth_token@, req.protocol_version) && replies(
                    a,
                    MessageView::RHandshake(0, req.protocol_version),
                )
            }
        },
        Message::Echo(text) => {
            &&& b1 == b0
            &&& m1 == m0
            &&& s1 == s0
            &&& if gated(cfg, s0) {
                replies(a, handshake_required())
            } else {
                replies(a, MessageView::REcho("I have receiver: "@ + text@))
            }
        },
        Message::ProducerRegister(reg) => {
            let t = reg.topic_id;
            &&& m1 == m0
            &&& s1 == s0
            &&& if !cfg.legacy_dialback {
                b1 == b0 && replies(a, MessageView::RError(1, "dial-back disabled; use produce command"@))
            } else {
                &&& a == Action::DialBackProducer { port: reg.port, topic_id: t }
                &&& b1.topics.contains_key(t)
                &&& !b0.topics.contains_key(t) ==> b1.topics[t].is_fresh(t)
                &&& b1 == b0.with_topic(t, b1.topics[t], b1.topic_ids)
            }
        },
        Message::ConsumerRegister(reg) => {
            &&& m1 == m0
            &&& s1 == s0
            &&& if !cfg.legacy_dialback {
                b1 == b0 && replies(a, MessageView::RError(1, "dial-back disabled; use fetch command"@))
            } else if !b0.consumer_room(reg.topic_id, reg.group_id) {
                b1 == b0 && a is Close
            } else {
                a matches Action::DialBackConsumer { port, topic_id, group_id, partition_idx } && port == reg.port
                    && topic_id == reg.topic_id && group_id == reg.group_id && consumer_registration(
                    b0,
                    b1,
                    reg,
                    Ok(partition_idx),
                )
            }
        },
        Message::Fetch(req) => {
            let leader = b0.partition_leader(req.topic_id, req.partition_id);
            &&& b1 == b0
            &&& s1 == s0
            &&& if gated(cfg, s0) {
                m1 == m0 && replies(a, handshake_required())
            } else if refused(b0, s0, Operation::Fetch, req.topic_id) {
                m1 == with_error(m0) && replies(a, acl_denied())
            } else if cfg.fetch_requires_leader && b0.cluster is Some && leader != b0.broker_id {
                m1 == m0 && replies(a, MessageView::RNotLeader(leader))
            } else {
                m1 == m0 && a == Action::Fetch(req)
            }
        },
        Message::CommitOffset(req) => {
            &&& s1 == s0
            &&& offset_committed(b0, b1, req)
            &&& m1 == with_commit(m0)
            &&& replies(a, MessageView::RCommitOffset(0))
        },
        Message::Produce(req) => {
            let t = req.topic_id;
            let p = req.partition_id;
            let leader = b0.partition_leader(t, p);
            &&& s1 == s0
            &&& if gated(cfg, s0) {
                b1 == b0 && m1 == m0 && replies(a, handshake_required())
            } else if refused(b0, s0, Operation::Produce, t) {
                b1 == b0 && m1 == with_error(m0) && replies(a, acl_denied())
            } else if b0.cluster is Some && leader != b0.broker_id {
                b1 == b0 && m1 == m0 && replies(a, MessageView::RNotLeader(leader))
            } else if b0.log(t, p).next_offset == u64::MAX {
                b1 == b0 && m1 == m0 && a is Close
            } else if req.payload@.len() > b0.max_payload_bytes {
                b1 == b0 && m1 == with_error(m0) && a is Close
            } else {
                let offset = b0.log(t, p).next_offset;
                &&& appended_to_log(b0, b1, t, p, req.payload@, Ok(offset))
                &&& m1 == with_produce(m0, req.payload@.len())
                &&& produce_ack(b0, a, t, p, offset, req.payload@)
            }
        },
        Message::IdempotentProduce(req) => {
            let t = req.topic_id;
            let p = req.partition_id;
            let leader = b0.partition_leader(t, p);
            let appends = spec_resolve(
                b0.idempotency.get(spec_entry_key(t, p, req.producer_id)),
                req.sequence,
            ) == Ok::<IdempotencyAction, DmqError>(IdempotencyAction::Append);
            &&& s1 == s0
            &&& if gated(cfg, s0) {
                b1 == b0 && m1 == m0 && replies(a, handshake_required())
            } else if refused(b0, s0, Operation::Produce, t) {
                b1 == b0 && m1 == with_error(m0) && replies(a, acl_denied())
            } else if b0.cluster is Some && leader != b0.broker_id {
                b1 == b0 && m1 == m0 && replies(a, MessageView::RNotLeader(leader))
            } else if b0.log(t, p).next_offset == u64::MAX {
                b1 == b0 && m1 == m0 && a is Close
            } else {
                exists|r: Result<u64, DmqError>|
                    idempotent_produced(b0, b1, req, r) && match r {
                        Ok(offset) => {
                            &&& m1 == if appends {
                                with_produce(m0, req.payload@.len())
                            } else {
                                m0
                            }
                            &&& produce_ack(b0, a, t, p, offset, req.payload@)
                        },
                        Err(_) => m1 == with_error(m0) && a is Close,
                    }
            }
        },
        Message::CreateTopic(req) => {
            &&& s1 == s0
            &&& if refused(b0, s0, Operation::Admin, req.topic_id) {
                b1 == b0 && m1 == with_error(m0) && replies(a, acl_denied())
            } else {
                let code: u8 = if b0.topics.contains_key(req.topic_id) {
                    1
                } else {
                    0
                };
                &&& m1 == m0
                &&& topic_created(b0, b1, requested_config(req.topic_id, req.partition_count, req.max_records), Ok(code))
                &&& replies(a, MessageView::RCreateTopic(code))
            }
        },
        Message::DescribeTopic(req) => {
            &&& b1 == b0
            &&& m1 == m0
            &&& s1 == s0
            &&& replies(a, MessageView::RDescribeTopic(b0.topic_description(req.topic_id)))
        },
        Message::ListTopics => {
            &&& b1 == b0
            &&& m1 == m0
            &&& s1 == s0
            &&& replies(a, MessageView::RListTopics(b0.topic_list()))
        },
        Message::GetLag(req) => {
            let n = b0.topic_config(req.topic_id).partition_count;
            &&& b1 == b0
            &&& m1 == m0
            &&& s1 == s0
            &&& replies(a, MessageView::RGetLag(be16(n) + lag_bytes(b0, req.group_id, req.topic_id, n as nat)))
        },
        Message::Replicate(req) => {
            &&& s1 == s0
            &&& if b0.log(req.topic_id, req.partition_id).next_offset == u64::MAX {
                b1 == b0 && m1 == m0 && a is Close
            } else {
                exists|r: Result<(), DmqError>|
                    replica_applied(b0, b1, req.topic_id, req.partition_id, req.offset, req.payload@, r) && match r {
                        Ok(()) => m1 == m0 && replies(a, MessageView::RReplicate(0)),
                        Err(_) => m1 == with_error(m0) && replies(a, MessageView::RReplicate(1)),
                    }
            }
        },
        Message::GetCluster => {
            &&& b1 == b0
            &&& m1 == m0
            &&& s1 == s0
            &&& replies(a, MessageView::RGetCluster(b0.cluster_info(cfg.broker_port)))
        },
        Message::BrokerHeartbeat(req) => {
            &&& m1 == m0
            &&& s1 == s0
            &&& a matches Action::Reply(Message::RBrokerHeartbeat(code)) && broker_heartbeat_answered(
                b0,
                b1,
                req,
                now_ms,
                cfg.heartbeat_timeout_ms,
                code,
            )
        },
        Message::JoinGroup(req) => {
            &&& m1 == m0
            &&& s1 == s0
            &&& exists|r: Result<(u8, u64, u32, Vec<u16>), DmqError>|
                group_joined(b0, b1, req, now_ms, r) && match r {
                    Ok((code, id, generation, parts)) => replies(
                        a,
                        MessageView::RJoinGroup(spec_join_group_response(code, id, generation, parts@)),
                    ),
                    Err(_) => replies(a, MessageView::RJoinGroup(spec_join_group_response(1, 0, 0, Seq::empty()))),
                }
        },
        Message::GroupHeartbeat(req) => {
            &&& m1 == m0
            &&& s1 == s0
            &&& exists|r: Result<(u8, u8), DmqError>|
                group_heartbeat_answered(b0, b1, req, now_ms, cfg.session_timeout_ms, r) && match r {
                    Ok((code, flag)) => replies(a, MessageView::RGroupHeartbeat(code, flag)),
                    Err(_) => replies(a, MessageView::RGroupHeartbeat(1, 1)),
                }
        },
        _ => b1 == b0 && m1 == m0 && s1 == s0 && a is Close,
    }
}

/// The answer to a served fetch: the records as a batch, wrapped under `codec`,
/// or unwrapped when wrapping fails.
pub open spec fn fetch_answer(records: Seq<RecordView>, codec: u8) -> Seq<u8> {
    match spec_wrap(codec, batch_bytes(records)) {
        Ok(w) => w,
        Err(_) => batch_bytes(records),
    }
}

/// Builds the answer to a served fetch (see `fetch_answer`).
pub fn fetch_reply(records: &[Record], codec: u8) -> (m: Message)
    ensures
        m@ == MessageView::RFetch(fetch_answer(records_view(records@), codec)),
{
    let batch = encode_records(records);
    match wrap_batch(codec, batch.as_slice()) {
        Ok(payload) => Message::RFetch(payload),
        Err(_) => Message::RFetch(batch),
    }
}

fn refusal(code: u8, text: &str) -> (m: Message)
    ensures
        m@ == MessageView::RError(code, text@),
{
    Message::RError(code, text.to_string())
}

/// The answer to a produce once its record went out to the followers: with
/// every replica asked for (`all_replicas`), fewer than `required`
/// acknowledgements make it a refusal (code 4) and count as a request error;
/// otherwise the produce is acknowledged with its offset.
pub fn replication_outcome(metrics: &mut BrokerMetrics, offset: u64, acks: usize, required: usize, all_replicas: bool) -> (m:
    Message)
    ensures
        all_replicas && acks < required ==> final(metrics)@ == with_error(old(metrics)@) && m@ == MessageView::RError(
            4,
            "insufficient replicas acknowledged"@,
        ),
        !(all_replicas && acks < required) ==> final(metrics)@ == old(metrics)@ && m@ == MessageView::RProduce(offset),
        final(metrics).wf() == old(metrics).wf(),
{
    if all_replicas && acks < required {
        metrics.record_error();
        refusal(4, "insufficient replicas acknowledged")
    } else {
        Message::RProduce(offset)
    }
}

/// Answers one request (see `dispatched`).
pub fn dispatch_message(
    broker: &mut Broker,
    metrics: &mut BrokerMetrics,
    session: &mut ConnectionSession,
    msg: &Message,
    cfg: &DispatchSettings,
    now_ms: u64,
) -> (a: Action)
    requires
        old(broker)@.wf(),
    ensures
        final(broker)@.wf(),
        final(metrics).wf() == old(metrics).wf(),
        dispatched(
            old(broker)@,
            final(broker)@,
            old(metrics)@,
            final(metrics)@,
            *old(session),
            *final(session),
            *msg,
            *cfg,
            now_ms,
            a,
        ),
{
    let token = match &cfg.auth_token {
        Some(t) => Some(t.as_slice()),
        None => None,
    };
    match msg {
        Message::Handshake(req) => {
            match process_handshake(req, token) {
                Ok(version) => {
                    session.handshaken = true;
                    session.protocol_version = version;
                    session.principal = principal_from_token(req.auth_token.as_slice());
                    Action::Reply(Message::RHandshake(0, version))
                },
                Err((code, text)) => Action::Reply(Message::RError(code, text)),
            }
        },
        Message::Echo(text) => {
            if cfg.require_handshake && !session.handshaken {
                return Action::Reply(refusal(1, "handshake required"));
            }
            Action::Reply(Message::REcho(broker.process_echo(text.as_str())))
        },
        Message::ProducerRegister(reg) => {
            if !cfg.legacy_dialback {
                return Action::Reply(refusal(1, "dial-back disabled; use produce command"));
            }
            let _ = broker.register_producer(reg);
            Action::DialBackProducer { port: reg.port, topic_id: reg.topic_id }
        },
        Message::ConsumerRegister(reg) => {
            if !cfg.legacy_dialback {
                return Action::Reply(refusal(1, "dial-back disabled; use fetch command"));
            }
            if !broker.consumer_has_room(reg.topic_id, reg.group_id) {
                return Action::Close;
            }
            match broker.register_consumer(reg) {
                Ok(idx) => Action::DialBackConsumer {
                    port: reg.port,
                    topic_id: reg.topic_id,
                    group_id: reg.group_id,
                    partition_idx: idx,
                },
                Err(_) => Action::Close,
            }
        },
        Message::Fetch(req) => {
            if cfg.require_handshake && !session.handshaken {
                return Action::Reply(refusal(1, "handshake required"));
            }
            if broker.check_fetch_acl(string_bytes(&session.principal), req.topic_id).is_err() {
                metrics.record_error();
                return Action::Reply(refusal(3, "acl denied"));
            }
            match broker.fetch_redirect_leader(req.topic_id, req.partition_id, cfg.fetch_requires_leader) {
                Some(leader) => Action::Reply(Message::RNotLeader(leader)),
                None => Action::Fetch(
                    FetchRequest {
                        topic_id: req.topic_id,
                        partition_id: req.partition_id,
                        offset: req.offset,
                        max_bytes: req.max_bytes,
                        max_wait_ms: req.max_wait_ms,
                    },
                ),
            }
        },
        Message::CommitOffset(req) => {
            broker.commit_offset(req);
            metrics.record_commit();
            Action::Reply(Message::RCommitOffset(0))
        },
        Message::Produce(req) => {
            if cfg.require_handshake && !session.handshaken {
                return Action::Reply(refusal(1, "handshake required"));
            }
            if broker.check_produce_acl(string_bytes(&session.principal), req.topic_id).is_err() {
                metrics.record_error();
                return Action::Reply(refusal(3, "acl denied"));
            }
            if broker.cluster().is_some() && !broker.is_partition_leader(req.topic_id, req.partition_id) {
                return Action::Reply(Message::RNotLeader(broker.partition_leader(req.topic_id, req.partition_id)));
            }
            if !broker.log_has_room(req.topic_id, req.partition_id) {
                return Action::Close;
            }
            match broker.append_log(req.topic_id, req.partition_id, req.payload.as_slice()) {
                Ok(offset) => {
                    metrics.record_produce(req.payload.len());
                    if broker.cluster().is_some() {
                        Action::Replicate {
                            topic_id: req.topic_id,
                            partition_id: req.partition_id,
                            offset,
                            payload: to_vec(req.payload.as_slice()),
                        }
                    } else {
                        Action::Reply(Message::RProduce(offset))
                    }
                },
                Err(_) => {
                    metrics.record_error();
                    Action::Close
                },
            }
        },
        Message::IdempotentProduce(req) => {
            if cfg.require_handshake && !session.handshaken {
                return Action::Reply(refusal(1, "handshake required"));
            }
            if broker.check_produce_acl(string_bytes(&session.principal), req.topic_id).is_err() {
                metrics.record_error();
                return Action::Reply(refusal(3, "acl denied"));
            }
            if broker.cluster().is_some() && !broker.is_partition_leader(req.topic_id, req.partition_id) {
                return Action::Reply(Message::RNotLeader(broker.partition_leader(req.topic_id, req.partition_id)));
            }
            if !broker.log_has_room(req.topic_id, req.partition_id) {
                return Action::Close;
            }
            let appends = broker.idempotent_appends(req.topic_id, req.partition_id, req.producer_id, req.sequence);
            let ghost b0 = broker@;
            let r = broker.produce_idempotent(req);
            match r {
                Ok(offset) => {
                    if appends {
                        metrics.record_produce(req.payload.len());
                    }
                    let a = if broker.cluster().is_some() {
                        Action::Replicate {
                            topic_id: req.topic_id,
                            partition_id: req.partition_id,
                            offset,
                            payload: to_vec(req.payload.as_slice()),
                        }
                    } else {
                        Action::Reply(Message::RProduce(offset))
                    };
                    assert(idempotent_produced(b0, broker@, *req, r));
                    a
                },
                Err(_) => {
                    metrics.record_error();
                    assert(idempotent_produced(b0, broker@, *req, r));
                    Action::Close
                },
            }
        },
        Message::CreateTopic(req) => {
            if broker.check_admin_acl(string_bytes(&session.principal), req.topic_id).is_err() {
                metrics.record_error();
                return Action::Reply(refusal(3, "acl denied"));
            }
            let cfg_new = TopicConfig::new(req.topic_id, req.partition_count, req.max_records);
            match broker.create_topic(cfg_new) {
                Ok(code) => Action::Reply(Message::RCreateTopic(code)),
                Err(_) => Action::Close,
            }
        },
        Message::DescribeTopic(req) => Action::Reply(Message::RDescribeTopic(broker.describe_topic(req.topic_id))),
        Message::ListTopics => Action::Reply(Message::RListTopics(broker.list_topics())),
        Message::GetLag(req) => Action::Reply(Message::RGetLag(broker.get_lag(req.group_id, req.topic_id))),
        Message::Replicate(req) => {
            if !broker.log_has_room(req.topic_id, req.partition_id) {
                return Action::Close;
            }
            let ghost b0 = broker@;
            let r = broker.apply_replica(req.topic_id, req.partition_id, req.offset, req.payload.as_slice());
            assert(replica_applied(b0, broker@, req.topic_id, req.partition_id, req.offset, req.payload@, r));
            match r {
                Ok(()) => Action::Reply(Message::RReplicate(0)),
                Err(_) => {
                    metrics.record_error();
                    Action::Reply(Message::RReplicate(1))
                },
            }
        },
        Message::GetCluster => Action::Reply(Message::RGetCluster(broker.cluster_info_bytes(cfg.broker_port))),
        Message::BrokerHeartbeat(req) => {
            let code = broker.handle_broker_heartbeat(req, now_ms, cfg.heartbeat_timeout_ms);
            Action::Reply(Message::RBrokerHeartbeat(code))
        },
        Message::JoinGroup(req) => {
            let ghost b0 = broker@;
            let r = broker.join_group(req, now_ms);
            assert(group_joined(b0, broker@, *req, now_ms, r));
            let bytes = match &r {
                Ok((code, id, generation, parts)) => encode_join_group_response(*code, *id, *generation, parts.as_slice()),
                Err(_) => {
                    let none: [u16; 0] = [];
                    assert(none@ =~= Seq::<u16>::empty());
                    encode_join_group_response(1, 0, 0, none.as_slice())
                },
            };
            Action::Reply(Message::RJoinGroup(bytes))
        },
        Message::GroupHeartbeat(req) => {
            let ghost b0 = broker@;
            let r = broker.group_heartbeat(req, now_ms, cfg.session_timeout_ms);
            assert(group_heartbeat_answered(b0, broker@, *req, now_ms, cfg.session_timeout_ms, r));
            match r {
                Ok((code, flag)) => Action::Reply(Message::RGroupHeartbeat(code, flag)),
                Err(_) => Action::Reply(Message::RGroupHeartbeat(1, 1)),
            }
        },
        _ => Action::Close,
    }
}

} // verus!

//! Binary wire protocol for broker requests and responses.
//!
//! A frame body is `[type: u8][payload...]`; each request has a fixed big-endian
//! payload layout, and responses carry a status byte or an opaque byte payload.

use crate::error::DmqError;
use crate::text::{lossy_string, lossy_text, string_bytes};
use crate::wire::{lemma_be16, lemma_be32, lemma_be64, be16, be32, be64, copy_range, get_u16, get_u32, get_u64, put_bytes, put_u16, put_u32, put_u64, to_vec, u16_at, u32_at, u64_at};
use vstd::prelude::*;
use vstd::utf8::encode_utf8;

verus! {

pub const ECHO: u8 = 1;
pub const P_REG: u8 = 2;
pub const C_REG: u8 = 3;
pub const PCM: u8 = 4;
pub const FETCH: u8 = 5;
pub const COMMIT: u8 = 6;
pub const PRODUCE: u8 = 7;
pub const CREATE_TOPIC: u8 = 8;
pub const DESCRIBE_TOPIC: u8 = 9;
pub const LIST_TOPICS: u8 = 10;
pub const GET_LAG: u8 = 11;
pub const REPLICATE: u8 = 12;
pub const GET_CLUSTER: u8 = 13;
pub const IDEMPOTENT_PRODUCE: u8 = 14;
pub const BROKER_HEARTBEAT: u8 = 15;
pub const JOIN_GROUP: u8 = 16;
pub const GROUP_HEARTBEAT: u8 = 17;
pub const HANDSHAKE: u8 = 18;

pub const R_ECHO: u8 = 101;
pub const R_P_REG: u8 = 102;
pub const R_C_REG: u8 = 103;
pub const R_PCM: u8 = 104;
pub const R_FETCH: u8 = 105;
pub const R_COMMIT: u8 = 106;
pub const R_PRODUCE: u8 = 107;
pub const R_CREATE_TOPIC: u8 = 108;
pub const R_DESCRIBE_TOPIC: u8 = 109;
pub const R_LIST_TOPICS: u8 = 110;
pub const R_GET_LAG: u8 = 111;
pub const R_REPLICATE: u8 = 112;
pub const R_GET_CLUSTER: u8 = 113;
pub const R_NOT_LEADER: u8 = 114;
pub const R_BROKER_HEARTBEAT: u8 = 115;
pub const R_JOIN_GROUP: u8 = 116;
pub const R_GROUP_HEARTBEAT: u8 = 117;
pub const R_HANDSHAKE: u8 = 118;
pub const R_ERROR: u8 = 119;

#[derive(Debug, Clone, PartialEq, Eq, Structural)]
pub struct ProducerRegister {
    pub port: u16,
    pub topic_id: u16,
}

#[derive(Debug, Clone, PartialEq, Eq, Structural)]
pub struct ConsumerRegister {
    pub port: u16,
    pub topic_id: u16,
    pub group_id: u16,
}

#[derive(Debug, Clone, PartialEq, Eq, Structural)]
pub struct FetchRequest {
    pub topic_id: u16,
    pub partition_id: u16,
    pub offset: u64,
    pub max_bytes: u32,
    pub max_wait_ms: u32,
}

#[derive(Debug, Clone, PartialEq, Eq, Structural)]
pub struct CommitOffsetRequest {
    pub group_id: u16,
    pub topic_id: u16,
    pub partition_id: u16,
    pub offset: u64,
}

#[derive(Debug, Clone, PartialEq, Eq)]
pub struct ProduceRequest {
    pub topic_id: u16,
    pub partition_id: u16,
    pub payload: Vec<u8>,
}

#[derive(Debug, Clone, PartialEq, Eq, Structural)]
pub struct CreateTopicRequest {
    pub topic_id: u16,
    pub partition_count: u16,
    pub max_records: u32,
}

#[derive(Debug, Clone, PartialEq, Eq, Structural)]
pub struct DescribeTopicRequest {
    pub topic_id: u16,
}

#[derive(Debug, Clone, PartialEq, Eq, Structural)]
pub struct GetLagRequest {
    pub group_id: u16,
    pub topic_id: u16,
}

#[derive(Debug, Clone, PartialEq, Eq)]
pub struct ReplicateRequest {
    pub topic_id: u16,
    pub partition_id: u16,
    pub offset: u64,
    pub payload: Vec<u8>,
}

#[derive(Debug, Clone, PartialEq, Eq)]
pub struct IdempotentProduceRequest {
    pub topic_id: u16,
    pub partition_id: u16,
    pub producer_id: u64,
    pub sequence: u64,
    pub payload: Vec<u8>,
}

#[derive(Debug, Clone, PartialEq, Eq, Structural)]
pub struct BrokerHeartbeatRequest {
    pub broker_id: u16,
}

#[derive(Debug, Clone, PartialEq, Eq, Structural)]
pub struct JoinGroupRequest {
    pub group_id: u16,
    pub topic_id: u16,
    pub member_id: u64,
}

#[derive(Debug, Clone, PartialEq, Eq, Structural)]
pub struct GroupHeartbeatRequest {
    pub group_id: u16,
    pub member_id: u64,
    pub generation: u32,
}

#[derive(Debug, Clone, PartialEq, Eq)]
pub struct HandshakeRequest {
    pub protocol_version: u16,
    pub auth_token: Vec<u8>,
}

#[derive(Debug, Clone, PartialEq, Eq)]
pub enum Message {
    Echo(String),
    ProducerRegister(ProducerRegister),
    ConsumerRegister(ConsumerRegister),
    Pcm(Vec<u8>),
    Fetch(FetchRequest),
    CommitOffset(CommitOffsetRequest),
    Produce(ProduceRequest),
    CreateTopic(CreateTopicRequest),
    DescribeTopic(DescribeTopicRequest),
    ListTopics,
    GetLag(GetLagRequest),
    Replicate(ReplicateRequest),
    GetCluster,
    IdempotentProduce(IdempotentProduceRequest),
    BrokerHeartbeat(BrokerHeartbeatRequest),
    JoinGroup(JoinGroupRequest),
    GroupHeartbeat(GroupHeartbeatRequest),
    Handshake(HandshakeRequest),
    REcho(String),
    RProducerRegister(u8),
    RConsumerRegister(u8),
    RPcm(u8),
    RFetch(Vec<u8>),
    RCommitOffset(u8),
    RProduce(u64),
    RCreateTopic(u8),
    RDescribeTopic(Vec<u8>),
    RListTopics(Vec<u8>),
    RGetLag(Vec<u8>),
    RReplicate(u8),
    RGetCluster(Vec<u8>),
    RNotLeader(u16),
    RBrokerHeartbeat(u8),
    RJoinGroup(Vec<u8>),
    RGroupHeartbeat(u8, u8),
    RHandshake(u8, u16),
    RError(u8, String),
}

// ---------------------------------------------------------------------------
// Mathematical views of the requests that carry bytes, and of messages.

pub struct ProduceRequestView {
    pub topic_id: u16,
    pub partition_id: u16,
    pub payload: Seq<u8>,
}

pub struct ReplicateRequestView {
    pub topic_id: u16,
    pub partition_id: u16,
    pub offset: u64,
    pub payload: Seq<u8>,
}

pub struct IdempotentProduceRequestView {
    pub topic_id: u16,
    pub partition_id: u16,
    pub producer_id: u64,
    pub sequence: u64,
    pub payload: Seq<u8>,
}

pub struct HandshakeRequestView {
    pub protocol_version: u16,
    pub auth_token: Seq<u8>,
}

/// A message with its byte and text fields as sequences.
pub enum MessageView {
    Echo(Seq<char>),
    ProducerRegister(ProducerRegister),
    ConsumerRegister(ConsumerRegister),
    Pcm(Seq<u8>),
    Fetch(FetchRequest),
    CommitOffset(CommitOffsetRequest),
    Produce(ProduceRequestView),
    CreateTopic(CreateTopicRequest),
    DescribeTopic(DescribeTopicRequest),
    ListTopics,
    GetLag(GetLagRequest),
    Replicate(ReplicateRequestView),
    GetCluster,
    IdempotentProduce(IdempotentProduceRequestView),
    BrokerHeartbeat(BrokerHeartbeatRequest),
    JoinGroup(JoinGroupRequest),
    GroupHeartbeat(GroupHeartbeatRequest),
    Handshake(HandshakeRequestView),
    REcho(Seq<char>),
    RProducerRegister(u8),
    RConsumerRegister(u8),
    RPcm(u8),
    RFetch(Seq<u8>),
    RCommitOffset(u8),
    RProduce(u64),
    RCreateTopic(u8),
    RDescribeTopic(Seq<u8>),
    RListTopics(Seq<u8>),
    RGetLag(Seq<u8>),
    RReplicate(u8),
    RGetCluster(Seq<u8>),
    RNotLeader(u16),
    RBrokerHeartbeat(u8),
    RJoinGroup(Seq<u8>),
    RGroupHeartbeat(u8, u8),
    RHandshake(u8, u16),
    RError(u8, Seq<char>),
}

impl View for ProduceRequest {
    type V = ProduceRequestView;

    open spec fn view(&self) -> ProduceRequestView {
        ProduceRequestView {
            topic_id: self.topic_id,
            partition_id: self.partition_id,
            payload: self.payload@,
        }
    }
}

impl View for ReplicateRequest {
    type V = ReplicateRequestView;

    open spec fn view(&self) -> ReplicateRequestView {
        ReplicateRequestView {
            topic_id: self.topic_id,
            partition_id: self.partition_id,
            offset: self.offset,
            payload: self.payload@,
        }
    }
}

impl View for IdempotentProduceRequest {
    type V = IdempotentProduceRequestView;

    open spec fn view(&self) -> IdempotentProduceRequestView {
        IdempotentProduceRequestView {
            topic_id: self.topic_id,
            partition_id: self.partition_id,
            producer_id: self.producer_id,
            sequence: self.sequence,
            payload: self.payload@,
        }
    }
}

impl View for HandshakeRequest {
    type V = HandshakeRequestView;

    open spec fn view(&self) -> HandshakeRequestView {
        HandshakeRequestView { protocol_version: self.protocol_version, auth_token: self.auth_token@ }
    }
}

impl View for Message {
    type V = MessageView;

    open spec fn view(&self) -> MessageView {
        match self {
            Message::Echo(s) => MessageView::Echo(s@),
            Message::ProducerRegister(r) => MessageView::ProducerRegister(*r),
            Message::ConsumerRegister(r) => MessageView::ConsumerRegister(*r),
            Message::Pcm(b) => MessageView::Pcm(b@),
            Message::Fetch(r) => MessageView::Fetch(*r),
            Message::CommitOffset(r) => MessageView::CommitOffset(*r),
            Message::Produce(r) => MessageView::Produce(r@),
            Message::CreateTopic(r) => MessageView::CreateTopic(*r),
            Message::DescribeTopic(r) => MessageView::DescribeTopic(*r),
            Message::ListTopics => MessageView::ListTopics,
            Message::GetLag(r) => MessageView::GetLag(*r),
            Message::Replicate(r) => MessageView::Replicate(r@),
            Message::GetCluster => MessageView::GetCluster,
            Message::IdempotentProduce(r) => MessageView::IdempotentProduce(r@),
            Message::BrokerHeartbeat(r) => MessageView::BrokerHeartbeat(*r),
            Message::JoinGroup(r) => MessageView::JoinGroup(*r),
            Message::GroupHeartbeat(r) => MessageView::GroupHeartbeat(*r),
            Message::Handshake(r) => MessageView::Handshake(r@),
            Message::REcho(s) => MessageView::REcho(s@),
            Message::RProducerRegister(b) => MessageView::RProducerRegister(*b),
            Message::RConsumerRegister(b) => MessageView::RConsumerRegister(*b),
            Message::RPcm(b) => MessageView::RPcm(*b),
            Message::RFetch(b) => MessageView::RFetch(b@),
            Message::RCommitOffset(b) => MessageView::RCommitOffset(*b),
            Message::RProduce(o) => MessageView::RProduce(*o),
            Message::RCreateTopic(b) => MessageView::RCreateTopic(*b),
            Message::RDescribeTopic(b) => MessageView::RDescribeTopic(b@),
            Message::RListTopics(b) => MessageView::RListTopics(b@),
            Message::RGetLag(b) => MessageView::RGetLag(b@),
            Message::RReplicate(b) => MessageView::RReplicate(*b),
            Message::RGetCluster(b) => MessageView::RGetCluster(b@),
            Message::RNotLeader(id) => MessageView::RNotLeader(*id),
            Message::RBrokerHeartbeat(b) => MessageView::RBrokerHeartbeat(*b),
            Message::RJoinGroup(b) => MessageView::RJoinGroup(b@),
            Message::RGroupHeartbeat(c, f) => MessageView::RGroupHeartbeat(*c, *f),
            Message::RHandshake(c, v) => MessageView::RHandshake(*c, *v),
            Message::RError(c, s) => MessageView::RError(*c, s@),
        }
    }
}

// ---------------------------------------------------------------------------
// Request payloads.

impl ProducerRegister {
    pub open spec fn spec_encode(&self) -> Seq<u8> {
        be16(self.port) + be16(self.topic_id)
    }

    pub open spec fn spec_decode(p: Seq<u8>) -> Option<ProducerRegister> {
        if p.len() < 4 {
            None
        } else {
            Some(ProducerRegister { port: u16_at(p, 0), topic_id: u16_at(p, 2) })
        }
    }

    pub fn encode(&self) -> (data: [u8; 4])
        ensures
            data@ == self.spec_encode(),
    {
        let data = [
            (self.port >> 8) as u8,
            (self.port & 0xff) as u8,
            (self.topic_id >> 8) as u8,
            (self.topic_id & 0xff) as u8,
        ];
        assert(data@ =~= self.spec_encode());
        data
    }

    pub fn decode(payload: &[u8]) -> (r: Result<ProducerRegister, DmqError>)
        ensures
            match r {
                Ok(v) => Self::spec_decode(payload@) == Some(v),
                Err(e) => Self::spec_decode(payload@) is None && e == DmqError::PayloadTooShort(P_REG),
            },
    {
        if payload.len() < 4 {
            return Err(DmqError::PayloadTooShort(P_REG));
        }
        Ok(ProducerRegister { port: get_u16(payload, 0), topic_id: get_u16(payload, 2) })
    }
}

impl ConsumerRegister {
    pub open spec fn spec_encode(&self) -> Seq<u8> {
        be16(self.port) + be16(self.topic_id) + be16(self.group_id)
    }

    pub open spec fn spec_decode(p: Seq<u8>) -> Option<ConsumerRegister> {
        if p.len() < 6 {
            None
        } else {
            Some(ConsumerRegister { port: u16_at(p, 0), topic_id: u16_at(p, 2), group_id: u16_at(p, 4) })
        }
    }

    pub fn encode(&self) -> (data: [u8; 6])
        ensures
            data@ == self.spec_encode(),
    {
        let data = [
            (self.port >> 8) as u8,
            (self.port & 0xff) as u8,
            (self.topic_id >> 8) as u8,
            (self.topic_id & 0xff) as u8,
            (self.group_id >> 8) as u8,
            (self.group_id & 0xff) as u8,
        ];
        assert(data@ =~= self.spec_encode());
        data
    }

    pub fn decode(payload: &[u8]) -> (r: Result<ConsumerRegister, DmqError>)
        ensures
            match r {
                Ok(v) => Self::spec_decode(payload@) == Some(v),
                Err(e) => Self::spec_decode(payload@) is None && e == DmqError::PayloadTooShort(C_REG),
            },
    {
        if payload.len() < 6 {
            return Err(DmqError::PayloadTooShort(C_REG));
        }
        Ok(ConsumerRegister {
            port: get_u16(payload, 0),
            topic_id: get_u16(payload, 2),
            group_id: get_u16(payload, 4),
        })
    }
}

impl BrokerHeartbeatRequest {
    pub open spec fn spec_encode(&self) -> Seq<u8> {
        be16(self.broker_id)
    }

    pub open spec fn spec_decode(p: Seq<u8>) -> Option<BrokerHeartbeatRequest> {
        if p.len() < 2 {
            None
        } else {
            Some(BrokerHeartbeatRequest { broker_id: u16_at(p, 0) })
        }
    }

    pub fn encode(&self) -> (data: [u8; 2])
        ensures
            data@ == self.spec_encode(),
    {
        let data = [(self.broker_id >> 8) as u8, (self.broker_id & 0xff) as u8];
        assert(data@ =~= self.spec_encode());
        data
    }

    pub fn decode(payload: &[u8]) -> (r: Result<BrokerHeartbeatRequest, DmqError>)
        ensures
            match r {
                Ok(v) => Self::spec_decode(payload@) == Some(v),
                Err(e) => Self::spec_decode(payload@) is None && e == DmqError::PayloadTooShort(
                    BROKER_HEARTBEAT,
                ),
            },
    {
        if payload.len() < 2 {
            return Err(DmqError::PayloadTooShort(BROKER_HEARTBEAT));
        }
        Ok(BrokerHeartbeatRequest { broker_id: get_u16(payload, 0) })
    }
}

impl JoinGroupRequest {
    pub open spec fn spec_encode(&self) -> Seq<u8> {
        be16(self.group_id) + be16(self.topic_id) + be64(self.member_id)
    }

    pub open spec fn spec_decode(p: Seq<u8>) -> Option<JoinGroupRequest> {
        if p.len() < 12 {
            None
        } else {
            Some(JoinGroupRequest { group_id: u16_at(p, 0), topic_id: u16_at(p, 2), member_id: u64_at(p, 4) })
        }
    }

    pub fn encode(&self) -> (out: Vec<u8>)
        ensures
            out@ == self.spec_encode(),
    {
        let mut out: Vec<u8> = Vec::with_capacity(12);
        put_u16(&mut out, self.group_id);
        put_u16(&mut out, self.topic_id);
        put_u64(&mut out, self.member_id);
        assert(out@ =~= self.spec_encode());
        out
    }

    pub fn decode(payload: &[u8]) -> (r: Result<JoinGroupRequest, DmqError>)
        ensures
            match r {
                Ok(v) => Self::spec_decode(payload@) == Some(v),
                Err(e) => Self::spec_decode(payload@) is None && e == DmqError::PayloadTooShort(JOIN_GROUP),
            },
    {
        if payload.len() < 12 {
            return Err(DmqError::PayloadTooShort(JOIN_GROUP));
        }
        Ok(JoinGroupRequest {
            group_id: get_u16(payload, 0),
            topic_id: get_u16(payload, 2),
            member_id: get_u64(payload, 4),
        })
    }
}

impl GroupHeartbeatRequest {
    pub open spec fn spec_encode(&self) -> Seq<u8> {
        be16(self.group_id) + be64(self.member_id) + be32(self.generation)
    }

    pub open spec fn spec_decode(p: Seq<u8>) -> Option<GroupHeartbeatRequest> {
        if p.len() < 14 {
            None
        } else {
            Some(GroupHeartbeatRequest { group_id: u16_at(p, 0), member_id: u64_at(p, 2), generation: u32_at(p, 10) })
        }
    }

    pub fn encode(&self) -> (data: [u8; 14])
        ensures
            data@ == self.spec_encode(),
    {
        let g = self.group_id;
        let m = self.member_id;
        let n = self.generation;
        let data = [
            (g >> 8) as u8,
            (g & 0xff) as u8,
            (m >> 56) as u8,
            ((m >> 48) & 0xff) as u8,
            ((m >> 40) & 0xff) as u8,
            ((m >> 32) & 0xff) as u8,
            ((m >> 24) & 0xff) as u8,
            ((m >> 16) & 0xff) as u8,
            ((m >> 8) & 0xff) as u8,
            (m & 0xff) as u8,
            (n >> 24) as u8,
            ((n >> 16) & 0xff) as u8,
            ((n >> 8) & 0xff) as u8,
            (n & 0xff) as u8,
        ];
        assert(data@ =~= self.spec_encode());
        data
    }

    pub fn decode(payload: &[u8]) -> (r: Result<GroupHeartbeatRequest, DmqError>)
        ensures
            match r {
                Ok(v) => Self::spec_decode(payload@) == Some(v),
                Err(e) => Self::spec_decode(payload@) is None && e == DmqError::PayloadTooShort(
                    GROUP_HEARTBEAT,
                ),
            },
    {
        if payload.len() < 14 {
            return Err(DmqError::PayloadTooShort(GROUP_HEARTBEAT));
        }
        Ok(GroupHeartbeatRequest {
            group_id: get_u16(payload, 0),
            member_id: get_u64(payload, 2),
            generation: get_u32(payload, 10),
        })
    }
}

/// The payload of a join-group response: status, member id, generation and the
/// count and ids of the assigned partitions.
pub open spec fn spec_join_group_response(code: u8, member_id: u64, generation: u32, partitions: Seq<u16>) -> Seq<u8> {
    seq![code] + be64(member_id) + be32(generation) + be16(partitions.len() as u16) + be16_all(partitions)
}

/// The big-endian bytes of each value in turn.
pub open spec fn be16_all(vs: Seq<u16>) -> Seq<u8>
    decreases vs.len(),
{
    if vs.len() == 0 {
        Seq::empty()
    } else {
        be16_all(vs.drop_last()) + be16(vs.last())
    }
}

pub fn encode_join_group_response(code: u8, member_id: u64, generation: u32, partitions: &[u16]) -> (out: Vec<u8>)
    ensures
        out@ == spec_join_group_response(code, member_id, generation, partitions@),
{
    let mut out: Vec<u8> = Vec::with_capacity(15);
    out.push(code);
    put_u64(&mut out, member_id);
    put_u32(&mut out, generation);
    put_u16(&mut out, partitions.len() as u16);
    let ghost head = out@;
    let mut i: usize = 0;
    while i < partitions.len()
        invariant
            i <= partitions@.len(),
            out@ == head + be16_all(partitions@.subrange(0, i as int)),
        decreases partitions@.len() - i,
    {
        put_u16(&mut out, partitions[i]);
        assert(partitions@.subrange(0, i + 1).drop_last() =~= partitions@.subrange(0, i as int));
        i = i + 1;
        assert(out@ =~= head + be16_all(partitions@.subrange(0, i as int)));
    }
    assert(partitions@.subrange(0, i as int) =~= partitions@);
    assert(out@ =~= spec_join_group_response(code, member_id, generation, partitions@));
    out
}

impl HandshakeRequestView {
    pub open spec fn spec_encode(self) -> Seq<u8> {
        be16(self.protocol_version) + be16(self.auth_token.len() as u16) + self.auth_token
    }
}

impl HandshakeRequest {
    pub open spec fn spec_encode(&self) -> Seq<u8> {
        self@.spec_encode()
    }

    pub open spec fn spec_decode(p: Seq<u8>) -> Option<HandshakeRequestView> {
        if p.len() < 4 || p.len() < 4 + u16_at(p, 2) {
            None
        } else {
            Some(HandshakeRequestView { protocol_version: u16_at(p, 0), auth_token: p.subrange(4, 4 + u16_at(p, 2)) })
        }
    }

    pub fn encode(&self) -> (out: Vec<u8>)
        ensures
            out@ == self.spec_encode(),
    {
        let mut out: Vec<u8> = Vec::with_capacity(4);
        put_u16(&mut out, self.protocol_version);
        put_u16(&mut out, self.auth_token.len() as u16);
        put_bytes(&mut out, self.auth_token.as_slice());
        out
    }

    pub fn decode(payload: &[u8]) -> (r: Result<HandshakeRequest, DmqError>)
        ensures
            match r {
                Ok(v) => Self::spec_decode(payload@) == Some(v@),
                Err(e) => Self::spec_decode(payload@) is None && (if payload@.len() < 4 {
                    e == DmqError::PayloadTooShort(HANDSHAKE)
                } else {
                    e == DmqError::PayloadTruncated(HANDSHAKE)
                }),
            },
    {
        if payload.len() < 4 {
            return Err(DmqError::PayloadTooShort(HANDSHAKE));
        }
        let protocol_version = get_u16(payload, 0);
        let token_len = get_u16(payload, 2) as usize;
        if payload.len() < 4 + token_len {
            return Err(DmqError::PayloadTruncated(HANDSHAKE));
        }
        Ok(HandshakeRequest { protocol_version, auth_token: copy_range(payload, 4, 4 + token_len) })
    }
}

impl FetchRequest {
    pub open spec fn spec_encode(&self) -> Seq<u8> {
        be16(self.topic_id) + be16(self.partition_id) + be64(self.offset) + be32(self.max_bytes) + be32(
            self.max_wait_ms,
        )
    }

    /// The wait time is optional on the wire: a 16-byte payload means zero.
    pub open spec fn spec_decode(p: Seq<u8>) -> Option<FetchRequest> {
        if p.len() < 16 {
            None
        } else {
            Some(FetchRequest {
                topic_id: u16_at(p, 0),
                partition_id: u16_at(p, 2),
                offset: u64_at(p, 4),
                max_bytes: u32_at(p, 12),
                max_wait_ms: if p.len() >= 20 { u32_at(p, 16) } else { 0 },
            })
        }
    }

    pub fn encode(&self) -> (out: Vec<u8>)
        ensures
            out@ == self.spec_encode(),
    {
        let mut out: Vec<u8> = Vec::with_capacity(20);
        put_u16(&mut out, self.topic_id);
        put_u16(&mut out, self.partition_id);
        put_u64(&mut out, self.offset);
        put_u32(&mut out, self.max_bytes);
        put_u32(&mut out, self.max_wait_ms);
        out
    }

    pub fn decode(payload: &[u8]) -> (r: Result<FetchRequest, DmqError>)
        ensures
            match r {
                Ok(v) => Self::spec_decode(payload@) == Some(v),
                Err(e) => Self::spec_decode(payload@) is None && e == DmqError::PayloadTooShort(FETCH),
            },
    {
        if payload.len() < 16 {
            return Err(DmqError::PayloadTooShort(FETCH));
        }
        let max_wait_ms = if payload.len() >= 20 {
            get_u32(payload, 16)
        } else {
            0
        };
        Ok(FetchRequest {
            topic_id: get_u16(payload, 0),
            partition_id: get_u16(payload, 2),
            offset: get_u64(payload, 4),
            max_bytes: get_u32(payload, 12),
            max_wait_ms,
        })
    }
}

impl CommitOffsetRequest {
    pub open spec fn spec_encode(&self) -> Seq<u8> {
        be16(self.group_id) + be16(self.topic_id) + be16(self.partition_id) + be64(self.offset)
    }

    pub open spec fn spec_decode(p: Seq<u8>) -> Option<CommitOffsetRequest> {
        if p.len() < 14 {
            None
        } else {
            Some(CommitOffsetRequest {
                group_id: u16_at(p, 0),
                topic_id: u16_at(p, 2),
                partition_id: u16_at(p, 4),
                offset: u64_at(p, 6),
            })
        }
    }

    pub fn encode(&self) -> (data: [u8; 14])
        ensures
            data@ == self.spec_encode(),
    {
        let o = self.offset;
        let data = [
            (self.group_id >> 8) as u8,
            (self.group_id & 0xff) as u8,
            (self.topic_id >> 8) as u8,
            (self.topic_id & 0xff) as u8,
            (self.partition_id >> 8) as u8,
            (self.partition_id & 0xff) as u8,
            (o >> 56) as u8,
            ((o >> 48) & 0xff) as u8,
            ((o >> 40) & 0xff) as u8,
            ((o >> 32) & 0xff) as u8,
            ((o >> 24) & 0xff) as u8,
            ((o >> 16) & 0xff) as u8,
            ((o >> 8) & 0xff) as u8,
            (o & 0xff) as u8,
        ];
        assert(data@ =~= self.spec_encode());
        data
    }

    pub fn decode(payload: &[u8]) -> (r: Result<CommitOffsetRequest, DmqError>)
        ensures
            match r {
                Ok(v) => Self::spec_decode(payload@) == Some(v),
                Err(e) => Self::spec_decode(payload@) is None && e == DmqError::PayloadTooShort(COMMIT),
            },
    {
        if payload.len() < 14 {
            return Err(DmqError::PayloadTooShort(COMMIT));
        }
        Ok(CommitOffsetRequest {
            group_id: get_u16(payload, 0),
            topic_id: get_u16(payload, 2),
            partition_id: get_u16(payload, 4),
            offset: get_u64(payload, 6),
        })
    }
}

impl ProduceRequestView {
    pub open spec fn spec_encode(self) -> Seq<u8> {
        be16(self.topic_id) + be16(self.partition_id) + self.payload
    }
}

impl ProduceRequest {
    pub open spec fn spec_encode(&self) -> Seq<u8> {
        self@.spec_encode()
    }

    pub open spec fn spec_decode(p: Seq<u8>) -> Option<ProduceRequestView> {
        if p.len() < 4 {
            None
        } else {
            Some(ProduceRequestView { topic_id: u16_at(p, 0), partition_id: u16_at(p, 2), payload: p.subrange(4, p.len() as int) })
        }
    }

    pub fn encode(&self) -> (out: Vec<u8>)
        ensures
            out@ == self.spec_encode(),
    {
        let mut out: Vec<u8> = Vec::with_capacity(4);
        put_u16(&mut out, self.topic_id);
        put_u16(&mut out, self.partition_id);
        put_bytes(&mut out, self.payload.as_slice());
        out
    }

    pub fn decode(payload: &[u8]) -> (r: Result<ProduceRequest, DmqError>)
        ensures
            match r {
                Ok(v) => Self::spec_decode(payload@) == Some(v@),
                Err(e) => Self::spec_decode(payload@) is None && e == DmqError::PayloadTooShort(PRODUCE),
            },
    {
        if payload.len() < 4 {
            return Err(DmqError::PayloadTooShort(PRODUCE));
        }
        Ok(ProduceRequest {
            topic_id: get_u16(payload, 0),
            partition_id: get_u16(payload, 2),
            payload: copy_range(payload, 4, payload.len()),
        })
    }
}

impl CreateTopicRequest {
    pub open spec fn spec_encode(&self) -> Seq<u8> {
        be16(self.topic_id) + be16(self.partition_count) + be32(self.max_records)
    }

    pub open spec fn spec_decode(p: Seq<u8>) -> Option<CreateTopicRequest> {
        if p.len() < 8 {
            None
        } else {
            Some(CreateTopicRequest { topic_id: u16_at(p, 0), partition_count: u16_at(p, 2), max_records: u32_at(p, 4) })
        }
    }

    pub fn encode(&self) -> (data: [u8; 8])
        ensures
            data@ == self.spec_encode(),
    {
        let m = self.max_records;
        let data = [
            (self.topic_id >> 8) as u8,
            (self.topic_id & 0xff) as u8,
            (self.partition_count >> 8) as u8,
            (self.partition_count & 0xff) as u8,
            (m >> 24) as u8,
            ((m >> 16) & 0xff) as u8,
            ((m >> 8) & 0xff) as u8,
            (m & 0xff) as u8,
        ];
        assert(data@ =~= self.spec_encode());
        data
    }

    pub fn decode(payload: &[u8]) -> (r: Result<CreateTopicRequest, DmqError>)
        ensures
            match r {
                Ok(v) => Self::spec_decode(payload@) == Some(v),
                Err(e) => Self::spec_decode(payload@) is None && e == DmqError::PayloadTooShort(CREATE_TOPIC),
            },
    {
        if payload.len() < 8 {
            return Err(DmqError::PayloadTooShort(CREATE_TOPIC));
        }
        Ok(CreateTopicRequest {
            topic_id: get_u16(payload, 0),
            partition_count: get_u16(payload, 2),
            max_records: get_u32(payload, 4),
        })
    }
}

impl DescribeTopicRequest {
    pub open spec fn spec_encode(&self) -> Seq<u8> {
        be16(self.topic_id)
    }

    pub open spec fn spec_decode(p: Seq<u8>) -> Option<DescribeTopicRequest> {
        if p.len() < 2 {
            None
        } else {
            Some(DescribeTopicRequest { topic_id: u16_at(p, 0) })
        }
    }

    pub fn encode(&self) -> (data: [u8; 2])
        ensures
            data@ == self.spec_encode(),
    {
        let data = [(self.topic_id >> 8) as u8, (self.topic_id & 0xff) as u8];
        assert(data@ =~= self.spec_encode());
        data
    }

    pub fn decode(payload: &[u8]) -> (r: Result<DescribeTopicRequest, DmqError>)
        ensures
            match r {
                Ok(v) => Self::spec_decode(payload@) == Some(v),
                Err(e) => Self::spec_decode(payload@) is None && e == DmqError::PayloadTooShort(
                    DESCRIBE_TOPIC,
                ),
            },
    {
        if payload.len() < 2 {
            return Err(DmqError::PayloadTooShort(DESCRIBE_TOPIC));
        }
        Ok(DescribeTopicRequest { topic_id: get_u16(payload, 0) })
    }
}

impl GetLagRequest {
    pub open spec fn spec_encode(&self) -> Seq<u8> {
        be16(self.group_id) + be16(self.topic_id)
    }

    pub open spec fn spec_decode(p: Seq<u8>) -> Option<GetLagRequest> {
        if p.len() < 4 {
            None
        } else {
            Some(GetLagRequest { group_id: u16_at(p, 0), topic_id: u16_at(p, 2) })
        }
    }

    pub fn encode(&self) -> (data: [u8; 4])
        ensures
            data@ == self.spec_encode(),
    {
        let data = [
            (self.group_id >> 8) as u8,
            (self.group_id & 0xff) as u8,
            (self.topic_id >> 8) as u8,
            (self.topic_id & 0xff) as u8,
        ];
        assert(data@ =~= self.spec_encode());
        data
    }

    pub fn decode(payload: &[u8]) -> (r: Result<GetLagRequest, DmqError>)
        ensures
            match r {
                Ok(v) => Self::spec_decode(payload@) == Some(v),
                Err(e) => Self::spec_decode(payload@) is None && e == DmqError::PayloadTooShort(GET_LAG),
            },
    {
        if payload.len() < 4 {
            return Err(DmqError::PayloadTooShort(GET_LAG));
        }
        Ok(GetLagRequest { group_id: get_u16(payload, 0), topic_id: get_u16(payload, 2) })
    }
}

impl ReplicateRequestView {
    pub open spec fn spec_encode(self) -> Seq<u8> {
        be16(self.topic_id) + be16(self.partition_id) + be64(self.offset) + be16(self.payload.len() as u16)
            + self.payload
    }
}

impl ReplicateRequest {
    pub open spec fn spec_encode(&self) -> Seq<u8> {
        self@.spec_encode()
    }

    pub open spec fn spec_decode(p: Seq<u8>) -> Option<ReplicateRequestView> {
        if p.len() < 14 || p.len() < 14 + u16_at(p, 12) {
            None
        } else {
            Some(ReplicateRequestView {
                topic_id: u16_at(p, 0),
                partition_id: u16_at(p, 2),
                offset: u64_at(p, 4),
                payload: p.subrange(14, 14 + u16_at(p, 12)),
            })
        }
    }

    /// The payload length travels as a `u16`, so longer payloads cannot be encoded.
    pub fn encode(&self) -> (out: Vec<u8>)
        requires
            self.payload@.len() <= u16::MAX,
        ensures
            out@ == self.spec_encode(),
    {
        let mut out: Vec<u8> = Vec::with_capacity(14);
        put_u16(&mut out, self.topic_id);
        put_u16(&mut out, self.partition_id);
        put_u64(&mut out, self.offset);
        put_u16(&mut out, self.payload.len() as u16);
        put_bytes(&mut out, self.payload.as_slice());
        out
    }

    pub fn decode(payload: &[u8]) -> (r: Result<ReplicateRequest, DmqError>)
        ensures
            match r {
                Ok(v) => Self::spec_decode(payload@) == Some(v@),
                Err(e) => Self::spec_decode(payload@) is None && (if payload@.len() < 14 {
                    e == DmqError::PayloadTooShort(REPLICATE)
                } else {
                    e == DmqError::PayloadTruncated(REPLICATE)
                }),
            },
    {
        if payload.len() < 14 {
            return Err(DmqError::PayloadTooShort(REPLICATE));
        }
        let len = get_u16(payload, 12) as usize;
        if payload.len() < 14 + len {
            return Err(DmqError::PayloadTruncated(REPLICATE));
        }
        Ok(ReplicateRequest {
            topic_id: get_u16(payload, 0),
            partition_id: get_u16(payload, 2),
            offset: get_u64(payload, 4),
            payload: copy_range(payload, 14, 14 + len),
        })
    }
}

impl IdempotentProduceRequestView {
    pub open spec fn spec_encode(self) -> Seq<u8> {
        be16(self.topic_id) + be16(self.partition_id) + be64(self.producer_id) + be64(self.sequence)
            + self.payload
    }
}

impl IdempotentProduceRequest {
    pub open spec fn spec_encode(&self) -> Seq<u8> {
        self@.spec_encode()
    }

    pub open spec fn spec_decode(p: Seq<u8>) -> Option<IdempotentProduceRequestView> {
        if p.len() < 20 {
            None
        } else {
            Some(IdempotentProduceRequestView {
                topic_id: u16_at(p, 0),
                partition_id: u16_at(p, 2),
                producer_id: u64_at(p, 4),
                sequence: u64_at(p, 12),
                payload: p.subrange(20, p.len() as int),
            })
        }
    }

    pub fn encode(&self) -> (out: Vec<u8>)
        ensures
            out@ == self.spec_encode(),
    {
        let mut out: Vec<u8> = Vec::with_capacity(20);
        put_u16(&mut out, self.topic_id);
        put_u16(&mut out, self.partition_id);
        put_u64(&mut out, self.producer_id);
        put_u64(&mut out, self.sequence);
        put_bytes(&mut out, self.payload.as_slice());
        out
    }

    pub fn decode(payload: &[u8]) -> (r: Result<IdempotentProduceRequest, DmqError>)
        ensures
            match r {
                Ok(v) => Self::spec_decode(payload@) == Some(v@),
                Err(e) => Self::spec_decode(payload@) is None && e == DmqError::PayloadTooShort(
                    IDEMPOTENT_PRODUCE,
                ),
            },
    {
        if payload.len() < 20 {
            return Err(DmqError::PayloadTooShort(IDEMPOTENT_PRODUCE));
        }
        Ok(IdempotentProduceRequest {
            topic_id: get_u16(payload, 0),
            partition_id: get_u16(payload, 2),
            producer_id: get_u64(payload, 4),
            sequence: get_u64(payload, 12),
            payload: copy_range(payload, 20, payload.len()),
        })
    }
}

// ---------------------------------------------------------------------------
// Whole messages.

/// The first byte of `p`, or 0 when `p` is empty.
pub open spec fn first_or_zero(p: Seq<u8>) -> u8 {
    if p.len() > 0 {
        p[0]
    } else {
        0
    }
}

/// The message-type byte that introduces `m` on the wire.
pub open spec fn spec_type_byte(m: MessageView) -> u8 {
    match m {
        MessageView::Echo(_) => ECHO,
        MessageView::ProducerRegister(_) => P_REG,
        MessageView::ConsumerRegister(_) => C_REG,
        MessageView::Pcm(_) => PCM,
        MessageView::Fetch(_) => FETCH,
        MessageView::CommitOffset(_) => COMMIT,
        MessageView::Produce(_) => PRODUCE,
        MessageView::CreateTopic(_) => CREATE_TOPIC,
        MessageView::DescribeTopic(_) => DESCRIBE_TOPIC,
        MessageView::ListTopics => LIST_TOPICS,
        MessageView::GetLag(_) => GET_LAG,
        MessageView::Replicate(_) => REPLICATE,
        MessageView::GetCluster => GET_CLUSTER,
        MessageView::IdempotentProduce(_) => IDEMPOTENT_PRODUCE,
        MessageView::BrokerHeartbeat(_) => BROKER_HEARTBEAT,
        MessageView::JoinGroup(_) => JOIN_GROUP,
        MessageView::GroupHeartbeat(_) => GROUP_HEARTBEAT,
        MessageView::Handshake(_) => HANDSHAKE,
        MessageView::REcho(_) => R_ECHO,
        MessageView::RProducerRegister(_) => R_P_REG,
        MessageView::RConsumerRegister(_) => R_C_REG,
        MessageView::RPcm(_) => R_PCM,
        MessageView::RFetch(_) => R_FETCH,
        MessageView::RCommitOffset(_) => R_COMMIT,
        MessageView::RProduce(_) => R_PRODUCE,
        MessageView::RCreateTopic(_) => R_CREATE_TOPIC,
        MessageView::RDescribeTopic(_) => R_DESCRIBE_TOPIC,
        MessageView::RListTopics(_) => R_LIST_TOPICS,
        MessageView::RGetLag(_) => R_GET_LAG,
        MessageView::RReplicate(_) => R_REPLICATE,
        MessageView::RGetCluster(_) => R_GET_CLUSTER,
        MessageView::RNotLeader(_) => R_NOT_LEADER,
        MessageView::RBrokerHeartbeat(_) => R_BROKER_HEARTBEAT,
        MessageView::RJoinGroup(_) => R_JOIN_GROUP,
        MessageView::RGroupHeartbeat(_, _) => R_GROUP_HEARTBEAT,
        MessageView::RHandshake(_, _) => R_HANDSHAKE,
        MessageView::RError(_, _) => R_ERROR,
    }
}

/// The payload that follows the type byte of `m`.
pub open spec fn spec_payload(m: MessageView) -> Seq<u8> {
    match m {
        MessageView::Echo(s) => encode_utf8(s),
        MessageView::ProducerRegister(r) => r.spec_encode(),
        MessageView::ConsumerRegister(r) => r.spec_encode(),
        MessageView::Pcm(b) => b,
        MessageView::Fetch(r) => r.spec_encode(),
        MessageView::CommitOffset(r) => r.spec_encode(),
        MessageView::Produce(r) => r.spec_encode(),
        MessageView::CreateTopic(r) => r.spec_encode(),
        MessageView::DescribeTopic(r) => r.spec_encode(),
        MessageView::ListTopics => Seq::empty(),
        MessageView::GetLag(r) => r.spec_encode(),
        MessageView::Replicate(r) => r.spec_encode(),
        MessageView::GetCluster => Seq::empty(),
        MessageView::IdempotentProduce(r) => r.spec_encode(),
        MessageView::BrokerHeartbeat(r) => r.spec_encode(),
        MessageView::JoinGroup(r) => r.spec_encode(),
        MessageView::GroupHeartbeat(r) => r.spec_encode(),
        MessageView::Handshake(r) => r.spec_encode(),
        MessageView::REcho(s) => encode_utf8(s),
        MessageView::RProducerRegister(b) => seq![b],
        MessageView::RConsumerRegister(b) => seq![b],
        MessageView::RPcm(b) => seq![b],
        MessageView::RFetch(b) => b,
        MessageView::RCommitOffset(b) => seq![b],
        MessageView::RProduce(o) => be64(o),
        MessageView::RCreateTopic(b) => seq![b],
        MessageView::RDescribeTopic(b) => b,
        MessageView::RListTopics(b) => b,
        MessageView::RGetLag(b) => b,
        MessageView::RReplicate(b) => seq![b],
        MessageView::RGetCluster(b) => b,
        MessageView::RNotLeader(id) => be16(id),
        MessageView::RBrokerHeartbeat(b) => seq![b],
        MessageView::RJoinGroup(b) => b,
        MessageView::RGroupHeartbeat(c, f) => seq![c, f],
        MessageView::RHandshake(c, v) => seq![c] + be16(v),
        MessageView::RError(c, s) => seq![c] + encode_utf8(s),
    }
}

/// The frame body of `m`: its type byte followed by its payload.
pub open spec fn spec_encode_message(m: MessageView) -> Seq<u8> {
    seq![spec_type_byte(m)] + spec_payload(m)
}

/// Messages that can be encoded: a replicated payload must fit its `u16`
/// length field. (A longer handshake token is written with its length cut to
/// 16 bits; see `spec_encode` of `HandshakeRequestView`.)
pub open spec fn message_encodable(m: MessageView) -> bool {
    match m {
        MessageView::Replicate(r) => r.payload.len() <= u16::MAX,
        _ => true,
    }
}

/// Messages whose length fields all hold their true lengths, so that they read
/// back from their encoding.
pub open spec fn message_fits_wire(m: MessageView) -> bool {
    &&& message_encodable(m)
    &&& m matches MessageView::Handshake(h) ==> h.auth_token.len() <= u16::MAX
}

/// Bodies that `parse_frame` can take without panicking: an error response must
/// carry its code byte.
pub open spec fn parseable_body(body: Seq<u8>) -> bool {
    !(body.len() == 1 && body[0] == R_ERROR)
}

pub open spec fn decoded<T>(r: Option<T>, e: DmqError) -> Result<T, DmqError> {
    match r {
        Some(v) => Ok(v),
        None => Err(e),
    }
}

/// The message (or error) that a frame body stands for.
pub open spec fn spec_parse_frame(body: Seq<u8>) -> Result<MessageView, DmqError> {
    if body.len() == 0 {
        Err(DmqError::EmptyFrame)
    } else {
        let t = body[0];
        let p = body.subrange(1, body.len() as int);
        if t == ECHO {
            Ok(MessageView::Echo(lossy_text(p)))
        } else if t == P_REG {
            match ProducerRegister::spec_decode(p) {
                Some(r) => Ok(MessageView::ProducerRegister(r)),
                None => Err(DmqError::PayloadTooShort(P_REG)),
            }
        } else if t == C_REG {
            match ConsumerRegister::spec_decode(p) {
                Some(r) => Ok(MessageView::ConsumerRegister(r)),
                None => Err(DmqError::PayloadTooShort(C_REG)),
            }
        } else if t == PCM {
            Ok(MessageView::Pcm(p))
        } else if t == FETCH {
            match FetchRequest::spec_decode(p) {
                Some(r) => Ok(MessageView::Fetch(r)),
                None => Err(DmqError::PayloadTooShort(FETCH)),
            }
        } else if t == COMMIT {
            match CommitOffsetRequest::spec_decode(p) {
                Some(r) => Ok(MessageView::CommitOffset(r)),
                None => Err(DmqError::PayloadTooShort(COMMIT)),
            }
        } else if t == PRODUCE {
            match ProduceRequest::spec_decode(p) {
                Some(r) => Ok(MessageView::Produce(r)),
                None => Err(DmqError::PayloadTooShort(PRODUCE)),
            }
        } else if t == CREATE_TOPIC {
            match CreateTopicRequest::spec_decode(p) {
                Some(r) => Ok(MessageView::CreateTopic(r)),
                None => Err(DmqError::PayloadTooShort(CREATE_TOPIC)),
            }
        } else if t == DESCRIBE_TOPIC {
            match DescribeTopicRequest::spec_decode(p) {
                Some(r) => Ok(MessageView::DescribeTopic(r)),
                None => Err(DmqError::PayloadTooShort(DESCRIBE_TOPIC)),
            }
        } else if t == LIST_TOPICS {
            Ok(MessageView::ListTopics)
        } else if t == GET_LAG {
            match GetLagRequest::spec_decode(p) {
                Some(r) => Ok(MessageView::GetLag(r)),
                None => Err(DmqError::PayloadTooShort(GET_LAG)),
            }
        } else if t == REPLICATE {
            match ReplicateRequest::spec_decode(p) {
                Some(r) => Ok(MessageView::Replicate(r)),
                None => Err(
                    if p.len() < 14 {
                        DmqError::PayloadTooShort(REPLICATE)
                    } else {
                        DmqError::PayloadTruncated(REPLICATE)
                    },
                ),
            }
        } else if t == GET_CLUSTER {
            Ok(MessageView::GetCluster)
        } else if t == IDEMPOTENT_PRODUCE {
            match IdempotentProduceRequest::spec_decode(p) {
                Some(r) => Ok(MessageView::IdempotentProduce(r)),
                None => Err(DmqError::PayloadTooShort(IDEMPOTENT_PRODUCE)),
            }
        } else if t == BROKER_HEARTBEAT {
            match BrokerHeartbeatRequest::spec_decode(p) {
                Some(r) => Ok(MessageView::BrokerHeartbeat(r)),
                None => Err(DmqError::PayloadTooShort(BROKER_HEARTBEAT)),
            }
        } else if t == JOIN_GROUP {
            match JoinGroupRequest::spec_decode(p) {
                Some(r) => Ok(MessageView::JoinGroup(r)),
                None => Err(DmqError::PayloadTooShort(JOIN_GROUP)),
            }
        } else if t == GROUP_HEARTBEAT {
            match GroupHeartbeatRequest::spec_decode(p) {
                Some(r) => Ok(MessageView::GroupHeartbeat(r)),
                None => Err(DmqError::PayloadTooShort(GROUP_HEARTBEAT)),
            }
        } else if t == HANDSHAKE {
            match HandshakeRequest::spec_decode(p) {
                Some(r) => Ok(MessageView::Handshake(r)),
                None => Err(
                    if p.len() < 4 {
                        DmqError::PayloadTooShort(HANDSHAKE)
                    } else {
                        DmqError::PayloadTruncated(HANDSHAKE)
                    },
                ),
            }
        } else if t == R_ECHO {
            Ok(MessageView::REcho(lossy_text(p)))
        } else if t == R_P_REG {
            Ok(MessageView::RProducerRegister(first_or_zero(p)))
        } else if t == R_C_REG {
            Ok(MessageView::RConsumerRegister(first_or_zero(p)))
        } else if t == R_PCM {
            Ok(MessageView::RPcm(first_or_zero(p)))
        } else if t == R_FETCH {
            Ok(MessageView::RFetch(p))
        } else if t == R_COMMIT {
            Ok(MessageView::RCommitOffset(first_or_zero(p)))
        } else if t == R_PRODUCE {
            if p.len() < 8 {
                Err(DmqError::PayloadTooShort(R_PRODUCE))
            } else {
                Ok(MessageView::RProduce(u64_at(p, 0)))
            }
        } else if t == R_CREATE_TOPIC {
            Ok(MessageView::RCreateTopic(first_or_zero(p)))
        } else if t == R_DESCRIBE_TOPIC {
            Ok(MessageView::RDescribeTopic(p))
        } else if t == R_LIST_TOPICS {
            Ok(MessageView::RListTopics(p))
        } else if t == R_GET_LAG {
            Ok(MessageView::RGetLag(p))
        } else if t == R_REPLICATE {
            Ok(MessageView::RReplicate(first_or_zero(p)))
        } else if t == R_GET_CLUSTER {
            Ok(MessageView::RGetCluster(p))
        } else if t == R_NOT_LEADER {
            if p.len() < 2 {
                Err(DmqError::PayloadTooShort(R_NOT_LEADER))
            } else {
                Ok(MessageView::RNotLeader(u16_at(p, 0)))
            }
        } else if t == R_BROKER_HEARTBEAT {
            Ok(MessageView::RBrokerHeartbeat(first_or_zero(p)))
        } else if t == R_JOIN_GROUP {
            Ok(MessageView::RJoinGroup(p))
        } else if t == R_GROUP_HEARTBEAT {
            Ok(
                MessageView::RGroupHeartbeat(
                    first_or_zero(p),
                    if p.len() > 1 {
                        p[1]
                    } else {
                        0
                    },
                ),
            )
        } else if t == R_HANDSHAKE {
            if p.len() < 3 {
                Err(DmqError::PayloadTooShort(R_HANDSHAKE))
            } else {
                Ok(MessageView::RHandshake(p[0], u16_at(p, 1)))
            }
        } else if t == R_ERROR {
            Ok(MessageView::RError(first_or_zero(p), lossy_text(p.subrange(1, p.len() as int))))
        } else {
            Err(DmqError::UnknownMessageType(t))
        }
    }
}

/// Whether an executable parse result stands for the spec result.
pub open spec fn parsed_as(r: Result<Message, DmqError>, s: Result<MessageView, DmqError>) -> bool {
    match r {
        Ok(m) => s == Ok::<MessageView, DmqError>(m@),
        Err(e) => s == Err::<MessageView, DmqError>(e),
    }
}

fn first_byte(p: &[u8]) -> (b: u8)
    ensures
        b == first_or_zero(p@),
{
    if p.len() > 0 {
        p[0]
    } else {
        0
    }
}

/// Decodes a frame body (`[type][payload]`) into a message.
pub fn parse_frame(body: &[u8]) -> (r: Result<Message, DmqError>)
    requires
        parseable_body(body@),
    ensures
        parsed_as(r, spec_parse_frame(body@)),
{
    if body.len() == 0 {
        return Err(DmqError::EmptyFrame);
    }
    let msg_type = body[0];
    let (_, payload) = body.split_at(1);
    assert(payload@ == body@.subrange(1, body@.len() as int));
    assert(body@ =~= seq![msg_type] + payload@);
    if msg_type < R_ECHO {
        parse_request(msg_type, payload)
    } else {
        parse_response(msg_type, payload)
    }
}

fn parse_request(t: u8, p: &[u8]) -> (r: Result<Message, DmqError>)
    requires
        t < R_ECHO,
    ensures
        parsed_as(r, spec_parse_frame(seq![t] + p@)),
{
    let ghost body = seq![t] + p@;
    assert(body.subrange(1, body.len() as int) =~= p@);
    assert(body.len() > 0 && body[0] == t);
    if t == ECHO {
        Ok(Message::Echo(lossy_string(p)))
    } else if t == P_REG {
        match ProducerRegister::decode(p) {
            Ok(v) => Ok(Message::ProducerRegister(v)),
            Err(e) => Err(e),
        }
    } else if t == C_REG {
        match ConsumerRegister::decode(p) {
            Ok(v) => Ok(Message::ConsumerRegister(v)),
            Err(e) => Err(e),
        }
    } else if t == PCM {
        Ok(Message::Pcm(to_vec(p)))
    } else if t == FETCH {
        match FetchRequest::decode(p) {
            Ok(v) => Ok(Message::Fetch(v)),
            Err(e) => Err(e),
        }
    } else if t == COMMIT {
        match CommitOffsetRequest::decode(p) {
            Ok(v) => Ok(Message::CommitOffset(v)),
            Err(e) => Err(e),
        }
    } else if t == PRODUCE {
        match ProduceRequest::decode(p) {
            Ok(v) => Ok(Message::Produce(v)),
            Err(e) => Err(e),
        }
    } else if t == CREATE_TOPIC {
        match CreateTopicRequest::decode(p) {
            Ok(v) => Ok(Message::CreateTopic(v)),
            Err(e) => Err(e),
        }
    } else if t == DESCRIBE_TOPIC {
        match DescribeTopicRequest::decode(p) {
            Ok(v) => Ok(Message::DescribeTopic(v)),
            Err(e) => Err(e),
        }
    } else if t == LIST_TOPICS {
        Ok(Message::ListTopics)
    } else if t == GET_LAG {
        match GetLagRequest::decode(p) {
            Ok(v) => Ok(Message::GetLag(v)),
            Err(e) => Err(e),
        }
    } else if t == REPLICATE {
        match ReplicateRequest::decode(p) {
            Ok(v) => Ok(Message::Replicate(v)),
            Err(e) => Err(e),
        }
    } else if t == GET_CLUSTER {
        Ok(Message::GetCluster)
    } else if t == IDEMPOTENT_PRODUCE {
        match IdempotentProduceRequest::decode(p) {
            Ok(v) => Ok(Message::IdempotentProduce(v)),
            Err(e) => Err(e),
        }
    } else if t == BROKER_HEARTBEAT {
        match BrokerHeartbeatRequest::decode(p) {
            Ok(v) => Ok(Message::BrokerHeartbeat(v)),
            Err(e) => Err(e),
        }
    } else if t == JOIN_GROUP {
        match JoinGroupRequest::decode(p) {
            Ok(v) => Ok(Message::JoinGroup(v)),
            Err(e) => Err(e),
        }
    } else if t == GROUP_HEARTBEAT {
        match GroupHeartbeatRequest::decode(p) {
            Ok(v) => Ok(Message::GroupHeartbeat(v)),
            Err(e) => Err(e),
        }
    } else if t == HANDSHAKE {
        match HandshakeRequest::decode(p) {
            Ok(v) => Ok(Message::Handshake(v)),
            Err(e) => Err(e),
        }
    } else {
        Err(DmqError::UnknownMessageType(t))
    }
}

fn parse_response(t: u8, p: &[u8]) -> (r: Result<Message, DmqError>)
    requires
        t >= R_ECHO,
        parseable_body(seq![t] + p@),
    ensures
        parsed_as(r, spec_parse_frame(seq![t] + p@)),
{
    let ghost body = seq![t] + p@;
    assert(body.subrange(1, body.len() as int) =~= p@);
    assert(body.len() > 0 && body[0] == t);
    if t == R_ECHO {
        Ok(Message::REcho(lossy_string(p)))
    } else if t == R_P_REG {
        Ok(Message::RProducerRegister(first_byte(p)))
    } else if t == R_C_REG {
        Ok(Message::RConsumerRegister(first_byte(p)))
    } else if t == R_PCM {
        Ok(Message::RPcm(first_byte(p)))
    } else if t == R_FETCH {
        Ok(Message::RFetch(to_vec(p)))
    } else if t == R_COMMIT {
        Ok(Message::RCommitOffset(first_byte(p)))
    } else if t == R_PRODUCE {
        if p.len() < 8 {
            return Err(DmqError::PayloadTooShort(R_PRODUCE));
        }
        Ok(Message::RProduce(get_u64(p, 0)))
    } else if t == R_CREATE_TOPIC {
        Ok(Message::RCreateTopic(first_byte(p)))
    } else if t == R_DESCRIBE_TOPIC {
        Ok(Message::RDescribeTopic(to_vec(p)))
    } else if t == R_LIST_TOPICS {
        Ok(Message::RListTopics(to_vec(p)))
    } else if t == R_GET_LAG {
        Ok(Message::RGetLag(to_vec(p)))
    } else if t == R_REPLICATE {
        Ok(Message::RReplicate(first_byte(p)))
    } else if t == R_GET_CLUSTER {
        Ok(Message::RGetCluster(to_vec(p)))
    } else if t == R_NOT_LEADER {
        if p.len() < 2 {
            return Err(DmqError::PayloadTooShort(R_NOT_LEADER));
        }
        Ok(Message::RNotLeader(get_u16(p, 0)))
    } else if t == R_BROKER_HEARTBEAT {
        Ok(Message::RBrokerHeartbeat(first_byte(p)))
    } else if t == R_JOIN_GROUP {
        Ok(Message::RJoinGroup(to_vec(p)))
    } else if t == R_GROUP_HEARTBEAT {
        let code = first_byte(p);
        let flag = if p.len() > 1 {
            p[1]
        } else {
            0
        };
        Ok(Message::RGroupHeartbeat(code, flag))
    } else if t == R_HANDSHAKE {
        if p.len() < 3 {
            return Err(DmqError::PayloadTooShort(R_HANDSHAKE));
        }
        Ok(Message::RHandshake(p[0], get_u16(p, 1)))
    } else if t == R_ERROR {
        let code = first_byte(p);
        let (_, rest) = p.split_at(1);
        Ok(Message::RError(code, lossy_string(rest)))
    } else {
        Err(DmqError::UnknownMessageType(t))
    }
}

/// The type byte of a message.
pub fn message_type_byte(message: &Message) -> (r: Result<u8, DmqError>)
    ensures
        r == Ok::<u8, DmqError>(spec_type_byte(message@)),
{
    Ok(
        match message {
            Message::Echo(_) => ECHO,
            Message::ProducerRegister(_) => P_REG,
            Message::ConsumerRegister(_) => C_REG,
            Message::Pcm(_) => PCM,
            Message::Fetch(_) => FETCH,
            Message::CommitOffset(_) => COMMIT,
            Message::Produce(_) => PRODUCE,
            Message::CreateTopic(_) => CREATE_TOPIC,
            Message::DescribeTopic(_) => DESCRIBE_TOPIC,
            Message::ListTopics => LIST_TOPICS,
            Message::GetLag(_) => GET_LAG,
            Message::Replicate(_) => REPLICATE,
            Message::GetCluster => GET_CLUSTER,
            Message::IdempotentProduce(_) => IDEMPOTENT_PRODUCE,
            Message::BrokerHeartbeat(_) => BROKER_HEARTBEAT,
            Message::JoinGroup(_) => JOIN_GROUP,
            Message::GroupHeartbeat(_) => GROUP_HEARTBEAT,
            Message::Handshake(_) => HANDSHAKE,
            Message::REcho(_) => R_ECHO,
            Message::RProducerRegister(_) => R_P_REG,
            Message::RConsumerRegister(_) => R_C_REG,
            Message::RPcm(_) => R_PCM,
            Message::RFetch(_) => R_FETCH,
            Message::RCommitOffset(_) => R_COMMIT,
            Message::RProduce(_) => R_PRODUCE,
            Message::RCreateTopic(_) => R_CREATE_TOPIC,
            Message::RDescribeTopic(_) => R_DESCRIBE_TOPIC,
            Message::RListTopics(_) => R_LIST_TOPICS,
            Message::RGetLag(_) => R_GET_LAG,
            Message::RReplicate(_) => R_REPLICATE,
            Message::RGetCluster(_) => R_GET_CLUSTER,
            Message::RNotLeader(_) => R_NOT_LEADER,
            Message::RBrokerHeartbeat(_) => R_BROKER_HEARTBEAT,
            Message::RJoinGroup(_) => R_JOIN_GROUP,
            Message::RGroupHeartbeat(_, _) => R_GROUP_HEARTBEAT,
            Message::RHandshake(_, _) => R_HANDSHAKE,
            Message::RError(_, _) => R_ERROR,
        },
    )
}

fn encode_payload(message: &Message) -> (out: Vec<u8>)
    requires
        message_encodable(message@),
    ensures
        out@ == spec_payload(message@),
{
    let mut out: Vec<u8> = Vec::new();
    match message {
        Message::Echo(s) => put_bytes(&mut out, string_bytes(s)),
        Message::ProducerRegister(reg) => put_bytes(&mut out, reg.encode().as_slice()),
        Message::ConsumerRegister(reg) => put_bytes(&mut out, reg.encode().as_slice()),
        Message::Pcm(bytes) => put_bytes(&mut out, bytes.as_slice()),
        Message::Fetch(req) => {
            out = req.encode();
        },
        Message::CommitOffset(req) => put_bytes(&mut out, req.encode().as_slice()),
        Message::Produce(req) => {
            out = req.encode();
        },
        Message::CreateTopic(req) => put_bytes(&mut out, req.encode().as_slice()),
        Message::DescribeTopic(req) => put_bytes(&mut out, req.encode().as_slice()),
        Message::ListTopics => {},
        Message::GetLag(req) => put_bytes(&mut out, req.encode().as_slice()),
        Message::Replicate(req) => {
            out = req.encode();
        },
        Message::GetCluster => {},
        Message::IdempotentProduce(req) => {
            out = req.encode();
        },
        Message::BrokerHeartbeat(req) => put_bytes(&mut out, req.encode().as_slice()),
        Message::JoinGroup(req) => {
            out = req.encode();
        },
        Message::GroupHeartbeat(req) => put_bytes(&mut out, req.encode().as_slice()),
        Message::Handshake(req) => {
            out = req.encode();
        },
        Message::REcho(s) => put_bytes(&mut out, string_bytes(s)),
        Message::RProducerRegister(b) => out.push(*b),
        Message::RConsumerRegister(b) => out.push(*b),
        Message::RPcm(b) => out.push(*b),
        Message::RFetch(bytes) => put_bytes(&mut out, bytes.as_slice()),
        Message::RCommitOffset(b) => out.push(*b),
        Message::RProduce(offset) => put_u64(&mut out, *offset),
        Message::RCreateTopic(b) => out.push(*b),
        Message::RDescribeTopic(bytes) => put_bytes(&mut out, bytes.as_slice()),
        Message::RListTopics(bytes) => put_bytes(&mut out, bytes.as_slice()),
        Message::RGetLag(bytes) => put_bytes(&mut out, bytes.as_slice()),
        Message::RReplicate(b) => out.push(*b),
        Message::RGetCluster(bytes) => put_bytes(&mut out, bytes.as_slice()),
        Message::RNotLeader(id) => put_u16(&mut out, *id),
        Message::RBrokerHeartbeat(code) => out.push(*code),
        Message::RJoinGroup(bytes) => put_bytes(&mut out, bytes.as_slice()),
        Message::RGroupHeartbeat(code, flag) => {
            out.push(*code);
            out.push(*flag);
        },
        Message::RHandshake(code, version) => {
            out.push(*code);
            put_u16(&mut out, *version);
        },
        Message::RError(code, msg) => {
            out.push(*code);
            put_bytes(&mut out, string_bytes(msg));
        },
    }
    assert(out@ =~= spec_payload(message@));
    out
}

/// Encodes a message as a frame body: its type byte followed by its payload.
pub fn encode_message(message: &Message) -> (r: Result<Vec<u8>, DmqError>)
    requires
        message_encodable(message@),
    ensures
        match r {
            Ok(v) => v@ == spec_encode_message(message@),
            Err(_) => false,
        },
{
    let payload = encode_payload(message);
    let msg_type = message_type_byte(message)?;
    let mut out: Vec<u8> = Vec::with_capacity(1);
    out.push(msg_type);
    put_bytes(&mut out, payload.as_slice());
    assert(out@ =~= spec_encode_message(message@));
    Ok(out)
}

/// The v1 wire form of a message: a one-byte body length (taken modulo 256, as the
/// wire slot holds) followed by the body.
pub open spec fn spec_wire_message(m: MessageView) -> Seq<u8> {
    seq![spec_encode_message(m).len() as u8] + spec_encode_message(m)
}

/// Encodes a message for a v1 stream: the length byte, then the frame body.
pub fn encode_wire_message(message: &Message) -> (r: Result<Vec<u8>, DmqError>)
    requires
        message_encodable(message@),
    ensures
        match r {
            Ok(v) => v@ == spec_wire_message(message@),
            Err(_) => false,
        },
{
    let frame = encode_message(message)?;
    let mut wire: Vec<u8> = Vec::with_capacity(1);
    wire.push(frame.len() as u8);
    put_bytes(&mut wire, frame.as_slice());
    Ok(wire)
}


// ---------------------------------------------------------------------------
// Decoding what was encoded gives the original value back.

/// A producer registration survives encoding and decoding unchanged.
pub proof fn lemma_producer_register_roundtrip(r: ProducerRegister)
    ensures
        ProducerRegister::spec_decode(r.spec_encode()) == Some(r),
{
    lemma_be16(r.port);
    lemma_be16(r.topic_id);
}

/// A consumer registration survives encoding and decoding unchanged.
pub proof fn lemma_consumer_register_roundtrip(r: ConsumerRegister)
    ensures
        ConsumerRegister::spec_decode(r.spec_encode()) == Some(r),
{
    lemma_be16(r.port);
    lemma_be16(r.topic_id);
    lemma_be16(r.group_id);
}

/// A broker heartbeat survives encoding and decoding unchanged.
pub proof fn lemma_broker_heartbeat_roundtrip(r: BrokerHeartbeatRequest)
    ensures
        BrokerHeartbeatRequest::spec_decode(r.spec_encode()) == Some(r),
{
    lemma_be16(r.broker_id);
}

/// A join-group request survives encoding and decoding unchanged.
pub proof fn lemma_join_group_roundtrip(r: JoinGroupRequest)
    ensures
        JoinGroupRequest::spec_decode(r.spec_encode()) == Some(r),
{
    lemma_be16(r.group_id);
    lemma_be16(r.topic_id);
    lemma_be64(r.member_id);
}

/// A group heartbeat survives encoding and decoding unchanged.
pub proof fn lemma_group_heartbeat_roundtrip(r: GroupHeartbeatRequest)
    ensures
        GroupHeartbeatRequest::spec_decode(r.spec_encode()) == Some(r),
{
    lemma_be16(r.group_id);
    lemma_be64(r.member_id);
    lemma_be32(r.generation);
}

/// A handshake whose token length fits a `u16` survives encoding and decoding unchanged.
pub proof fn lemma_handshake_roundtrip(r: HandshakeRequestView)
    requires
        r.auth_token.len() <= u16::MAX,
    ensures
        HandshakeRequest::spec_decode(r.spec_encode()) == Some(r),
{
    lemma_be16(r.protocol_version);
    lemma_be16(r.auth_token.len() as u16);
    let e = r.spec_encode();
    assert(e.subrange(4, 4 + r.auth_token.len() as int) =~= r.auth_token);
}

/// A fetch request survives encoding and decoding unchanged.
pub proof fn lemma_fetch_request_roundtrip(r: FetchRequest)
    ensures
        FetchRequest::spec_decode(r.spec_encode()) == Some(r),
{
    lemma_be16(r.topic_id);
    lemma_be16(r.partition_id);
    lemma_be64(r.offset);
    lemma_be32(r.max_bytes);
    lemma_be32(r.max_wait_ms);
}

/// An offset commit survives encoding and decoding unchanged.
pub proof fn lemma_commit_offset_roundtrip(r: CommitOffsetRequest)
    ensures
        CommitOffsetRequest::spec_decode(r.spec_encode()) == Some(r),
{
    lemma_be16(r.group_id);
    lemma_be16(r.topic_id);
    lemma_be16(r.partition_id);
    lemma_be64(r.offset);
}

/// A produce request survives encoding and decoding unchanged.
pub proof fn lemma_produce_request_roundtrip(r: ProduceRequestView)
    ensures
        ProduceRequest::spec_decode(r.spec_encode()) == Some(r),
{
    lemma_be16(r.topic_id);
    lemma_be16(r.partition_id);
    let e = r.spec_encode();
    assert(e.subrange(4, e.len() as int) =~= r.payload);
}

/// A topic creation request survives encoding and decoding unchanged.
pub proof fn lemma_create_topic_roundtrip(r: CreateTopicRequest)
    ensures
        CreateTopicRequest::spec_decode(r.spec_encode()) == Some(r),
{
    lemma_be16(r.topic_id);
    lemma_be16(r.partition_count);
    lemma_be32(r.max_records);
}

/// A describe-topic request survives encoding and decoding unchanged.
pub proof fn lemma_describe_topic_roundtrip(r: DescribeTopicRequest)
    ensures
        DescribeTopicRequest::spec_decode(r.spec_encode()) == Some(r),
{
    lemma_be16(r.topic_id);
}

/// A lag request survives encoding and decoding unchanged.
pub proof fn lemma_get_lag_roundtrip(r: GetLagRequest)
    ensures
        GetLagRequest::spec_decode(r.spec_encode()) == Some(r),
{
    lemma_be16(r.group_id);
    lemma_be16(r.topic_id);
}

/// A replication request whose payload length fits a `u16` survives encoding and
/// decoding unchanged.
pub proof fn lemma_replicate_request_roundtrip(r: ReplicateRequestView)
    requires
        r.payload.len() <= u16::MAX,
    ensures
        ReplicateRequest::spec_decode(r.spec_encode()) == Some(r),
{
    lemma_be16(r.topic_id);
    lemma_be16(r.partition_id);
    lemma_be64(r.offset);
    lemma_be16(r.payload.len() as u16);
    let e = r.spec_encode();
    assert(e.subrange(14, 14 + r.payload.len() as int) =~= r.payload);
}

/// An idempotent produce request survives encoding and decoding unchanged.
pub proof fn lemma_idempotent_produce_roundtrip(r: IdempotentProduceRequestView)
    ensures
        IdempotentProduceRequest::spec_decode(r.spec_encode()) == Some(r),
{
    lemma_be16(r.topic_id);
    lemma_be16(r.partition_id);
    lemma_be64(r.producer_id);
    lemma_be64(r.sequence);
    let e = r.spec_encode();
    assert(e.subrange(20, e.len() as int) =~= r.payload);
}

/// Text encoded as UTF-8 reads back unchanged.
pub proof fn lemma_text_roundtrip(s: Seq<char>)
    ensures
        lossy_text(encode_utf8(s)) == s,
{
    vstd::utf8::encode_utf8_valid_utf8(s);
    vstd::utf8::encode_utf8_decode_utf8(s);
}

/// Every message whose length fields fit their wire slots is parsed back from its
/// encoding unchanged.
pub proof fn lemma_message_roundtrip(m: MessageView)
    requires
        message_fits_wire(m),
    ensures
        parseable_body(spec_encode_message(m)),
        spec_parse_frame(spec_encode_message(m)) == Ok::<MessageView, DmqError>(m),
{
    let body = spec_encode_message(m);
    let p = spec_payload(m);
    assert(body.subrange(1, body.len() as int) =~= p);
    match m {
        MessageView::Echo(s) => lemma_text_roundtrip(s),
        MessageView::REcho(s) => lemma_text_roundtrip(s),
        MessageView::RError(c, s) => {
            lemma_text_roundtrip(s);
            assert(p.subrange(1, p.len() as int) =~= encode_utf8(s));
        },
        MessageView::ProducerRegister(r) => lemma_producer_register_roundtrip(r),
        MessageView::ConsumerRegister(r) => lemma_consumer_register_roundtrip(r),
        MessageView::Fetch(r) => lemma_fetch_request_roundtrip(r),
        MessageView::CommitOffset(r) => lemma_commit_offset_roundtrip(r),
        MessageView::Produce(r) => lemma_produce_request_roundtrip(r),
        MessageView::CreateTopic(r) => lemma_create_topic_roundtrip(r),
        MessageView::DescribeTopic(r) => lemma_describe_topic_roundtrip(r),
        MessageView::GetLag(r) => lemma_get_lag_roundtrip(r),
        MessageView::Replicate(r) => lemma_replicate_request_roundtrip(r),
        MessageView::IdempotentProduce(r) => lemma_idempotent_produce_roundtrip(r),
        MessageView::BrokerHeartbeat(r) => lemma_broker_heartbeat_roundtrip(r),
        MessageView::JoinGroup(r) => lemma_join_group_roundtrip(r),
        MessageView::GroupHeartbeat(r) => lemma_group_heartbeat_roundtrip(r),
        MessageView::Handshake(r) => lemma_handshake_roundtrip(r),
        MessageView::RProduce(o) => lemma_be64(o),
        MessageView::RNotLeader(id) => lemma_be16(id),
        MessageView::RHandshake(c, v) => lemma_be16(v),
        _ => {},
    }
}

} // verus!

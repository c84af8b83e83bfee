//! What the command-line clients compute: the requests they send, and how they
//! read the broker's answers to fetches and to admin requests.

use crate::broker::{lag_bytes, log_key, BrokerView};
use crate::compression::{spec_unwrap, unwrap_batch, CODEC_LZ4};
use crate::error::DmqError;
use crate::fetch_batch::{decode_records, spec_decode_records};
use crate::message::{
    HandshakeRequest, HandshakeRequestView, IdempotentProduceRequest, IdempotentProduceRequestView, Message, MessageView, ProduceRequest, ProduceRequestView,
};
use crate::metadata::lemma_be16_all_at;
use crate::cluster::lemma_be16_all_len;
use crate::partition_log::{records_view, Record};
use crate::protocol::{Frame, PROTOCOL_V2};
use crate::wire::{
    be16, be32, be64, get_u16, get_u32, get_u64, lemma_u16_window, lemma_u32_window, lemma_u64_window, u16_at, u32_at,
    u64_at,
};
use vstd::prelude::*;

verus! {

/// The request a producer sends to partition 0: idempotent, with its producer
/// id and sequence number, or plain.
pub fn produce_message(topic_id: u16, idempotent: bool, producer_id: u64, sequence: u64, payload: Vec<u8>) -> (m:
    Message)
    ensures
        m@ == if idempotent {
            MessageView::IdempotentProduce(
                IdempotentProduceRequestView { topic_id, partition_id: 0, producer_id, sequence, payload: payload@ },
            )
        } else {
            MessageView::Produce(ProduceRequestView { topic_id, partition_id: 0, payload: payload@ })
        },
{
    if idempotent {
        Message::IdempotentProduce(IdempotentProduceRequest { topic_id, partition_id: 0, producer_id, sequence, payload })
    } else {
        Message::Produce(ProduceRequest { topic_id, partition_id: 0, payload })
    }
}

/// Whether a client that speaks `version` opens its connection with a
/// handshake: from protocol v2 on.
pub fn needs_handshake(version: u16) -> (r: bool)
    ensures
        r == (version >= PROTOCOL_V2),
{
    version >= PROTOCOL_V2
}

/// The handshake a client opens a v2 connection with, asking for `version` and
/// presenting `token`.
pub fn handshake_frame(correlation_id: u32, version: u16, token: Vec<u8>) -> (f: Frame)
    ensures
        f.correlation_id == correlation_id,
        f.message@ == MessageView::Handshake(HandshakeRequestView { protocol_version: version, auth_token: token@ }),
{
    Frame::v2(correlation_id, Message::Handshake(HandshakeRequest { protocol_version: version, auth_token: token }))
}

/// What the answer to a handshake tells the client.
#[derive(Debug, Clone, PartialEq, Eq)]
pub enum HandshakeReply {
    /// The broker speaks this version with us.
    Accepted(u16),
    /// The broker turned the handshake down with this code.
    Rejected(u8),
    /// The broker answered with an error.
    Refused(u8, String),
    /// The answer was no handshake answer.
    Unexpected,
}

/// Reads the answer to a handshake: code 0 accepts with the version it names.
pub fn handshake_reply(m: &Message) -> (r: HandshakeReply)
    ensures
        match m@ {
            MessageView::RHandshake(code, version) => if code == 0 {
                r == HandshakeReply::Accepted(version)
            } else {
                r == HandshakeReply::Rejected(code)
            },
            MessageView::RError(code, text) => r matches HandshakeReply::Refused(c, t) && c == code && t@ == text,
            _ => r == HandshakeReply::Unexpected,
        },
{
    match m {
        Message::RHandshake(code, version) => if *code == 0 {
            HandshakeReply::Accepted(*version)
        } else {
            HandshakeReply::Rejected(*code)
        },
        Message::RError(code, text) => HandshakeReply::Refused(*code, text.clone()),
        _ => HandshakeReply::Unexpected,
    }
}

/// The batch inside a fetch answer: unwrapped when it unwraps, else the bytes
/// as they came.
pub open spec fn answer_batch(bytes: Seq<u8>) -> Seq<u8> {
    match spec_unwrap(bytes) {
        Ok(v) => v,
        Err(_) => bytes,
    }
}

/// The records of a fetch answer (see `answer_batch`).
pub fn fetched_records(bytes: Vec<u8>) -> (r: Result<Vec<Record>, DmqError>)
    requires
        bytes@.len() * 8 <= usize::MAX,
    ensures
        match r {
            Ok(rs) => spec_decode_records(answer_batch(bytes@)) == Ok::<Seq<crate::partition_log::RecordView>, DmqError>(
                records_view(rs@),
            ),
            Err(e) => spec_decode_records(answer_batch(bytes@)) == Err::<
                Seq<crate::partition_log::RecordView>,
                DmqError,
            >(e),
        },
{
    let batch = match unwrap_batch(bytes.as_slice()) {
        Ok(v) => v,
        Err(_) => bytes,
    };
    decode_records(batch.as_slice())
}

/// The batch inside a page the load generator fetched: unwrapped when it is
/// marked LZ4, else the bytes as they came.
pub open spec fn page_batch(bytes: Seq<u8>) -> Result<Seq<u8>, DmqError> {
    if bytes.len() > 0 && bytes[0] == CODEC_LZ4 {
        spec_unwrap(bytes)
    } else {
        Ok(bytes)
    }
}

/// The records of a fetched page (see `page_batch`).
pub fn page_records(bytes: Vec<u8>) -> (r: Result<Vec<Record>, DmqError>)
    requires
        bytes@.len() * 8 <= usize::MAX,
    ensures
        match page_batch(bytes@) {
            Ok(b) => match r {
                Ok(rs) => spec_decode_records(b) == Ok::<Seq<crate::partition_log::RecordView>, DmqError>(
                    records_view(rs@),
                ),
                Err(e) => spec_decode_records(b) == Err::<Seq<crate::partition_log::RecordView>, DmqError>(e),
            },
            Err(e) => r == Err::<Vec<Record>, DmqError>(e),
        },
{
    let batch = if bytes.len() > 0 && bytes[0] == CODEC_LZ4 {
        match unwrap_batch(bytes.as_slice()) {
            Ok(v) => v,
            Err(e) => {
                return Err(e);
            },
        }
    } else {
        bytes
    };
    decode_records(batch.as_slice())
}

/// Where reading continues after a batch: past its last record, or where it
/// was when the batch is empty; `None` when the last offset is the largest
/// there is.
pub fn resume_offset(records: &[Record], current: u64) -> (r: Option<u64>)
    ensures
        r == if records@.len() == 0 {
            Some(current)
        } else if records@.last().offset < u64::MAX {
            Some((records@.last().offset + 1) as u64)
        } else {
            None::<u64>
        },
{
    if records.len() == 0 {
        return Some(current);
    }
    let last = records[records.len() - 1].offset;
    if last < u64::MAX {
        Some(last + 1)
    } else {
        None
    }
}

/// How many entries of `width` bytes after a two-byte count an answer lists:
/// the count, or as many as the bytes hold when they hold fewer.
pub open spec fn listed(b: Seq<u8>, width: int) -> nat {
    let fits = (b.len() - 2) / width;
    if (u16_at(b, 0) as int) < fits {
        u16_at(b, 0) as nat
    } else {
        fits as nat
    }
}

/// A list answer's count and the topics it names, as many as the count names
/// and the bytes hold; `None` when it is shorter than its count.
pub open spec fn listed_topics(b: Seq<u8>) -> Option<(u16, Seq<u16>)> {
    if b.len() < 2 {
        None
    } else {
        Some((u16_at(b, 0), Seq::new(listed(b, 2), |i: int| u16_at(b, 2 + 2 * i))))
    }
}

fn listed_count(bytes: &[u8], width: usize) -> (n: usize)
    requires
        2 <= bytes@.len(),
        1 <= width,
    ensures
        n == listed(bytes@, width as int),
        2 + n * width <= bytes@.len(),
{
    let count = get_u16(bytes, 0) as usize;
    let fits = (bytes.len() - 2) / width;
    assert((fits as int) * (width as int) <= bytes@.len() - 2) by (nonlinear_arith)
        requires
            fits == (bytes@.len() - 2) / (width as int),
            width >= 1,
            bytes@.len() >= 2,
    ;
    if count < fits {
        assert((count as int) * (width as int) <= (fits as int) * (width as int)) by (nonlinear_arith)
            requires
                count < fits,
                width >= 1,
        ;
        count
    } else {
        fits
    }
}

/// Reads a topic list answer (see `listed_topics`).
pub fn decode_topic_list(bytes: &[u8]) -> (r: Option<(u16, Vec<u16>)>)
    ensures
        match r {
            Some((count, v)) => listed_topics(bytes@) == Some((count, v@)),
            None => listed_topics(bytes@) is None,
        },
{
    if bytes.len() < 2 {
        return None;
    }
    let n = listed_count(bytes, 2);
    let mut out: Vec<u16> = Vec::new();
    let mut i: usize = 0;
    while i < n
        invariant
            i <= n,
            n == listed(bytes@, 2),
            2 + n * 2 <= bytes@.len(),
            out@ == Seq::new(i as nat, |j: int| u16_at(bytes@, 2 + 2 * j)),
        decreases n - i,
    {
        out.push(get_u16(bytes, 2 + 2 * i));
        i = i + 1;
        assert(out@ =~= Seq::new(i as nat, |j: int| u16_at(bytes@, 2 + 2 * j)));
    }
    Some((get_u16(bytes, 0), out))
}

/// The topic list the broker answers reads back as its topics, in order.
pub proof fn lemma_topic_list_readback(s: BrokerView)
    requires
        s.topic_ids.len() <= u16::MAX,
    ensures
        listed_topics(s.topic_list()) == Some((s.topic_ids.len() as u16, s.topic_ids)),
{
    let ids = s.topic_ids;
    let b = s.topic_list();
    let n = ids.len() as u16;
    lemma_be16_all_len(ids);
    assert(b.subrange(0, 2) =~= be16(n));
    lemma_u16_window(b, 0, n);
    assert(listed(b, 2) == ids.len());
    assert forall|i: int| 0 <= i < ids.len() implies u16_at(b, 2 + 2 * i) == ids[i] by {
        lemma_be16_all_at(ids, i);
        assert(b.subrange(2 + 2 * i, 2 + 2 * i + 2) =~= crate::message::be16_all(ids).subrange(2 * i, 2 * i + 2));
        lemma_u16_window(b, 2 + 2 * i, ids[i]);
    }
    assert(Seq::new(listed(b, 2), |i: int| u16_at(b, 2 + 2 * i)) =~= ids);
}

/// One partition of a lag answer.
#[derive(Debug, Clone, Copy, PartialEq, Eq)]
pub struct LagEntry {
    pub partition_id: u16,
    pub committed: u64,
    pub log_end: u64,
    pub lag: u64,
}

/// The entry stored at position `o` of a lag answer.
pub open spec fn lag_entry_at(b: Seq<u8>, o: int) -> LagEntry {
    LagEntry { partition_id: u16_at(b, o), committed: u64_at(b, o + 2), log_end: u64_at(b, o + 10), lag: u64_at(b, o + 18) }
}

/// The partitions a lag answer lists; `None` when it is shorter than its count.
pub open spec fn listed_lags(b: Seq<u8>) -> Option<Seq<LagEntry>> {
    if b.len() < 2 {
        None
    } else {
        Some(Seq::new(listed(b, 26), |i: int| lag_entry_at(b, 2 + 26 * i)))
    }
}

/// Reads a lag answer (see `listed_lags`).
pub fn decode_lag_report(bytes: &[u8]) -> (r: Option<Vec<LagEntry>>)
    ensures
        match r {
            Some(v) => listed_lags(bytes@) == Some(v@),
            None => listed_lags(bytes@) is None,
        },
{
    if bytes.len() < 2 {
        return None;
    }
    let n = listed_count(bytes, 26);
    let mut out: Vec<LagEntry> = Vec::new();
    let mut i: usize = 0;
    while i < n
        invariant
            i <= n,
            n == listed(bytes@, 26),
            2 + n * 26 <= bytes@.len(),
            out@ == Seq::new(i as nat, |j: int| lag_entry_at(bytes@, 2 + 26 * j)),
        decreases n - i,
    {
        let o = 2 + 26 * i;
        out.push(
            LagEntry {
                partition_id: get_u16(bytes, o),
                committed: get_u64(bytes, o + 2),
                log_end: get_u64(bytes, o + 10),
                lag: get_u64(bytes, o + 18),
            },
        );
        i = i + 1;
        assert(out@ =~= Seq::new(i as nat, |j: int| lag_entry_at(bytes@, 2 + 26 * j)));
    }
    Some(out)
}

/// What the broker reports of partition `p` for a group (see `lag_bytes`).
pub open spec fn lag_of(s: BrokerView, group_id: u16, topic_id: u16, p: u16) -> LagEntry {
    let committed = match s.committed_offset(group_id, topic_id, p) {
        Some(c) => c,
        None => 0,
    };
    let end = if s.logs.contains_key(log_key(topic_id, p)) {
        s.logs[log_key(topic_id, p)].next_offset
    } else {
        0
    };
    LagEntry {
        partition_id: p,
        committed,
        log_end: end,
        lag: if end >= committed {
            (end - committed) as u64
        } else {
            0
        },
    }
}

pub open spec fn lag_entry_bytes(e: LagEntry) -> Seq<u8> {
    be16(e.partition_id) + be64(e.committed) + be64(e.log_end) + be64(e.lag)
}

proof fn lemma_lag_bytes_layout(s: BrokerView, group_id: u16, topic_id: u16, k: nat)
    requires
        k <= 65536,
    ensures
        lag_bytes(s, group_id, topic_id, k).len() == 26 * k,
        forall|i: int|
            0 <= i < k ==> #[trigger] lag_bytes(s, group_id, topic_id, k).subrange(26 * i, 26 * i + 26)
                == lag_entry_bytes(lag_of(s, group_id, topic_id, i as u16)),
    decreases k,
{
    if k > 0 {
        let prev = lag_bytes(s, group_id, topic_id, (k - 1) as nat);
        lemma_lag_bytes_layout(s, group_id, topic_id, (k - 1) as nat);
        let e = lag_entry_bytes(lag_of(s, group_id, topic_id, (k - 1) as u16));
        assert(lag_bytes(s, group_id, topic_id, k) =~= prev + e);
        assert forall|i: int| 0 <= i < k implies #[trigger] lag_bytes(s, group_id, topic_id, k).subrange(26 * i, 26 * i + 26)
            == lag_entry_bytes(lag_of(s, group_id, topic_id, i as u16)) by {
            if i < k - 1 {
                assert(lag_bytes(s, group_id, topic_id, k).subrange(26 * i, 26 * i + 26) =~= prev.subrange(26 * i, 26 * i + 26));
            } else {
                assert(lag_bytes(s, group_id, topic_id, k).subrange(26 * i, 26 * i + 26) =~= e);
            }
        }
    }
}

proof fn lemma_lag_entry_window(b: Seq<u8>, o: int, e: LagEntry)
    requires
        0 <= o,
        o + 26 <= b.len(),
        b.subrange(o, o + 26) == lag_entry_bytes(e),
    ensures
        lag_entry_at(b, o) == e,
{
    let w = lag_entry_bytes(e);
    assert(b.subrange(o, o + 2) =~= w.subrange(0, 2));
    assert(b.subrange(o + 2, o + 10) =~= w.subrange(2, 10));
    assert(b.subrange(o + 10, o + 18) =~= w.subrange(10, 18));
    assert(b.subrange(o + 18, o + 26) =~= w.subrange(18, 26));
    assert(w.subrange(0, 2) =~= be16(e.partition_id));
    assert(w.subrange(2, 10) =~= be64(e.committed));
    assert(w.subrange(10, 18) =~= be64(e.log_end));
    assert(w.subrange(18, 26) =~= be64(e.lag));
    lemma_u16_window(b, o, e.partition_id);
    lemma_u64_window(b, o + 2, e.committed);
    lemma_u64_window(b, o + 10, e.log_end);
    lemma_u64_window(b, o + 18, e.lag);
}

/// The lag answer the broker gives reads back as each partition's committed
/// offset, log end and lag, in partition order.
pub proof fn lemma_lag_readback(s: BrokerView, group_id: u16, topic_id: u16)
    ensures
        ({
            let n = s.topic_config(topic_id).partition_count;
            listed_lags(be16(n) + lag_bytes(s, group_id, topic_id, n as nat)) == Some(
                Seq::new(n as nat, |p: int| lag_of(s, group_id, topic_id, p as u16)),
            )
        }),
{
    let n = s.topic_config(topic_id).partition_count;
    let body = lag_bytes(s, group_id, topic_id, n as nat);
    let b = be16(n) + body;
    lemma_lag_bytes_layout(s, group_id, topic_id, n as nat);
    assert(b.subrange(0, 2) =~= be16(n));
    lemma_u16_window(b, 0, n);
    assert(listed(b, 26) == n);
    assert forall|i: int| 0 <= i < n implies #[trigger] lag_entry_at(b, 2 + 26 * i) == lag_of(s, group_id, topic_id, i as u16) by {
        let e = lag_of(s, group_id, topic_id, i as u16);
        let o = 2 + 26 * i;
        assert(body.subrange(26 * i, 26 * i + 26) == lag_entry_bytes(e));
        assert(b.subrange(o, o + 26) =~= body.subrange(26 * i, 26 * i + 26));
        lemma_lag_entry_window(b, o, e);
    }
    assert(Seq::new(listed(b, 26), |i: int| lag_entry_at(b, 2 + 26 * i)) =~= Seq::new(
        n as nat,
        |p: int| lag_of(s, group_id, topic_id, p as u16),
    ));
}

/// One partition of a topic description, as the admin tool reads it.
#[derive(Debug, Clone, Copy, PartialEq, Eq)]
pub struct PartitionSummary {
    pub partition_id: u16,
    pub base_offset: u64,
    pub next_offset: u64,
    pub records: u32,
}

/// The summary stored at position `o` of a description.
pub open spec fn summary_at(b: Seq<u8>, o: int) -> PartitionSummary {
    PartitionSummary {
        partition_id: u16_at(b, o),
        base_offset: u64_at(b, o + 2),
        next_offset: u64_at(b, o + 10),
        records: u32_at(b, o + 18),
    }
}

/// What the admin tool reads of a description: the partition count, and a
/// summary every 22 bytes after it, as many as the count names and the bytes
/// hold; `None` when it is shorter than its count.
pub open spec fn described(b: Seq<u8>) -> Option<(u16, Seq<PartitionSummary>)> {
    if b.len() < 2 {
        None
    } else {
        Some((u16_at(b, 0), Seq::new(listed(b, 22), |i: int| summary_at(b, 2 + 22 * i))))
    }
}

/// Reads a topic description (see `described`).
pub fn decode_description(bytes: &[u8]) -> (r: Option<(u16, Vec<PartitionSummary>)>)
    ensures
        match r {
            Some((count, v)) => described(bytes@) == Some((count, v@)),
            None => described(bytes@) is None,
        },
{
    if bytes.len() < 2 {
        return None;
    }
    let count = get_u16(bytes, 0);
    let n = listed_count(bytes, 22);
    let mut out: Vec<PartitionSummary> = Vec::new();
    let mut i: usize = 0;
    while i < n
        invariant
            i <= n,
            n == listed(bytes@, 22),
            2 + n * 22 <= bytes@.len(),
            out@ == Seq::new(i as nat, |j: int| summary_at(bytes@, 2 + 22 * j)),
        decreases n - i,
    {
        let o = 2 + 22 * i;
        out.push(
            PartitionSummary {
                partition_id: get_u16(bytes, o),
                base_offset: get_u64(bytes, o + 2),
                next_offset: get_u64(bytes, o + 10),
                records: get_u32(bytes, o + 18),
            },
        );
        i = i + 1;
        assert(out@ =~= Seq::new(i as nat, |j: int| summary_at(bytes@, 2 + 22 * j)));
    }
    Some((count, out))
}

/// The description of a topic with a single partition reads back as that
/// partition's index, bounds and record count; that of an unknown topic as
/// no partitions.
pub proof fn lemma_description_readback(s: BrokerView, t: u16)
    ensures
        !s.topics.contains_key(t) ==> described(s.topic_description(t)) == Some((0u16, Seq::<PartitionSummary>::empty())),
        s.topics.contains_key(t) && s.topic_config(t).partition_count == 1 ==> described(s.topic_description(t)) == Some(
            (
                1u16,
                seq![
                    PartitionSummary {
                        partition_id: 0,
                        base_offset: s.log(t, 0).base_offset,
                        next_offset: s.log(t, 0).next_offset,
                        records: s.log(t, 0).records.len() as u32,
                    },
                ],
            ),
        ),
{
    let b = s.topic_description(t);
    if !s.topics.contains_key(t) {
        assert(b[0] == 0 && b[1] == 0);
        assert(((0u8 as u16) << 8u16) | (0u8 as u16) == 0) by (bit_vector);
        assert(u16_at(b, 0) == 0);
        assert(Seq::new(listed(b, 22), |i: int| summary_at(b, 2 + 22 * i)) =~= Seq::<PartitionSummary>::empty());
    } else if s.topic_config(t).partition_count == 1 {
        let log = s.log(t, 0);
        let d = s.partition_description(t, 0);
        assert(s.partition_descriptions(t, 1) =~= d) by {
            assert(s.partition_descriptions(t, 0) =~= Seq::<u8>::empty());
        }
        assert(b =~= be16(1) + d);
        let e = PartitionSummary {
            partition_id: 0,
            base_offset: log.base_offset,
            next_offset: log.next_offset,
            records: log.records.len() as u32,
        };
        let head = be16(0) + be64(log.base_offset) + be64(log.next_offset) + be32(log.records.len() as u32);
        assert(d.subrange(0, 22) =~= head);
        assert(b.len() >= 2 + 22);
        assert(b.subrange(0, 2) =~= be16(1));
        lemma_u16_window(b, 0, 1);
        assert(listed(b, 22) == 1);
        assert(b.subrange(2, 4) =~= be16(0));
        assert(b.subrange(4, 12) =~= be64(log.base_offset));
        assert(b.subrange(12, 20) =~= be64(log.next_offset));
        assert(b.subrange(20, 24) =~= be32(log.records.len() as u32));
        lemma_u16_window(b, 2, 0);
        lemma_u64_window(b, 4, log.base_offset);
        lemma_u64_window(b, 12, log.next_offset);
        lemma_u32_window(b, 20, log.records.len() as u32);
        assert(summary_at(b, 2) == e);
        assert(Seq::new(listed(b, 22), |i: int| summary_at(b, 2 + 22 * i)) =~= seq![e]);
    }
}

/// One partition of a topic description as the broker writes it: index,
/// bounds, record count, leader and replicas.
pub struct PartitionEntry {
    pub partition_id: u16,
    pub base_offset: u64,
    pub next_offset: u64,
    pub records: u32,
    pub leader: u16,
    pub replicas: Seq<u16>,
}

/// The entry stored at position `o` of a description, and where it ends.
pub open spec fn parse_entry(b: Seq<u8>, o: int) -> Option<(PartitionEntry, int)> {
    if o < 0 || o + 26 > b.len() || o + 26 + 2 * (u16_at(b, o + 24) as int) > b.len() {
        None
    } else {
        let n = u16_at(b, o + 24) as nat;
        Some(
            (
                PartitionEntry {
                    partition_id: u16_at(b, o),
                    base_offset: u64_at(b, o + 2),
                    next_offset: u64_at(b, o + 10),
                    records: u32_at(b, o + 18),
                    leader: u16_at(b, o + 22),
                    replicas: Seq::new(n, |k: int| u16_at(b, o + 26 + 2 * k)),
                },
                o + 26 + 2 * n,
            ),
        )
    }
}

/// The first `n` entries stored from position `o`, and where they end.
pub open spec fn parse_entries(b: Seq<u8>, o: int, n: nat) -> Option<(Seq<PartitionEntry>, int)>
    decreases n,
{
    if n == 0 {
        Some((Seq::empty(), o))
    } else {
        match parse_entries(b, o, (n - 1) as nat) {
            Some((es, q)) => match parse_entry(b, q) {
                Some((e, r)) => Some((es.push(e), r)),
                None => None,
            },
            None => None,
        }
    }
}

/// Every entry of a description, read one after another as its count says.
pub open spec fn described_entries(b: Seq<u8>) -> Option<Seq<PartitionEntry>> {
    if b.len() < 2 {
        None
    } else {
        match parse_entries(b, 2, u16_at(b, 0) as nat) {
            Some((es, _)) => Some(es),
            None => None,
        }
    }
}

/// What the broker knows of partition `p` of topic `t`.
pub open spec fn entry_of(s: BrokerView, t: u16, p: u16) -> PartitionEntry {
    PartitionEntry {
        partition_id: p,
        base_offset: s.log(t, p).base_offset,
        next_offset: s.log(t, p).next_offset,
        records: s.log(t, p).records.len() as u32,
        leader: s.partition_leader(t, p),
        replicas: s.partition_replicas(t, p),
    }
}

proof fn lemma_entry_window(b: Seq<u8>, o: int, s: BrokerView, t: u16, p: u16)
    requires
        0 <= o,
        s.partition_replicas(t, p).len() <= u16::MAX,
        o + s.partition_description(t, p).len() <= b.len(),
        b.subrange(o, o + s.partition_description(t, p).len()) == s.partition_description(t, p),
    ensures
        parse_entry(b, o) == Some((entry_of(s, t, p), o + s.partition_description(t, p).len())),
{
    let d = s.partition_description(t, p);
    let log = s.log(t, p);
    let reps = s.partition_replicas(t, p);
    let n = reps.len() as u16;
    lemma_be16_all_len(reps);
    let ra = crate::message::be16_all(reps);
    assert(d.len() == 26 + 2 * reps.len());
    assert(b.subrange(o, o + 2) =~= d.subrange(0, 2));
    assert(d.subrange(0, 2) =~= be16(p));
    assert(b.subrange(o + 2, o + 10) =~= d.subrange(2, 10));
    assert(d.subrange(2, 10) =~= be64(log.base_offset));
    assert(b.subrange(o + 10, o + 18) =~= d.subrange(10, 18));
    assert(d.subrange(10, 18) =~= be64(log.next_offset));
    assert(b.subrange(o + 18, o + 22) =~= d.subrange(18, 22));
    assert(d.subrange(18, 22) =~= be32(log.records.len() as u32));
    assert(b.subrange(o + 22, o + 24) =~= d.subrange(22, 24));
    assert(d.subrange(22, 24) =~= be16(s.partition_leader(t, p)));
    assert(b.subrange(o + 24, o + 26) =~= d.subrange(24, 26));
    assert(d.subrange(24, 26) =~= be16(n));
    lemma_u16_window(b, o, p);
    lemma_u64_window(b, o + 2, log.base_offset);
    lemma_u64_window(b, o + 10, log.next_offset);
    lemma_u32_window(b, o + 18, log.records.len() as u32);
    lemma_u16_window(b, o + 22, s.partition_leader(t, p));
    lemma_u16_window(b, o + 24, n);
    assert forall|k: int| 0 <= k < reps.len() implies #[trigger] u16_at(b, o + 26 + 2 * k) == reps[k] by {
        lemma_be16_all_at(reps, k);
        assert(b.subrange(o + 26 + 2 * k, o + 26 + 2 * k + 2) =~= d.subrange(26 + 2 * k, 26 + 2 * k + 2));
        assert(d.subrange(26 + 2 * k, 26 + 2 * k + 2) =~= ra.subrange(2 * k, 2 * k + 2));
        lemma_u16_window(b, o + 26 + 2 * k, reps[k]);
    }
    assert(Seq::new(n as nat, |k: int| u16_at(b, o + 26 + 2 * k)) =~= reps);
}

proof fn lemma_entries_window(b: Seq<u8>, o: int, s: BrokerView, t: u16, k: nat)
    requires
        0 <= o,
        k <= 65536,
        forall|p: int| 0 <= p < k ==> #[trigger] s.partition_replicas(t, p as u16).len() <= u16::MAX,
        o + s.partition_descriptions(t, k).len() <= b.len(),
        b.subrange(o, o + s.partition_descriptions(t, k).len()) == s.partition_descriptions(t, k),
    ensures
        parse_entries(b, o, k) == Some(
            (Seq::new(k, |p: int| entry_of(s, t, p as u16)), o + s.partition_descriptions(t, k).len()),
        ),
    decreases k,
{
    if k == 0 {
        assert(Seq::new(0, |p: int| entry_of(s, t, p as u16)) =~= Seq::<PartitionEntry>::empty());
    } else {
        let prev = s.partition_descriptions(t, (k - 1) as nat);
        let p = (k - 1) as u16;
        let d = s.partition_description(t, p);
        let whole = s.partition_descriptions(t, k);
        assert(whole == prev + d);
        assert(b.subrange(o, o + prev.len()) =~= whole.subrange(0, prev.len() as int));
        assert(whole.subrange(0, prev.len() as int) =~= prev);
        lemma_entries_window(b, o, s, t, (k - 1) as nat);
        let q = o + prev.len();
        assert(s.partition_replicas(t, ((k - 1) as int) as u16).len() <= u16::MAX);
        assert(b.subrange(q, q + d.len()) =~= whole.subrange(prev.len() as int, whole.len() as int));
        assert(whole.subrange(prev.len() as int, whole.len() as int) =~= d);
        lemma_entry_window(b, q, s, t, p);
        assert(Seq::new((k - 1) as nat, |i: int| entry_of(s, t, i as u16)).push(entry_of(s, t, p)) =~= Seq::new(
            k,
            |i: int| entry_of(s, t, i as u16),
        ));
    }
}

/// The description the broker gives of a topic reads back, partition by
/// partition, as each partition's index, log bounds, record count, leader and
/// replicas (for replica lists that fit their `u16` count).
pub proof fn lemma_description_entries(s: BrokerView, t: u16)
    requires
        s.topics.contains_key(t),
        forall|p: int| 0 <= p < s.topic_config(t).partition_count ==> #[trigger] s.partition_replicas(t, p as u16).len()
            <= u16::MAX,
    ensures
        described_entries(s.topic_description(t)) == Some(
            Seq::new(s.topic_config(t).partition_count as nat, |p: int| entry_of(s, t, p as u16)),
        ),
{
    let n = s.topic_config(t).partition_count;
    let b = s.topic_description(t);
    let body = s.partition_descriptions(t, n as nat);
    assert(b == be16(n) + body);
    assert(b.subrange(0, 2) =~= be16(n));
    lemma_u16_window(b, 0, n);
    assert(b.subrange(2, 2 + body.len() as int) =~= body);
    lemma_entries_window(b, 2, s, t, n as nat);
}

} // verus!

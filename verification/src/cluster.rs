//! Static cluster configuration: broker registry and partition assignments,
//! with their binary encoding.

use crate::error::DmqError;
use crate::message::be16_all;
use crate::text::{format_host_port, host_port, string_bytes, string_from_utf8};
use std::collections::HashMap;
use crate::wire::{be16, copy_range, get_u16, lemma_be16, put_bytes, put_u16, u16_at};
use vstd::prelude::*;
use vstd::utf8::{decode_utf8, encode_utf8, valid_utf8};

verus! {

pub type BrokerId = u16;

#[derive(Debug, Clone, PartialEq, Eq)]
pub struct BrokerNode {
    pub id: BrokerId,
    pub host: String,
    pub port: u16,
}

#[derive(Debug, Clone, PartialEq, Eq)]
pub struct PartitionAssignment {
    pub topic_id: u16,
    pub partition_id: u16,
    pub leader: BrokerId,
    pub replicas: Vec<BrokerId>,
}

#[derive(Debug, Clone, PartialEq, Eq)]
pub struct ClusterConfig {
    pub min_insync_replicas: u16,
    pub brokers: Vec<BrokerNode>,
    pub assignments: Vec<PartitionAssignment>,
}

pub struct BrokerNodeView {
    pub id: BrokerId,
    pub host: Seq<char>,
    pub port: u16,
}

pub struct PartitionAssignmentView {
    pub topic_id: u16,
    pub partition_id: u16,
    pub leader: BrokerId,
    pub replicas: Seq<BrokerId>,
}

pub struct ClusterConfigView {
    pub min_insync_replicas: u16,
    pub brokers: Seq<BrokerNodeView>,
    pub assignments: Seq<PartitionAssignmentView>,
}

impl View for BrokerNode {
    type V = BrokerNodeView;

    open spec fn view(&self) -> BrokerNodeView {
        BrokerNodeView { id: self.id, host: self.host@, port: self.port }
    }
}

impl View for PartitionAssignment {
    type V = PartitionAssignmentView;

    open spec fn view(&self) -> PartitionAssignmentView {
        PartitionAssignmentView {
            topic_id: self.topic_id,
            partition_id: self.partition_id,
            leader: self.leader,
            replicas: self.replicas@,
        }
    }
}

pub open spec fn brokers_view(bs: Seq<BrokerNode>) -> Seq<BrokerNodeView> {
    bs.map_values(|b: BrokerNode| b@)
}

pub open spec fn assignments_view(xs: Seq<PartitionAssignment>) -> Seq<PartitionAssignmentView> {
    xs.map_values(|a: PartitionAssignment| a@)
}

impl View for ClusterConfig {
    type V = ClusterConfigView;

    open spec fn view(&self) -> ClusterConfigView {
        ClusterConfigView {
            min_insync_replicas: self.min_insync_replicas,
            brokers: brokers_view(self.brokers@),
            assignments: assignments_view(self.assignments@),
        }
    }
}

// ---------------------------------------------------------------------------
// Encoding.

/// A host name on the wire: its UTF-8 length (at most 255) and that many bytes.
pub open spec fn host_field(host: Seq<char>) -> Seq<u8> {
    let b = encode_utf8(host);
    let n = if b.len() < 255 {
        b.len() as int
    } else {
        255
    };
    seq![n as u8] + b.subrange(0, n)
}

pub open spec fn broker_bytes(b: BrokerNodeView) -> Seq<u8> {
    be16(b.id) + host_field(b.host) + be16(b.port)
}

pub open spec fn brokers_bytes(bs: Seq<BrokerNodeView>) -> Seq<u8>
    decreases bs.len(),
{
    if bs.len() == 0 {
        Seq::empty()
    } else {
        brokers_bytes(bs.drop_last()) + broker_bytes(bs.last())
    }
}

pub open spec fn assignment_bytes(a: PartitionAssignmentView) -> Seq<u8> {
    be16(a.topic_id) + be16(a.partition_id) + be16(a.leader) + be16(a.replicas.len() as u16) + be16_all(
        a.replicas,
    )
}

pub open spec fn assignments_bytes(xs: Seq<PartitionAssignmentView>) -> Seq<u8>
    decreases xs.len(),
{
    if xs.len() == 0 {
        Seq::empty()
    } else {
        assignments_bytes(xs.drop_last()) + assignment_bytes(xs.last())
    }
}

impl ClusterConfigView {
    pub open spec fn spec_encode(self) -> Seq<u8> {
        be16(self.min_insync_replicas) + be16(self.brokers.len() as u16) + brokers_bytes(self.brokers) + be16(
            self.assignments.len() as u16,
        ) + assignments_bytes(self.assignments)
    }

    /// Configurations whose counts fit their `u16` slots and whose host names fit
    /// their one-byte length slot.
    pub open spec fn encodable(self) -> bool {
        &&& self.brokers.len() <= u16::MAX
        &&& self.assignments.len() <= u16::MAX
        &&& forall|i: int| 0 <= i < self.brokers.len() ==> #[trigger] encode_utf8(self.brokers[i].host).len() <= 255
        &&& forall|i: int| 0 <= i < self.assignments.len() ==> #[trigger] self.assignments[i].replicas.len() <= u16::MAX
    }
}

/// Appends a host name: its byte length, capped at 255, then that many bytes.
pub fn put_host(out: &mut Vec<u8>, host: &String)
    ensures
        final(out)@ == old(out)@ + host_field(host@),
{
    let bytes = string_bytes(host);
    let n: usize = if bytes.len() < 255 {
        bytes.len()
    } else {
        255
    };
    out.push(n as u8);
    let prefix = copy_range(bytes, 0, n);
    put_bytes(out, prefix.as_slice());
    assert(final(out)@ =~= old(out)@ + host_field(host@));
}

pub fn put_broker(out: &mut Vec<u8>, b: &BrokerNode)
    ensures
        final(out)@ == old(out)@ + broker_bytes(b@),
{
    put_u16(out, b.id);
    put_host(out, &b.host);
    put_u16(out, b.port);
    assert(final(out)@ =~= old(out)@ + broker_bytes(b@));
}

pub fn put_u16s(out: &mut Vec<u8>, vs: &[u16])
    ensures
        final(out)@ == old(out)@ + be16_all(vs@),
{
    let ghost head = out@;
    let mut i: usize = 0;
    while i < vs.len()
        invariant
            i <= vs@.len(),
            out@ == head + be16_all(vs@.subrange(0, i as int)),
        decreases vs@.len() - i,
    {
        put_u16(out, vs[i]);
        assert(vs@.subrange(0, i + 1).drop_last() =~= vs@.subrange(0, i as int));
        i = i + 1;
        assert(out@ =~= head + be16_all(vs@.subrange(0, i as int)));
    }
    assert(vs@.subrange(0, i as int) =~= vs@);
}

pub fn put_assignment_core(out: &mut Vec<u8>, a: &PartitionAssignment)
    ensures
        final(out)@ == old(out)@ + assignment_bytes(a@),
{
    put_u16(out, a.topic_id);
    put_u16(out, a.partition_id);
    put_u16(out, a.leader);
    put_u16(out, a.replicas.len() as u16);
    put_u16s(out, a.replicas.as_slice());
    assert(final(out)@ =~= old(out)@ + assignment_bytes(a@));
}

// ---------------------------------------------------------------------------
// Decoding.

/// The outcome of reading a value starting at some position: the value and the
/// position after it, an error, or a panic of the reader.
pub enum Step<T> {
    Done(T, int),
    Fail(DmqError),
    Panic,
}

/// Reads a broker record at `o`. With `checked`, a host running past the end is a
/// short-buffer error; without it the reader slices past the end and panics.
pub open spec fn parse_broker(p: Seq<u8>, o: int, checked: bool) -> Step<BrokerNodeView> {
    if o + 2 > p.len() {
        Step::Fail(DmqError::ShortBuffer)
    } else if o + 2 >= p.len() {
        Step::Fail(DmqError::ShortBuffer)
    } else {
        let hl = p[o + 2] as int;
        let hs = o + 3;
        if checked && hs + hl + 2 > p.len() {
            Step::Fail(DmqError::ShortBuffer)
        } else if !checked && hs + hl > p.len() {
            Step::Panic
        } else if !valid_utf8(p.subrange(hs, hs + hl)) {
            Step::Fail(DmqError::InvalidUtf8)
        } else if hs + hl + 2 > p.len() {
            Step::Fail(DmqError::ShortBuffer)
        } else {
            Step::Done(
                BrokerNodeView { id: u16_at(p, o), host: decode_utf8(p.subrange(hs, hs + hl)), port: u16_at(p, hs + hl) },
                hs + hl + 2,
            )
        }
    }
}

/// Reads `n` broker records one after the other from `o`.
pub open spec fn parse_brokers(p: Seq<u8>, o: int, n: nat, checked: bool) -> Step<Seq<BrokerNodeView>>
    decreases n,
{
    if n == 0 {
        Step::Done(Seq::empty(), o)
    } else {
        match parse_brokers(p, o, (n - 1) as nat, checked) {
            Step::Done(bs, o1) => match parse_broker(p, o1, checked) {
                Step::Done(b, o2) => Step::Done(bs.push(b), o2),
                Step::Fail(e) => Step::Fail(e),
                Step::Panic => Step::Panic,
            },
            Step::Fail(e) => Step::Fail(e),
            Step::Panic => Step::Panic,
        }
    }
}

/// Reads `n` big-endian `u16` values from `o`.
pub open spec fn parse_u16s(p: Seq<u8>, o: int, n: nat) -> Step<Seq<u16>>
    decreases n,
{
    if n == 0 {
        Step::Done(Seq::empty(), o)
    } else {
        match parse_u16s(p, o, (n - 1) as nat) {
            Step::Done(vs, o1) => if o1 + 2 > p.len() {
                Step::Fail(DmqError::ShortBuffer)
            } else {
                Step::Done(vs.push(u16_at(p, o1)), o1 + 2)
            },
            Step::Fail(e) => Step::Fail(e),
            Step::Panic => Step::Panic,
        }
    }
}

/// Reads an assignment (topic, partition, leader, replica list) at `o`.
pub open spec fn parse_assignment(p: Seq<u8>, o: int) -> Step<PartitionAssignmentView> {
    if o + 8 > p.len() {
        Step::Fail(DmqError::ShortBuffer)
    } else {
        match parse_u16s(p, o + 8, u16_at(p, o + 6) as nat) {
            Step::Done(rs, o1) => Step::Done(
                PartitionAssignmentView {
                    topic_id: u16_at(p, o),
                    partition_id: u16_at(p, o + 2),
                    leader: u16_at(p, o + 4),
                    replicas: rs,
                },
                o1,
            ),
            Step::Fail(e) => Step::Fail(e),
            Step::Panic => Step::Panic,
        }
    }
}

/// Reads `n` assignments one after the other from `o`.
pub open spec fn parse_assignments(p: Seq<u8>, o: int, n: nat) -> Step<Seq<PartitionAssignmentView>>
    decreases n,
{
    if n == 0 {
        Step::Done(Seq::empty(), o)
    } else {
        match parse_assignments(p, o, (n - 1) as nat) {
            Step::Done(xs, o1) => match parse_assignment(p, o1) {
                Step::Done(a, o2) => Step::Done(xs.push(a), o2),
                Step::Fail(e) => Step::Fail(e),
                Step::Panic => Step::Panic,
            },
            Step::Fail(e) => Step::Fail(e),
            Step::Panic => Step::Panic,
        }
    }
}

/// What `ClusterConfig::decode` makes of `p`.
pub open spec fn spec_decode_config(p: Seq<u8>) -> Step<ClusterConfigView> {
    if p.len() < 4 {
        Step::Fail(DmqError::ShortBuffer)
    } else {
        match parse_brokers(p, 4, u16_at(p, 2) as nat, false) {
            Step::Done(bs, o1) => if o1 + 2 > p.len() {
                Step::Fail(DmqError::ShortBuffer)
            } else {
                match parse_assignments(p, o1 + 2, u16_at(p, o1) as nat) {
                    Step::Done(xs, o2) => Step::Done(
                        ClusterConfigView { min_insync_replicas: u16_at(p, 0), brokers: bs, assignments: xs },
                        o2,
                    ),
                    Step::Fail(e) => Step::Fail(e),
                    Step::Panic => Step::Panic,
                }
            },
            Step::Fail(e) => Step::Fail(e),
            Step::Panic => Step::Panic,
        }
    }
}

/// Whether an executable decode result stands for the spec outcome.
pub open spec fn decoded_as<T: View>(r: Result<T, DmqError>, s: Step<T::V>) -> bool {
    match r {
        Ok(v) => s matches Step::Done(x, _) && x == v@,
        Err(e) => s == Step::<T::V>::Fail(e),
    }
}

/// A reader that stopped (with an error or a panic) stays stopped as more records are asked for.
pub proof fn lemma_brokers_stuck(p: Seq<u8>, o: int, i: nat, n: nat, checked: bool)
    requires
        i <= n,
        !(parse_brokers(p, o, i, checked) is Done),
    ensures
        parse_brokers(p, o, n, checked) == parse_brokers(p, o, i, checked),
    decreases n - i,
{
    if i < n {
        lemma_brokers_stuck(p, o, i, (n - 1) as nat, checked);
    }
}

pub proof fn lemma_u16s_stuck(p: Seq<u8>, o: int, i: nat, n: nat)
    requires
        i <= n,
        !(parse_u16s(p, o, i) is Done),
    ensures
        parse_u16s(p, o, n) == parse_u16s(p, o, i),
    decreases n - i,
{
    if i < n {
        lemma_u16s_stuck(p, o, i, (n - 1) as nat);
    }
}

pub proof fn lemma_assignments_stuck(p: Seq<u8>, o: int, i: nat, n: nat)
    requires
        i <= n,
        !(parse_assignments(p, o, i) is Done),
    ensures
        parse_assignments(p, o, n) == parse_assignments(p, o, i),
    decreases n - i,
{
    if i < n {
        lemma_assignments_stuck(p, o, i, (n - 1) as nat);
    }
}

/// Reads a big-endian `u16` at `*offset` and moves past it.
pub fn read_u16(payload: &[u8], offset: &mut usize) -> (r: Result<u16, DmqError>)
    requires
        *old(offset) <= payload@.len(),
    ensures
        match r {
            Ok(v) => *old(offset) + 2 <= payload@.len() && v == u16_at(payload@, *old(offset) as int)
                && *final(offset) == *old(offset) + 2,
            Err(e) => *old(offset) + 2 > payload@.len() && e == DmqError::ShortBuffer && *final(offset)
                == *old(offset),
        },
{
    if payload.len() - *offset < 2 {
        return Err(DmqError::ShortBuffer);
    }
    let v = get_u16(payload, *offset);
    *offset = *offset + 2;
    Ok(v)
}

/// Reads one byte at `*offset` and moves past it.
pub fn read_u8(payload: &[u8], offset: &mut usize) -> (r: Result<u8, DmqError>)
    requires
        *old(offset) <= payload@.len(),
    ensures
        match r {
            Ok(v) => *old(offset) < payload@.len() && v == payload@[*old(offset) as int] && *final(offset)
                == *old(offset) + 1,
            Err(e) => *old(offset) >= payload@.len() && e == DmqError::ShortBuffer && *final(offset)
                == *old(offset),
        },
{
    if *offset >= payload.len() {
        return Err(DmqError::ShortBuffer);
    }
    let v = payload[*offset];
    *offset = *offset + 1;
    Ok(v)
}

/// Reads one broker record at `*offset` (see `parse_broker`).
pub fn read_broker(payload: &[u8], offset: &mut usize, checked: bool) -> (r: Result<BrokerNode, DmqError>)
    requires
        *old(offset) <= payload@.len(),
        !(parse_broker(payload@, *old(offset) as int, checked) is Panic),
    ensures
        match r {
            Ok(b) => parse_broker(payload@, *old(offset) as int, checked) == Step::Done(b@, *final(offset) as int),
            Err(e) => parse_broker(payload@, *old(offset) as int, checked) == Step::<BrokerNodeView>::Fail(e),
        },
        *final(offset) <= payload@.len(),
{
    let ghost o0 = *offset as int;
    let id = read_u16(payload, offset)?;
    let host_len = read_u8(payload, offset)? as usize;
    assert(*offset == o0 + 3 && host_len == payload@[o0 + 2]);
    if checked && (payload.len() - *offset < host_len || payload.len() - *offset - host_len < 2) {
        return Err(DmqError::ShortBuffer);
    }
    assert(payload.len() - *offset >= host_len);
    let host_bytes = copy_range(payload, *offset, *offset + host_len);
    let host = match string_from_utf8(host_bytes) {
        Some(h) => h,
        None => {
            return Err(DmqError::InvalidUtf8);
        },
    };
    *offset = *offset + host_len;
    let port = read_u16(payload, offset)?;
    Ok(BrokerNode { id, host, port })
}

/// Reads `count` big-endian `u16` values at `*offset`.
pub fn read_u16s(payload: &[u8], offset: &mut usize, count: usize) -> (r: Result<Vec<u16>, DmqError>)
    requires
        *old(offset) <= payload@.len(),
    ensures
        match r {
            Ok(vs) => parse_u16s(payload@, *old(offset) as int, count as nat) == Step::Done(vs@, *final(offset) as int),
            Err(e) => parse_u16s(payload@, *old(offset) as int, count as nat) == Step::<Seq<u16>>::Fail(e),
        },
        *final(offset) <= payload@.len(),
{
    let ghost o0 = *offset as int;
    let mut vs: Vec<u16> = Vec::new();
    let mut i: usize = 0;
    assert(vs@ =~= Seq::<u16>::empty());
    while i < count
        invariant
            i <= count,
            o0 == *old(offset) as int,
            *offset <= payload@.len(),
            parse_u16s(payload@, o0, i as nat) == Step::Done(vs@, *offset as int),
        decreases count - i,
    {
        let v = match read_u16(payload, offset) {
            Ok(v) => v,
            Err(e) => {
                proof {
                    assert(parse_u16s(payload@, o0, (i + 1) as nat) == Step::<Seq<u16>>::Fail(e));
                    lemma_u16s_stuck(payload@, o0, (i + 1) as nat, count as nat);
                }
                return Err(e);
            },
        };
        vs.push(v);
        i = i + 1;
    }
    Ok(vs)
}

/// Reads one assignment at `*offset` (see `parse_assignment`).
pub fn read_assignment(payload: &[u8], offset: &mut usize) -> (r: Result<PartitionAssignment, DmqError>)
    requires
        *old(offset) <= payload@.len(),
    ensures
        match r {
            Ok(a) => parse_assignment(payload@, *old(offset) as int) == Step::Done(a@, *final(offset) as int),
            Err(e) => parse_assignment(payload@, *old(offset) as int) == Step::<PartitionAssignmentView>::Fail(e),
        },
        *final(offset) <= payload@.len(),
{
    if payload.len() - *offset < 8 {
        return Err(DmqError::ShortBuffer);
    }
    let topic_id = read_u16(payload, offset)?;
    let partition_id = read_u16(payload, offset)?;
    let leader = read_u16(payload, offset)?;
    let replica_count = read_u16(payload, offset)? as usize;
    let replicas = read_u16s(payload, offset, replica_count)?;
    Ok(PartitionAssignment { topic_id, partition_id, leader, replicas })
}

impl ClusterConfig {
    pub fn encode(&self) -> (out: Vec<u8>)
        ensures
            out@ == self@.spec_encode(),
    {
        let mut out: Vec<u8> = Vec::new();
        put_u16(&mut out, self.min_insync_replicas);
        put_u16(&mut out, self.brokers.len() as u16);
        let ghost head = out@;
        let mut i: usize = 0;
        while i < self.brokers.len()
            invariant
                i <= self.brokers@.len(),
                out@ == head + brokers_bytes(brokers_view(self.brokers@.subrange(0, i as int))),
            decreases self.brokers@.len() - i,
        {
            put_broker(&mut out, &self.brokers[i]);
            assert(brokers_view(self.brokers@.subrange(0, i + 1)).drop_last() =~= brokers_view(
                self.brokers@.subrange(0, i as int),
            ));
            i = i + 1;
            assert(out@ =~= head + brokers_bytes(brokers_view(self.brokers@.subrange(0, i as int))));
        }
        assert(self.brokers@.subrange(0, i as int) =~= self.brokers@);
        put_u16(&mut out, self.assignments.len() as u16);
        let ghost head2 = out@;
        let mut j: usize = 0;
        while j < self.assignments.len()
            invariant
                j <= self.assignments@.len(),
                out@ == head2 + assignments_bytes(assignments_view(self.assignments@.subrange(0, j as int))),
            decreases self.assignments@.len() - j,
        {
            put_assignment_core(&mut out, &self.assignments[j]);
            assert(assignments_view(self.assignments@.subrange(0, j + 1)).drop_last() =~= assignments_view(
                self.assignments@.subrange(0, j as int),
            ));
            j = j + 1;
            assert(out@ =~= head2 + assignments_bytes(
                assignments_view(self.assignments@.subrange(0, j as int)),
            ));
        }
        assert(self.assignments@.subrange(0, j as int) =~= self.assignments@);
        assert(out@ =~= self@.spec_encode());
        out
    }

    /// Decodes a configuration. A host name that runs past the end of `payload`
    /// makes the reader slice out of bounds, so such input is excluded.
    pub fn decode(payload: &[u8]) -> (r: Result<ClusterConfig, DmqError>)
        requires
            !(spec_decode_config(payload@) is Panic),
        ensures
            decoded_as(r, spec_decode_config(payload@)),
    {
        let ghost p = payload@;
        let mut offset: usize = 0;
        let min_isr = read_u16(payload, &mut offset)?;
        let broker_count = read_u16(payload, &mut offset)? as usize;
        let mut brokers: Vec<BrokerNode> = Vec::new();
        let mut i: usize = 0;
        assert(brokers_view(brokers@) =~= Seq::<BrokerNodeView>::empty());
        while i < broker_count
            invariant
                p == payload@,
                p.len() >= 4,
                broker_count == u16_at(p, 2),
                i <= broker_count,
                offset <= p.len(),
                parse_brokers(p, 4, i as nat, false) == Step::Done(brokers_view(brokers@), offset as int),
                !(spec_decode_config(p) is Panic),
            decreases broker_count - i,
        {
            let ghost before = brokers@;
            proof {
                if parse_broker(p, offset as int, false) is Panic {
                    lemma_brokers_stuck(p, 4, (i + 1) as nat, broker_count as nat, false);
                }
            }
            let b = match read_broker(payload, &mut offset, false) {
                Ok(b) => b,
                Err(e) => {
                    proof {
                        assert(parse_brokers(p, 4, (i + 1) as nat, false) == Step::<Seq<BrokerNodeView>>::Fail(e));
                        lemma_brokers_stuck(p, 4, (i + 1) as nat, broker_count as nat, false);
                    }
                    return Err(e);
                },
            };
            brokers.push(b);
            assert(brokers_view(brokers@) =~= brokers_view(before).push(b@));
            i = i + 1;
        }
        let assignment_count = read_u16(payload, &mut offset)? as usize;
        let ghost o1 = offset as int;
        let mut assignments: Vec<PartitionAssignment> = Vec::new();
        let mut j: usize = 0;
        assert(assignments_view(assignments@) =~= Seq::<PartitionAssignmentView>::empty());
        while j < assignment_count
            invariant
                p == payload@,
                p.len() >= 4,
                2 <= o1 <= p.len(),
                parse_brokers(p, 4, u16_at(p, 2) as nat, false) == Step::Done(brokers_view(brokers@), o1 - 2),
                assignment_count == u16_at(p, o1 - 2),
                j <= assignment_count,
                offset <= p.len(),
                parse_assignments(p, o1, j as nat) == Step::Done(assignments_view(assignments@), offset as int),
            decreases assignment_count - j,
        {
            let ghost before = assignments@;
            let a = match read_assignment(payload, &mut offset) {
                Ok(a) => a,
                Err(e) => {
                    proof {
                        assert(parse_assignments(p, o1, (j + 1) as nat) == Step::<Seq<PartitionAssignmentView>>::Fail(e));
                        lemma_assignments_stuck(p, o1, (j + 1) as nat, assignment_count as nat);
                    }
                    return Err(e);
                },
            };
            assignments.push(a);
            assert(assignments_view(assignments@) =~= assignments_view(before).push(a@));
            j = j + 1;
        }
        Ok(ClusterConfig { min_insync_replicas: min_isr, brokers, assignments })
    }
}


// ---------------------------------------------------------------------------
// Decoding an encoding gives the configuration back.

/// Splitting a window of `p` that holds `a + b` into its two parts.
pub proof fn lemma_window_split(p: Seq<u8>, o: int, a: Seq<u8>, b: Seq<u8>)
    requires
        0 <= o,
        o + a.len() + b.len() <= p.len(),
        p.subrange(o, o + a.len() + b.len()) == a + b,
    ensures
        p.subrange(o, o + a.len()) == a,
        p.subrange(o + a.len(), o + a.len() + b.len()) == b,
{
    assert(p.subrange(o, o + a.len()) =~= (a + b).subrange(0, a.len() as int));
    assert(p.subrange(o + a.len(), o + a.len() + b.len()) =~= (a + b).subrange(a.len() as int, (a.len() + b.len()) as int));
}

pub proof fn lemma_be16_all_len(vs: Seq<u16>)
    ensures
        be16_all(vs).len() == 2 * vs.len(),
    decreases vs.len(),
{
    if vs.len() > 0 {
        lemma_be16_all_len(vs.drop_last());
    }
}

proof fn lemma_parse_broker(p: Seq<u8>, o: int, b: BrokerNodeView, checked: bool)
    requires
        0 <= o,
        o + broker_bytes(b).len() <= p.len(),
        p.subrange(o, o + broker_bytes(b).len()) == broker_bytes(b),
        encode_utf8(b.host).len() <= 255,
    ensures
        parse_broker(p, o, checked) == Step::Done(b, o + broker_bytes(b).len()),
{
    let e = broker_bytes(b);
    let hb = encode_utf8(b.host);
    let hl = hb.len() as int;
    assert(hb.subrange(0, hl) =~= hb);
    assert forall|i: int| 0 <= i < e.len() implies p[o + i] == e[i] by {
        assert(p.subrange(o, o + e.len())[i] == p[o + i]);
    }
    lemma_be16(b.id);
    lemma_be16(b.port);
    let hf = host_field(b.host);
    assert(hf =~= seq![hl as u8] + hb);
    assert(e == be16(b.id) + hf + be16(b.port));
    assert(e[2] == hf[0]);
    assert(p[o + 2] == hl as u8);
    assert forall|i: int| 0 <= i < hl implies p.subrange(o + 3, o + 3 + hl)[i] == hb[i] by {
        assert(e[3 + i] == hf[1 + i]);
        assert(p[o + 3 + i] == e[3 + i]);
    }
    assert(p.subrange(o + 3, o + 3 + hl) =~= hb);
    vstd::utf8::encode_utf8_valid_utf8(b.host);
    vstd::utf8::encode_utf8_decode_utf8(b.host);
    assert(p[o] == e[0] && p[o + 1] == e[1]);
    assert(e[0] == be16(b.id)[0] && e[1] == be16(b.id)[1]);
    assert(u16_at(p, o) == b.id);
    assert(p[o + 3 + hl] == e[3 + hl] && p[o + 4 + hl] == e[4 + hl]);
    assert(e[3 + hl] == be16(b.port)[0] && e[4 + hl] == be16(b.port)[1]);
    assert(u16_at(p, o + 3 + hl) == b.port);
}

pub proof fn lemma_parse_brokers(p: Seq<u8>, o: int, bs: Seq<BrokerNodeView>, checked: bool)
    requires
        0 <= o,
        o + brokers_bytes(bs).len() <= p.len(),
        p.subrange(o, o + brokers_bytes(bs).len()) == brokers_bytes(bs),
        forall|i: int| 0 <= i < bs.len() ==> #[trigger] encode_utf8(bs[i].host).len() <= 255,
    ensures
        parse_brokers(p, o, bs.len(), checked) == Step::Done(bs, o + brokers_bytes(bs).len()),
    decreases bs.len(),
{
    if bs.len() > 0 {
        let init = bs.drop_last();
        let last = bs.last();
        lemma_window_split(p, o, brokers_bytes(init), broker_bytes(last));
        assert forall|i: int| 0 <= i < init.len() implies #[trigger] encode_utf8(init[i].host).len() <= 255 by {
            assert(init[i] == bs[i]);
        }
        lemma_parse_brokers(p, o, init, checked);
        assert(encode_utf8(bs[bs.len() - 1].host).len() <= 255);
        lemma_parse_broker(p, o + brokers_bytes(init).len(), last, checked);
        assert(init.push(last) =~= bs);
    } else {
        assert(bs =~= Seq::<BrokerNodeView>::empty());
    }
}

proof fn lemma_parse_u16s(p: Seq<u8>, o: int, vs: Seq<u16>)
    requires
        0 <= o,
        o + be16_all(vs).len() <= p.len(),
        p.subrange(o, o + be16_all(vs).len()) == be16_all(vs),
    ensures
        parse_u16s(p, o, vs.len()) == Step::Done(vs, o + be16_all(vs).len()),
    decreases vs.len(),
{
    if vs.len() > 0 {
        let init = vs.drop_last();
        let last = vs.last();
        lemma_window_split(p, o, be16_all(init), be16(last));
        lemma_parse_u16s(p, o, init);
        let o1 = o + be16_all(init).len();
        assert(p.subrange(o1, o1 + 2)[0] == p[o1]);
        assert(p.subrange(o1, o1 + 2)[1] == p[o1 + 1]);
        lemma_be16(last);
        assert(init.push(last) =~= vs);
    } else {
        assert(vs =~= Seq::<u16>::empty());
    }
}

pub proof fn lemma_parse_assignment(p: Seq<u8>, o: int, a: PartitionAssignmentView)
    requires
        0 <= o,
        o + assignment_bytes(a).len() <= p.len(),
        p.subrange(o, o + assignment_bytes(a).len()) == assignment_bytes(a),
        a.replicas.len() <= u16::MAX,
    ensures
        parse_assignment(p, o) == Step::Done(a, o + assignment_bytes(a).len()),
{
    let head = be16(a.topic_id) + be16(a.partition_id) + be16(a.leader) + be16(a.replicas.len() as u16);
    assert(assignment_bytes(a) == head + be16_all(a.replicas));
    assert(head.len() == 8);
    lemma_window_split(p, o, head, be16_all(a.replicas));
    assert forall|i: int| 0 <= i < 8 implies p[o + i] == head[i] by {
        assert(p.subrange(o, o + 8)[i] == p[o + i]);
    }
    lemma_be16(a.topic_id);
    lemma_be16(a.partition_id);
    lemma_be16(a.leader);
    lemma_be16(a.replicas.len() as u16);
    assert(p[o] == head[0] && p[o + 1] == head[1] && p[o + 2] == head[2] && p[o + 3] == head[3]);
    assert(p[o + 4] == head[4] && p[o + 5] == head[5] && p[o + 6] == head[6] && p[o + 7] == head[7]);
    assert(u16_at(p, o + 6) == a.replicas.len() as u16);
    assert(u16_at(p, o + 6) as nat == a.replicas.len());
    lemma_parse_u16s(p, o + 8, a.replicas);
    assert(u16_at(p, o) == a.topic_id);
    assert(u16_at(p, o + 2) == a.partition_id);
    assert(u16_at(p, o + 4) == a.leader);
}

proof fn lemma_parse_assignments(p: Seq<u8>, o: int, xs: Seq<PartitionAssignmentView>)
    requires
        0 <= o,
        o + assignments_bytes(xs).len() <= p.len(),
        p.subrange(o, o + assignments_bytes(xs).len()) == assignments_bytes(xs),
        forall|i: int| 0 <= i < xs.len() ==> #[trigger] xs[i].replicas.len() <= u16::MAX,
    ensures
        parse_assignments(p, o, xs.len()) == Step::Done(xs, o + assignments_bytes(xs).len()),
    decreases xs.len(),
{
    if xs.len() > 0 {
        let init = xs.drop_last();
        let last = xs.last();
        lemma_window_split(p, o, assignments_bytes(init), assignment_bytes(last));
        assert forall|i: int| 0 <= i < init.len() implies #[trigger] init[i].replicas.len() <= u16::MAX by {
            assert(init[i] == xs[i]);
        }
        lemma_parse_assignments(p, o, init);
        assert(xs[xs.len() - 1].replicas.len() <= u16::MAX);
        lemma_parse_assignment(p, o + assignments_bytes(init).len(), last);
        assert(init.push(last) =~= xs);
    } else {
        assert(xs =~= Seq::<PartitionAssignmentView>::empty());
    }
}

/// A configuration whose counts and host names fit their wire slots is decoded
/// from its encoding unchanged, consuming all of it.
pub proof fn lemma_config_roundtrip(c: ClusterConfigView)
    requires
        c.encodable(),
    ensures
        spec_decode_config(c.spec_encode()) == Step::Done(c, c.spec_encode().len() as int),
{
    let p = c.spec_encode();
    let bb = brokers_bytes(c.brokers);
    let ab = assignments_bytes(c.assignments);
    let h = be16(c.min_insync_replicas) + be16(c.brokers.len() as u16);
    assert(p == h + bb + be16(c.assignments.len() as u16) + ab);
    lemma_be16(c.min_insync_replicas);
    lemma_be16(c.brokers.len() as u16);
    assert(p.subrange(4, 4 + bb.len() as int) =~= bb);
    lemma_parse_brokers(p, 4, c.brokers, false);
    let o1: int = 4 + bb.len() as int;
    assert(p[o1] == be16(c.assignments.len() as u16)[0]);
    assert(p[o1 + 1] == be16(c.assignments.len() as u16)[1]);
    lemma_be16(c.assignments.len() as u16);
    assert(p.subrange(o1 + 2, o1 + 2 + ab.len() as int) =~= ab);
    lemma_parse_assignments(p, o1 + 2, c.assignments);
}


// ---------------------------------------------------------------------------
// Lookups.

/// The first broker registered under `id`.
pub open spec fn broker_lookup(bs: Seq<BrokerNodeView>, id: BrokerId) -> Option<BrokerNodeView>
    decreases bs.len(),
{
    if bs.len() == 0 {
        None
    } else if bs[0].id == id {
        Some(bs[0])
    } else {
        broker_lookup(bs.drop_first(), id)
    }
}

/// The first assignment for the partition `(topic_id, partition_id)`.
pub open spec fn assignment_lookup(xs: Seq<PartitionAssignmentView>, topic_id: u16, partition_id: u16) -> Option<
    PartitionAssignmentView,
>
    decreases xs.len(),
{
    if xs.len() == 0 {
        None
    } else if xs[0].topic_id == topic_id && xs[0].partition_id == partition_id {
        Some(xs[0])
    } else {
        assignment_lookup(xs.drop_first(), topic_id, partition_id)
    }
}

/// The first assignment listed for a partition answers for it: its leader and
/// replicas are the partition's, and assignments of other partitions never are.
pub proof fn lemma_first_assignment_answers(c: ClusterConfigView, i: int, topic_id: u16, partition_id: u16)
    requires
        0 <= i < c.assignments.len(),
        c.assignments[i].topic_id == topic_id,
        c.assignments[i].partition_id == partition_id,
        forall|j: int| 0 <= j < i ==> !(#[trigger] c.assignments[j].topic_id == topic_id && c.assignments[j].partition_id == partition_id),
    ensures
        c.leader_for(topic_id, partition_id) == Some(c.assignments[i].leader),
        c.replicas_for(topic_id, partition_id) == c.assignments[i].replicas,
{
    lemma_lookup_first(c.assignments, i, topic_id, partition_id);
}

/// A partition that no assignment lists has no leader and no replicas.
pub proof fn lemma_unassigned_partition(c: ClusterConfigView, topic_id: u16, partition_id: u16)
    requires
        forall|j: int| 0 <= j < c.assignments.len() ==> !(#[trigger] c.assignments[j].topic_id == topic_id && c.assignments[j].partition_id == partition_id),
    ensures
        c.leader_for(topic_id, partition_id) is None,
        c.replicas_for(topic_id, partition_id) == Seq::<BrokerId>::empty(),
{
    lemma_lookup_none(c.assignments, topic_id, partition_id);
}

proof fn lemma_lookup_first(xs: Seq<PartitionAssignmentView>, i: int, topic_id: u16, partition_id: u16)
    requires
        0 <= i < xs.len(),
        xs[i].topic_id == topic_id,
        xs[i].partition_id == partition_id,
        forall|j: int| 0 <= j < i ==> !(#[trigger] xs[j].topic_id == topic_id && xs[j].partition_id == partition_id),
    ensures
        assignment_lookup(xs, topic_id, partition_id) == Some(xs[i]),
    decreases xs.len(),
{
    if i > 0 {
        assert(!(xs[0].topic_id == topic_id && xs[0].partition_id == partition_id));
        let rest = xs.drop_first();
        assert forall|j: int| 0 <= j < i - 1 implies !(#[trigger] rest[j].topic_id == topic_id && rest[j].partition_id == partition_id) by {
            assert(rest[j] == xs[j + 1]);
        }
        lemma_lookup_first(rest, i - 1, topic_id, partition_id);
    }
}

proof fn lemma_lookup_none(xs: Seq<PartitionAssignmentView>, topic_id: u16, partition_id: u16)
    requires
        forall|j: int| 0 <= j < xs.len() ==> !(#[trigger] xs[j].topic_id == topic_id && xs[j].partition_id == partition_id),
    ensures
        assignment_lookup(xs, topic_id, partition_id) is None,
    decreases xs.len(),
{
    if xs.len() > 0 {
        assert(!(xs[0].topic_id == topic_id && xs[0].partition_id == partition_id));
        let rest = xs.drop_first();
        assert forall|j: int| 0 <= j < rest.len() implies !(#[trigger] rest[j].topic_id == topic_id && rest[j].partition_id == partition_id) by {
            assert(rest[j] == xs[j + 1]);
        }
        lemma_lookup_none(rest, topic_id, partition_id);
    }
}

/// Brokers by id; where ids repeat, the last broker listed wins.
pub open spec fn broker_index_map(bs: Seq<BrokerNodeView>) -> Map<BrokerId, BrokerNodeView>
    decreases bs.len(),
{
    if bs.len() == 0 {
        Map::empty()
    } else {
        broker_index_map(bs.drop_last()).insert(bs.last().id, bs.last())
    }
}

impl ClusterConfigView {
    pub open spec fn leader_for(self, topic_id: u16, partition_id: u16) -> Option<BrokerId> {
        match assignment_lookup(self.assignments, topic_id, partition_id) {
            Some(a) => Some(a.leader),
            None => None,
        }
    }

    pub open spec fn replicas_for(self, topic_id: u16, partition_id: u16) -> Seq<BrokerId> {
        match assignment_lookup(self.assignments, topic_id, partition_id) {
            Some(a) => a.replicas,
            None => Seq::empty(),
        }
    }

    pub open spec fn broker_addr(self, id: BrokerId) -> Option<Seq<char>> {
        match broker_lookup(self.brokers, id) {
            Some(b) => Some(host_port(b.host, b.port)),
            None => None,
        }
    }

    pub open spec fn leader_addr(self, topic_id: u16, partition_id: u16) -> Option<Seq<char>> {
        match self.leader_for(topic_id, partition_id) {
            Some(l) => self.broker_addr(l),
            None => None,
        }
    }
}

/// A copy of a list of broker ids.
pub fn copy_ids(vs: &[u16]) -> (r: Vec<u16>)
    ensures
        r@ == vs@,
{
    let mut r: Vec<u16> = Vec::new();
    let mut i: usize = 0;
    while i < vs.len()
        invariant
            i <= vs@.len(),
            r@ == vs@.subrange(0, i as int),
        decreases vs@.len() - i,
    {
        r.push(vs[i]);
        i = i + 1;
        assert(r@ =~= vs@.subrange(0, i as int));
    }
    assert(r@ =~= vs@);
    r
}

/// Whether `id` occurs in `vs`.
pub fn contains_id(vs: &[u16], id: u16) -> (r: bool)
    ensures
        r == vs@.contains(id),
{
    let mut i: usize = 0;
    while i < vs.len()
        invariant
            i <= vs@.len(),
            forall|j: int| 0 <= j < i ==> vs@[j] != id,
        decreases vs@.len() - i,
    {
        if vs[i] == id {
            assert(vs@[i as int] == id);
            return true;
        }
        i = i + 1;
    }
    false
}

impl ClusterConfig {
    pub fn broker(&self, id: BrokerId) -> (r: Option<&BrokerNode>)
        ensures
            match r {
                Some(b) => broker_lookup(self@.brokers, id) == Some(b@),
                None => broker_lookup(self@.brokers, id) is None,
            },
    {
        let ghost all = self@.brokers;
        let mut i: usize = 0;
        assert(all.subrange(0, all.len() as int) =~= all);
        while i < self.brokers.len()
            invariant
                i <= self.brokers@.len(),
                all == brokers_view(self.brokers@),
                broker_lookup(all, id) == broker_lookup(all.subrange(i as int, all.len() as int), id),
            decreases self.brokers@.len() - i,
        {
            let ghost rest = all.subrange(i as int, all.len() as int);
            if self.brokers[i].id == id {
                assert(rest[0] == self.brokers@[i as int]@);
                return Some(&self.brokers[i]);
            }
            assert(rest.drop_first() =~= all.subrange(i + 1, all.len() as int));
            i = i + 1;
        }
        None
    }

    pub fn broker_addr(&self, id: BrokerId) -> (r: Option<String>)
        ensures
            match r {
                Some(s) => self@.broker_addr(id) == Some(s@),
                None => self@.broker_addr(id) is None,
            },
    {
        match self.broker(id) {
            Some(b) => Some(format_host_port(&b.host, b.port)),
            None => None,
        }
    }

    pub fn assignment(&self, topic_id: u16, partition_id: u16) -> (r: Option<&PartitionAssignment>)
        ensures
            match r {
                Some(a) => assignment_lookup(self@.assignments, topic_id, partition_id) == Some(a@),
                None => assignment_lookup(self@.assignments, topic_id, partition_id) is None,
            },
    {
        let ghost all = self@.assignments;
        let mut i: usize = 0;
        assert(all.subrange(0, all.len() as int) =~= all);
        while i < self.assignments.len()
            invariant
                i <= self.assignments@.len(),
                all == assignments_view(self.assignments@),
                assignment_lookup(all, topic_id, partition_id) == assignment_lookup(
                    all.subrange(i as int, all.len() as int),
                    topic_id,
                    partition_id,
                ),
            decreases self.assignments@.len() - i,
        {
            let ghost rest = all.subrange(i as int, all.len() as int);
            let a = &self.assignments[i];
            if a.topic_id == topic_id && a.partition_id == partition_id {
                assert(rest[0] == self.assignments@[i as int]@);
                return Some(a);
            }
            assert(rest.drop_first() =~= all.subrange(i + 1, all.len() as int));
            i = i + 1;
        }
        None
    }

    pub fn leader_for(&self, topic_id: u16, partition_id: u16) -> (r: Option<BrokerId>)
        ensures
            r == self@.leader_for(topic_id, partition_id),
    {
        match self.assignment(topic_id, partition_id) {
            Some(a) => Some(a.leader),
            None => None,
        }
    }

    pub fn replicas_for(&self, topic_id: u16, partition_id: u16) -> (r: Vec<BrokerId>)
        ensures
            r@ == self@.replicas_for(topic_id, partition_id),
    {
        match self.assignment(topic_id, partition_id) {
            Some(a) => copy_ids(a.replicas.as_slice()),
            None => Vec::new(),
        }
    }

    pub fn is_leader(&self, broker_id: BrokerId, topic_id: u16, partition_id: u16) -> (r: bool)
        ensures
            r == (self@.leader_for(topic_id, partition_id) == Some(broker_id)),
    {
        match self.leader_for(topic_id, partition_id) {
            Some(l) => l == broker_id,
            None => false,
        }
    }

    pub fn is_replica(&self, broker_id: BrokerId, topic_id: u16, partition_id: u16) -> (r: bool)
        ensures
            r == self@.replicas_for(topic_id, partition_id).contains(broker_id),
    {
        let replicas = self.replicas_for(topic_id, partition_id);
        contains_id(replicas.as_slice(), broker_id)
    }

    pub fn leader_addr(&self, topic_id: u16, partition_id: u16) -> (r: Option<String>)
        ensures
            match r {
                Some(s) => self@.leader_addr(topic_id, partition_id) == Some(s@),
                None => self@.leader_addr(topic_id, partition_id) is None,
            },
    {
        let leader = self.leader_for(topic_id, partition_id)?;
        self.broker_addr(leader)
    }

    /// The address to reach the leader of a partition: from the loaded cluster
    /// configuration when it names one, else `127.0.0.1` on `default_port`.
    pub fn resolve_leader_addr(loaded: Option<&ClusterConfig>, topic_id: u16, partition_id: u16, default_port: u16) -> (r: String)
        ensures
            r@ == match loaded {
                Some(c) => match c@.leader_addr(topic_id, partition_id) {
                    Some(a) => a,
                    None => host_port("127.0.0.1"@, default_port),
                },
                None => host_port("127.0.0.1"@, default_port),
            },
    {
        if let Some(cfg) = loaded {
            if let Some(addr) = cfg.leader_addr(topic_id, partition_id) {
                return addr;
            }
        }
        let host = "127.0.0.1".to_string();
        format_host_port(&host, default_port)
    }

    /// The address of a broker: from the loaded cluster configuration when it
    /// lists the broker, else `127.0.0.1` on `default_port`.
    pub fn resolve_broker_addr(loaded: Option<&ClusterConfig>, id: BrokerId, default_port: u16) -> (r: String)
        ensures
            r@ == match loaded {
                Some(c) => match c@.broker_addr(id) {
                    Some(a) => a,
                    None => host_port("127.0.0.1"@, default_port),
                },
                None => host_port("127.0.0.1"@, default_port),
            },
    {
        if let Some(cfg) = loaded {
            if let Some(addr) = cfg.broker_addr(id) {
                return addr;
            }
        }
        let host = "127.0.0.1".to_string();
        format_host_port(&host, default_port)
    }

    /// Brokers by id; where ids repeat, the last one listed wins.
    pub fn broker_index(&self) -> (r: HashMap<BrokerId, BrokerNode>)
        ensures
            r@.dom() == broker_index_map(self@.brokers).dom(),
            forall|id: BrokerId| #[trigger] r@.contains_key(id) ==> r@[id]@ == broker_index_map(self@.brokers)[id],
    {
        broadcast use vstd::std_specs::hash::group_hash_axioms;

        let ghost all = self@.brokers;
        let mut m: HashMap<BrokerId, BrokerNode> = HashMap::new();
        let mut i: usize = 0;
        while i < self.brokers.len()
            invariant
                i <= self.brokers@.len(),
                all == brokers_view(self.brokers@),
                m@.dom() == broker_index_map(all.subrange(0, i as int)).dom(),
                forall|id: BrokerId| #[trigger] m@.contains_key(id) ==> m@[id]@ == broker_index_map(
                    all.subrange(0, i as int),
                )[id],
            decreases self.brokers@.len() - i,
        {
            let b = &self.brokers[i];
            let copy = BrokerNode { id: b.id, host: b.host.clone(), port: b.port };
            m.insert(b.id, copy);
            assert(all.subrange(0, i + 1).drop_last() =~= all.subrange(0, i as int));
            assert(all.subrange(0, i + 1).last() == b@);
            i = i + 1;
            assert(m@.dom() =~= broker_index_map(all.subrange(0, i as int)).dom());
        }
        assert(all.subrange(0, i as int) =~= all);
        m
    }
}

} // verus!

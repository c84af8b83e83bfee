//! Idempotent producer state: retries are deduplicated by producer and sequence.

use crate::error::DmqError;
use std::collections::HashMap;
use vstd::prelude::*;

verus! {

broadcast use vstd::std_specs::hash::group_hash_axioms;

pub type ProducerId = u64;

pub type Sequence = u64;

#[derive(Debug, Clone, Copy, PartialEq, Eq)]
pub enum IdempotencyAction {
    /// The sequence was already appended, at this offset.
    ReturnOffset(u64),
    /// The sequence is the next one: append it.
    Append,
}

/// The last sequence accepted from each producer on each partition, and the
/// offset it was appended at. Entries are keyed by `entry_key`.
#[derive(Debug, Clone)]
pub struct IdempotencyState {
    pub entries: HashMap<u128, (Sequence, u64)>,
}

/// The key of a producer's entry on a partition: topic, partition and producer
/// packed into one number.
pub open spec fn spec_entry_key(topic_id: u16, partition_id: u16, producer_id: ProducerId) -> u128 {
    ((topic_id as u128) * 0x1_0000_0000_0000_0000_0000u128 + (partition_id as u128) * 0x1_0000_0000_0000_0000u128
        + producer_id as u128) as u128
}

/// Distinct (topic, partition, producer) triples have distinct keys.
pub proof fn lemma_entry_key_injective(t1: u16, p1: u16, q1: u64, t2: u16, p2: u16, q2: u64)
    ensures
        spec_entry_key(t1, p1, q1) == spec_entry_key(t2, p2, q2) ==> t1 == t2 && p1 == p2 && q1 == q2,
{
    let k1 = spec_entry_key(t1, p1, q1) as int;
    let k2 = spec_entry_key(t2, p2, q2) as int;
    let a: int = 0x1_0000_0000_0000_0000_0000;
    let b: int = 0x1_0000_0000_0000_0000;
    if k1 == k2 {
        assert(t1 == t2 && p1 == p2 && q1 == q2) by (nonlinear_arith)
            requires
                k1 == t1 * a + p1 * b + q1,
                k2 == t2 * a + p2 * b + q2,
                k1 == k2,
                a == 0x1_0000_0000_0000_0000_0000,
                b == 0x1_0000_0000_0000_0000,
                0 <= q1 < b,
                0 <= q2 < b,
                0 <= p1 < 0x10000,
                0 <= p2 < 0x10000,
                0 <= t1,
                0 <= t2,
        ;
    }
}

#[verifier::when_used_as_spec(spec_entry_key)]
pub fn entry_key(topic_id: u16, partition_id: u16, producer_id: ProducerId) -> (k: u128)
    ensures
        k == spec_entry_key(topic_id, partition_id, producer_id),
{
    (topic_id as u128) * 0x1_0000_0000_0000_0000_0000u128 + (partition_id as u128) * 0x1_0000_0000_0000_0000u128
        + producer_id as u128
}

/// What an idempotent produce of `sequence` is answered, given the producer's
/// last accepted entry: a repeat returns the recorded offset, the next sequence
/// (or 0 for a new producer) is appended, anything else is refused.
pub open spec fn spec_resolve(last: Option<(Sequence, u64)>, sequence: Sequence) -> Result<IdempotencyAction, DmqError> {
    match last {
        Some((last_seq, last_offset)) => if sequence == last_seq {
            Ok(IdempotencyAction::ReturnOffset(last_offset))
        } else if sequence < last_seq {
            Err(DmqError::SequenceBehind { sequence, last: last_seq })
        } else if sequence > last_seq + 1 {
            Err(DmqError::SequenceGap { expected: (last_seq + 1) as u64, got: sequence })
        } else {
            Ok(IdempotencyAction::Append)
        },
        None => if sequence != 0 {
            Err(DmqError::FirstSequenceNotZero)
        } else {
            Ok(IdempotencyAction::Append)
        },
    }
}

impl IdempotencyState {
    pub fn new() -> (s: IdempotencyState)
        ensures
            s.entries@ == Map::<u128, (Sequence, u64)>::empty(),
    {
        IdempotencyState { entries: HashMap::new() }
    }

    /// The producer's last accepted entry on a partition.
    pub open spec fn last_entry(&self, topic_id: u16, partition_id: u16, producer_id: ProducerId) -> Option<(Sequence, u64)> {
        self.entries@.get(spec_entry_key(topic_id, partition_id, producer_id))
    }

    /// Decides what to do with an idempotent produce (see `spec_resolve`).
    pub fn resolve(&self, topic_id: u16, partition_id: u16, producer_id: ProducerId, sequence: Sequence) -> (r: Result<
        IdempotencyAction,
        DmqError,
    >)
        ensures
            r == spec_resolve(self.last_entry(topic_id, partition_id, producer_id), sequence),
    {
        let key = entry_key(topic_id, partition_id, producer_id);
        match self.entries.get(&key) {
            Some(entry) => {
                let (last_seq, last_offset) = *entry;
                if sequence == last_seq {
                    return Ok(IdempotencyAction::ReturnOffset(last_offset));
                }
                if sequence < last_seq {
                    return Err(DmqError::SequenceBehind { sequence, last: last_seq });
                }
                if sequence > last_seq + 1 {
                    return Err(DmqError::SequenceGap { expected: last_seq + 1, got: sequence });
                }
                Ok(IdempotencyAction::Append)
            },
            None => {
                if sequence != 0 {
                    return Err(DmqError::FirstSequenceNotZero);
                }
                Ok(IdempotencyAction::Append)
            },
        }
    }

    /// Records that `sequence` of the producer was appended at `offset`.
    pub fn record(&mut self, topic_id: u16, partition_id: u16, producer_id: ProducerId, sequence: Sequence, offset: u64)
        ensures
            final(self).entries@ == old(self).entries@.insert(
                spec_entry_key(topic_id, partition_id, producer_id),
                (sequence, offset),
            ),
    {
        self.entries.insert(entry_key(topic_id, partition_id, producer_id), (sequence, offset));
    }
}

impl Default for IdempotencyState {
    fn default() -> (s: IdempotencyState)
        ensures
            s.entries@ == Map::<u128, (Sequence, u64)>::empty(),
    {
        IdempotencyState::new()
    }
}

/// A retried produce is answered with the offset it was first appended at, and
/// the producer's next sequence is appended; other producers and partitions are
/// not affected.
pub proof fn lemma_record_then_resolve(
    s: Map<u128, (Sequence, u64)>,
    topic_id: u16,
    partition_id: u16,
    producer_id: ProducerId,
    sequence: Sequence,
    offset: u64,
    other_topic: u16,
    other_partition: u16,
    other_producer: ProducerId,
)
    requires
        sequence < u64::MAX,
    ensures
        ({
            let s2 = s.insert(spec_entry_key(topic_id, partition_id, producer_id), (sequence, offset));
            &&& spec_resolve(s2.get(spec_entry_key(topic_id, partition_id, producer_id)), sequence) == Ok::<
                IdempotencyAction,
                DmqError,
            >(IdempotencyAction::ReturnOffset(offset))
            &&& spec_resolve(s2.get(spec_entry_key(topic_id, partition_id, producer_id)), (sequence + 1) as u64) == Ok::<
                IdempotencyAction,
                DmqError,
            >(IdempotencyAction::Append)
            &&& (other_topic, other_partition, other_producer) != (topic_id, partition_id, producer_id) ==> s2.get(
                spec_entry_key(other_topic, other_partition, other_producer),
            ) == s.get(spec_entry_key(other_topic, other_partition, other_producer))
        }),
{
    lemma_entry_key_injective(topic_id, partition_id, producer_id, other_topic, other_partition, other_producer);
}

} // verus!

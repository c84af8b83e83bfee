//! The storage interface the broker state can sit behind.

use crate::error::DmqError;
use vstd::prelude::*;

verus! {

pub type TopicId = u16;

pub type GroupId = u16;

pub type PartitionIdx = u16;

pub trait Storage {
    fn ensure_topic(&mut self, topic_id: TopicId) -> Result<(), DmqError>;

    fn ensure_group(&mut self, topic_id: TopicId, group_id: GroupId) -> Result<(), DmqError>;

    fn assign_partition(&mut self, topic_id: TopicId, group_id: GroupId) -> Result<PartitionIdx, DmqError>;

    /// Produces a payload into the topic; the implementation decides the routing.
    fn produce(&mut self, topic_id: TopicId, payload: &[u8]) -> Result<(u8, u64), DmqError>;

    /// Takes one message from a group's partition.
    fn consume_one(&mut self, topic_id: TopicId, group_id: GroupId, partition_idx: PartitionIdx) -> Result<
        Option<Vec<u8>>,
        DmqError,
    >;
}

} // verus!

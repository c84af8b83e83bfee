//! Per-topic configuration: partition count and retention.

use vstd::prelude::*;

verus! {

#[derive(Debug, Clone, PartialEq, Eq)]
pub struct TopicConfig {
    pub topic_id: u16,
    pub partition_count: u16,
    pub max_records: u32,
}

impl TopicConfig {
    /// A configuration with at least one partition and room for at least one record.
    pub fn new(topic_id: u16, partition_count: u16, max_records: u32) -> (c: TopicConfig)
        ensures
            c.topic_id == topic_id,
            c.partition_count == if partition_count < 1 {
                1
            } else {
                partition_count
            },
            c.max_records == if max_records < 1 {
                1
            } else {
                max_records
            },
    {
        TopicConfig {
            topic_id,
            partition_count: if partition_count < 1 {
                1
            } else {
                partition_count
            },
            max_records: if max_records < 1 {
                1
            } else {
                max_records
            },
        }
    }

    /// One partition and ten thousand records.
    pub fn default_for(topic_id: u16) -> (c: TopicConfig)
        ensures
            c.topic_id == topic_id,
            c.partition_count == 1,
            c.max_records == 10_000,
    {
        Self::new(topic_id, 1, 10_000)
    }
}

} // verus!

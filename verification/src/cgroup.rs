//! A consumer group with one partition queue per consumer.

use crate::partition::Partition;
use crate::topic::QueueView;
use vstd::prelude::*;

verus! {

pub struct ConsumerGroup {
    pub group_id: u16,
    pub partitions: Vec<Partition>,
    pub consumer_count: u32,
}

impl ConsumerGroup {
    pub open spec fn partitions_wf(&self) -> bool {
        forall|i: int| 0 <= i < self.partitions@.len() ==> #[trigger] self.partitions@[i].wf()
    }

    pub open spec fn consumers(&self) -> u32 {
        self.consumer_count
    }

    /// A group with a single empty partition and no consumers.
    pub fn new(group_id: u16) -> (g: ConsumerGroup)
        ensures
            g.group_id == group_id,
            g.partitions@.len() == 1,
            g.partitions_wf(),
            g.partitions@[0].queue@.messages == Seq::<Seq<u8>>::empty(),
            g.consumers() == 0,
    {
        let mut partitions: Vec<Partition> = Vec::new();
        partitions.push(Partition::new());
        ConsumerGroup { group_id, partitions, consumer_count: 0 }
    }

    /// Registers a consumer and gives it a partition index: a new partition is
    /// added whenever there are more consumers than partitions, and the newest
    /// partition is handed out.
    pub fn assign_partition(&mut self) -> (idx: u16)
        requires
            old(self).consumers() < u32::MAX,
            old(self).partitions_wf(),
        ensures
            final(self).group_id == old(self).group_id,
            final(self).consumers() == old(self).consumers() + 1,
            final(self).partitions_wf(),
            old(self).partitions@.len() < old(self).consumers() + 1 ==> final(self).partitions@.len()
                == old(self).partitions@.len() + 1 && final(self).partitions@.last().queue@.messages == Seq::<
                Seq<u8>,
            >::empty(),
            !(old(self).partitions@.len() < old(self).consumers() + 1) ==> final(self).partitions@ == old(
                self,
            ).partitions@,
            final(self).partitions@.drop_last() == old(self).partitions@.drop_last() || final(self).partitions@.drop_last()
                == old(self).partitions@,
            idx == (final(self).partitions@.len() - 1) as u16,
    {
        self.consumer_count = self.consumer_count + 1;
        if self.partitions.len() < self.consumer_count as usize {
            let ghost before = self.partitions@;
            self.partitions.push(Partition::new());
            assert(self.partitions@.drop_last() =~= before);
            assert forall|i: int| 0 <= i < self.partitions@.len() implies #[trigger] self.partitions@[i].wf() by {
                if i < before.len() {
                    assert(self.partitions@[i] == before[i]);
                }
            }
        }
        ((self.partitions.len() - 1) as u16)
    }

    /// The index of the first partition holding the fewest messages.
    pub fn smallest_partition_index(&self) -> (best: usize)
        requires
            self.partitions@.len() > 0,
        ensures
            best < self.partitions@.len(),
            forall|i: int| 0 <= i < self.partitions@.len() ==> self.partitions@[best as int].queue@.live_len()
                <= #[trigger] self.partitions@[i].queue@.live_len(),
            forall|i: int| 0 <= i < best ==> self.partitions@[best as int].queue@.live_len()
                < #[trigger] self.partitions@[i].queue@.live_len(),
    {
        let mut best: usize = 0;
        let mut min_len = self.partitions[0].len();
        let mut idx: usize = 1;
        while idx < self.partitions.len()
            invariant
                1 <= idx <= self.partitions@.len(),
                best < idx,
                min_len == self.partitions@[best as int].queue@.live_len(),
                forall|i: int| 0 <= i < idx ==> min_len <= #[trigger] self.partitions@[i].queue@.live_len(),
                forall|i: int| 0 <= i < best ==> min_len < #[trigger] self.partitions@[i].queue@.live_len(),
            decreases self.partitions@.len() - idx,
        {
            let len = self.partitions[idx].len();
            if len < min_len {
                min_len = len;
                best = idx;
            }
            idx = idx + 1;
        }
        best
    }
}

} // verus!

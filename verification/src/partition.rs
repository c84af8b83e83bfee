//! A consumer group's partition: a ring of messages of its own.

use crate::topic::{Queue, QueueView};
use vstd::prelude::*;

verus! {

pub struct Partition {
    pub queue: Queue,
}

impl Partition {
    pub open spec fn wf(&self) -> bool {
        self.queue.wf()
    }

    pub fn new() -> (p: Partition)
        ensures
            p.wf(),
            p.queue@.next_offset == 0,
            p.queue@.messages == Seq::<Seq<u8>>::empty(),
    {
        Partition { queue: Queue::new() }
    }

    pub fn append(&mut self, payload: &[u8]) -> (offset: u64)
        requires
            old(self).wf(),
            old(self).queue@.next_offset < u64::MAX,
        ensures
            final(self).wf(),
            offset == old(self).queue@.next_offset,
            final(self).queue@ == old(self).queue@.appended(payload@),
    {
        self.queue.append(payload)
    }

    pub fn pop_front(&mut self) -> (r: Option<Vec<u8>>)
        requires
            old(self).wf(),
        ensures
            final(self).wf(),
            match r {
                Some(m) => old(self).queue@.messages.len() > 0 && m@ == old(self).queue@.messages[0]
                    && final(self).queue@ == (QueueView {
                    base_offset: (old(self).queue@.base_offset + 1) as u64,
                    next_offset: old(self).queue@.next_offset,
                    messages: old(self).queue@.messages.drop_first(),
                }),
                None => old(self).queue@.messages.len() == 0 && final(self).queue@ == old(self).queue@,
            },
    {
        self.queue.pop_front()
    }

    pub fn len(&self) -> (n: u64)
        ensures
            n == self.queue@.live_len(),
    {
        self.queue.live_len()
    }

    pub fn is_empty(&self) -> (r: bool)
        ensures
            r == (self.queue@.live_len() == 0),
    {
        self.len() == 0
    }
}

impl Default for Partition {
    fn default() -> (p: Partition)
        ensures
            p.wf(),
            p.queue@.messages == Seq::<Seq<u8>>::empty(),
    {
        Partition::new()
    }
}

} // verus!

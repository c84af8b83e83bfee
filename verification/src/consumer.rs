//! A named consumer group's next offset in each topic, by topic name.

use crate::text::bytes_eq;
use vstd::prelude::*;
use vstd::utf8::{decode_utf8, encode_utf8};

verus! {

/// The position of the first entry for `topic`.
pub open spec fn entry_position(entries: Seq<(String, u64)>, topic: Seq<char>) -> Option<int>
    decreases entries.len(),
{
    if entries.len() == 0 {
        None
    } else {
        match entry_position(entries.drop_last(), topic) {
            Some(i) => Some(i),
            None => if entries.last().0@ == topic {
                Some(entries.len() - 1)
            } else {
                None
            },
        }
    }
}

proof fn lemma_entry_position(entries: Seq<(String, u64)>, topic: Seq<char>)
    ensures
        entry_position(entries, topic) matches Some(i) ==> 0 <= i < entries.len() && entries[i].0@ == topic && forall|j: int|
            0 <= j < i ==> #[trigger] entries[j].0@ != topic,
        entry_position(entries, topic) is None ==> forall|j: int| 0 <= j < entries.len() ==> #[trigger] entries[j].0@ != topic,
    decreases entries.len(),
{
    if entries.len() > 0 {
        lemma_entry_position(entries.drop_last(), topic);
        assert forall|j: int| 0 <= j < entries.len() - 1 implies entries[j] == entries.drop_last()[j] by {}
    }
}

proof fn lemma_same_keys(a: Seq<(String, u64)>, b: Seq<(String, u64)>, topic: Seq<char>)
    requires
        a.len() == b.len(),
        forall|j: int| 0 <= j < a.len() ==> #[trigger] a[j].0@ == b[j].0@,
    ensures
        entry_position(a, topic) == entry_position(b, topic),
    decreases a.len(),
{
    if a.len() > 0 {
        assert forall|j: int| 0 <= j < a.len() - 1 implies #[trigger] a.drop_last()[j].0@ == b.drop_last()[j].0@ by {
            assert(a.drop_last()[j] == a[j]);
            assert(b.drop_last()[j] == b[j]);
        }
        lemma_same_keys(a.drop_last(), b.drop_last(), topic);
    }
}

/// A consumer group and the next offset it reads in each topic.
pub struct ConsumerGroup {
    pub name: String,
    offsets: Vec<(String, u64)>,
}

impl ConsumerGroup {
    /// The group's name.
    pub closed spec fn group_name(&self) -> Seq<char> {
        self.name@
    }

    /// The next offset the group reads in `topic`: 0 for a topic it never read.
    pub closed spec fn offset(&self, topic: Seq<char>) -> u64 {
        match entry_position(self.offsets@, topic) {
            Some(i) => self.offsets@[i].1,
            None => 0,
        }
    }

    pub fn new(name: &str) -> (g: ConsumerGroup)
        ensures
            g.group_name() == name@,
            forall|t: Seq<char>| #[trigger] g.offset(t) == 0,
    {
        ConsumerGroup { name: name.to_string(), offsets: Vec::new() }
    }

    fn find(&self, topic: &str) -> (r: Option<usize>)
        ensures
            match r {
                Some(i) => i < self.offsets@.len() && entry_position(self.offsets@, topic@) == Some(i as int),
                None => entry_position(self.offsets@, topic@) is None,
            },
    {
        proof {
            lemma_entry_position(self.offsets@, topic@);
        }
        let mut i: usize = 0;
        while i < self.offsets.len()
            invariant
                i <= self.offsets@.len(),
                forall|j: int| 0 <= j < i ==> #[trigger] self.offsets@[j].0@ != topic@,
                entry_position(self.offsets@, topic@) matches Some(p) ==> 0 <= p < self.offsets@.len()
                    && self.offsets@[p].0@ == topic@ && forall|j: int| 0 <= j < p ==> #[trigger] self.offsets@[j].0@ != topic@,
                entry_position(self.offsets@, topic@) is None ==> forall|j: int| 0 <= j < self.offsets@.len() ==> #[trigger] self.offsets@[j].0@ != topic@,
            decreases self.offsets@.len() - i,
        {
            let same = bytes_eq(self.offsets[i].0.as_str().as_bytes(), topic.as_bytes());
            proof {
                let a = self.offsets@[i as int].0@;
                vstd::utf8::encode_utf8_decode_utf8(a);
                vstd::utf8::encode_utf8_decode_utf8(topic@);
                assert(same == (encode_utf8(a) == encode_utf8(topic@)));
                if encode_utf8(a) == encode_utf8(topic@) {
                    assert(a == topic@);
                }
            }
            if same {
                return Some(i);
            }
            i = i + 1;
        }
        None
    }

    /// The next offset the group reads in `topic`.
    pub fn get_offset(&self, topic: &str) -> (r: u64)
        ensures
            r == self.offset(topic@),
    {
        match self.find(topic) {
            Some(i) => self.offsets[i].1,
            None => 0,
        }
    }

    /// Moves the group one offset further in `topic`.
    pub fn advance(&mut self, topic: &str)
        requires
            old(self).offset(topic@) < u64::MAX,
        ensures
            final(self).group_name() == old(self).group_name(),
            final(self).offset(topic@) == old(self).offset(topic@) + 1,
            forall|t: Seq<char>| t != topic@ ==> #[trigger] final(self).offset(t) == old(self).offset(t),
    {
        let current = self.get_offset(topic);
        let ghost before = self.offsets@;
        match self.find(topic) {
            Some(i) => {
                let name = self.offsets[i].0.clone();
                self.offsets.set(i, (name, current + 1));
                proof {
                    lemma_entry_position(before, topic@);
                    assert forall|j: int| 0 <= j < before.len() implies #[trigger] self.offsets@[j].0@ == before[j].0@ by {}
                    assert forall|t: Seq<char>| t != topic@ implies #[trigger] self.offset(t) == old(self).offset(t) by {
                        lemma_same_keys(self.offsets@, before, t);
                        lemma_entry_position(before, t);
                    }
                    lemma_same_keys(self.offsets@, before, topic@);
                }
            },
            None => {
                self.offsets.push((topic.to_string(), current + 1));
                proof {
                    assert(self.offsets@.drop_last() =~= before);
                    assert(self.offsets@.last().0@ == topic@);
                    assert forall|t: Seq<char>| t != topic@ implies #[trigger] self.offset(t) == old(self).offset(t) by {
                        assert(entry_position(self.offsets@, t) == entry_position(before, t));
                        lemma_entry_position(before, t);
                        if let Some(p) = entry_position(before, t) {
                            assert(self.offsets@[p] == before[p]);
                        }
                    }
                    assert(entry_position(before, topic@) is None);
                    assert(entry_position(self.offsets@, topic@) == Some(before.len() as int));
                }
            },
        }
    }
}

} // verus!

//! A fixed-capacity ring of messages per topic with increasing offsets. When the
//! ring is full, appending evicts the oldest message.

use crate::cgroup::ConsumerGroup;
use crate::partition::Partition;
use crate::wire::to_vec;
use vstd::prelude::*;

verus! {

/// The largest message a ring slot holds; longer payloads are cut to this size.
pub const MAX_MSG_SIZE: usize = 255;

/// How many messages a ring holds.
pub const QUEUE_CAPACITY: usize = 10_000;

pub struct Queue {
    buffer: Vec<u8>,
    sizes: Vec<u8>,
    head: usize,
    tail: usize,
    base_offset: u64,
    next_offset: u64,
}

/// The messages a ring holds, oldest first, and the offsets around them.
pub struct QueueView {
    pub base_offset: u64,
    pub next_offset: u64,
    pub messages: Seq<Seq<u8>>,
}

/// The ring slot of an offset.
pub open spec fn slot_of(offset: u64) -> int {
    (offset % (QUEUE_CAPACITY as u64)) as int
}

/// What the ring keeps of a payload: at most `MAX_MSG_SIZE` bytes of it.
pub open spec fn stored_form(payload: Seq<u8>) -> Seq<u8> {
    if payload.len() > MAX_MSG_SIZE {
        payload.take(MAX_MSG_SIZE as int)
    } else {
        payload
    }
}

impl Queue {
    /// The bytes held in the slot of `offset`.
    spec fn slot_bytes(&self, offset: u64) -> Seq<u8> {
        let s = slot_of(offset);
        self.buffer@.subrange(s * 255, s * 255 + self.sizes@[s] as int)
    }

    /// The buffers have their full size, offsets and ring positions agree, and no
    /// more than `QUEUE_CAPACITY` messages are live.
    pub closed spec fn wf(&self) -> bool {
        &&& self.buffer@.len() == MAX_MSG_SIZE * QUEUE_CAPACITY
        &&& self.sizes@.len() == QUEUE_CAPACITY
        &&& forall|i: int| 0 <= i < QUEUE_CAPACITY ==> #[trigger] self.sizes@[i] <= MAX_MSG_SIZE
        &&& self.base_offset <= self.next_offset
        &&& self.next_offset - self.base_offset <= QUEUE_CAPACITY
        &&& self.head == slot_of(self.base_offset)
        &&& self.tail == slot_of(self.next_offset)
    }
}

impl View for Queue {
    type V = QueueView;

    closed spec fn view(&self) -> QueueView {
        QueueView {
            base_offset: self.base_offset,
            next_offset: self.next_offset,
            messages: Seq::new(
                (self.next_offset - self.base_offset) as nat,
                |i: int| self.slot_bytes((self.base_offset + i) as u64),
            ),
        }
    }
}

impl QueueView {
    /// The ring after appending `payload`: when full, the oldest message goes first.
    pub open spec fn appended(self, payload: Seq<u8>) -> QueueView {
        let full = self.next_offset - self.base_offset == QUEUE_CAPACITY;
        QueueView {
            base_offset: if full {
                (self.base_offset + 1) as u64
            } else {
                self.base_offset
            },
            next_offset: (self.next_offset + 1) as u64,
            messages: if full {
                self.messages.drop_first()
            } else {
                self.messages
            }.push(stored_form(payload)),
        }
    }

    /// The message at `offset`, if it is still live.
    pub open spec fn read_at(self, offset: u64) -> Option<Seq<u8>> {
        if offset >= self.next_offset || offset < self.base_offset {
            None
        } else {
            Some(self.messages[offset - self.base_offset])
        }
    }

    /// How many messages are live.
    pub open spec fn live_len(self) -> u64 {
        if self.next_offset >= self.base_offset {
            (self.next_offset - self.base_offset) as u64
        } else {
            0
        }
    }
}

/// Distinct live offsets sit in distinct slots.
proof fn lemma_distinct_slots(a: u64, b: u64)
    requires
        a < b,
        b - a < QUEUE_CAPACITY,
    ensures
        slot_of(a) != slot_of(b),
{
    let m: int = 10000;
    vstd::arithmetic::div_mod::lemma_fundamental_div_mod(a as int, m);
    vstd::arithmetic::div_mod::lemma_fundamental_div_mod(b as int, m);
    let qa = (a as int) / m;
    let qb = (b as int) / m;
    if slot_of(a) == slot_of(b) {
        assert(b - a == m * (qb - qa)) by (nonlinear_arith)
            requires
                a as int == m * qa + slot_of(a),
                b as int == m * qb + slot_of(b),
                slot_of(a) == slot_of(b),
        ;
        if qb - qa >= 1 {
            assert(m * (qb - qa) >= m) by (nonlinear_arith)
                requires
                    qb - qa >= 1,
                    m == 10000,
            ;
        } else {
            assert(m * (qb - qa) <= 0) by (nonlinear_arith)
                requires
                    qb - qa <= 0,
                    m == 10000,
            ;
        }
    }
}

proof fn lemma_next_slot(a: u64)
    requires
        a < u64::MAX,
    ensures
        slot_of((a + 1) as u64) == (slot_of(a) + 1) % (QUEUE_CAPACITY as int),
{
    let m: int = 10000;
    vstd::arithmetic::div_mod::lemma_fundamental_div_mod(a as int, m);
    let q = (a as int) / m;
    let r = slot_of(a);
    if r + 1 < m {
        vstd::arithmetic::div_mod::lemma_fundamental_div_mod_converse(a + 1, m, q, r + 1);
        vstd::arithmetic::div_mod::lemma_fundamental_div_mod_converse(r + 1, m, 0, r + 1);
    } else {
        vstd::arithmetic::div_mod::lemma_fundamental_div_mod_converse(a + 1, m, q + 1, 0);
        vstd::arithmetic::div_mod::lemma_fundamental_div_mod_converse(r + 1, m, 1, 0);
    }
}

impl Queue {
    pub fn new() -> (q: Queue)
        ensures
            q.wf(),
            q@.base_offset == 0,
            q@.next_offset == 0,
            q@.messages == Seq::<Seq<u8>>::empty(),
    {
        let buffer: Vec<u8> = vec![0u8; 2550000];
        let sizes: Vec<u8> = vec![0u8; 10000];
        let q = Queue { buffer, sizes, head: 0, tail: 0, base_offset: 0, next_offset: 0 };
        assert(q@.messages =~= Seq::<Seq<u8>>::empty());
        q
    }

    /// An empty ring whose next message gets offset `base`.
    pub fn starting_at(base: u64) -> (q: Queue)
        ensures
            q.wf(),
            q@.base_offset == base,
            q@.next_offset == base,
            q@.messages == Seq::<Seq<u8>>::empty(),
    {
        let buffer: Vec<u8> = vec![0u8; 2550000];
        let sizes: Vec<u8> = vec![0u8; 10000];
        let slot = (base % 10000) as usize;
        let q = Queue { buffer, sizes, head: slot, tail: slot, base_offset: base, next_offset: base };
        assert(q@.messages =~= Seq::<Seq<u8>>::empty());
        q
    }

    pub fn append(&mut self, payload: &[u8]) -> (offset: u64)
        requires
            old(self).wf(),
            old(self)@.next_offset < u64::MAX,
        ensures
            final(self).wf(),
            offset == old(self)@.next_offset,
            final(self)@ == old(self)@.appended(payload@),
    {
        let ghost v0 = self@;
        if self.next_offset - self.base_offset == 10000 {
            proof {
                lemma_next_slot(self.base_offset);
            }
            self.head = (self.head + 1) % 10000;
            self.base_offset = self.base_offset + 1;
        }
        let ghost b1 = self.base_offset;
        let ghost buf0 = self.buffer@;
        let ghost sizes0 = self.sizes@;
        let len: usize = if payload.len() > 255 {
            255
        } else {
            payload.len()
        };
        let slot = self.tail;
        assert(slot < 10000);
        let start = slot * 255;
        let mut k: usize = 0;
        while k < len
            invariant
                k <= len <= 255,
                len <= payload@.len(),
                slot < 10000,
                start == slot * 255,
                self.buffer@.len() == buf0.len(),
                buf0.len() == 2550000,
                self.sizes@ == sizes0,
                sizes0.len() == 10000,
                forall|i: int| 0 <= i < QUEUE_CAPACITY ==> #[trigger] sizes0[i] <= MAX_MSG_SIZE,
                self.tail == slot,
                slot == slot_of(v0.next_offset),
                self.next_offset == v0.next_offset,
                v0.next_offset < u64::MAX,
                self.base_offset == b1,
                self.head == slot_of(b1),
                b1 <= v0.next_offset,
                v0.next_offset - b1 < 10000,
                v0.base_offset <= b1,
                b1 - v0.base_offset <= 1,
                v0.next_offset - v0.base_offset == 10000 ==> b1 == v0.base_offset + 1,
                v0.next_offset - v0.base_offset < 10000 ==> b1 == v0.base_offset,
                forall|j: int| 0 <= j < buf0.len() && (j < start || j >= start + k) ==> #[trigger] self.buffer@[j] == buf0[j],
                forall|j: int| 0 <= j < k ==> #[trigger] self.buffer@[start + j] == payload@[j],
            decreases len - k,
        {
            self.buffer.set(start + k, payload[k]);
            k = k + 1;
        }
        self.sizes.set(slot, len as u8);
        self.tail = (self.tail + 1) % 10000;
        let offset = self.next_offset;
        proof {
            lemma_next_slot(offset);
        }
        self.next_offset = offset + 1;
        proof {
            let target = v0.appended(payload@);
            let msgs = self@.messages;
            assert(msgs.len() == target.messages.len());
            assert forall|i: int| 0 <= i < msgs.len() implies msgs[i] == target.messages[i] by {
                let o = (b1 + i) as u64;
                let so = slot_of(o);
                assert(0 <= so < 10000);
                if o < offset {
                    lemma_distinct_slots(o, offset);
                    assert(self.sizes@[so] == sizes0[so]);
                    assert(self.slot_bytes(o) =~= buf0.subrange(so * 255, so * 255 + sizes0[so] as int));
                    assert(v0.messages[o - v0.base_offset] == buf0.subrange(so * 255, so * 255 + sizes0[so] as int));
                } else {
                    assert(o == offset);
                    assert(so == slot as int);
                    assert(self.sizes@[so] == len);
                    assert forall|j: int| 0 <= j < len implies #[trigger] self.slot_bytes(o)[j] == stored_form(payload@)[j] by {
                        assert(self.slot_bytes(o)[j] == self.buffer@[start + j]);
                    }
                    assert(self.slot_bytes(o) =~= stored_form(payload@));
                }
            }
            assert(msgs =~= target.messages);
        }
        offset
    }

    /// The message at `offset`, if it is still live.
    pub fn read_at(&self, offset: u64) -> (r: Option<&[u8]>)
        requires
            self.wf(),
        ensures
            match r {
                Some(b) => self@.read_at(offset) == Some(b@),
                None => self@.read_at(offset) is None,
            },
    {
        if offset >= self.next_offset {
            return None;
        }
        if offset < self.base_offset {
            return None;
        }
        let slot = (offset % 10000) as usize;
        let len = self.sizes[slot] as usize;
        let start = slot * 255;
        let b = vstd::slice::slice_subrange(self.buffer.as_slice(), start, start + len);
        assert(self@.messages[offset - self.base_offset] == self.slot_bytes(offset));
        Some(b)
    }

    pub fn live_len(&self) -> (r: u64)
        ensures
            r == self@.live_len(),
    {
        self.next_offset.saturating_sub(self.base_offset)
    }

    /// Removes and returns the oldest message.
    pub fn pop_front(&mut self) -> (r: Option<Vec<u8>>)
        requires
            old(self).wf(),
        ensures
            final(self).wf(),
            match r {
                Some(m) => old(self)@.messages.len() > 0 && m@ == old(self)@.messages[0] && final(self)@ == (QueueView {
                    base_offset: (old(self)@.base_offset + 1) as u64,
                    next_offset: old(self)@.next_offset,
                    messages: old(self)@.messages.drop_first(),
                }),
                None => old(self)@.messages.len() == 0 && final(self)@ == old(self)@,
            },
    {
        if self.base_offset >= self.next_offset {
            return None;
        }
        let ghost v0 = self@;
        let bytes = match self.read_at(self.base_offset) {
            Some(b) => to_vec(b),
            None => {
                return None;
            },
        };
        proof {
            lemma_next_slot(self.base_offset);
        }
        self.head = (self.head + 1) % 10000;
        self.base_offset = self.base_offset + 1;
        assert(self@.messages =~= v0.messages.drop_first());
        Some(bytes)
    }

    pub fn next_offset(&self) -> (r: u64)
        ensures
            r == self@.next_offset,
    {
        self.next_offset
    }

    /// The offset of the oldest live message.
    pub fn base_offset(&self) -> (r: u64)
        ensures
            r == self@.base_offset,
    {
        self.base_offset
    }
}

impl Default for Queue {
    fn default() -> (q: Queue)
        ensures
            q.wf(),
            q@.next_offset == 0,
            q@.messages == Seq::<Seq<u8>>::empty(),
    {
        Queue::new()
    }
}

/// The live length of a well-formed ring counts its messages.
pub proof fn lemma_live_len(q: Queue)
    requires
        q.wf(),
    ensures
        q@.live_len() == q@.messages.len(),
{
}

/// A well-formed ring holds as many messages as its offsets span, at most
/// `QUEUE_CAPACITY`, each at most `MAX_MSG_SIZE` bytes long.
pub proof fn lemma_queue_bounds(q: Queue)
    requires
        q.wf(),
    ensures
        q@.base_offset <= q@.next_offset,
        q@.next_offset - q@.base_offset <= QUEUE_CAPACITY,
        q@.messages.len() == q@.next_offset - q@.base_offset,
        forall|i: int| 0 <= i < q@.messages.len() ==> #[trigger] q@.messages[i].len() <= MAX_MSG_SIZE,
{
    assert forall|i: int| 0 <= i < q@.messages.len() implies #[trigger] q@.messages[i].len() <= MAX_MSG_SIZE by {
        let o = (q@.base_offset + i) as u64;
        let so = slot_of(o);
        assert(0 <= so < 10000);
        assert(q.sizes@[so] <= MAX_MSG_SIZE);
        assert(q@.messages[i] == q.slot_bytes(o));
    }
}

/// A ring after appending each of `msgs` in order.
pub open spec fn appended_all(q: QueueView, msgs: Seq<Seq<u8>>) -> QueueView
    decreases msgs.len(),
{
    if msgs.len() == 0 {
        q
    } else {
        appended_all(q, msgs.drop_last()).appended(msgs.last())
    }
}

proof fn lemma_appended_all_next(q: QueueView, msgs: Seq<Seq<u8>>)
    ensures
        appended_all(q, msgs).next_offset == q.next_offset + msgs.len() || q.next_offset + msgs.len() > u64::MAX,
    decreases msgs.len(),
{
    if msgs.len() > 0 {
        lemma_appended_all_next(q, msgs.drop_last());
    }
}

/// A topic: a staging ring for messages produced before any consumer group
/// exists, and its consumer groups.
pub struct Topic {
    pub topic_id: u16,
    pub staging: Queue,
    pub cgroups: Vec<ConsumerGroup>,
}

/// The first group with `group_id`.
pub open spec fn group_position(groups: Seq<ConsumerGroup>, group_id: u16) -> Option<int>
    decreases groups.len(),
{
    if groups.len() == 0 {
        None
    } else {
        match group_position(groups.drop_last(), group_id) {
            Some(i) => Some(i),
            None => if groups.last().group_id == group_id {
                Some(groups.len() - 1)
            } else {
                None
            },
        }
    }
}

pub(crate) proof fn lemma_group_position(groups: Seq<ConsumerGroup>, group_id: u16)
    ensures
        group_position(groups, group_id) matches Some(i) ==> 0 <= i < groups.len() && groups[i].group_id == group_id
            && forall|j: int| 0 <= j < i ==> #[trigger] groups[j].group_id != group_id,
        group_position(groups, group_id) is None ==> forall|j: int| 0 <= j < groups.len() ==> #[trigger] groups[j].group_id
            != group_id,
    decreases groups.len(),
{
    if groups.len() > 0 {
        lemma_group_position(groups.drop_last(), group_id);
        assert forall|j: int| 0 <= j < groups.len() - 1 implies groups[j] == groups.drop_last()[j] by {}
    }
}

/// Moves every message of `staging`, oldest first, into `partition`.
pub fn drain_into(staging: &mut Queue, partition: &mut Partition)
    requires
        old(staging).wf(),
        old(partition).wf(),
        old(partition).queue@.next_offset + old(staging)@.messages.len() <= u64::MAX,
    ensures
        final(staging).wf(),
        final(partition).wf(),
        final(staging)@.messages == Seq::<Seq<u8>>::empty(),
        final(staging)@.next_offset == old(staging)@.next_offset,
        final(partition).queue@ == appended_all(old(partition).queue@, old(staging)@.messages),
{
    let ghost s0 = staging@.messages;
    let ghost p0 = partition.queue@;
    let ghost k: int = 0;
    assert(s0.take(0) =~= Seq::<Seq<u8>>::empty());
    assert(s0.skip(0) =~= s0);
    loop
        invariant
            staging.wf(),
            partition.wf(),
            0 <= k <= s0.len(),
            staging@.messages == s0.skip(k),
            staging@.next_offset == old(staging)@.next_offset,
            partition.queue@ == appended_all(p0, s0.take(k)),
            partition.queue@.next_offset == p0.next_offset + k,
            p0.next_offset + s0.len() <= u64::MAX,
        ensures
            staging.wf(),
            partition.wf(),
            staging@.messages == Seq::<Seq<u8>>::empty(),
            staging@.next_offset == old(staging)@.next_offset,
            partition.queue@ == appended_all(p0, s0),
        decreases s0.len() - k,
    {
        match staging.pop_front() {
            Some(msg) => {
                proof {
                    assert(msg@ == s0[k]);
                    assert(s0.skip(k).drop_first() =~= s0.skip(k + 1));
                    assert(s0.take(k + 1).drop_last() =~= s0.take(k));
                    assert(s0.take(k + 1).last() == s0[k]);
                    k = k + 1;
                }
                partition.append(msg.as_slice());
            },
            None => {
                assert(s0.take(k) =~= s0);
                break;
            },
        }
    }
}


/// The group after one more consumer registered and was handed partition `idx`:
/// a new, empty partition is added when there are more consumers than
/// partitions, and the last partition is handed out.
pub open spec fn consumer_added(og: ConsumerGroup, ng: ConsumerGroup, idx: u16) -> bool {
    &&& ng.group_id == og.group_id
    &&& ng.consumers() == og.consumers() + 1
    &&& ng.partitions_wf()
    &&& if og.partitions@.len() < og.consumers() + 1 {
        &&& ng.partitions@.len() == og.partitions@.len() + 1
        &&& ng.partitions@.drop_last() == og.partitions@
        &&& ng.partitions@.last().queue@.messages == Seq::<Seq<u8>>::empty()
    } else {
        ng.partitions@ == og.partitions@
    }
    &&& idx == (ng.partitions@.len() - 1) as u16
}

/// `k` is the first of the partitions holding the fewest messages.
pub open spec fn is_least_loaded(ps: Seq<Partition>, k: int) -> bool {
    &&& 0 <= k < ps.len()
    &&& forall|j: int| 0 <= j < ps.len() ==> ps[k].queue@.live_len() <= #[trigger] ps[j].queue@.live_len()
    &&& forall|j: int| 0 <= j < k ==> ps[k].queue@.live_len() < #[trigger] ps[j].queue@.live_len()
}

/// The group after `msgs` were appended, in order, to its first least-loaded
/// partition.
pub open spec fn group_received(og: ConsumerGroup, ng: ConsumerGroup, msgs: Seq<Seq<u8>>) -> bool {
    &&& ng.group_id == og.group_id
    &&& ng.consumers() == og.consumers()
    &&& ng.partitions@.len() == og.partitions@.len()
    &&& ng.partitions_wf()
    &&& exists|k: int|
        is_least_loaded(og.partitions@, k) && ng.partitions@[k].queue@ == appended_all(og.partitions@[k].queue@, msgs)
            && forall|j: int| 0 <= j < og.partitions@.len() && j != k ==> #[trigger] ng.partitions@[j] == og.partitions@[j]
}

/// Topic `nt` is `ot` after a consumer of group `g` registered and was handed
/// partition `idx` (see `Topic::register_consumer`).
pub open spec fn consumer_registered(ot: Topic, nt: Topic, g: u16, idx: u16) -> bool {
    &&& nt.wf()
    &&& nt.topic_id == ot.topic_id
    &&& nt.staging == ot.staging
    &&& match group_position(ot.cgroups@, g) {
        Some(i) => {
            &&& nt.cgroups@.len() == ot.cgroups@.len()
            &&& forall|j: int| 0 <= j < ot.cgroups@.len() && j != i ==> #[trigger] nt.cgroups@[j] == ot.cgroups@[j]
            &&& consumer_added(ot.cgroups@[i], nt.cgroups@[i], idx)
        },
        None => {
            &&& nt.cgroups@.drop_last() == ot.cgroups@
            &&& nt.cgroups@.last().group_id == g
            &&& nt.cgroups@.last().consumers() == 1
            &&& nt.cgroups@.last().partitions@.len() == 1
            &&& nt.cgroups@.last().partitions@[0].queue@.messages == Seq::<Seq<u8>>::empty()
            &&& idx == 0
        },
    }
}

/// Topic `nt` is `ot` after a message was routed to its groups (see
/// `Topic::push_to_groups`).
pub open spec fn pushed(ot: Topic, nt: Topic, payload: Seq<u8>) -> bool {
    &&& nt.wf()
    &&& nt.topic_id == ot.topic_id
    &&& nt.staging@.messages == (if ot.cgroups@.len() > 0 {
        Seq::<Seq<u8>>::empty()
    } else {
        ot.staging@.messages
    })
    &&& nt.staging@.next_offset == ot.staging@.next_offset
    &&& nt.cgroups@.len() == ot.cgroups@.len()
    &&& forall|i: int| 0 <= i < ot.cgroups@.len() ==> group_received(
        ot.cgroups@[i],
        #[trigger] nt.cgroups@[i],
        if i == 0 {
            ot.staging@.messages.push(payload)
        } else {
            seq![payload]
        },
    )
}

pub(crate) proof fn lemma_topic_wf_intro(t: Topic)
    requires
        t.staging.wf(),
        forall|j: int| 0 <= j < t.cgroups@.len() ==> #[trigger] t.cgroups@[j].partitions_wf() && t.cgroups@[j].partitions@.len() >= 1,
    ensures
        t.wf(),
{
}

/// At most one partition is the first least-loaded one.
pub proof fn lemma_least_loaded_unique(ps: Seq<Partition>, a: int, b: int)
    requires
        is_least_loaded(ps, a),
        is_least_loaded(ps, b),
    ensures
        a == b,
{
    if a < b {
        assert(ps[b].queue@.live_len() < ps[a].queue@.live_len());
    } else if b < a {
        assert(ps[a].queue@.live_len() < ps[b].queue@.live_len());
    }
}

pub(crate) proof fn lemma_group_position_push(groups: Seq<ConsumerGroup>, g: ConsumerGroup)
    requires
        group_position(groups, g.group_id) is None,
    ensures
        group_position(groups.push(g), g.group_id) == Some(groups.len() as int),
{
    assert(groups.push(g).drop_last() =~= groups);
}

impl Topic {
    /// The staging ring and every group partition are well formed.
    pub open spec fn wf(&self) -> bool {
        &&& self.staging.wf()
        &&& forall|i: int| 0 <= i < self.cgroups@.len() ==> #[trigger] self.cgroups@[i].partitions_wf()
            && self.cgroups@[i].partitions@.len() >= 1
    }

    /// A topic as `new` makes it.
    pub open spec fn is_fresh(&self, topic_id: u16) -> bool {
        &&& self.topic_id == topic_id
        &&& self.wf()
        &&& self.staging@.next_offset == 0
        &&& self.staging@.messages == Seq::<Seq<u8>>::empty()
        &&& self.cgroups@ == Seq::<ConsumerGroup>::empty()
    }

    /// No offset counter would overflow if every staged message and one more were
    /// appended to any ring of the topic.
    pub open spec fn has_room(&self) -> bool {
        &&& self.staging@.next_offset < u64::MAX
        &&& forall|i: int, j: int|
            0 <= i < self.cgroups@.len() && 0 <= j < self.cgroups@[i].partitions@.len() ==> #[trigger] self.cgroups@[i].partitions@[j].queue@.next_offset
                + self.staging@.messages.len() < u64::MAX
    }

    pub fn new(topic_id: u16) -> (t: Topic)
        ensures
            t.topic_id == topic_id,
            t.staging.wf(),
            t.staging@.next_offset == 0,
            t.staging@.messages == Seq::<Seq<u8>>::empty(),
            t.cgroups@ == Seq::<ConsumerGroup>::empty(),
    {
        Topic { topic_id, staging: Queue::new(), cgroups: Vec::new() }
    }

    pub fn append_to_staging(&mut self, payload: &[u8]) -> (offset: u64)
        requires
            old(self).staging.wf(),
            old(self).staging@.next_offset < u64::MAX,
        ensures
            final(self).staging.wf(),
            offset == old(self).staging@.next_offset,
            final(self).staging@ == old(self).staging@.appended(payload@),
            final(self).topic_id == old(self).topic_id,
            final(self).cgroups == old(self).cgroups,
    {
        self.staging.append(payload)
    }

    /// Moves every staged message, oldest first, into `partition`.
    pub fn drain_staging_into(&mut self, partition: &mut Partition)
        requires
            old(self).staging.wf(),
            old(partition).wf(),
            old(partition).queue@.next_offset + old(self).staging@.messages.len() <= u64::MAX,
        ensures
            final(self).staging.wf(),
            final(partition).wf(),
            final(self).staging@.messages == Seq::<Seq<u8>>::empty(),
            final(self).staging@.next_offset == old(self).staging@.next_offset,
            final(partition).queue@ == appended_all(old(partition).queue@, old(self).staging@.messages),
            final(self).topic_id == old(self).topic_id,
            final(self).cgroups == old(self).cgroups,
    {
        drain_into(&mut self.staging, partition);
    }

    /// Adds a group with `group_id` unless one exists; says whether it was added.
    pub fn find_or_create_group(&mut self, group_id: u16) -> (created: bool)
        ensures
            created == (group_position(old(self).cgroups@, group_id) is None),
            created ==> final(self).cgroups@.len() == old(self).cgroups@.len() + 1,
            created ==> final(self).cgroups@.drop_last() == old(self).cgroups@ && final(self).cgroups@.last().group_id
                == group_id && final(self).cgroups@.last().partitions@.len() == 1
                && final(self).cgroups@.last().partitions_wf() && final(self).cgroups@.last().consumers() == 0
                && final(self).cgroups@.last().partitions@[0].queue@.messages == Seq::<Seq<u8>>::empty(),
            !created ==> final(self).cgroups@ == old(self).cgroups@,
            final(self).topic_id == old(self).topic_id,
            final(self).staging == old(self).staging,
    {
        proof {
            lemma_group_position(self.cgroups@, group_id);
        }
        let mut i: usize = 0;
        while i < self.cgroups.len()
            invariant
                i <= self.cgroups@.len(),
                forall|j: int| 0 <= j < i ==> #[trigger] self.cgroups@[j].group_id != group_id,
                group_position(self.cgroups@, group_id) is None ==> forall|j: int| 0 <= j < self.cgroups@.len()
                    ==> #[trigger] self.cgroups@[j].group_id != group_id,
                group_position(self.cgroups@, group_id) matches Some(p) ==> 0 <= p < self.cgroups@.len()
                    && self.cgroups@[p].group_id == group_id,
            decreases self.cgroups@.len() - i,
        {
            if self.cgroups[i].group_id == group_id {
                return false;
            }
            i = i + 1;
        }
        let ghost before = self.cgroups@;
        self.cgroups.push(ConsumerGroup::new(group_id));
        assert(self.cgroups@.drop_last() =~= before);
        true
    }

    /// The first group with `group_id`.
    pub fn group(&self, group_id: u16) -> (r: Option<&ConsumerGroup>)
        ensures
            match group_position(self.cgroups@, group_id) {
                Some(i) => r == Some(&self.cgroups@[i]),
                None => r is None,
            },
    {
        proof {
            lemma_group_position(self.cgroups@, group_id);
        }
        let mut i: usize = 0;
        while i < self.cgroups.len()
            invariant
                i <= self.cgroups@.len(),
                forall|j: int| 0 <= j < i ==> #[trigger] self.cgroups@[j].group_id != group_id,
                group_position(self.cgroups@, group_id) matches Some(p) ==> 0 <= p < self.cgroups@.len()
                    && self.cgroups@[p].group_id == group_id && forall|j: int| 0 <= j < p ==> #[trigger] self.cgroups@[j].group_id != group_id,
                group_position(self.cgroups@, group_id) is None ==> forall|j: int| 0 <= j < self.cgroups@.len()
                    ==> #[trigger] self.cgroups@[j].group_id != group_id,
            decreases self.cgroups@.len() - i,
        {
            if self.cgroups[i].group_id == group_id {
                return Some(&self.cgroups[i]);
            }
            i = i + 1;
        }
        None
    }

    /// The first group with `group_id`, to change.
    pub fn group_mut(&mut self, group_id: u16) -> (r: Option<&mut ConsumerGroup>)
        ensures
            match group_position(old(self).cgroups@, group_id) {
                Some(i) => r matches Some(g) && *g == old(self).cgroups@[i] && final(self).cgroups@ == old(
                    self,
                ).cgroups@.update(i, *final(g)) && final(self).topic_id == old(self).topic_id && final(self).staging
                    == old(self).staging,
                None => r is None && *final(self) == *old(self),
            },
    {
        proof {
            lemma_group_position(self.cgroups@, group_id);
        }
        let mut i: usize = 0;
        while i < self.cgroups.len()
            invariant
                i <= self.cgroups@.len(),
                self.cgroups@ == old(self).cgroups@,
                *self == *old(self),
                forall|j: int| 0 <= j < i ==> #[trigger] self.cgroups@[j].group_id != group_id,
                group_position(self.cgroups@, group_id) matches Some(p) ==> 0 <= p < self.cgroups@.len()
                    && self.cgroups@[p].group_id == group_id && forall|j: int| 0 <= j < p ==> #[trigger] self.cgroups@[j].group_id != group_id,
                group_position(self.cgroups@, group_id) is None ==> forall|j: int| 0 <= j < self.cgroups@.len()
                    ==> #[trigger] self.cgroups@[j].group_id != group_id,
            decreases self.cgroups@.len() - i,
        {
            if self.cgroups[i].group_id == group_id {
                return Some(&mut self.cgroups[i]);
            }
            i = i + 1;
        }
        None
    }
    /// Registers a consumer with group `group_id`, creating the group if needed,
    /// and returns the index of the partition it was handed.
    pub fn register_consumer(&mut self, group_id: u16) -> (idx: u16)
        requires
            old(self).wf(),
            group_position(old(self).cgroups@, group_id) matches Some(i) ==> old(self).cgroups@[i].consumers() < u32::MAX,
        ensures
            consumer_registered(*old(self), *final(self), group_id, idx),
    {
        let ghost c0 = self.cgroups@;
        let created = self.find_or_create_group(group_id);
        let ghost c1 = self.cgroups@;
        proof {
            if created {
                lemma_group_position_push(c0, c1.last());
                assert(c0.push(c1.last()) =~= c1);
            }
            lemma_group_position(c1, group_id);
        }
        let ghost pos = group_position(c1, group_id);
        let idx = match self.group_mut(group_id) {
            Some(g) => {
                proof {
                    if !created {
                        assert(c1 == c0);
                    }
                    let i = pos->0;
                    assert(g.partitions_wf());
                }
                g.assign_partition()
            },
            None => 0,
        };
        proof {
            let i = pos->0;
            assert(self.cgroups@ == c1.update(i, self.cgroups@[i]));
            assert forall|j: int| 0 <= j < self.cgroups@.len() implies #[trigger] self.cgroups@[j].partitions_wf()
                && self.cgroups@[j].partitions@.len() >= 1 by {
                if j != i {
                    assert(self.cgroups@[j] == c1[j]);
                    if created && j == c1.len() - 1 {
                    } else {
                        assert(c1[j] == c0[j]);
                    }
                }
            }
            let og = c1[i];
            let ng = self.cgroups@[i];
            if og.partitions@.len() < og.consumers() + 1 {
                assert(ng.partitions@.drop_last().len() == og.partitions@.len());
                assert(ng.partitions@.drop_last() == og.partitions@);
            }
            assert(consumer_added(og, ng, idx));
            if created {
                assert(self.cgroups@.drop_last() =~= c0);
                assert(i == c0.len());
                assert(og.partitions@.len() == 1 && og.consumers() == 0);
                assert(ng.partitions@ == og.partitions@);
            } else {
                assert(c1 == c0);
                assert forall|j: int| 0 <= j < c0.len() && j != i implies #[trigger] self.cgroups@[j] == c0[j] by {}
            }
            assert(self.wf());
            assert(self.staging == old(self).staging);
            assert(self.topic_id == old(self).topic_id);
        }
        idx
    }

    /// Routes a message to the groups: each group's first least-loaded partition
    /// receives it, the first group's after everything staged, which leaves
    /// staging empty.
    pub fn push_to_groups(&mut self, payload: &[u8])
        requires
            old(self).wf(),
            old(self).has_room(),
        ensures
            pushed(*old(self), *final(self), payload@),
    {
        let n = self.cgroups.len();
        let ghost c0 = self.cgroups@;
        let ghost s0 = self.staging@.messages;
        let mut i: usize = 0;
        while i < n
            invariant
                n == c0.len(),
                i <= n,
                self.staging.wf(),
                self.topic_id == old(self).topic_id,
                self.staging@.next_offset == old(self).staging@.next_offset,
                self.staging@.next_offset < u64::MAX,
                i == 0 ==> self.staging@.messages == s0,
                i > 0 ==> self.staging@.messages == Seq::<Seq<u8>>::empty(),
                c0 == old(self).cgroups@,
                s0 == old(self).staging@.messages,
                old(self).has_room(),
                old(self).wf(),
                self.cgroups@.len() == n,
                forall|j: int| i <= j < n ==> #[trigger] self.cgroups@[j] == c0[j],
                forall|j: int| 0 <= j < i ==> group_received(
                    c0[j],
                    #[trigger] self.cgroups@[j],
                    if j == 0 {
                        s0.push(payload@)
                    } else {
                        seq![payload@]
                    },
                ),
            decreases n - i,
        {
            let ghost g0 = self.cgroups@[i as int];
            assert(g0 == c0[i as int]);
            assert(old(self).cgroups@[i as int].partitions_wf());
            assert(g0.partitions_wf() && g0.partitions@.len() >= 1);
            let k = self.cgroups[i].smallest_partition_index();
            let ghost msgs = self.staging@.messages;
            let ghost q0 = g0.partitions@[k as int].queue@;
            assert(g0.partitions@[k as int].wf());
            assert(q0.next_offset + s0.len() < u64::MAX);
            drain_into(&mut self.staging, &mut self.cgroups[i].partitions[k]);
            proof {
                lemma_appended_all_next(q0, msgs);
            }
            self.cgroups[i].partitions[k].append(payload);
            proof {
                let g1 = self.cgroups@[i as int];
                assert(g1.partitions@[k as int].queue@ == appended_all(q0, msgs).appended(payload@));
                assert(msgs.push(payload@).drop_last() =~= msgs);
                assert(appended_all(q0, msgs.push(payload@)) == appended_all(q0, msgs).appended(payload@));
                if i > 0 {
                    assert(msgs =~= Seq::<Seq<u8>>::empty());
                    assert(msgs.push(payload@) =~= seq![payload@]);
                }
                assert(is_least_loaded(g0.partitions@, k as int));
                assert forall|j: int| 0 <= j < g1.partitions@.len() implies #[trigger] g1.partitions@[j].wf() by {
                    if j != k {
                        assert(g1.partitions@[j] == g0.partitions@[j]);
                    }
                }
                assert(group_received(
                    c0[i as int],
                    g1,
                    if i == 0 {
                        s0.push(payload@)
                    } else {
                        seq![payload@]
                    },
                ));
            }
            i = i + 1;
        }
        proof {
            assert forall|j: int| 0 <= j < self.cgroups@.len() implies #[trigger] self.cgroups@[j].partitions_wf()
                && self.cgroups@[j].partitions@.len() >= 1 by {
                assert(group_received(
                    c0[j],
                    self.cgroups@[j],
                    if j == 0 {
                        s0.push(payload@)
                    } else {
                        seq![payload@]
                    },
                ));
            }
        }
    }

}

// ---------------------------------------------------------------------------
// Laws of the ring.

/// Appending to a well-formed ring keeps it within capacity and hands out the
/// next offset; the newest message is the payload as the ring stores it.
pub proof fn lemma_append_newest(q: QueueView, payload: Seq<u8>)
    requires
        q.base_offset <= q.next_offset,
        q.next_offset - q.base_offset <= QUEUE_CAPACITY,
        q.messages.len() == q.next_offset - q.base_offset,
        q.next_offset < u64::MAX,
    ensures
        q.appended(payload).messages.len() == q.appended(payload).next_offset - q.appended(payload).base_offset,
        q.appended(payload).messages.len() <= QUEUE_CAPACITY,
        q.appended(payload).read_at(q.next_offset) == Some(stored_form(payload)),
        q.next_offset - q.base_offset == QUEUE_CAPACITY ==> q.appended(payload).read_at(q.base_offset) is None,
        forall|o: u64| q.base_offset < o < q.next_offset ==> #[trigger] q.appended(payload).read_at(o) == q.read_at(o),
{
    let a = q.appended(payload);
    assert forall|o: u64| q.base_offset < o < q.next_offset implies #[trigger] a.read_at(o) == q.read_at(o) by {
        if q.next_offset - q.base_offset == QUEUE_CAPACITY {
            assert(a.messages[o - a.base_offset] == q.messages[o - q.base_offset]);
        }
    }
}

/// Messages leave the ring in the order they came in: popping gives the oldest.
pub proof fn lemma_fifo(q: QueueView, p1: Seq<u8>, p2: Seq<u8>)
    requires
        q.messages.len() == 0,
        q.base_offset == q.next_offset,
        q.next_offset < u64::MAX - 1,
    ensures
        q.appended(p1).appended(p2).messages == seq![stored_form(p1), stored_form(p2)],
{
    assert(q.appended(p1).messages =~= seq![stored_form(p1)]);
    assert(q.appended(p1).appended(p2).messages =~= seq![stored_form(p1), stored_form(p2)]);
}

} // verus!

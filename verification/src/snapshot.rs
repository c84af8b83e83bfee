//! The stored form of a topic's rings: its staging ring and, per consumer
//! group, the group's id, its consumer count and each partition's ring.

use crate::cgroup::ConsumerGroup;
use crate::error::DmqError;
use crate::partition::Partition;
use crate::topic::{lemma_queue_bounds, Queue, QueueView, Topic, MAX_MSG_SIZE, QUEUE_CAPACITY};
use crate::wire::{
    be16, be32, be64, get_u16, get_u32, get_u64, lemma_u16_window, lemma_u32_window, lemma_u64_window, put_bytes,
    put_u16, put_u32, put_u64, u16_at, u32_at, u64_at,
};
use vstd::prelude::*;

verus! {

/// A ring as it can be stored: offsets in order, as many messages as they
/// span and no more than a ring holds, none longer than a slot.
pub open spec fn valid_ring(q: QueueView) -> bool {
    &&& q.base_offset <= q.next_offset
    &&& q.next_offset - q.base_offset <= QUEUE_CAPACITY
    &&& q.messages.len() == q.next_offset - q.base_offset
    &&& forall|i: int| 0 <= i < q.messages.len() ==> #[trigger] q.messages[i].len() <= MAX_MSG_SIZE
}

/// Messages stored one after another, each as its length (one byte) and its
/// bytes.
pub open spec fn messages_bytes(ms: Seq<Seq<u8>>) -> Seq<u8>
    decreases ms.len(),
{
    if ms.len() == 0 {
        Seq::empty()
    } else {
        messages_bytes(ms.drop_last()) + seq![ms.last().len() as u8] + ms.last()
    }
}

/// The stored form of a ring: its first and next offsets, then its messages.
pub open spec fn ring_bytes(q: QueueView) -> Seq<u8> {
    be64(q.base_offset) + be64(q.next_offset) + messages_bytes(q.messages)
}

/// The first `n` messages stored from position `o`, and where they end.
pub open spec fn parse_messages(b: Seq<u8>, o: int, n: nat) -> Option<(Seq<Seq<u8>>, int)>
    decreases n,
{
    if n == 0 {
        Some((Seq::empty(), o))
    } else {
        match parse_messages(b, o, (n - 1) as nat) {
            Some((ms, p)) => if 0 <= p < b.len() && p + 1 + b[p] <= b.len() {
                Some((ms.push(b.subrange(p + 1, p + 1 + b[p])), p + 1 + b[p]))
            } else {
                None
            },
            None => None,
        }
    }
}

/// The ring stored at position `o`, and where it ends; `None` when its offsets
/// are out of order or span more than a ring holds, or the bytes run out.
pub open spec fn parse_ring(b: Seq<u8>, o: int) -> Option<(QueueView, int)> {
    if o < 0 || o + 16 > b.len() {
        None
    } else {
        let base = u64_at(b, o);
        let next = u64_at(b, o + 8);
        if base > next || next - base > QUEUE_CAPACITY {
            None
        } else {
            match parse_messages(b, o + 16, (next - base) as nat) {
                Some((ms, e)) => Some((QueueView { base_offset: base, next_offset: next, messages: ms }, e)),
                None => None,
            }
        }
    }
}

proof fn lemma_parse_messages_stops(b: Seq<u8>, o: int, k: nat, n: nat)
    requires
        k <= n,
        parse_messages(b, o, k) is None,
    ensures
        parse_messages(b, o, n) is None,
    decreases n,
{
    if n > k {
        lemma_parse_messages_stops(b, o, k, (n - 1) as nat);
    }
}

proof fn lemma_parse_messages_at(b: Seq<u8>, o: int, ms: Seq<Seq<u8>>)
    requires
        0 <= o,
        o + messages_bytes(ms).len() <= b.len(),
        b.subrange(o, o + messages_bytes(ms).len()) == messages_bytes(ms),
        forall|i: int| 0 <= i < ms.len() ==> #[trigger] ms[i].len() <= MAX_MSG_SIZE,
    ensures
        parse_messages(b, o, ms.len()) == Some((ms, o + messages_bytes(ms).len())),
    decreases ms.len(),
{
    if ms.len() > 0 {
        let init = ms.drop_last();
        let m = ms.last();
        let mi = messages_bytes(init);
        let whole = messages_bytes(ms);
        assert(whole == mi + seq![m.len() as u8] + m);
        assert forall|i: int| 0 <= i < init.len() implies #[trigger] init[i].len() <= MAX_MSG_SIZE by {
            assert(init[i] == ms[i]);
        }
        assert(b.subrange(o, o + mi.len()) =~= whole.subrange(0, mi.len() as int));
        assert(whole.subrange(0, mi.len() as int) =~= mi);
        lemma_parse_messages_at(b, o, init);
        let p = o + mi.len();
        assert(ms[ms.len() - 1].len() <= MAX_MSG_SIZE);
        assert(b[p] == whole[mi.len() as int]);
        assert(b[p] == m.len());
        assert(b.subrange(p + 1, p + 1 + m.len()) =~= whole.subrange(mi.len() as int + 1, whole.len() as int));
        assert(whole.subrange(mi.len() as int + 1, whole.len() as int) =~= m);
        assert(init.push(m) =~= ms);
    }
}

/// A ring reads back from its stored form, wherever that stands.
pub proof fn lemma_ring_roundtrip(b: Seq<u8>, o: int, q: QueueView)
    requires
        valid_ring(q),
        0 <= o,
        o + ring_bytes(q).len() <= b.len(),
        b.subrange(o, o + ring_bytes(q).len()) == ring_bytes(q),
    ensures
        parse_ring(b, o) == Some((q, o + ring_bytes(q).len())),
{
    let r = ring_bytes(q);
    let mb = messages_bytes(q.messages);
    assert(b.subrange(o, o + 8) =~= r.subrange(0, 8));
    assert(r.subrange(0, 8) =~= be64(q.base_offset));
    assert(b.subrange(o + 8, o + 16) =~= r.subrange(8, 16));
    assert(r.subrange(8, 16) =~= be64(q.next_offset));
    lemma_u64_window(b, o, q.base_offset);
    lemma_u64_window(b, o + 8, q.next_offset);
    assert(b.subrange(o + 16, o + 16 + mb.len()) =~= r.subrange(16, r.len() as int));
    assert(r.subrange(16, r.len() as int) =~= mb);
    lemma_parse_messages_at(b, o + 16, q.messages);
}

/// Appends the stored form of a ring.
pub fn put_ring(out: &mut Vec<u8>, q: &Queue)
    requires
        q.wf(),
    ensures
        final(out)@ == old(out)@ + ring_bytes(q@),
        valid_ring(q@),
{
    proof {
        lemma_queue_bounds(*q);
    }
    let base = q.base_offset();
    let next = q.next_offset();
    let ghost start = out@;
    put_u64(out, base);
    put_u64(out, next);
    let ghost head = out@;
    assert(head == start + be64(base) + be64(next));
    let mut off: u64 = base;
    assert(q@.messages.take(0) =~= Seq::<Seq<u8>>::empty());
    while off < next
        invariant
            base <= off <= next,
            base == q@.base_offset,
            next == q@.next_offset,
            q.wf(),
            valid_ring(q@),
            out@ == head + messages_bytes(q@.messages.take(off - base)),
        decreases next - off,
    {
        let m = match q.read_at(off) {
            Some(m) => m,
            None => {
                assert(false);
                return;
            },
        };
        let ghost k = off - base;
        assert(m@ == q@.messages[k]);
        assert(m@.len() <= MAX_MSG_SIZE);
        out.push(m.len() as u8);
        put_bytes(out, m);
        off = off + 1;
        proof {
            let t = q@.messages.take(k + 1);
            assert(t.drop_last() =~= q@.messages.take(k));
            assert(t.last() == m@);
            assert(out@ =~= head + messages_bytes(t));
        }
    }
    assert(q@.messages.take(next - base) =~= q@.messages);
    assert(out@ =~= start + ring_bytes(q@));
}

/// Reads the ring stored at position `o` (see `parse_ring`).
pub fn read_ring(b: &[u8], o: usize) -> (r: Option<(Queue, usize)>)
    ensures
        match r {
            Some((q, e)) => q.wf() && parse_ring(b@, o as int) == Some((q@, e as int)),
            None => parse_ring(b@, o as int) is None,
        },
{
    if o > b.len() || b.len() - o < 16 {
        return None;
    }
    let base = get_u64(b, o);
    let next = get_u64(b, o + 8);
    if base > next || next - base > 10000 {
        return None;
    }
    let n = next - base;
    let mut q = Queue::starting_at(base);
    let mut p: usize = o + 16;
    let mut i: u64 = 0;
    assert(parse_messages(b@, o + 16, 0) == Some((Seq::<Seq<u8>>::empty(), (o + 16) as int)));
    while i < n
        invariant
            i <= n,
            n == next - base,
            n <= QUEUE_CAPACITY,
            o + 16 <= b@.len(),
            base == u64_at(b@, o as int),
            next == u64_at(b@, o + 8),
            base <= next,
            q.wf(),
            q@.base_offset == base,
            q@.next_offset == base + i,
            p <= b@.len(),
            parse_messages(b@, o + 16, i as nat) == Some((q@.messages, p as int)),
        decreases n - i,
    {
        if p >= b.len() {
            proof {
                assert(parse_messages(b@, o + 16, (i + 1) as nat) is None);
                lemma_parse_messages_stops(b@, o + 16, (i + 1) as nat, n as nat);
            }
            return None;
        }
        let len = b[p] as usize;
        if len > b.len() - p - 1 {
            proof {
                assert(parse_messages(b@, o + 16, (i + 1) as nat) is None);
                lemma_parse_messages_stops(b@, o + 16, (i + 1) as nat, n as nat);
            }
            return None;
        }
        let m = vstd::slice::slice_subrange(b, p + 1, p + 1 + len);
        proof {
            lemma_queue_bounds(q);
        }
        let ghost before = q@;
        q.append(m);
        assert(m@.len() <= MAX_MSG_SIZE);
        assert(crate::topic::stored_form(m@) == m@);
        assert(q@.messages == before.messages.push(m@));
        p = p + 1 + len;
        i = i + 1;
    }
    Some((q, p))
}

/// A consumer group as stored: its id, its consumer count and its rings.
pub struct GroupSnapshot {
    pub group_id: u16,
    pub consumers: u32,
    pub partitions: Seq<QueueView>,
}

/// A topic as stored: its id, its staging ring and its groups.
pub struct TopicSnapshot {
    pub topic_id: u16,
    pub staging: QueueView,
    pub groups: Seq<GroupSnapshot>,
}

pub open spec fn group_snapshot(g: ConsumerGroup) -> GroupSnapshot {
    GroupSnapshot {
        group_id: g.group_id,
        consumers: g.consumer_count,
        partitions: g.partitions@.map_values(|p: Partition| p.queue@),
    }
}

/// What a topic's stored form records of it.
pub open spec fn topic_snapshot(t: Topic) -> TopicSnapshot {
    TopicSnapshot {
        topic_id: t.topic_id,
        staging: t.staging@,
        groups: t.cgroups@.map_values(|g: ConsumerGroup| group_snapshot(g)),
    }
}

/// Rings stored one after another.
pub open spec fn rings_bytes(qs: Seq<QueueView>) -> Seq<u8>
    decreases qs.len(),
{
    if qs.len() == 0 {
        Seq::empty()
    } else {
        rings_bytes(qs.drop_last()) + ring_bytes(qs.last())
    }
}

/// The stored form of a group: its id, its consumer count, how many rings
/// follow, and the rings.
pub open spec fn group_bytes(g: GroupSnapshot) -> Seq<u8> {
    be16(g.group_id) + be32(g.consumers) + be64(g.partitions.len() as u64) + rings_bytes(g.partitions)
}

/// Groups stored one after another.
pub open spec fn groups_bytes(gs: Seq<GroupSnapshot>) -> Seq<u8>
    decreases gs.len(),
{
    if gs.len() == 0 {
        Seq::empty()
    } else {
        groups_bytes(gs.drop_last()) + group_bytes(gs.last())
    }
}

/// The stored form of a topic: its id, its staging ring, how many groups
/// follow, and the groups.
pub open spec fn topic_bytes(t: TopicSnapshot) -> Seq<u8> {
    be16(t.topic_id) + ring_bytes(t.staging) + be64(t.groups.len() as u64) + groups_bytes(t.groups)
}

/// The first `n` rings stored from position `o`, and where they end.
pub open spec fn parse_rings(b: Seq<u8>, o: int, n: nat) -> Option<(Seq<QueueView>, int)>
    decreases n,
{
    if n == 0 {
        Some((Seq::empty(), o))
    } else {
        match parse_rings(b, o, (n - 1) as nat) {
            Some((qs, p)) => match parse_ring(b, p) {
                Some((q, e)) => Some((qs.push(q), e)),
                None => None,
            },
            None => None,
        }
    }
}

/// The group stored at position `o`, and where it ends; a group has at least
/// one ring.
pub open spec fn parse_group(b: Seq<u8>, o: int) -> Option<(GroupSnapshot, int)> {
    if o < 0 || o + 14 > b.len() || u64_at(b, o + 6) == 0 {
        None
    } else {
        match parse_rings(b, o + 14, u64_at(b, o + 6) as nat) {
            Some((qs, e)) => Some((GroupSnapshot { group_id: u16_at(b, o), consumers: u32_at(b, o + 2), partitions: qs }, e)),
            None => None,
        }
    }
}

/// The first `n` groups stored from position `o`, and where they end.
pub open spec fn parse_groups(b: Seq<u8>, o: int, n: nat) -> Option<(Seq<GroupSnapshot>, int)>
    decreases n,
{
    if n == 0 {
        Some((Seq::empty(), o))
    } else {
        match parse_groups(b, o, (n - 1) as nat) {
            Some((gs, p)) => match parse_group(b, p) {
                Some((g, e)) => Some((gs.push(g), e)),
                None => None,
            },
            None => None,
        }
    }
}

/// The topic a stored form holds; bytes after it are ignored.
pub open spec fn parse_topic(b: Seq<u8>) -> Option<TopicSnapshot> {
    if b.len() < 2 {
        None
    } else {
        match parse_ring(b, 2) {
            Some((staging, p)) => if p + 8 > b.len() {
                None
            } else {
                match parse_groups(b, p + 8, u64_at(b, p) as nat) {
                    Some((gs, _)) => Some(TopicSnapshot { topic_id: u16_at(b, 0), staging, groups: gs }),
                    None => None,
                }
            },
            None => None,
        }
    }
}

proof fn lemma_parse_rings_stops(b: Seq<u8>, o: int, k: nat, n: nat)
    requires
        k <= n,
        parse_rings(b, o, k) is None,
    ensures
        parse_rings(b, o, n) is None,
    decreases n,
{
    if n > k {
        lemma_parse_rings_stops(b, o, k, (n - 1) as nat);
    }
}

proof fn lemma_parse_groups_stops(b: Seq<u8>, o: int, k: nat, n: nat)
    requires
        k <= n,
        parse_groups(b, o, k) is None,
    ensures
        parse_groups(b, o, n) is None,
    decreases n,
{
    if n > k {
        lemma_parse_groups_stops(b, o, k, (n - 1) as nat);
    }
}

/// The rings of a group's partitions, in order.
pub open spec fn rings_of(ps: Seq<Partition>) -> Seq<QueueView> {
    ps.map_values(|p: Partition| p.queue@)
}

/// Reads `n` rings stored from position `o` as partitions.
fn read_rings(b: &[u8], o: usize, n: u64) -> (r: Option<(Vec<Partition>, usize)>)
    ensures
        match r {
            Some((ps, e)) => (forall|i: int| 0 <= i < ps@.len() ==> #[trigger] ps@[i].wf()) && parse_rings(b@, o as int, n as nat)
                == Some((rings_of(ps@), e as int)),
            None => parse_rings(b@, o as int, n as nat) is None,
        },
{
    let mut ps: Vec<Partition> = Vec::new();
    let mut p: usize = o;
    let mut i: u64 = 0;
    assert(rings_of(ps@) =~= Seq::<QueueView>::empty());
    while i < n
        invariant
            i <= n,
            forall|j: int| 0 <= j < ps@.len() ==> #[trigger] ps@[j].wf(),
            parse_rings(b@, o as int, i as nat) == Some((rings_of(ps@), p as int)),
        decreases n - i,
    {
        match read_ring(b, p) {
            Some((q, e)) => {
                let ghost before = ps@;
                ps.push(Partition { queue: q });
                p = e;
                i = i + 1;
                assert(rings_of(ps@) =~= rings_of(before).push(q@));
            },
            None => {
                proof {
                    assert(parse_rings(b@, o as int, (i + 1) as nat) is None);
                    lemma_parse_rings_stops(b@, o as int, (i + 1) as nat, n as nat);
                }
                return None;
            },
        }
    }
    Some((ps, p))
}

/// Reads the group stored at position `o` (see `parse_group`).
fn read_group(b: &[u8], o: usize) -> (r: Option<(ConsumerGroup, usize)>)
    ensures
        match r {
            Some((g, e)) => g.partitions_wf() && g.partitions@.len() >= 1 && parse_group(b@, o as int) == Some(
                (group_snapshot(g), e as int),
            ),
            None => parse_group(b@, o as int) is None,
        },
{
    if o > b.len() || b.len() - o < 14 {
        return None;
    }
    let group_id = get_u16(b, o);
    let consumers = get_u32(b, o + 2);
    let n = get_u64(b, o + 6);
    if n == 0 {
        return None;
    }
    match read_rings(b, o + 14, n) {
        Some((partitions, e)) => {
            let g = ConsumerGroup { group_id, partitions, consumer_count: consumers };
            proof {
                assert(parse_rings(b@, o + 14, n as nat) matches Some((qs, _)) && qs.len() == n) by {
                    lemma_parse_rings_len(b@, o + 14, n as nat);
                }
                assert(group_snapshot(g).partitions == rings_of(g.partitions@));
            }
            Some((g, e))
        },
        None => None,
    }
}

proof fn lemma_parse_rings_len(b: Seq<u8>, o: int, n: nat)
    ensures
        parse_rings(b, o, n) matches Some((qs, _)) ==> qs.len() == n,
    decreases n,
{
    if n > 0 {
        lemma_parse_rings_len(b, o, (n - 1) as nat);
    }
}

/// Reads a stored topic (see `parse_topic`).
pub fn decode_topic(b: &[u8]) -> (r: Result<Topic, DmqError>)
    ensures
        match r {
            Ok(t) => t.wf() && parse_topic(b@) == Some(topic_snapshot(t)),
            Err(e) => e == DmqError::CorruptTopic && parse_topic(b@) is None,
        },
{
    if b.len() < 2 {
        return Err(DmqError::CorruptTopic);
    }
    let topic_id = get_u16(b, 0);
    let (staging, p) = match read_ring(b, 2) {
        Some(v) => v,
        None => {
            return Err(DmqError::CorruptTopic);
        },
    };
    if p > b.len() || b.len() - p < 8 {
        return Err(DmqError::CorruptTopic);
    }
    let n = get_u64(b, p);
    let mut groups: Vec<ConsumerGroup> = Vec::new();
    let mut q: usize = p + 8;
    let mut i: u64 = 0;
    let ghost gsnap = |g: ConsumerGroup| group_snapshot(g);
    assert(groups@.map_values(gsnap) =~= Seq::<GroupSnapshot>::empty());
    while i < n
        invariant
            i <= n,
            forall|j: int| 0 <= j < groups@.len() ==> #[trigger] groups@[j].partitions_wf() && groups@[j].partitions@.len()
                >= 1,
            parse_groups(b@, (p + 8) as int, i as nat) == Some((groups@.map_values(gsnap), q as int)),
            gsnap == (|g: ConsumerGroup| group_snapshot(g)),
            b@.len() >= 2,
            p + 8 <= b@.len(),
            n == u64_at(b@, p as int),
            parse_ring(b@, 2) == Some((staging@, p as int)),
        decreases n - i,
    {
        match read_group(b, q) {
            Some((g, e)) => {
                let ghost before = groups@;
                groups.push(g);
                q = e;
                i = i + 1;
                assert(groups@.map_values(gsnap) =~= before.map_values(gsnap).push(group_snapshot(g)));
            },
            None => {
                proof {
                    assert(parse_groups(b@, (p + 8) as int, (i + 1) as nat) is None);
                    lemma_parse_groups_stops(b@, (p + 8) as int, (i + 1) as nat, n as nat);
                }
                return Err(DmqError::CorruptTopic);
            },
        }
    }
    let t = Topic { topic_id, staging, cgroups: groups };
    assert(topic_snapshot(t).groups =~= groups@.map_values(gsnap));
    Ok(t)
}

/// A group as it can be stored: at least one ring, each storable, and a
/// count of rings that fits its field.
pub open spec fn valid_group(g: GroupSnapshot) -> bool {
    &&& 1 <= g.partitions.len() <= u64::MAX
    &&& forall|i: int| 0 <= i < g.partitions.len() ==> #[trigger] valid_ring(g.partitions[i])
}

/// A topic as it can be stored.
pub open spec fn valid_topic(t: TopicSnapshot) -> bool {
    &&& valid_ring(t.staging)
    &&& t.groups.len() <= u64::MAX
    &&& forall|i: int| 0 <= i < t.groups.len() ==> #[trigger] valid_group(t.groups[i])
}

fn put_rings(out: &mut Vec<u8>, ps: &Vec<Partition>)
    requires
        forall|i: int| 0 <= i < ps@.len() ==> #[trigger] ps@[i].wf(),
    ensures
        final(out)@ == old(out)@ + rings_bytes(rings_of(ps@)),
        forall|i: int| 0 <= i < ps@.len() ==> #[trigger] valid_ring(rings_of(ps@)[i]),
{
    let ghost start = out@;
    let mut i: usize = 0;
    assert(rings_of(ps@).take(0) =~= Seq::<QueueView>::empty());
    while i < ps.len()
        invariant
            i <= ps@.len(),
            forall|j: int| 0 <= j < ps@.len() ==> #[trigger] ps@[j].wf(),
            out@ == start + rings_bytes(rings_of(ps@).take(i as int)),
            forall|j: int| 0 <= j < i ==> #[trigger] valid_ring(rings_of(ps@)[j]),
        decreases ps@.len() - i,
    {
        assert(ps@[i as int].wf());
        put_ring(out, &ps[i].queue);
        proof {
            let t = rings_of(ps@).take(i + 1);
            assert(t.drop_last() =~= rings_of(ps@).take(i as int));
            assert(t.last() == ps@[i as int].queue@);
        }
        i = i + 1;
        assert(out@ =~= start + rings_bytes(rings_of(ps@).take(i as int)));
    }
    assert(rings_of(ps@).take(i as int) =~= rings_of(ps@));
}

fn put_group(out: &mut Vec<u8>, g: &ConsumerGroup)
    requires
        g.partitions_wf(),
        g.partitions@.len() >= 1,
    ensures
        final(out)@ == old(out)@ + group_bytes(group_snapshot(*g)),
        valid_group(group_snapshot(*g)),
{
    let ghost start = out@;
    put_u16(out, g.group_id);
    put_u32(out, g.consumer_count);
    put_u64(out, g.partitions.len() as u64);
    put_rings(out, &g.partitions);
    assert(group_snapshot(*g).partitions == rings_of(g.partitions@));
    assert(out@ =~= start + group_bytes(group_snapshot(*g)));
}

/// The stored form of a topic (see `topic_bytes`).
pub fn encode_topic(t: &Topic) -> (out: Vec<u8>)
    requires
        t.wf(),
    ensures
        out@ == topic_bytes(topic_snapshot(*t)),
        valid_topic(topic_snapshot(*t)),
{
    let mut out: Vec<u8> = Vec::new();
    put_u16(&mut out, t.topic_id);
    put_ring(&mut out, &t.staging);
    put_u64(&mut out, t.cgroups.len() as u64);
    let ghost head = out@;
    let ghost gs = t.cgroups@.map_values(|g: ConsumerGroup| group_snapshot(g));
    let mut i: usize = 0;
    assert(gs.take(0) =~= Seq::<GroupSnapshot>::empty());
    while i < t.cgroups.len()
        invariant
            i <= t.cgroups@.len(),
            t.wf(),
            gs == t.cgroups@.map_values(|g: ConsumerGroup| group_snapshot(g)),
            out@ == head + groups_bytes(gs.take(i as int)),
            forall|j: int| 0 <= j < i ==> #[trigger] valid_group(gs[j]),
        decreases t.cgroups@.len() - i,
    {
        assert(t.cgroups@[i as int].partitions_wf() && t.cgroups@[i as int].partitions@.len() >= 1);
        put_group(&mut out, &t.cgroups[i]);
        proof {
            let tk = gs.take(i + 1);
            assert(tk.drop_last() =~= gs.take(i as int));
            assert(tk.last() == group_snapshot(t.cgroups@[i as int]));
        }
        i = i + 1;
        assert(out@ =~= head + groups_bytes(gs.take(i as int)));
    }
    assert(gs.take(i as int) =~= gs);
    assert(topic_snapshot(*t).groups == gs);
    out
}

proof fn lemma_rings_bytes_at(b: Seq<u8>, o: int, qs: Seq<QueueView>)
    requires
        0 <= o,
        o + rings_bytes(qs).len() <= b.len(),
        b.subrange(o, o + rings_bytes(qs).len()) == rings_bytes(qs),
        forall|i: int| 0 <= i < qs.len() ==> #[trigger] valid_ring(qs[i]),
    ensures
        parse_rings(b, o, qs.len()) == Some((qs, o + rings_bytes(qs).len())),
    decreases qs.len(),
{
    if qs.len() > 0 {
        let init = qs.drop_last();
        let q = qs.last();
        let ri = rings_bytes(init);
        let whole = rings_bytes(qs);
        assert(whole == ri + ring_bytes(q));
        assert forall|i: int| 0 <= i < init.len() implies #[trigger] valid_ring(init[i]) by {
            assert(init[i] == qs[i]);
        }
        assert(b.subrange(o, o + ri.len()) =~= whole.subrange(0, ri.len() as int));
        assert(whole.subrange(0, ri.len() as int) =~= ri);
        lemma_rings_bytes_at(b, o, init);
        let p = o + ri.len();
        assert(valid_ring(qs[qs.len() - 1]));
        assert(b.subrange(p, p + ring_bytes(q).len()) =~= whole.subrange(ri.len() as int, whole.len() as int));
        assert(whole.subrange(ri.len() as int, whole.len() as int) =~= ring_bytes(q));
        lemma_ring_roundtrip(b, p, q);
        assert(init.push(q) =~= qs);
    }
}

proof fn lemma_group_at(b: Seq<u8>, o: int, g: GroupSnapshot)
    requires
        0 <= o,
        o + group_bytes(g).len() <= b.len(),
        b.subrange(o, o + group_bytes(g).len()) == group_bytes(g),
        valid_group(g),
    ensures
        parse_group(b, o) == Some((g, o + group_bytes(g).len())),
{
    let w = group_bytes(g);
    let n = g.partitions.len() as u64;
    let rb = rings_bytes(g.partitions);
    assert(b.subrange(o, o + 2) =~= w.subrange(0, 2));
    assert(w.subrange(0, 2) =~= be16(g.group_id));
    assert(b.subrange(o + 2, o + 6) =~= w.subrange(2, 6));
    assert(w.subrange(2, 6) =~= be32(g.consumers));
    assert(b.subrange(o + 6, o + 14) =~= w.subrange(6, 14));
    assert(w.subrange(6, 14) =~= be64(n));
    lemma_u16_window(b, o, g.group_id);
    lemma_u32_window(b, o + 2, g.consumers);
    lemma_u64_window(b, o + 6, n);
    assert(b.subrange(o + 14, o + 14 + rb.len()) =~= w.subrange(14, w.len() as int));
    assert(w.subrange(14, w.len() as int) =~= rb);
    lemma_rings_bytes_at(b, o + 14, g.partitions);
}

proof fn lemma_groups_bytes_at(b: Seq<u8>, o: int, gs: Seq<GroupSnapshot>)
    requires
        0 <= o,
        o + groups_bytes(gs).len() <= b.len(),
        b.subrange(o, o + groups_bytes(gs).len()) == groups_bytes(gs),
        forall|i: int| 0 <= i < gs.len() ==> #[trigger] valid_group(gs[i]),
    ensures
        parse_groups(b, o, gs.len()) == Some((gs, o + groups_bytes(gs).len())),
    decreases gs.len(),
{
    if gs.len() > 0 {
        let init = gs.drop_last();
        let g = gs.last();
        let gi = groups_bytes(init);
        let whole = groups_bytes(gs);
        assert(whole == gi + group_bytes(g));
        assert forall|i: int| 0 <= i < init.len() implies #[trigger] valid_group(init[i]) by {
            assert(init[i] == gs[i]);
        }
        assert(b.subrange(o, o + gi.len()) =~= whole.subrange(0, gi.len() as int));
        assert(whole.subrange(0, gi.len() as int) =~= gi);
        lemma_groups_bytes_at(b, o, init);
        let p = o + gi.len();
        assert(valid_group(gs[gs.len() - 1]));
        assert(b.subrange(p, p + group_bytes(g).len()) =~= whole.subrange(gi.len() as int, whole.len() as int));
        assert(whole.subrange(gi.len() as int, whole.len() as int) =~= group_bytes(g));
        lemma_group_at(b, p, g);
        assert(init.push(g) =~= gs);
    }
}

/// A stored topic reads back as the topic that was stored: its id, its
/// staging ring and, group by group, the id, the consumer count and each
/// partition's ring.
pub proof fn lemma_topic_roundtrip(t: TopicSnapshot)
    requires
        valid_topic(t),
    ensures
        parse_topic(topic_bytes(t)) == Some(t),
{
    let b = topic_bytes(t);
    let rb = ring_bytes(t.staging);
    let n = t.groups.len() as u64;
    let gb = groups_bytes(t.groups);
    let h = be16(t.topic_id);
    let b2 = h + rb;
    let b3 = b2 + be64(n);
    assert(b == b3 + gb);
    let p: int = 2 + rb.len() as int;
    assert(b2.len() == p);
    assert(b3.len() == p + 8);
    assert(b.subrange(0, 2) =~= h) by {
        assert(b.subrange(0, 2) =~= b3.subrange(0, 2));
        assert(b3.subrange(0, 2) =~= b2.subrange(0, 2));
    }
    lemma_u16_window(b, 0, t.topic_id);
    assert(b.subrange(2, p) =~= rb) by {
        assert(b.subrange(2, p) =~= b3.subrange(2, p));
        assert(b3.subrange(2, p) =~= b2.subrange(2, p));
    }
    lemma_ring_roundtrip(b, 2, t.staging);
    assert(b.subrange(p, p + 8) =~= be64(n)) by {
        assert(b.subrange(p, p + 8) =~= b3.subrange(p, p + 8));
    }
    lemma_u64_window(b, p, n);
    assert(b.subrange(p + 8, p + 8 + gb.len() as int) =~= gb);
    lemma_groups_bytes_at(b, p + 8, t.groups);
}

/// The topic's vectors are no longer than a `usize` counts, as every vector
/// in memory is.
pub open spec fn vec_lengths_fit(t: Topic) -> bool {
    &&& t.cgroups@.len() <= usize::MAX
    &&& forall|i: int| 0 <= i < t.cgroups@.len() ==> #[trigger] t.cgroups@[i].partitions@.len() <= usize::MAX
}

/// Every well-formed topic can be stored.
pub proof fn lemma_topic_valid(t: Topic)
    requires
        t.wf(),
        vec_lengths_fit(t),
    ensures
        valid_topic(topic_snapshot(t)),
{
    lemma_queue_bounds(t.staging);
    let gs = topic_snapshot(t).groups;
    assert(gs.len() == t.cgroups@.len());
    assert forall|i: int| 0 <= i < gs.len() implies #[trigger] valid_group(gs[i]) by {
        let g = t.cgroups@[i];
        assert(t.cgroups@[i].partitions_wf());
        assert(g.partitions@.len() >= 1);
        assert(g.partitions@.len() <= usize::MAX);
        assert(gs[i] == group_snapshot(g));
        let qs = gs[i].partitions;
        assert forall|j: int| 0 <= j < qs.len() implies #[trigger] valid_ring(qs[j]) by {
            assert(g.partitions@[j].wf());
            lemma_queue_bounds(g.partitions@[j].queue);
            assert(qs[j] == g.partitions@[j].queue@);
        }
    }
}

/// What a broker stores of a topic restores it: reading the stored form back
/// gives the same staging ring and, group by group, the same id, consumer
/// count and partition rings.
pub proof fn lemma_stored_topic_restores(t: Topic)
    requires
        t.wf(),
        vec_lengths_fit(t),
    ensures
        parse_topic(topic_bytes(topic_snapshot(t))) == Some(topic_snapshot(t)),
{
    lemma_topic_valid(t);
    lemma_topic_roundtrip(topic_snapshot(t));
}

} // verus!

//! Consumer group coordinator: join, heartbeat, expiry and range partition
//! assignment.

use crate::cluster::copy_ids;
use crate::error::DmqError;
use std::collections::HashMap;
use vstd::prelude::*;

verus! {

broadcast use vstd::std_specs::hash::group_hash_axioms;

#[derive(Debug, Clone, PartialEq, Eq)]
pub struct GroupMember {
    pub member_id: u64,
    pub generation: u32,
    pub assigned_partitions: Vec<u16>,
    pub last_seen_ms: u64,
}

pub struct GroupMemberView {
    pub member_id: u64,
    pub generation: u32,
    pub assigned_partitions: Seq<u16>,
    pub last_seen_ms: u64,
}

impl View for GroupMember {
    type V = GroupMemberView;

    open spec fn view(&self) -> GroupMemberView {
        GroupMemberView {
            member_id: self.member_id,
            generation: self.generation,
            assigned_partitions: self.assigned_partitions@,
            last_seen_ms: self.last_seen_ms,
        }
    }
}

/// The members of a group, each by its view.
pub open spec fn members_view(m: Map<u64, GroupMember>) -> Map<u64, GroupMemberView> {
    m.map_values(|g: GroupMember| g@)
}

/// The partitions `start .. start + count`.
pub open spec fn partition_range(start: nat, count: nat) -> Seq<u16> {
    Seq::new(count, |j: int| (start + j) as u16)
}

/// How many of `ids` are smaller than `id`: its place in ascending order.
pub open spec fn rank(ids: Set<u64>, id: u64) -> nat {
    ids.filter(|e: u64| e < id).len()
}

/// Where the range of the member at place `r` starts, when `count` partitions
/// are split over `n` members: each gets `count / n`, the first `count % n` one more.
pub open spec fn range_start(r: nat, n: nat, count: nat) -> nat {
    r * (count / n) + if r < count % n {
        r
    } else {
        count % n
    }
}

pub open spec fn range_len(r: nat, n: nat, count: nat) -> nat {
    count / n + if r < count % n {
        1nat
    } else {
        0nat
    }
}

/// The range assignment of `count` partitions over the member ids `ids`:
/// contiguous ranges in ascending id order, sizes differing by at most one.
pub open spec fn assignment(ids: Set<u64>, count: u16) -> Map<u64, Seq<u16>> {
    if ids.len() == 0 || count == 0 {
        Map::empty()
    } else {
        Map::new(
            |id: u64| ids.contains(id),
            |id: u64| partition_range(range_start(rank(ids, id), ids.len(), count as nat), range_len(rank(ids, id), ids.len(), count as nat)),
        )
    }
}

/// A member takes part in an assignment when it is of the current generation or
/// holds no partitions yet.
pub open spec fn eligible(m: GroupMemberView, generation: u32) -> bool {
    m.generation == generation || m.assigned_partitions.len() == 0
}

/// The ids that an assignment is made over: those of the eligible members, or,
/// if none is eligible, every key.
pub open spec fn assignee_ids(members: Map<u64, GroupMemberView>, generation: u32) -> Set<u64> {
    if exists|k: u64| #[trigger] members.contains_key(k) && eligible(members[k], generation) {
        Set::new(
            |id: u64|
                exists|k: u64| #[trigger] members.contains_key(k) && eligible(members[k], generation) && members[k].member_id == id,
        )
    } else {
        members.dom()
    }
}

pub open spec fn strictly_sorted(s: Seq<u64>) -> bool {
    forall|i: int, j: int| 0 <= i < j < s.len() ==> s[i] < s[j]
}

/// Adds `x` to a strictly ascending vector, keeping it so.
pub(crate) fn insert_sorted(v: &mut Vec<u64>, x: u64)
    requires
        strictly_sorted(old(v)@),
    ensures
        strictly_sorted(final(v)@),
        final(v)@.to_set() == old(v)@.to_set().insert(x),
        final(v)@.len() <= old(v)@.len() + 1,
{
    let mut i: usize = 0;
    while i < v.len() && v[i] < x
        invariant
            i <= v@.len(),
            v@ == old(v)@,
            strictly_sorted(v@),
            forall|j: int| 0 <= j < i ==> v@[j] < x,
        decreases v@.len() - i,
    {
        i = i + 1;
    }
    if i < v.len() && v[i] == x {
        assert(v@.to_set() =~= old(v)@.to_set().insert(x)) by {
            assert(v@.contains(x));
        }
        return;
    }
    let ghost before = v@;
    v.insert(i, x);
    assert forall|a: int, b: int| 0 <= a < b < v@.len() implies v@[a] < v@[b] by {
        if b < i {
            assert(v@[a] == before[a] && v@[b] == before[b]);
        } else if b == i {
            assert(v@[a] == before[a]);
        } else if a < i {
            assert(v@[a] == before[a] && v@[b] == before[b - 1]);
            assert(before[i as int] > x);
            if b - 1 > i {
                assert(before[i as int] < before[b - 1]);
            }
        } else if a == i {
            assert(v@[b] == before[b - 1]);
            assert(before[i as int] > x);
            if b - 1 > i {
                assert(before[i as int] < before[b - 1]);
            }
        } else {
            assert(v@[a] == before[a - 1] && v@[b] == before[b - 1]);
        }
    }
    assert forall|y: u64| v@.contains(y) <==> before.contains(y) || y == x by {
        if v@.contains(y) {
            let j = choose|j: int| 0 <= j < v@.len() && v@[j] == y;
            if j < i {
                assert(before[j] == y);
            } else if j > i {
                assert(before[j - 1] == y);
            }
        }
        if before.contains(y) {
            let j = choose|j: int| 0 <= j < before.len() && before[j] == y;
            if j < i {
                assert(v@[j] == y);
            } else {
                assert(v@[j + 1] == y);
            }
        }
        if y == x {
            assert(v@[i as int] == x);
        }
    }
    assert(before == old(v)@);
    assert forall|y: u64| #[trigger] v@.to_set().contains(y) <==> old(v)@.to_set().insert(x).contains(y) by {
        assert(v@.contains(y) <==> before.contains(y) || y == x);
    }
    assert(v@.to_set() =~= old(v)@.to_set().insert(x));
}

/// The ids an assignment is made over (see `assignee_ids`), ascending.
fn collect_assignee_ids(members: &HashMap<u64, GroupMember>, generation: u32) -> (ids: Vec<u64>)
    ensures
        strictly_sorted(ids@),
        ids@.to_set() == assignee_ids(members_view(members@), generation),
{
    let ghost mv = members_view(members@);
    let mut ids: Vec<u64> = Vec::new();
    for entry in it: members.iter()
        invariant
            mv == members_view(members@),
            forall|i: int| 0 <= i < it.seq().len() ==> #[trigger] members@.contains_key(*it.seq()[i].0)
                && members@[*it.seq()[i].0] == *it.seq()[i].1,
            forall|k: u64| #[trigger] members@.contains_key(k) ==> it.seq().contains((&k, &members@[k])),
            strictly_sorted(ids@),
            forall|id: u64| #[trigger] ids@.to_set().contains(id) ==> exists|k: u64| #[trigger] members@.contains_key(k)
                && eligible(mv[k], generation) && mv[k].member_id == id,
            forall|k: u64| #[trigger] members@.contains_key(k) && eligible(mv[k], generation) ==> ids@.to_set().contains(
                mv[k].member_id,
            ) || exists|j: int| it.index() <= j < it.seq().len() && *it.seq()[j].0 == k,
    {
        let (key, m) = entry;
        let ghost n = it.index();
        let ghost before = ids@;
        proof {
            assert(it.seq()[n] == entry);
            assert(members@.contains_key(*key) && members@[*key] == *m);
        }
        if m.generation == generation || m.assigned_partitions.len() == 0 {
            insert_sorted(&mut ids, m.member_id);
        }
        proof {
            assert(mv[*key] == m@);
            assert forall|id: u64| #[trigger] ids@.to_set().contains(id) implies exists|k: u64| #[trigger] members@.contains_key(k)
                && eligible(mv[k], generation) && mv[k].member_id == id by {
                if !before.to_set().contains(id) {
                    assert(members@.contains_key(*key));
                }
            }
            assert forall|k: u64| #[trigger] members@.contains_key(k) && eligible(mv[k], generation) implies ids@.to_set().contains(
                mv[k].member_id,
            ) || exists|j: int| n + 1 <= j < it.seq().len() && *it.seq()[j].0 == k by {
                if !before.to_set().contains(mv[k].member_id) {
                    let j = choose|j: int| n <= j < it.seq().len() && *it.seq()[j].0 == k;
                    if j == n {
                        assert(k == *key);
                        assert(ids@.to_set().contains(m.member_id));
                    } else {
                        assert(n + 1 <= j);
                    }
                }
            }
        }
    }
    let ghost eligible_ids = Set::new(
        |id: u64| exists|k: u64| #[trigger] members@.contains_key(k) && eligible(mv[k], generation) && mv[k].member_id == id,
    );
    assert forall|k: u64| #[trigger] members@.contains_key(k) && eligible(mv[k], generation) implies ids@.to_set().contains(
        mv[k].member_id,
    ) by {
        assert(members@.contains_key(k));
    }
    if ids.len() > 0 {
        proof {
            let id0 = ids@[0];
            assert(ids@.to_set().contains(id0));
            assert(mv.dom() =~= members@.dom());
            let k0 = choose|k: u64| #[trigger] members@.contains_key(k) && eligible(mv[k], generation) && mv[k].member_id == id0;
            assert(mv.contains_key(k0) && eligible(mv[k0], generation));
            assert forall|id: u64| #[trigger] ids@.to_set().contains(id) <==> assignee_ids(mv, generation).contains(id) by {
                if ids@.to_set().contains(id) {
                    let k = choose|k: u64| #[trigger] members@.contains_key(k) && eligible(mv[k], generation) && mv[k].member_id == id;
                    assert(mv.contains_key(k));
                }
                if assignee_ids(mv, generation).contains(id) {
                    let k = choose|k: u64| #[trigger] mv.contains_key(k) && eligible(mv[k], generation) && mv[k].member_id == id;
                    assert(members@.contains_key(k));
                }
            }
            assert(ids@.to_set() =~= assignee_ids(mv, generation));
        }
        return ids;
    }
    proof {
        assert forall|k: u64| #[trigger] members@.contains_key(k) implies !eligible(mv[k], generation) by {
            if eligible(mv[k], generation) {
                assert(ids@.to_set().contains(mv[k].member_id));
            }
        }
    }
    for entry in it: members.iter()
        invariant
            mv == members_view(members@),
            forall|k: u64| #[trigger] members@.contains_key(k) ==> !eligible(mv[k], generation),
            forall|i: int| 0 <= i < it.seq().len() ==> #[trigger] members@.contains_key(*it.seq()[i].0)
                && members@[*it.seq()[i].0] == *it.seq()[i].1,
            forall|k: u64| #[trigger] members@.contains_key(k) ==> it.seq().contains((&k, &members@[k])),
            strictly_sorted(ids@),
            forall|id: u64| #[trigger] ids@.to_set().contains(id) ==> members@.contains_key(id),
            forall|k: u64| #[trigger] members@.contains_key(k) ==> ids@.to_set().contains(k) || exists|j: int|
                it.index() <= j < it.seq().len() && *it.seq()[j].0 == k,
    {
        let (key, m) = entry;
        let ghost n = it.index();
        let ghost before = ids@;
        proof {
            assert(it.seq()[n] == entry);
            assert(members@.contains_key(*key));
        }
        insert_sorted(&mut ids, *key);
        proof {
            assert forall|k: u64| #[trigger] members@.contains_key(k) implies ids@.to_set().contains(k) || exists|j: int|
                n + 1 <= j < it.seq().len() && *it.seq()[j].0 == k by {
                if !before.to_set().contains(k) {
                    let j = choose|j: int| n <= j < it.seq().len() && *it.seq()[j].0 == k;
                    if j == n {
                        assert(k == *key);
                    } else {
                        assert(n + 1 <= j);
                    }
                }
            }
        }
    }
    assert forall|k: u64| #[trigger] members@.contains_key(k) implies ids@.to_set().contains(k) by {
        assert(members@.contains_key(k));
    }
    assert(ids@.to_set() =~= members@.dom());
    assert(mv.dom() =~= members@.dom());
    ids
}

/// Consecutive places get consecutive ranges, and the last range ends at `count`.
pub proof fn lemma_ranges_tile(n: nat, count: nat, r: nat)
    requires
        n > 0,
        r < n,
    ensures
        range_start(0, n, count) == 0,
        range_start(r + 1, n, count) == range_start(r, n, count) + range_len(r, n, count),
        range_start(n, n, count) == count,
        range_start(r, n, count) + range_len(r, n, count) <= count,
        range_len(r, n, count) == count / n || range_len(r, n, count) == count / n + 1,
{
    let b = count / n;
    let e = count % n;
    vstd::arithmetic::div_mod::lemma_fundamental_div_mod(count as int, n as int);
    assert(e < n);
    assert((r + 1) * b == r * b + b) by (nonlinear_arith);
    assert(r * b + b <= n * b) by (nonlinear_arith)
        requires
            r < n,
    ;
    assert(count == n * b + e);
    assert(0 * b == 0) by (nonlinear_arith);
}

/// Every partition below `count` falls in the range of some place.
pub proof fn lemma_ranges_cover(n: nat, count: nat, k: nat, p: nat)
    requires
        n > 0,
        k <= n,
        p < range_start(k, n, count),
    ensures
        exists|r: nat| r < k && #[trigger] range_start(r, n, count) <= p < range_start(r, n, count) + range_len(r, n, count),
    decreases k,
{
    if k > 0 {
        let r = (k - 1) as nat;
        lemma_ranges_tile(n, count, r);
        if p < range_start(r, n, count) {
            lemma_ranges_cover(n, count, r, p);
        } else {
            assert(range_start(r, n, count) <= p < range_start(r, n, count) + range_len(r, n, count));
        }
    } else {
        lemma_ranges_tile(n, count, 0);
    }
}

/// In a strictly ascending sequence, the element at `i` has exactly `i` smaller
/// elements, and the sequence is as long as its set.
pub proof fn lemma_rank_sorted(s: Seq<u64>, i: int)
    requires
        strictly_sorted(s),
        0 <= i < s.len(),
    ensures
        rank(s.to_set(), s[i]) == i,
        s.to_set().len() == s.len(),
{
    assert(s.no_duplicates()) by {
        assert forall|a: int, b: int| 0 <= a < s.len() && 0 <= b < s.len() && a != b implies s[a] != s[b] by {
            if a < b {
                assert(s[a] < s[b]);
            } else {
                assert(s[b] < s[a]);
            }
        }
    }
    s.unique_seq_to_set();
    let t = s.take(i);
    assert(t.no_duplicates()) by {
        assert forall|a: int, b: int| 0 <= a < t.len() && 0 <= b < t.len() && a != b implies t[a] != t[b] by {
            assert(t[a] == s[a] && t[b] == s[b]);
        }
    }
    t.unique_seq_to_set();
    let smaller = s.to_set().filter(|x: u64| x < s[i]);
    assert forall|e: u64| #[trigger] smaller.contains(e) <==> t.to_set().contains(e) by {
        if smaller.contains(e) {
            let j = choose|j: int| 0 <= j < s.len() && s[j] == e;
            if j >= i {
                if j > i {
                    assert(s[i] < s[j]);
                }
            }
            assert(t[j] == e);
        }
        if t.to_set().contains(e) {
            let j = choose|j: int| 0 <= j < t.len() && t[j] == e;
            assert(s[j] == e && s[j] < s[i]);
            assert(s.contains(e));
        }
    }
    assert(smaller =~= t.to_set());
}

/// The ranges for places `0 .. ids.len()`, when there is anything to split.
fn split_ranges(n: usize, partition_count: u16) -> (parts: Vec<Vec<u16>>)
    requires
        n > 0,
        partition_count > 0,
    ensures
        parts@.len() == n,
        forall|i: int| 0 <= i < n ==> #[trigger] parts@[i]@ == partition_range(
            range_start(i as nat, n as nat, partition_count as nat),
            range_len(i as nat, n as nat, partition_count as nat),
        ),
{
    let count = partition_count as usize;
    let base = count / n;
    let extra = count % n;
    let ghost N = n as nat;
    let ghost C = count as nat;
    let mut out: Vec<Vec<u16>> = Vec::new();
    let mut partition: u16 = 0;
    let mut idx: usize = 0;
    proof {
        lemma_ranges_tile(N, C, 0);
    }
    while idx < n
        invariant
            n > 0,
            N == n,
            C == count,
            count == partition_count,
            base == count / n,
            extra == count % n,
            idx <= n,
            out@.len() == idx,
            partition == range_start(idx as nat, N, C),
            forall|i: int| 0 <= i < idx ==> #[trigger] out@[i]@ == partition_range(
                range_start(i as nat, N, C),
                range_len(i as nat, N, C),
            ),
        decreases n - idx,
    {
        proof {
            lemma_ranges_tile(N, C, idx as nat);
        }
        let len: usize = if idx < extra {
            base + 1
        } else {
            base
        };
        assert(len == range_len(idx as nat, N, C));
        let ghost start = partition as nat;
        let mut parts: Vec<u16> = Vec::new();
        let mut k: usize = 0;
        while k < len
            invariant
                k <= len,
                len == range_len(idx as nat, N, C),
                start == range_start(idx as nat, N, C),
                start + len <= C,
                C <= u16::MAX,
                partition == start + k,
                parts@ == partition_range(start, k as nat),
            decreases len - k,
        {
            parts.push(partition);
            partition = partition.saturating_add(1);
            k = k + 1;
            assert(parts@ =~= partition_range(start, k as nat));
        }
        out.push(parts);
        idx = idx + 1;
    }
    out
}

/// The assignment as parallel lists: ascending ids and their ranges.
fn assignment_lists(partition_count: u16, members: &HashMap<u64, GroupMember>, generation: u32) -> (r: (
    Vec<u64>,
    Vec<Vec<u16>>,
))
    ensures
        r.0@.len() == r.1@.len(),
        r.0@.no_duplicates(),
        r.0@.to_set() == assignment(assignee_ids(members_view(members@), generation), partition_count).dom(),
        forall|i: int| 0 <= i < r.0@.len() ==> #[trigger] r.1@[i]@ == assignment(
            assignee_ids(members_view(members@), generation),
            partition_count,
        )[r.0@[i]],
{
    let ids = collect_assignee_ids(members, generation);
    let ghost e = ids@.to_set();
    let ghost target = assignment(e, partition_count);
    if ids.len() == 0 || partition_count == 0 {
        proof {
            if ids@.len() == 0 {
                assert(e =~= Set::<u64>::empty());
            }
        }
        let empty: Vec<u64> = Vec::new();
        assert(empty@.to_set() =~= target.dom());
        return (empty, Vec::new());
    }
    let n = ids.len();
    let parts = split_ranges(n, partition_count);
    proof {
        lemma_rank_sorted(ids@, 0);
        assert(ids@.to_set() =~= target.dom());
        assert forall|i: int| 0 <= i < ids@.len() implies #[trigger] parts@[i]@ == target[ids@[i]] by {
            lemma_rank_sorted(ids@, i);
            assert(e.contains(ids@[i]));
        }
        assert(ids@.no_duplicates()) by {
            assert forall|a: int, b: int| 0 <= a < ids@.len() && 0 <= b < ids@.len() && a != b implies ids@[a] != ids@[b] by {
                if a < b {
                    assert(ids@[a] < ids@[b]);
                } else {
                    assert(ids@[b] < ids@[a]);
                }
            }
        }
    }
    (ids, parts)
}

/// Splits `partition_count` partitions into contiguous ranges over the member ids,
/// in ascending id order (see `assignment`). The ids are those of the members of
/// `generation` or with no partitions yet; if there are none, all member ids.
pub fn range_assign(partition_count: u16, members: &HashMap<u64, GroupMember>, generation: u32) -> (out: HashMap<u64, Vec<u16>>)
    ensures
        out@.dom() == assignment(assignee_ids(members_view(members@), generation), partition_count).dom(),
        forall|id: u64| #[trigger] out@.contains_key(id) ==> out@[id]@ == assignment(
            assignee_ids(members_view(members@), generation),
            partition_count,
        )[id],
{
    let (ids, parts) = assignment_lists(partition_count, members, generation);
    let ghost target = assignment(assignee_ids(members_view(members@), generation), partition_count);
    let mut out: HashMap<u64, Vec<u16>> = HashMap::new();
    let n = ids.len();
    let mut i: usize = 0;
    while i < n
        invariant
            n == ids@.len(),
            ids@.len() == parts@.len(),
            ids@.no_duplicates(),
            ids@.to_set() == target.dom(),
            forall|j: int| 0 <= j < n ==> #[trigger] parts@[j]@ == target[ids@[j]],
            i <= n,
            forall|id: u64| #[trigger] out@.contains_key(id) <==> exists|j: int| 0 <= j < i && ids@[j] == id,
            forall|id: u64| #[trigger] out@.contains_key(id) ==> out@[id]@ == target[id],
        decreases n - i,
    {
        let id = ids[i];
        let p = copy_ids(parts[i].as_slice());
        assert(target[id] == parts@[i as int]@);
        out.insert(id, p);
        i = i + 1;
    }
    proof {
        assert forall|id: u64| #[trigger] out@.contains_key(id) <==> target.contains_key(id) by {
            if target.contains_key(id) {
                assert(ids@.to_set().contains(id));
                let j = choose|j: int| 0 <= j < ids@.len() && ids@[j] == id;
                assert(exists|j: int| 0 <= j < i && ids@[j] == id);
            }
        }
        assert(out@.dom() =~= target.dom());
    }
    out
}

#[derive(Debug, Clone, PartialEq, Eq)]
pub struct GroupState {
    pub group_id: u16,
    pub topic_id: u16,
    pub generation: u32,
    pub members: HashMap<u64, GroupMember>,
    pub rebalance_pending: bool,
}

pub struct GroupStateView {
    pub group_id: u16,
    pub topic_id: u16,
    pub generation: u32,
    pub members: Map<u64, GroupMemberView>,
    pub rebalance_pending: bool,
}

impl View for GroupState {
    type V = GroupStateView;

    open spec fn view(&self) -> GroupStateView {
        GroupStateView {
            group_id: self.group_id,
            topic_id: self.topic_id,
            generation: self.generation,
            members: members_view(self.members@),
            rebalance_pending: self.rebalance_pending,
        }
    }
}

/// `g + 1`, capped at `u32::MAX`.
pub open spec fn next_generation(g: u32) -> u32 {
    if g == u32::MAX {
        u32::MAX
    } else {
        (g + 1) as u32
    }
}

/// The smallest positive id that no member holds.
pub open spec fn is_first_free_id(ids: Set<u64>, id: u64) -> bool {
    &&& id >= 1
    &&& !ids.contains(id)
    &&& forall|x: u64| 1 <= x < id ==> #[trigger] ids.contains(x)
}

/// The members after applying assignment `a` at time `now`: every assigned member
/// gets its range (and, with `generation`, that generation) and counts as seen.
pub open spec fn apply_assignment(
    members: Map<u64, GroupMemberView>,
    a: Map<u64, Seq<u16>>,
    generation: Option<u32>,
    now: u64,
) -> Map<u64, GroupMemberView> {
    Map::new(
        |k: u64| members.contains_key(k),
        |k: u64|
            if a.contains_key(k) {
                GroupMemberView {
                    member_id: members[k].member_id,
                    generation: match generation {
                        Some(g) => g,
                        None => members[k].generation,
                    },
                    assigned_partitions: a[k],
                    last_seen_ms: now,
                }
            } else {
                members[k]
            },
    )
}

/// Whether a member has been silent for longer than `timeout` at `now`.
pub open spec fn is_stale(m: GroupMemberView, now: u64, timeout: u64) -> bool {
    (if now >= m.last_seen_ms {
        now - m.last_seen_ms
    } else {
        0
    }) > timeout
}

impl GroupStateView {
    /// The group after `join` of `member_id` with id `assigned` (see `join`).
    pub open spec fn joined(self, assigned: u64, partition_count: u16, now: u64) -> GroupStateView {
        let g = next_generation(self.generation);
        let m1 = self.members.insert(
            assigned,
            GroupMemberView { member_id: assigned, generation: g, assigned_partitions: Seq::empty(), last_seen_ms: now },
        );
        GroupStateView {
            generation: g,
            members: apply_assignment(m1, assignment(assignee_ids(m1, g), partition_count), Some(g), now),
            rebalance_pending: false,
            ..self
        }
    }

    /// The group after dropping the members stale at `now`, if there are any:
    /// the generation moves up and a rebalance becomes pending.
    pub open spec fn expired(self, now: u64, timeout: u64) -> GroupStateView {
        if self.stale_ids(now, timeout).len() > 0 {
            GroupStateView {
                generation: next_generation(self.generation),
                members: self.members.remove_keys(self.stale_ids(now, timeout)),
                rebalance_pending: true,
                ..self
            }
        } else {
            self
        }
    }

    /// The group after reassigning partitions under its generation at `now`.
    pub open spec fn rebalanced(self, partition_count: u16, now: u64) -> GroupStateView {
        GroupStateView {
            members: apply_assignment(
                self.members,
                assignment(assignee_ids(self.members, self.generation), partition_count),
                None,
                now,
            ),
            rebalance_pending: false,
            ..self
        }
    }

    /// The answer to a heartbeat: 1 for an unknown member, 2 for a stale
    /// generation, else 0 and whether a rebalance is pending.
    pub open spec fn heartbeat_answer(self, member_id: u64, generation: u32) -> (u8, bool) {
        if !self.members.contains_key(member_id) {
            (1, true)
        } else if self.members[member_id].generation != generation {
            (2, true)
        } else {
            (0, self.rebalance_pending)
        }
    }

    /// The group after a heartbeat: an accepted one marks the member seen.
    pub open spec fn heartbeat_seen(self, member_id: u64, generation: u32, now: u64) -> GroupStateView {
        if self.heartbeat_answer(member_id, generation).0 == 0 {
            GroupStateView {
                members: self.members.insert(member_id, GroupMemberView { last_seen_ms: now, ..self.members[member_id] }),
                ..self
            }
        } else {
            self
        }
    }

    /// The keys of the members that are stale at `now`.
    pub open spec fn stale_ids(self, now: u64, timeout: u64) -> Set<u64> {
        self.members.dom().filter(|k: u64| is_stale(self.members[k], now, timeout))
    }
}

fn copy_member(m: &GroupMember) -> (c: GroupMember)
    ensures
        c@ == m@,
{
    GroupMember {
        member_id: m.member_id,
        generation: m.generation,
        assigned_partitions: copy_ids(m.assigned_partitions.as_slice()),
        last_seen_ms: m.last_seen_ms,
    }
}

/// By induction: a finite set that holds every id in `1 ..= n` has at least `n` elements.
proof fn lemma_prefix_ids_count(ids: Set<u64>, n: u64)
    requires
        ids.finite(),
        forall|x: u64| 1 <= x <= n ==> #[trigger] ids.contains(x),
    ensures
        ids.len() >= n,
    decreases n,
{
    if n > 0 {
        let rest = ids.remove(n);
        assert forall|x: u64| 1 <= x <= (n - 1) as u64 implies #[trigger] rest.contains(x) by {
            assert(ids.contains(x));
        }
        lemma_prefix_ids_count(rest, (n - 1) as u64);
    }
}

fn next_member_id(members: &HashMap<u64, GroupMember>) -> (id: u64)
    requires
        members@.len() < usize::MAX,
    ensures
        is_first_free_id(members@.dom(), id),
{
    let mut id: u64 = 1;
    while members.contains_key(&id)
        invariant
            members@.len() < usize::MAX,
            members@.dom().finite(),
            1 <= id <= members@.len() + 1,
            forall|x: u64| 1 <= x < id ==> #[trigger] members@.dom().contains(x),
        decreases members@.len() + 1 - id,
    {
        proof {
            lemma_prefix_ids_count(members@.dom(), id);
        }
        id = id + 1;
    }
    id
}

impl GroupState {
    pub fn new(group_id: u16, topic_id: u16) -> (g: GroupState)
        ensures
            g@.group_id == group_id,
            g@.topic_id == topic_id,
            g@.generation == 1,
            g@.members == Map::<u64, GroupMemberView>::empty(),
            !g@.rebalance_pending,
    {
        let g = GroupState { group_id, topic_id, generation: 1, members: HashMap::new(), rebalance_pending: false };
        assert(g@.members =~= Map::<u64, GroupMemberView>::empty());
        g
    }

    /// Applies an assignment given as parallel lists to the members.
    fn apply_lists(
        &mut self,
        ids: &Vec<u64>,
        parts: &Vec<Vec<u16>>,
        generation: Option<u32>,
        now_ms: u64,
        Ghost(a): Ghost<Map<u64, Seq<u16>>>,
    )
        requires
            ids@.len() == parts@.len(),
            ids@.no_duplicates(),
            ids@.to_set() == a.dom(),
            forall|i: int| 0 <= i < ids@.len() ==> #[trigger] parts@[i]@ == a[ids@[i]],
        ensures
            final(self)@ == (GroupStateView {
                members: apply_assignment(old(self)@.members, a, generation, now_ms),
                ..old(self)@
            }),
    {
        let ghost m0 = self@.members;
        let ghost raw0 = self.members@;
        let n = ids.len();
        let mut i: usize = 0;
        while i < n
            invariant
                n == ids@.len(),
                ids@.len() == parts@.len(),
                ids@.no_duplicates(),
                ids@.to_set() == a.dom(),
                forall|j: int| 0 <= j < n ==> #[trigger] parts@[j]@ == a[ids@[j]],
                i <= n,
                m0 == old(self)@.members,
                self.group_id == old(self).group_id,
                self.topic_id == old(self).topic_id,
                self.generation == old(self).generation,
                self.rebalance_pending == old(self).rebalance_pending,
                self@.members.dom() == m0.dom(),
                forall|k: u64| #[trigger] self@.members.contains_key(k) ==> self@.members[k] == if exists|j: int|
                    0 <= j < i && ids@[j] == k {
                    apply_assignment(m0, a, generation, now_ms)[k]
                } else {
                    m0[k]
                },
            decreases n - i,
        {
            let id = ids[i];
            let ghost before = self@.members;
            assert(a.contains_key(id)) by {
                assert(ids@.to_set().contains(id));
            }
            match self.members.get(&id) {
                Some(m) => {
                    let updated = GroupMember {
                        member_id: m.member_id,
                        generation: match generation {
                            Some(g) => g,
                            None => m.generation,
                        },
                        assigned_partitions: copy_ids(parts[i].as_slice()),
                        last_seen_ms: now_ms,
                    };
                    self.members.insert(id, updated);
                },
                None => {},
            }
            proof {
                assert forall|k: u64| #[trigger] self@.members.contains_key(k) implies self@.members[k] == if exists|j: int|
                    0 <= j < i + 1 && ids@[j] == k {
                    apply_assignment(m0, a, generation, now_ms)[k]
                } else {
                    m0[k]
                } by {
                    if k == id {
                        assert(ids@[i as int] == k);
                        if exists|j: int| 0 <= j < i && ids@[j] == k {
                            let j = choose|j: int| 0 <= j < i && ids@[j] == k;
                            assert(ids@[j] == ids@[i as int]);
                        }
                        assert(before.contains_key(k));
                        assert(before[k] == m0[k]);
                    } else {
                        assert(before.contains_key(k));
                        if exists|j: int| 0 <= j < i + 1 && ids@[j] == k {
                            let j = choose|j: int| 0 <= j < i + 1 && ids@[j] == k;
                            assert(j != i);
                        }
                    }
                }
                assert(self@.members.dom() =~= m0.dom());
            }
            i = i + 1;
        }
        proof {
            assert forall|k: u64| #[trigger] self@.members.contains_key(k) implies self@.members[k] == apply_assignment(
                m0,
                a,
                generation,
                now_ms,
            )[k] by {
                if a.contains_key(k) {
                    assert(ids@.to_set().contains(k));
                    let j = choose|j: int| 0 <= j < ids@.len() && ids@[j] == k;
                    assert(exists|j: int| 0 <= j < i && ids@[j] == k);
                } else {
                    if exists|j: int| 0 <= j < i && ids@[j] == k {
                        let j = choose|j: int| 0 <= j < i && ids@[j] == k;
                        assert(ids@.to_set().contains(k));
                    }
                }
            }
            assert(self@.members =~= apply_assignment(m0, a, generation, now_ms));
        }
    }

    /// Joins `member_id` (0 asks for the first free id) and reassigns partitions
    /// under a new generation. Returns the member's id, the generation and its
    /// partitions.
    pub fn join(&mut self, member_id: u64, topic_partition_count: u16, now_ms: u64) -> (r: Result<(u64, u32, Vec<u16>), DmqError>)
        requires
            old(self).members@.len() < usize::MAX,
        ensures
            match r {
                Ok((id, generation, parts)) => {
                    &&& if member_id == 0 {
                        is_first_free_id(old(self)@.members.dom(), id)
                    } else {
                        id == member_id
                    }
                    &&& final(self)@ == old(self)@.joined(id, topic_partition_count, now_ms)
                    &&& generation == final(self)@.generation
                    &&& parts@ == match final(self)@.members.get(id) {
                        Some(m) => m.assigned_partitions,
                        None => Seq::<u16>::empty(),
                    }
                },
                Err(_) => false,
            },
    {
        let assigned_id = if member_id == 0 {
            next_member_id(&self.members)
        } else {
            member_id
        };
        self.generation = self.generation.saturating_add(1);
        self.rebalance_pending = true;
        let ghost v0 = old(self)@;
        self.members.insert(
            assigned_id,
            GroupMember { member_id: assigned_id, generation: self.generation, assigned_partitions: Vec::new(), last_seen_ms: now_ms },
        );
        let ghost m1 = self@.members;
        assert(m1 =~= v0.members.insert(
            assigned_id,
            GroupMemberView {
                member_id: assigned_id,
                generation: next_generation(v0.generation),
                assigned_partitions: Seq::empty(),
                last_seen_ms: now_ms,
            },
        ));
        let (ids, parts) = assignment_lists(topic_partition_count, &self.members, self.generation);
        let ghost a = assignment(assignee_ids(m1, self.generation), topic_partition_count);
        self.apply_lists(&ids, &parts, Some(self.generation), now_ms, Ghost(a));
        self.rebalance_pending = false;
        let own: Vec<u16> = match self.members.get(&assigned_id) {
            Some(m) => copy_ids(m.assigned_partitions.as_slice()),
            None => Vec::new(),
        };
        assert(self@ == v0.joined(assigned_id, topic_partition_count, now_ms));
        Ok((assigned_id, self.generation, own))
    }

    /// Records a heartbeat. Answers `(1, true)` for an unknown member, `(2, true)`
    /// for a stale generation, else marks the member seen and answers `(0, p)`
    /// with `p` whether a rebalance is pending.
    pub fn heartbeat(&mut self, member_id: u64, generation: u32, now_ms: u64) -> (r: Result<(u8, bool), DmqError>)
        ensures
            match r {
                Ok((code, rebalance)) => if !old(self)@.members.contains_key(member_id) {
                    code == 1 && rebalance && final(self)@ == old(self)@
                } else if old(self)@.members[member_id].generation != generation {
                    code == 2 && rebalance && final(self)@ == old(self)@
                } else {
                    &&& code == 0
                    &&& rebalance == old(self)@.rebalance_pending
                    &&& final(self)@ == (GroupStateView {
                        members: old(self)@.members.insert(
                            member_id,
                            GroupMemberView { last_seen_ms: now_ms, ..old(self)@.members[member_id] },
                        ),
                        ..old(self)@
                    })
                },
                Err(_) => false,
            },
    {
        let ghost v0 = self@;
        let updated = match self.members.get(&member_id) {
            None => {
                return Ok((1, true));
            },
            Some(m) => {
                if m.generation != generation {
                    return Ok((2, true));
                }
                GroupMember {
                    member_id: m.member_id,
                    generation: m.generation,
                    assigned_partitions: copy_ids(m.assigned_partitions.as_slice()),
                    last_seen_ms: now_ms,
                }
            },
        };
        self.members.insert(member_id, updated);
        assert(self@.members =~= v0.members.insert(member_id, GroupMemberView { last_seen_ms: now_ms, ..v0.members[member_id] }));
        Ok((0, self.rebalance_pending))
    }

    /// Drops every member silent for longer than `timeout_ms`; if any went, the
    /// generation moves up (saturating) and a rebalance becomes pending.
    pub fn expire_stale_members(&mut self, now_ms: u64, timeout_ms: u64) -> (expired: bool)
        ensures
            expired == (old(self)@.stale_ids(now_ms, timeout_ms).len() > 0),
            expired ==> final(self)@ == (GroupStateView {
                generation: next_generation(old(self)@.generation),
                members: old(self)@.members.remove_keys(old(self)@.stale_ids(now_ms, timeout_ms)),
                rebalance_pending: true,
                ..old(self)@
            }),
            !expired ==> final(self)@ == old(self)@,
    {
        let ghost v0 = self@;
        let ghost stale_set = v0.stale_ids(now_ms, timeout_ms);
        let mut stale: Vec<u64> = Vec::new();
        for entry in it: self.members.iter()
            invariant
                v0 == self@,
                stale_set == v0.stale_ids(now_ms, timeout_ms),
                forall|i: int| 0 <= i < it.seq().len() ==> #[trigger] self.members@.contains_key(*it.seq()[i].0)
                    && self.members@[*it.seq()[i].0] == *it.seq()[i].1,
                forall|k: u64| #[trigger] self.members@.contains_key(k) ==> it.seq().contains((&k, &self.members@[k])),
                forall|k: u64| #[trigger] stale@.contains(k) ==> stale_set.contains(k),
                forall|k: u64| #[trigger] stale_set.contains(k) ==> stale@.contains(k) || exists|j: int|
                    it.index() <= j < it.seq().len() && *it.seq()[j].0 == k,
        {
            let (key, m) = entry;
            let ghost n = it.index();
            let ghost before = stale@;
            proof {
                assert(it.seq()[n] == entry);
                assert(self.members@.contains_key(*key) && self.members@[*key] == *m);
                assert(v0.members[*key] == m@);
            }
            if now_ms.saturating_sub(m.last_seen_ms) > timeout_ms {
                stale.push(*key);
            }
            proof {
                assert forall|k: u64| #[trigger] stale@.contains(k) implies stale_set.contains(k) by {
                    if !before.contains(k) {
                        assert(k == *key);
                    }
                }
                assert forall|k: u64| #[trigger] stale_set.contains(k) implies stale@.contains(k) || exists|j: int|
                    n + 1 <= j < it.seq().len() && *it.seq()[j].0 == k by {
                    if before.contains(k) {
                        let x = choose|x: int| 0 <= x < before.len() && before[x] == k;
                        assert(stale@[x] == k);
                    } else {
                        let j = choose|j: int| n <= j < it.seq().len() && *it.seq()[j].0 == k;
                        if j == n {
                            assert(k == *key);
                            assert(v0.members.contains_key(k));
                            assert(is_stale(v0.members[k], now_ms, timeout_ms));
                            assert(now_ms.saturating_sub(m.last_seen_ms) > timeout_ms);
                            assert(stale@[stale@.len() - 1] == k);
                        } else {
                            assert(n + 1 <= j);
                        }
                    }
                }
            }
        }
        assert forall|k: u64| #[trigger] stale_set.contains(k) implies stale@.contains(k) by {
            assert(stale_set.contains(k));
        }
        if stale.len() == 0 {
            proof {
                assert(stale_set =~= Set::<u64>::empty());
            }
            return false;
        }
        proof {
            assert(stale@.contains(stale@[0]));
            assert(stale_set.contains(stale@[0]));
            assert(self.members@.dom().finite());
            assert(v0.members.dom() =~= self.members@.dom());
            assert(stale_set.finite());
            vstd::set_lib::lemma_set_empty_equivalency_len(stale_set);
        }
        let mut i: usize = 0;
        while i < stale.len()
            invariant
                i <= stale@.len(),
                v0.generation == self.generation,
                v0.group_id == self.group_id,
                v0.topic_id == self.topic_id,
                v0.rebalance_pending == self.rebalance_pending,
                forall|k: u64| #[trigger] stale@.contains(k) ==> stale_set.contains(k),
                forall|k: u64| #[trigger] stale_set.contains(k) ==> stale@.contains(k),
                self@.members.dom().subset_of(v0.members.dom()),
                forall|k: u64| #[trigger] self@.members.contains_key(k) ==> self@.members[k] == v0.members[k],
                forall|k: u64| #[trigger] v0.members.contains_key(k) ==> (self@.members.contains_key(k) <==> !exists|j: int|
                    0 <= j < i && stale@[j] == k),
            decreases stale@.len() - i,
        {
            let k = stale[i];
            let ghost before = self@.members;
            self.members.remove(&k);
            assert(self@.members =~= before.remove(k));
            proof {
                assert forall|x: u64| #[trigger] v0.members.contains_key(x) implies (self@.members.contains_key(x) <==> !exists|j: int|
                    0 <= j < i + 1 && stale@[j] == x) by {
                    if x == k {
                        assert(stale@[i as int] == x);
                    } else if exists|j: int| 0 <= j < i + 1 && stale@[j] == x {
                        let j = choose|j: int| 0 <= j < i + 1 && stale@[j] == x;
                        assert(j != i);
                    }
                }
            }
            i = i + 1;
        }
        self.generation = self.generation.saturating_add(1);
        self.rebalance_pending = true;
        proof {
            let target = v0.members.remove_keys(stale_set);
            assert forall|k: u64| #[trigger] self@.members.contains_key(k) <==> target.contains_key(k) by {
                if v0.members.contains_key(k) {
                    if stale_set.contains(k) {
                        assert(stale@.contains(k));
                        let j = choose|j: int| 0 <= j < stale@.len() && stale@[j] == k;
                        assert(exists|j: int| 0 <= j < i && stale@[j] == k);
                    } else {
                        if exists|j: int| 0 <= j < i && stale@[j] == k {
                            let j = choose|j: int| 0 <= j < i && stale@[j] == k;
                            assert(stale@.contains(k));
                        }
                    }
                }
            }
            assert(self@.members =~= target);
        }
        true
    }

    /// Reassigns partitions under the current generation and marks every
    /// assigned member seen; returns the assignment.
    pub fn rebalance(&mut self, topic_partition_count: u16, now_ms: u64) -> (out: HashMap<u64, Vec<u16>>)
        ensures
            ({
                let a = assignment(assignee_ids(old(self)@.members, old(self)@.generation), topic_partition_count);
                &&& out@.dom() == a.dom()
                &&& forall|id: u64| #[trigger] out@.contains_key(id) ==> out@[id]@ == a[id]
                &&& final(self)@ == (GroupStateView {
                    members: apply_assignment(old(self)@.members, a, None, now_ms),
                    rebalance_pending: false,
                    ..old(self)@
                })
            }),
    {
        let out = range_assign(topic_partition_count, &self.members, self.generation);
        let (ids, parts) = assignment_lists(topic_partition_count, &self.members, self.generation);
        let ghost a = assignment(assignee_ids(self@.members, self.generation), topic_partition_count);
        self.apply_lists(&ids, &parts, None, now_ms, Ghost(a));
        self.rebalance_pending = false;
        out
    }
}

/// A member that has just joined is a member of the new generation, so its
/// heartbeat with the generation `join` returned is accepted.
pub proof fn lemma_joined_member_current(g: GroupStateView, id: u64, partition_count: u16, now: u64)
    ensures
        g.joined(id, partition_count, now).members.contains_key(id),
        g.joined(id, partition_count, now).members[id].generation == g.joined(id, partition_count, now).generation,
        g.joined(id, partition_count, now).members[id].member_id == id,
        g.joined(id, partition_count, now).members[id].last_seen_ms == now,
{
}

/// Expiry removes exactly the stale members and keeps the others as they were.
pub proof fn lemma_expiry_keeps_live(g: GroupStateView, now: u64, timeout: u64, k: u64)
    requires
        g.members.contains_key(k),
    ensures
        g.members.remove_keys(g.stale_ids(now, timeout)).contains_key(k) <==> !is_stale(g.members[k], now, timeout),
{
}

} // verus!

//! Dynamic cluster metadata: broker liveness, partition leadership and leader
//! epochs, bootstrapped from the static configuration.

use crate::cluster::{
    assignment_bytes, assignments_view, lemma_brokers_stuck, decoded_as, parse_u16s, put_u16s, parse_assignments, broker_lookup, brokers_bytes, brokers_view, copy_ids, lemma_be16_all_len,
    lemma_window_split, lemma_parse_assignment, lemma_parse_brokers, parse_assignment, parse_broker, parse_brokers, put_assignment_core, put_broker,
    read_assignment, read_broker, read_u16, spec_decode_config, BrokerId, BrokerNode, BrokerNodeView,
    ClusterConfig, ClusterConfigView, PartitionAssignment, PartitionAssignmentView, Step,
};
use crate::error::DmqError;
use crate::wire::{be16, be64, get_u64, lemma_be16, lemma_be64, lemma_u16_window, lemma_u64_window, put_u16, put_u64, u16_at, u64_at};
use crate::message::be16_all;
use vstd::utf8::encode_utf8;
use std::collections::HashMap;
use vstd::prelude::*;

verus! {

#[derive(Debug, Clone, PartialEq, Eq)]
pub struct LiveAssignment {
    pub topic_id: u16,
    pub partition_id: u16,
    pub leader: BrokerId,
    pub replicas: Vec<BrokerId>,
    pub leader_epoch: u64,
}

#[derive(Debug, Clone, PartialEq, Eq)]
pub struct ClusterState {
    pub min_insync_replicas: u16,
    pub brokers: Vec<BrokerNode>,
    pub assignments: Vec<LiveAssignment>,
    pub broker_last_seen_ms: HashMap<BrokerId, u64>,
}

pub struct LiveAssignmentView {
    pub topic_id: u16,
    pub partition_id: u16,
    pub leader: BrokerId,
    pub replicas: Seq<BrokerId>,
    pub leader_epoch: u64,
}

pub struct ClusterStateView {
    pub min_insync_replicas: u16,
    pub brokers: Seq<BrokerNodeView>,
    pub assignments: Seq<LiveAssignmentView>,
    pub broker_last_seen_ms: Map<BrokerId, u64>,
}

impl View for LiveAssignment {
    type V = LiveAssignmentView;

    open spec fn view(&self) -> LiveAssignmentView {
        LiveAssignmentView {
            topic_id: self.topic_id,
            partition_id: self.partition_id,
            leader: self.leader,
            replicas: self.replicas@,
            leader_epoch: self.leader_epoch,
        }
    }
}

pub open spec fn live_view(xs: Seq<LiveAssignment>) -> Seq<LiveAssignmentView> {
    xs.map_values(|a: LiveAssignment| a@)
}

impl View for ClusterState {
    type V = ClusterStateView;

    open spec fn view(&self) -> ClusterStateView {
        ClusterStateView {
            min_insync_replicas: self.min_insync_replicas,
            brokers: brokers_view(self.brokers@),
            assignments: live_view(self.assignments@),
            broker_last_seen_ms: self.broker_last_seen_ms@,
        }
    }
}

impl LiveAssignmentView {
    pub open spec fn placement(self) -> PartitionAssignmentView {
        PartitionAssignmentView {
            topic_id: self.topic_id,
            partition_id: self.partition_id,
            leader: self.leader,
            replicas: self.replicas,
        }
    }
}

/// The current time in milliseconds since the Unix epoch (0 if the clock is before it).
/// Nothing is claimed of the value: it comes from the system clock.
#[verifier::external_body]
pub fn now_ms() -> (t: u64) {
    std::time::SystemTime::now().duration_since(std::time::UNIX_EPOCH).map(|d| d.as_millis() as u64).unwrap_or(0)
}

/// The lowest broker id, if there is any broker.
pub open spec fn lowest_broker_id(bs: Seq<BrokerNodeView>) -> Option<BrokerId>
    decreases bs.len(),
{
    if bs.len() == 0 {
        None
    } else {
        match lowest_broker_id(bs.drop_last()) {
            Some(m) => Some(if bs.last().id < m {
                bs.last().id
            } else {
                m
            }),
            None => Some(bs.last().id),
        }
    }
}

/// The controller: the configured override if one is set (its value is `None` when
/// the setting could not be read as an id), else the lowest broker id.
pub open spec fn spec_controller(bs: Seq<BrokerNodeView>, configured: Option<Option<BrokerId>>) -> Option<BrokerId> {
    match configured {
        Some(c) => c,
        None => lowest_broker_id(bs),
    }
}

pub fn controller_broker_id(brokers: &[BrokerNode], configured: Option<Option<BrokerId>>) -> (r: Option<BrokerId>)
    ensures
        r == spec_controller(brokers_view(brokers@), configured),
{
    if let Some(c) = configured {
        return c;
    }
    let ghost all = brokers_view(brokers@);
    let mut best: Option<BrokerId> = None;
    let mut i: usize = 0;
    while i < brokers.len()
        invariant
            i <= brokers@.len(),
            all == brokers_view(brokers@),
            best == lowest_broker_id(all.subrange(0, i as int)),
        decreases brokers@.len() - i,
    {
        let id = brokers[i].id;
        best = match best {
            Some(m) => Some(if id < m {
                id
            } else {
                m
            }),
            None => Some(id),
        };
        assert(all.subrange(0, i + 1).drop_last() =~= all.subrange(0, i as int));
        i = i + 1;
    }
    assert(all.subrange(0, i as int) =~= all);
    best
}

/// The state bootstrapped from a static configuration at time `now`: every
/// assignment at epoch 1 and every broker last seen at `now`.
pub open spec fn spec_from_seed(seed: ClusterConfigView, now: u64) -> ClusterStateView {
    ClusterStateView {
        min_insync_replicas: seed.min_insync_replicas,
        brokers: seed.brokers,
        assignments: seed.assignments.map_values(
            |a: PartitionAssignmentView|
                LiveAssignmentView {
                    topic_id: a.topic_id,
                    partition_id: a.partition_id,
                    leader: a.leader,
                    replicas: a.replicas,
                    leader_epoch: 1,
                },
        ),
        broker_last_seen_ms: Map::new(|id: BrokerId| broker_lookup(seed.brokers, id) is Some, |id: BrokerId| now),
    }
}

/// The first assignment for a partition.
pub open spec fn live_lookup(xs: Seq<LiveAssignmentView>, topic_id: u16, partition_id: u16) -> Option<LiveAssignmentView>
    decreases xs.len(),
{
    if xs.len() == 0 {
        None
    } else if xs[0].topic_id == topic_id && xs[0].partition_id == partition_id {
        Some(xs[0])
    } else {
        live_lookup(xs.drop_first(), topic_id, partition_id)
    }
}

/// A broker is alive when it was seen no more than `timeout` ms before `now`
/// (a last-seen time after `now` counts as zero elapsed).
pub open spec fn spec_alive(seen: Map<BrokerId, u64>, id: BrokerId, now: u64, timeout: u64) -> bool {
    seen.contains_key(id) && (if now >= seen[id] {
        now - seen[id]
    } else {
        0
    }) <= timeout
}

/// The first replica other than `leader` that is alive.
pub open spec fn first_alive_other(replicas: Seq<BrokerId>, leader: BrokerId, seen: Map<BrokerId, u64>, now: u64, timeout: u64) -> Option<BrokerId>
    decreases replicas.len(),
{
    if replicas.len() == 0 {
        None
    } else if replicas[0] != leader && spec_alive(seen, replicas[0], now, timeout) {
        Some(replicas[0])
    } else {
        first_alive_other(replicas.drop_first(), leader, seen, now, timeout)
    }
}

/// An assignment after failover: a dead leader is replaced by the first other alive
/// replica, and the epoch moves up by one (saturating).
pub open spec fn failed_over(a: LiveAssignmentView, seen: Map<BrokerId, u64>, now: u64, timeout: u64) -> LiveAssignmentView {
    if spec_alive(seen, a.leader, now, timeout) {
        a
    } else {
        match first_alive_other(a.replicas, a.leader, seen, now, timeout) {
            Some(l) => LiveAssignmentView {
                leader: l,
                leader_epoch: if a.leader_epoch == u64::MAX {
                    u64::MAX
                } else {
                    (a.leader_epoch + 1) as u64
                },
                ..a
            },
            None => a,
        }
    }
}

/// The assignments that failover changes, in order.
pub open spec fn changed_assignments(xs: Seq<LiveAssignmentView>, seen: Map<BrokerId, u64>, now: u64, timeout: u64) -> Seq<LiveAssignmentView>
    decreases xs.len(),
{
    if xs.len() == 0 {
        Seq::empty()
    } else {
        let rest = changed_assignments(xs.drop_last(), seen, now, timeout);
        let a = xs.last();
        if !spec_alive(seen, a.leader, now, timeout) && first_alive_other(a.replicas, a.leader, seen, now, timeout) is Some {
            rest.push(failed_over(a, seen, now, timeout))
        } else {
            rest
        }
    }
}

pub fn copy_brokers(bs: &[BrokerNode]) -> (r: Vec<BrokerNode>)
    ensures
        brokers_view(r@) == brokers_view(bs@),
{
    let mut r: Vec<BrokerNode> = Vec::new();
    let mut i: usize = 0;
    while i < bs.len()
        invariant
            i <= bs@.len(),
            brokers_view(r@) == brokers_view(bs@.subrange(0, i as int)),
        decreases bs@.len() - i,
    {
        let b = &bs[i];
        let ghost before = r@;
        r.push(BrokerNode { id: b.id, host: b.host.clone(), port: b.port });
        assert(brokers_view(r@) =~= brokers_view(before).push(b@));
        assert(brokers_view(bs@.subrange(0, i + 1)) =~= brokers_view(bs@.subrange(0, i as int)).push(b@));
        i = i + 1;
    }
    assert(bs@.subrange(0, i as int) =~= bs@);
    r
}

fn copy_live(a: &LiveAssignment) -> (r: LiveAssignment)
    ensures
        r@ == a@,
{
    LiveAssignment {
        topic_id: a.topic_id,
        partition_id: a.partition_id,
        leader: a.leader,
        replicas: copy_ids(a.replicas.as_slice()),
        leader_epoch: a.leader_epoch,
    }
}

impl ClusterStateView {
    pub open spec fn to_cluster_config(self) -> ClusterConfigView {
        ClusterConfigView {
            min_insync_replicas: self.min_insync_replicas,
            brokers: self.brokers,
            assignments: self.assignments.map_values(|a: LiveAssignmentView| a.placement()),
        }
    }

    pub open spec fn broker_alive(self, id: BrokerId, now: u64, timeout: u64) -> bool {
        spec_alive(self.broker_last_seen_ms, id, now, timeout)
    }

    pub open spec fn leader_for(self, topic_id: u16, partition_id: u16) -> Option<BrokerId> {
        match live_lookup(self.assignments, topic_id, partition_id) {
            Some(a) => Some(a.leader),
            None => None,
        }
    }

    pub open spec fn leader_epoch(self, topic_id: u16, partition_id: u16) -> u64 {
        match live_lookup(self.assignments, topic_id, partition_id) {
            Some(a) => a.leader_epoch,
            None => 0,
        }
    }

    /// The state after a heartbeat from `id` at `at`: recorded only for known brokers.
    pub open spec fn heartbeat(self, id: BrokerId, at: u64) -> ClusterStateView {
        if broker_lookup(self.brokers, id) is Some {
            ClusterStateView { broker_last_seen_ms: self.broker_last_seen_ms.insert(id, at), ..self }
        } else {
            self
        }
    }

    /// The state after failing over every dead leader.
    pub open spec fn failover(self, now: u64, timeout: u64) -> ClusterStateView {
        ClusterStateView {
            assignments: self.assignments.map_values(
                |a: LiveAssignmentView| failed_over(a, self.broker_last_seen_ms, now, timeout),
            ),
            ..self
        }
    }
}

impl ClusterState {
    /// The bootstrap state at a given time (see `spec_from_seed`).
    pub fn from_seed_at(seed: &ClusterConfig, now: u64) -> (s: ClusterState)
        ensures
            s@ == spec_from_seed(seed@, now),
    {
        broadcast use vstd::std_specs::hash::group_hash_axioms;

        let ghost sb = seed@.brokers;
        let mut seen: HashMap<BrokerId, u64> = HashMap::new();
        let mut i: usize = 0;
        while i < seed.brokers.len()
            invariant
                i <= seed.brokers@.len(),
                sb == brokers_view(seed.brokers@),
                forall|id: BrokerId| #[trigger] seen@.contains_key(id) <==> exists|j: int| 0 <= j < i && sb[j].id == id,
                forall|id: BrokerId| #[trigger] seen@.contains_key(id) ==> seen@[id] == now,
            decreases seed.brokers@.len() - i,
        {
            seen.insert(seed.brokers[i].id, now);
            assert(sb[i as int].id == seed.brokers@[i as int].id);
            i = i + 1;
        }
        let mut assignments: Vec<LiveAssignment> = Vec::new();
        let ghost target = spec_from_seed(seed@, now).assignments;
        let mut j: usize = 0;
        while j < seed.assignments.len()
            invariant
                j <= seed.assignments@.len(),
                target == spec_from_seed(seed@, now).assignments,
                live_view(assignments@) == target.subrange(0, j as int),
            decreases seed.assignments@.len() - j,
        {
            let a = &seed.assignments[j];
            let ghost before = assignments@;
            let item = LiveAssignment {
                topic_id: a.topic_id,
                partition_id: a.partition_id,
                leader: a.leader,
                replicas: copy_ids(a.replicas.as_slice()),
                leader_epoch: 1,
            };
            assert(seed@.assignments[j as int] == a@);
            assert(item@ == target[j as int]);
            assignments.push(item);
            assert(live_view(assignments@) =~= live_view(before).push(item@));
            assert(live_view(assignments@) =~= target.subrange(0, j + 1));
            j = j + 1;
        }
        assert(target.subrange(0, j as int) =~= target);
        let s = ClusterState {
            min_insync_replicas: seed.min_insync_replicas,
            brokers: copy_brokers(seed.brokers.as_slice()),
            assignments,
            broker_last_seen_ms: seen,
        };
        proof {
            assert forall|id: BrokerId| seen@.contains_key(id) <==> broker_lookup(sb, id) is Some by {
                lemma_lookup_some_iff(sb, id);
            }
            assert(s@.broker_last_seen_ms =~= spec_from_seed(seed@, now).broker_last_seen_ms);
        }
        s
    }

    /// The state bootstrapped from `seed` at the current time.
    pub fn from_seed(seed: &ClusterConfig) -> (s: ClusterState)
        ensures
            exists|t: u64| s@ == spec_from_seed(seed@, t),
    {
        let now = now_ms();
        Self::from_seed_at(seed, now)
    }

    pub fn to_cluster_config(&self) -> (c: ClusterConfig)
        ensures
            c@ == self@.to_cluster_config(),
    {
        let mut assignments: Vec<PartitionAssignment> = Vec::new();
        let ghost target = self@.to_cluster_config().assignments;
        let mut j: usize = 0;
        while j < self.assignments.len()
            invariant
                j <= self.assignments@.len(),
                target == self@.to_cluster_config().assignments,
                assignments_view(assignments@) == target.subrange(0, j as int),
            decreases self.assignments@.len() - j,
        {
            let a = &self.assignments[j];
            let ghost before = assignments@;
            let item = PartitionAssignment {
                topic_id: a.topic_id,
                partition_id: a.partition_id,
                leader: a.leader,
                replicas: copy_ids(a.replicas.as_slice()),
            };
            assert(self@.assignments[j as int] == a@);
            assert(item@ == target[j as int]);
            assignments.push(item);
            assert(assignments_view(assignments@) =~= assignments_view(before).push(item@));
            assert(assignments_view(assignments@) =~= target.subrange(0, j + 1));
            j = j + 1;
        }
        assert(target.subrange(0, j as int) =~= target);
        ClusterConfig {
            min_insync_replicas: self.min_insync_replicas,
            brokers: copy_brokers(self.brokers.as_slice()),
            assignments,
        }
    }

    /// The controller broker (see `spec_controller`); `configured` is the operator's
    /// override, if any.
    pub fn controller_id(&self, configured: Option<Option<BrokerId>>) -> (r: Option<BrokerId>)
        ensures
            r == spec_controller(self@.brokers, configured),
    {
        controller_broker_id(self.brokers.as_slice(), configured)
    }

    pub fn is_controller(&self, broker_id: BrokerId, configured: Option<Option<BrokerId>>) -> (r: bool)
        ensures
            r == (spec_controller(self@.brokers, configured) == Some(broker_id)),
    {
        match self.controller_id(configured) {
            Some(c) => c == broker_id,
            None => false,
        }
    }

    /// Whether `broker_id` is a listed broker.
    pub fn has_broker(&self, broker_id: BrokerId) -> (r: bool)
        ensures
            r == (broker_lookup(self@.brokers, broker_id) is Some),
    {
        let ghost all = brokers_view(self.brokers@);
        let mut i: usize = 0;
        assert(all.subrange(0, all.len() as int) =~= all);
        while i < self.brokers.len()
            invariant
                i <= self.brokers@.len(),
                all == brokers_view(self.brokers@),
                broker_lookup(all, broker_id) == broker_lookup(all.subrange(i as int, all.len() as int), broker_id),
            decreases self.brokers@.len() - i,
        {
            let ghost rest = all.subrange(i as int, all.len() as int);
            if self.brokers[i].id == broker_id {
                assert(rest[0] == self.brokers@[i as int]@);
                return true;
            }
            assert(rest.drop_first() =~= all.subrange(i + 1, all.len() as int));
            i = i + 1;
        }
        false
    }

    pub fn record_heartbeat(&mut self, broker_id: BrokerId, at_ms: u64)
        ensures
            final(self)@ == old(self)@.heartbeat(broker_id, at_ms),
    {
        broadcast use vstd::std_specs::hash::group_hash_axioms;

        if self.has_broker(broker_id) {
            self.broker_last_seen_ms.insert(broker_id, at_ms);
        }
    }

    pub fn broker_alive(&self, broker_id: BrokerId, now_ms: u64, timeout_ms: u64) -> (r: bool)
        ensures
            r == self@.broker_alive(broker_id, now_ms, timeout_ms),
    {
        broadcast use vstd::std_specs::hash::group_hash_axioms;

        match self.broker_last_seen_ms.get(&broker_id) {
            Some(last) => now_ms.saturating_sub(*last) <= timeout_ms,
            None => false,
        }
    }

    fn find_live(&self, topic_id: u16, partition_id: u16) -> (r: Option<usize>)
        ensures
            match r {
                Some(i) => i < self.assignments@.len() && live_lookup(self@.assignments, topic_id, partition_id)
                    == Some(self.assignments@[i as int]@),
                None => live_lookup(self@.assignments, topic_id, partition_id) is None,
            },
    {
        let ghost all = self@.assignments;
        let mut i: usize = 0;
        assert(all.subrange(0, all.len() as int) =~= all);
        while i < self.assignments.len()
            invariant
                i <= self.assignments@.len(),
                all == live_view(self.assignments@),
                live_lookup(all, topic_id, partition_id) == live_lookup(
                    all.subrange(i as int, all.len() as int),
                    topic_id,
                    partition_id,
                ),
            decreases self.assignments@.len() - i,
        {
            let ghost rest = all.subrange(i as int, all.len() as int);
            if self.assignments[i].topic_id == topic_id && self.assignments[i].partition_id == partition_id {
                assert(rest[0] == self.assignments@[i as int]@);
                return Some(i);
            }
            assert(rest.drop_first() =~= all.subrange(i + 1, all.len() as int));
            i = i + 1;
        }
        None
    }

    pub fn leader_epoch(&self, topic_id: u16, partition_id: u16) -> (r: u64)
        ensures
            r == self@.leader_epoch(topic_id, partition_id),
    {
        match self.find_live(topic_id, partition_id) {
            Some(i) => self.assignments[i].leader_epoch,
            None => 0,
        }
    }

    pub fn leader_for(&self, topic_id: u16, partition_id: u16) -> (r: Option<BrokerId>)
        ensures
            r == self@.leader_for(topic_id, partition_id),
    {
        match self.find_live(topic_id, partition_id) {
            Some(i) => Some(self.assignments[i].leader),
            None => None,
        }
    }

    fn first_alive_other_exec(&self, replicas: &[BrokerId], leader: BrokerId, now_ms: u64, timeout_ms: u64) -> (r: Option<BrokerId>)
        ensures
            r == first_alive_other(replicas@, leader, self@.broker_last_seen_ms, now_ms, timeout_ms),
    {
        let ghost all = replicas@;
        let mut i: usize = 0;
        assert(all.subrange(0, all.len() as int) =~= all);
        while i < replicas.len()
            invariant
                i <= replicas@.len(),
                all == replicas@,
                first_alive_other(all, leader, self@.broker_last_seen_ms, now_ms, timeout_ms) == first_alive_other(
                    all.subrange(i as int, all.len() as int),
                    leader,
                    self@.broker_last_seen_ms,
                    now_ms,
                    timeout_ms,
                ),
            decreases replicas@.len() - i,
        {
            let ghost rest = all.subrange(i as int, all.len() as int);
            let id = replicas[i];
            if id != leader && self.broker_alive(id, now_ms, timeout_ms) {
                return Some(id);
            }
            assert(rest.drop_first() =~= all.subrange(i + 1, all.len() as int));
            i = i + 1;
        }
        None
    }

    /// Promotes the first other alive replica of every partition whose leader is dead,
    /// and returns the assignments that changed.
    pub fn failover_dead_leaders(&mut self, now_ms: u64, timeout_ms: u64) -> (changed: Vec<LiveAssignment>)
        ensures
            final(self)@ == old(self)@.failover(now_ms, timeout_ms),
            live_view(changed@) == changed_assignments(
                old(self)@.assignments,
                old(self)@.broker_last_seen_ms,
                now_ms,
                timeout_ms,
            ),
    {
        let ghost seen = self@.broker_last_seen_ms;
        let ghost orig = self@.assignments;
        let ghost target = old(self)@.failover(now_ms, timeout_ms).assignments;
        let mut changed: Vec<LiveAssignment> = Vec::new();
        let mut idx: usize = 0;
        while idx < self.assignments.len()
            invariant
                idx <= self.assignments@.len(),
                self.assignments@.len() == orig.len(),
                seen == self@.broker_last_seen_ms,
                seen == old(self)@.broker_last_seen_ms,
                orig == old(self)@.assignments,
                target == old(self)@.failover(now_ms, timeout_ms).assignments,
                self@.min_insync_replicas == old(self)@.min_insync_replicas,
                self@.brokers == old(self)@.brokers,
                forall|k: int| 0 <= k < idx ==> #[trigger] live_view(self.assignments@)[k] == target[k],
                forall|k: int| idx <= k < orig.len() ==> #[trigger] live_view(self.assignments@)[k] == orig[k],
                live_view(changed@) == changed_assignments(orig.subrange(0, idx as int), seen, now_ms, timeout_ms),
            decreases orig.len() - idx,
        {
            let leader = self.assignments[idx].leader;
            assert(live_view(self.assignments@)[idx as int] == orig[idx as int]);
            assert(orig[idx as int] == self.assignments@[idx as int]@);
            let ghost prev = self.assignments@;
            if !self.broker_alive(leader, now_ms, timeout_ms) {
                let found = self.first_alive_other_exec(self.assignments[idx].replicas.as_slice(), leader, now_ms, timeout_ms);
                if let Some(new_leader) = found {
                    let epoch = self.assignments[idx].leader_epoch.saturating_add(1);
                    let mut a = copy_live(&self.assignments[idx]);
                    a.leader = new_leader;
                    a.leader_epoch = epoch;
                    let snapshot = copy_live(&a);
                    let ghost na = a@;
                    assert(na == failed_over(orig[idx as int], seen, now_ms, timeout_ms));
                    self.assignments.set(idx, a);
                    assert(live_view(self.assignments@) =~= live_view(prev).update(idx as int, na));
                    let ghost before = changed@;
                    changed.push(snapshot);
                    assert(live_view(changed@) =~= live_view(before).push(snapshot@));
                }
            }
            assert(live_view(self.assignments@)[idx as int] == target[idx as int]);
            assert(orig.subrange(0, idx + 1).drop_last() =~= orig.subrange(0, idx as int));
            idx = idx + 1;
        }
        assert(orig.subrange(0, idx as int) =~= orig);
        assert(live_view(self.assignments@) =~= target);
        changed
    }
}

// ---------------------------------------------------------------------------
// Persistence and the cluster-info wire format.

/// The magic bytes that open a persisted cluster state: `DMQCS` and format 1.
pub open spec fn state_magic() -> Seq<u8> {
    seq![0x44u8, 0x4du8, 0x51u8, 0x43u8, 0x53u8, 0x01u8]
}

pub open spec fn live_assignment_bytes(a: LiveAssignmentView) -> Seq<u8> {
    assignment_bytes(a.placement()) + be64(a.leader_epoch)
}

pub open spec fn live_assignments_bytes(xs: Seq<LiveAssignmentView>) -> Seq<u8>
    decreases xs.len(),
{
    if xs.len() == 0 {
        Seq::empty()
    } else {
        live_assignments_bytes(xs.drop_last()) + live_assignment_bytes(xs.last())
    }
}

/// Liveness entries on the wire: broker id, then last-seen time.
pub open spec fn seen_bytes(ps: Seq<(BrokerId, u64)>) -> Seq<u8>
    decreases ps.len(),
{
    if ps.len() == 0 {
        Seq::empty()
    } else {
        seen_bytes(ps.drop_last()) + be16(ps.last().0) + be64(ps.last().1)
    }
}

/// The map that inserting the pairs in order builds (a later pair wins).
pub open spec fn pairs_map(ps: Seq<(BrokerId, u64)>) -> Map<BrokerId, u64>
    decreases ps.len(),
{
    if ps.len() == 0 {
        Map::empty()
    } else {
        pairs_map(ps.drop_last()).insert(ps.last().0, ps.last().1)
    }
}

/// `ps` lists every entry of `m` once, in some order.
pub open spec fn lists_entries(ps: Seq<(BrokerId, u64)>, m: Map<BrokerId, u64>) -> bool {
    &&& forall|i: int| 0 <= i < ps.len() ==> #[trigger] m.contains_key(ps[i].0) && m[ps[i].0] == ps[i].1
    &&& forall|k: BrokerId| #[trigger] m.contains_key(k) ==> exists|i: int| 0 <= i < ps.len() && ps[i].0 == k
    &&& forall|i: int, j: int| 0 <= i < j < ps.len() ==> ps[i].0 != ps[j].0
}

impl ClusterStateView {
    /// Brokers and assignments (with epochs), as both formats carry them.
    pub open spec fn body_bytes(self) -> Seq<u8> {
        be16(self.min_insync_replicas) + be16(self.brokers.len() as u16) + brokers_bytes(self.brokers) + be16(
            self.assignments.len() as u16,
        ) + live_assignments_bytes(self.assignments)
    }

    /// The persisted form, with the liveness entries listed in `order`.
    pub open spec fn encode_with(self, order: Seq<(BrokerId, u64)>) -> Seq<u8> {
        state_magic() + self.body_bytes() + be16(order.len() as u16) + seen_bytes(order)
    }

    /// The cluster-info form: format byte 2, then the body; liveness is not sent.
    pub open spec fn cluster_info_bytes(self) -> Seq<u8> {
        seq![2u8] + self.body_bytes()
    }

    /// States whose counts fit their `u16` slots and whose host names fit their
    /// one-byte length slot.
    pub open spec fn encodable(self) -> bool {
        &&& self.to_cluster_config().encodable()
        &&& self.broker_last_seen_ms.dom().len() <= u16::MAX
    }
}

/// Reads an assignment followed by its leader epoch.
pub open spec fn parse_live_assignment(p: Seq<u8>, o: int) -> Step<LiveAssignmentView> {
    match parse_assignment(p, o) {
        Step::Done(a, o1) => if o1 + 8 > p.len() {
            Step::Fail(DmqError::ShortBuffer)
        } else {
            Step::Done(
                LiveAssignmentView {
                    topic_id: a.topic_id,
                    partition_id: a.partition_id,
                    leader: a.leader,
                    replicas: a.replicas,
                    leader_epoch: u64_at(p, o1),
                },
                o1 + 8,
            )
        },
        Step::Fail(e) => Step::Fail(e),
        Step::Panic => Step::Panic,
    }
}

pub open spec fn parse_live_assignments(p: Seq<u8>, o: int, n: nat) -> Step<Seq<LiveAssignmentView>>
    decreases n,
{
    if n == 0 {
        Step::Done(Seq::empty(), o)
    } else {
        match parse_live_assignments(p, o, (n - 1) as nat) {
            Step::Done(xs, o1) => match parse_live_assignment(p, o1) {
                Step::Done(a, o2) => Step::Done(xs.push(a), o2),
                Step::Fail(e) => Step::Fail(e),
                Step::Panic => Step::Panic,
            },
            Step::Fail(e) => Step::Fail(e),
            Step::Panic => Step::Panic,
        }
    }
}

/// Reads `n` liveness entries from `o`.
pub open spec fn parse_seen(p: Seq<u8>, o: int, n: nat) -> Step<Seq<(BrokerId, u64)>>
    decreases n,
{
    if n == 0 {
        Step::Done(Seq::empty(), o)
    } else {
        match parse_seen(p, o, (n - 1) as nat) {
            Step::Done(ps, o1) => if o1 + 10 > p.len() {
                Step::Fail(DmqError::ShortBuffer)
            } else {
                Step::Done(ps.push((u16_at(p, o1), u64_at(p, o1 + 2))), o1 + 10)
            },
            Step::Fail(e) => Step::Fail(e),
            Step::Panic => Step::Panic,
        }
    }
}

/// The optional liveness section at `o`: a count and that many entries, or
/// nothing when fewer than two bytes are left.
pub open spec fn parse_liveness(p: Seq<u8>, o: int) -> Step<Seq<(BrokerId, u64)>> {
    if o + 2 <= p.len() {
        parse_seen(p, o + 2, u16_at(p, o) as nat)
    } else {
        Step::Done(Seq::empty(), o)
    }
}

/// What decoding the body of either format makes of `p`. The liveness section is
/// optional: when fewer than two bytes follow the assignments it is empty.
pub open spec fn spec_decode_body(p: Seq<u8>) -> Step<ClusterStateView> {
    if p.len() < 4 {
        Step::Fail(DmqError::ShortBuffer)
    } else {
        match parse_brokers(p, 4, u16_at(p, 2) as nat, true) {
            Step::Done(bs, o1) => if o1 + 2 > p.len() {
                Step::Fail(DmqError::ShortBuffer)
            } else {
                match parse_live_assignments(p, o1 + 2, u16_at(p, o1) as nat) {
                    Step::Done(xs, o2) => match parse_liveness(p, o2) {
                        Step::Done(ps, o4) => Step::Done(
                            ClusterStateView {
                                min_insync_replicas: u16_at(p, 0),
                                brokers: bs,
                                assignments: xs,
                                broker_last_seen_ms: pairs_map(ps),
                            },
                            o4,
                        ),
                        Step::Fail(e) => Step::Fail(e),
                        Step::Panic => Step::Panic,
                    },
                    Step::Fail(e) => Step::Fail(e),
                    Step::Panic => Step::Panic,
                }
            }
            Step::Fail(e) => Step::Fail(e),
            Step::Panic => Step::Panic,
        }
    }
}

/// What `ClusterState::decode` makes of `p`.
pub open spec fn spec_decode_state(p: Seq<u8>) -> Step<ClusterStateView> {
    if p.len() < 6 || p.subrange(0, 6) != state_magic() {
        Step::Fail(DmqError::BadMagic)
    } else {
        spec_decode_body(p.subrange(6, p.len() as int))
    }
}

/// What decoding cluster info makes of `p` when the clock reads `now`: format 1 is
/// a static configuration bootstrapped at `now`, format 2 a full body.
pub open spec fn spec_decode_cluster_info(p: Seq<u8>, now: u64) -> Step<ClusterStateView> {
    if p.len() == 0 {
        Step::Fail(DmqError::ShortBuffer)
    } else if p[0] == 1 {
        match spec_decode_config(p.subrange(1, p.len() as int)) {
            Step::Done(c, o) => Step::Done(spec_from_seed(c, now), o),
            Step::Fail(e) => Step::Fail(e),
            Step::Panic => Step::Panic,
        }
    } else if p[0] != 2 {
        Step::Fail(DmqError::UnsupportedClusterInfoVersion(p[0]))
    } else {
        spec_decode_body(p.subrange(1, p.len() as int))
    }
}

fn put_live_assignment(out: &mut Vec<u8>, a: &LiveAssignment)
    ensures
        final(out)@ == old(out)@ + live_assignment_bytes(a@),
{
    put_u16(out, a.topic_id);
    put_u16(out, a.partition_id);
    put_u16(out, a.leader);
    put_u16(out, a.replicas.len() as u16);
    put_u16s(out, a.replicas.as_slice());
    put_u64(out, a.leader_epoch);
    assert(final(out)@ =~= old(out)@ + live_assignment_bytes(a@));
}

fn read_u64(payload: &[u8], offset: &mut usize) -> (r: Result<u64, DmqError>)
    requires
        *old(offset) <= payload@.len(),
    ensures
        match r {
            Ok(v) => *old(offset) + 8 <= payload@.len() && v == u64_at(payload@, *old(offset) as int)
                && *final(offset) == *old(offset) + 8,
            Err(e) => *old(offset) + 8 > payload@.len() && e == DmqError::ShortBuffer && *final(offset)
                == *old(offset),
        },
{
    if payload.len() - *offset < 8 {
        return Err(DmqError::ShortBuffer);
    }
    let v = get_u64(payload, *offset);
    *offset = *offset + 8;
    Ok(v)
}

fn read_live_assignment(payload: &[u8], offset: &mut usize) -> (r: Result<LiveAssignment, DmqError>)
    requires
        *old(offset) <= payload@.len(),
    ensures
        match r {
            Ok(a) => parse_live_assignment(payload@, *old(offset) as int) == Step::Done(a@, *final(offset) as int),
            Err(e) => parse_live_assignment(payload@, *old(offset) as int) == Step::<LiveAssignmentView>::Fail(e),
        },
        *final(offset) <= payload@.len(),
{
    let a = read_assignment(payload, offset)?;
    let leader_epoch = read_u64(payload, offset)?;
    Ok(LiveAssignment {
        topic_id: a.topic_id,
        partition_id: a.partition_id,
        leader: a.leader,
        replicas: a.replicas,
        leader_epoch,
    })
}

pub proof fn lemma_live_assignments_stuck(p: Seq<u8>, o: int, i: nat, n: nat)
    requires
        i <= n,
        !(parse_live_assignments(p, o, i) is Done),
    ensures
        parse_live_assignments(p, o, n) == parse_live_assignments(p, o, i),
    decreases n - i,
{
    if i < n {
        lemma_live_assignments_stuck(p, o, i, (n - 1) as nat);
    }
}

pub proof fn lemma_seen_stuck(p: Seq<u8>, o: int, i: nat, n: nat)
    requires
        i <= n,
        !(parse_seen(p, o, i) is Done),
    ensures
        parse_seen(p, o, n) == parse_seen(p, o, i),
    decreases n - i,
{
    if i < n {
        lemma_seen_stuck(p, o, i, (n - 1) as nat);
    }
}

/// A checked broker reader never slices past the end.
pub proof fn lemma_checked_brokers_no_panic(p: Seq<u8>, o: int, n: nat)
    ensures
        !(parse_brokers(p, o, n, true) is Panic),
    decreases n,
{
    if n > 0 {
        lemma_checked_brokers_no_panic(p, o, (n - 1) as nat);
    }
}

proof fn lemma_u16s_no_panic(p: Seq<u8>, o: int, n: nat)
    ensures
        !(parse_u16s(p, o, n) is Panic),
    decreases n,
{
    if n > 0 {
        lemma_u16s_no_panic(p, o, (n - 1) as nat);
    }
}

proof fn lemma_live_assignments_no_panic(p: Seq<u8>, o: int, n: nat)
    ensures
        !(parse_live_assignments(p, o, n) is Panic),
    decreases n,
{
    if n > 0 {
        lemma_live_assignments_no_panic(p, o, (n - 1) as nat);
        if let Step::Done(xs, o1) = parse_live_assignments(p, o, (n - 1) as nat) {
            if o1 + 8 <= p.len() {
                lemma_u16s_no_panic(p, o1 + 8, u16_at(p, o1 + 6) as nat);
            }
        }
    }
}

proof fn lemma_seen_no_panic(p: Seq<u8>, o: int, n: nat)
    ensures
        !(parse_seen(p, o, n) is Panic),
    decreases n,
{
    if n > 0 {
        lemma_seen_no_panic(p, o, (n - 1) as nat);
    }
}

/// Decoding a body never slices past the end of the input.
pub proof fn lemma_decode_body_no_panic(p: Seq<u8>)
    ensures
        !(spec_decode_body(p) is Panic),
{
    if p.len() >= 4 {
        lemma_checked_brokers_no_panic(p, 4, u16_at(p, 2) as nat);
        if let Step::Done(bs, o1) = parse_brokers(p, 4, u16_at(p, 2) as nat, true) {
            if o1 + 2 <= p.len() {
                lemma_live_assignments_no_panic(p, o1 + 2, u16_at(p, o1) as nat);
                if let Step::Done(xs, o2) = parse_live_assignments(p, o1 + 2, u16_at(p, o1) as nat) {
                    lemma_seen_no_panic(p, o2 + 2, u16_at(p, o2) as nat);
                    lemma_seen_no_panic(p, o2, 0);
                }
            }
        }
    }
}

fn decode_body(payload: &[u8]) -> (r: Result<ClusterState, DmqError>)
    ensures
        decoded_as(r, spec_decode_body(payload@)),
{
    broadcast use vstd::std_specs::hash::group_hash_axioms;

    let ghost p = payload@;
    let mut offset: usize = 0;
    let min_isr = read_u16(payload, &mut offset)?;
    let broker_count = read_u16(payload, &mut offset)? as usize;
    let mut brokers: Vec<BrokerNode> = Vec::new();
    let mut i: usize = 0;
    assert(brokers_view(brokers@) =~= Seq::<BrokerNodeView>::empty());
    while i < broker_count
        invariant
            p == payload@,
            p.len() >= 4,
            broker_count == u16_at(p, 2),
            i <= broker_count,
            offset <= p.len(),
            parse_brokers(p, 4, i as nat, true) == Step::Done(brokers_view(brokers@), offset as int),
        decreases broker_count - i,
    {
        let ghost before = brokers@;
        let b = match read_broker(payload, &mut offset, true) {
            Ok(b) => b,
            Err(e) => {
                proof {
                    assert(parse_brokers(p, 4, (i + 1) as nat, true) == Step::<Seq<BrokerNodeView>>::Fail(e));
                    lemma_brokers_stuck(p, 4, (i + 1) as nat, broker_count as nat, true);
                }
                return Err(e);
            },
        };
        brokers.push(b);
        assert(brokers_view(brokers@) =~= brokers_view(before).push(b@));
        i = i + 1;
    }
    let assignment_count = read_u16(payload, &mut offset)? as usize;
    let ghost o1 = offset as int;
    let mut assignments: Vec<LiveAssignment> = Vec::new();
    let mut j: usize = 0;
    assert(live_view(assignments@) =~= Seq::<LiveAssignmentView>::empty());
    while j < assignment_count
        invariant
            p == payload@,
            p.len() >= 4,
            2 <= o1 <= p.len(),
            parse_brokers(p, 4, u16_at(p, 2) as nat, true) == Step::Done(brokers_view(brokers@), o1 - 2),
            assignment_count == u16_at(p, o1 - 2),
            j <= assignment_count,
            offset <= p.len(),
            parse_live_assignments(p, o1, j as nat) == Step::Done(live_view(assignments@), offset as int),
        decreases assignment_count - j,
    {
        let ghost before = assignments@;
        let a = match read_live_assignment(payload, &mut offset) {
            Ok(a) => a,
            Err(e) => {
                proof {
                    assert(parse_live_assignments(p, o1, (j + 1) as nat) == Step::<Seq<LiveAssignmentView>>::Fail(e));
                    lemma_live_assignments_stuck(p, o1, (j + 1) as nat, assignment_count as nat);
                }
                return Err(e);
            },
        };
        assignments.push(a);
        assert(live_view(assignments@) =~= live_view(before).push(a@));
        j = j + 1;
    }
    let ghost o2 = offset as int;
    let liveness_count: usize = if payload.len() - offset >= 2 {
        read_u16(payload, &mut offset)? as usize
    } else {
        0
    };
    let ghost o3 = offset as int;
    let ghost pairs: Seq<(BrokerId, u64)> = Seq::empty();
    let mut seen: HashMap<BrokerId, u64> = HashMap::new();
    let mut k: usize = 0;
    assert(seen@ =~= pairs_map(pairs));
    while k < liveness_count
        invariant
            p == payload@,
            p.len() >= 4,
            2 <= o1 <= p.len(),
            parse_brokers(p, 4, u16_at(p, 2) as nat, true) == Step::Done(brokers_view(brokers@), o1 - 2),
            assignment_count == u16_at(p, o1 - 2),
            parse_live_assignments(p, o1, assignment_count as nat) == Step::Done(live_view(assignments@), o2),
            liveness_count == (if o2 + 2 <= p.len() {
                u16_at(p, o2) as nat
            } else {
                0
            }),
            o3 == (if o2 + 2 <= p.len() {
                o2 + 2
            } else {
                o2
            }),
            k <= liveness_count,
            offset <= p.len(),
            parse_seen(p, o3, k as nat) == Step::Done(pairs, offset as int),
            seen@ == pairs_map(pairs),
        decreases liveness_count - k,
    {
        let id = match read_u16(payload, &mut offset) {
            Ok(v) => v,
            Err(e) => {
                proof {
                    assert(parse_seen(p, o3, (k + 1) as nat) == Step::<Seq<(BrokerId, u64)>>::Fail(e));
                    lemma_seen_stuck(p, o3, (k + 1) as nat, liveness_count as nat);
                }
                return Err(e);
            },
        };
        let at = match read_u64(payload, &mut offset) {
            Ok(v) => v,
            Err(e) => {
                proof {
                    assert(parse_seen(p, o3, (k + 1) as nat) == Step::<Seq<(BrokerId, u64)>>::Fail(e));
                    lemma_seen_stuck(p, o3, (k + 1) as nat, liveness_count as nat);
                }
                return Err(e);
            },
        };
        seen.insert(id, at);
        proof {
            let ghost prev = pairs;
            pairs = pairs.push((id, at));
            assert(pairs.drop_last() =~= prev);
        }
        assert(seen@ =~= pairs_map(pairs));
        k = k + 1;
    }
    Ok(ClusterState { min_insync_replicas: min_isr, brokers, assignments, broker_last_seen_ms: seen })
}

impl ClusterState {
    fn put_body(&self, out: &mut Vec<u8>)
        ensures
            final(out)@ == old(out)@ + self@.body_bytes(),
    {
        put_u16(out, self.min_insync_replicas);
        put_u16(out, self.brokers.len() as u16);
        let ghost head = out@;
        let mut i: usize = 0;
        while i < self.brokers.len()
            invariant
                i <= self.brokers@.len(),
                out@ == head + brokers_bytes(brokers_view(self.brokers@.subrange(0, i as int))),
            decreases self.brokers@.len() - i,
        {
            put_broker(out, &self.brokers[i]);
            assert(brokers_view(self.brokers@.subrange(0, i + 1)).drop_last() =~= brokers_view(
                self.brokers@.subrange(0, i as int),
            ));
            i = i + 1;
            assert(out@ =~= head + brokers_bytes(brokers_view(self.brokers@.subrange(0, i as int))));
        }
        assert(self.brokers@.subrange(0, i as int) =~= self.brokers@);
        put_u16(out, self.assignments.len() as u16);
        let ghost head2 = out@;
        let mut j: usize = 0;
        while j < self.assignments.len()
            invariant
                j <= self.assignments@.len(),
                out@ == head2 + live_assignments_bytes(live_view(self.assignments@.subrange(0, j as int))),
            decreases self.assignments@.len() - j,
        {
            put_live_assignment(out, &self.assignments[j]);
            assert(live_view(self.assignments@.subrange(0, j + 1)).drop_last() =~= live_view(
                self.assignments@.subrange(0, j as int),
            ));
            j = j + 1;
            assert(out@ =~= head2 + live_assignments_bytes(live_view(self.assignments@.subrange(0, j as int))));
        }
        assert(self.assignments@.subrange(0, j as int) =~= self.assignments@);
        assert(out@ =~= old(out)@ + self@.body_bytes());
    }

    /// The persisted form. The liveness entries come in the order in which the
    /// map hands them out, which is not fixed; each entry comes once.
    pub fn encode(&self) -> (out: Vec<u8>)
        ensures
            exists|order: Seq<(BrokerId, u64)>|
                lists_entries(order, self@.broker_last_seen_ms) && out@ == self@.encode_with(order),
    {
        broadcast use vstd::std_specs::hash::group_hash_axioms;

        let mut out: Vec<u8> = Vec::new();
        out.push(0x44u8);
        out.push(0x4du8);
        out.push(0x51u8);
        out.push(0x43u8);
        out.push(0x53u8);
        out.push(0x01u8);
        assert(out@ =~= state_magic());
        self.put_body(&mut out);
        put_u16(&mut out, self.broker_last_seen_ms.len() as u16);
        let ghost head = out@;
        let ghost m = self@.broker_last_seen_ms;
        let ghost mut order: Seq<(BrokerId, u64)> = Seq::empty();
        for entry in it: self.broker_last_seen_ms.iter()
            invariant
                m == self@.broker_last_seen_ms,
                it.seq().no_duplicates(),
                forall|i: int| 0 <= i < it.seq().len() ==> #[trigger] m.contains_key(*it.seq()[i].0)
                    && m[*it.seq()[i].0] == *it.seq()[i].1,
                it.seq().len() == m.dom().len(),
                order.len() == it.index(),
                forall|i: int| 0 <= i < order.len() ==> #[trigger] order[i] == (*it.seq()[i].0, *it.seq()[i].1),
                forall|i: int, j: int| 0 <= i < j < order.len() ==> order[i].0 != order[j].0,
                forall|k: BrokerId| #[trigger] m.contains_key(k) ==> (exists|i: int| 0 <= i < order.len() && order[i].0 == k)
                    || (exists|j: int| it.index() <= j < it.seq().len() && *it.seq()[j].0 == k),
                out@ == head + seen_bytes(order),
        {
            let (id, at) = entry;
            put_u16(&mut out, *id);
            put_u64(&mut out, *at);
            proof {
                let ghost n = it.index();
                assert(it.seq()[n] == entry);
                let ghost prev = order;
                order = order.push((*id, *at));
                assert(order.drop_last() =~= prev);
                assert(m.contains_key(*id) && m[*id] == *at) by {
                    assert(m.contains_key(*it.seq()[n].0));
                }
                assert forall|i: int, j: int| 0 <= i < j < order.len() implies order[i].0 != order[j].0 by {
                    if j == n && order[i].0 == order[j].0 {
                        assert(order[i] == (*it.seq()[i].0, *it.seq()[i].1));
                        assert(m.contains_key(*it.seq()[i].0));
                        assert(it.seq()[i] == it.seq()[n]);
                    }
                }
                assert forall|k: BrokerId| #[trigger] m.contains_key(k) implies (exists|i: int|
                    0 <= i < order.len() && order[i].0 == k) || (exists|j: int|
                    n + 1 <= j < it.seq().len() && *it.seq()[j].0 == k) by {
                    if exists|i: int| 0 <= i < prev.len() && prev[i].0 == k {
                        let i = choose|i: int| 0 <= i < prev.len() && prev[i].0 == k;
                        assert(order[i] == prev[i]);
                    } else {
                        let j = choose|j: int| n <= j < it.seq().len() && *it.seq()[j].0 == k;
                        if j == n {
                            assert(order[n as int].0 == k);
                        }
                    }
                }
            }
            assert(out@ =~= head + seen_bytes(order));
        }
        assert forall|k: BrokerId| #[trigger] m.contains_key(k) implies exists|i: int| 0 <= i < order.len() && order[i].0 == k by {
            assert(m.contains_key(k));
        }
        assert(lists_entries(order, m));
        assert(order.len() == m.dom().len());
        assert(self.broker_last_seen_ms.len() == m.dom().len());
        assert(out@ =~= self@.encode_with(order));
        out
    }

    /// Decodes a persisted state (see `spec_decode_state`).
    pub fn decode(bytes: &[u8]) -> (r: Result<ClusterState, DmqError>)
        ensures
            decoded_as(r, spec_decode_state(bytes@)),
    {
        if bytes.len() < 6 || bytes[0] != 0x44u8 || bytes[1] != 0x4du8 || bytes[2] != 0x51u8 || bytes[3] != 0x43u8
            || bytes[4] != 0x53u8 || bytes[5] != 0x01u8 {
            proof {
                if bytes@.len() >= 6 {
                    if bytes@.subrange(0, 6) == state_magic() {
                        assert(bytes@.subrange(0, 6)[0] == bytes@[0]);
                        assert(bytes@.subrange(0, 6)[1] == bytes@[1]);
                        assert(bytes@.subrange(0, 6)[2] == bytes@[2]);
                        assert(bytes@.subrange(0, 6)[3] == bytes@[3]);
                        assert(bytes@.subrange(0, 6)[4] == bytes@[4]);
                        assert(bytes@.subrange(0, 6)[5] == bytes@[5]);
                    }
                }
            }
            return Err(DmqError::BadMagic);
        }
        assert(bytes@.subrange(0, 6) =~= state_magic());
        let (_, body) = bytes.split_at(6);
        assert(body@ =~= bytes@.subrange(6, bytes@.len() as int));
        decode_body(body)
    }

    /// The cluster-info form (see `cluster_info_bytes`).
    pub fn encode_cluster_info(&self) -> (out: Vec<u8>)
        ensures
            out@ == self@.cluster_info_bytes(),
    {
        let mut out: Vec<u8> = Vec::new();
        out.push(2u8);
        self.put_body(&mut out);
        assert(out@ =~= self@.cluster_info_bytes());
        out
    }

    /// Decodes cluster info, bootstrapping a format-1 configuration at `now`. A v1
    /// host name that runs past the end makes the configuration reader slice out
    /// of bounds, so such input is excluded.
    pub fn decode_cluster_info_at(bytes: &[u8], now: u64) -> (r: Result<ClusterState, DmqError>)
        requires
            !(spec_decode_cluster_info(bytes@, now) is Panic),
        ensures
            decoded_as(r, spec_decode_cluster_info(bytes@, now)),
    {
        if bytes.len() == 0 {
            return Err(DmqError::ShortBuffer);
        }
        let (_, rest) = bytes.split_at(1);
        assert(rest@ =~= bytes@.subrange(1, bytes@.len() as int));
        if bytes[0] == 1 {
            let cfg = ClusterConfig::decode(rest)?;
            return Ok(Self::from_seed_at(&cfg, now));
        }
        if bytes[0] != 2 {
            return Err(DmqError::UnsupportedClusterInfoVersion(bytes[0]));
        }
        decode_body(rest)
    }

    /// Decodes cluster info, bootstrapping a format-1 configuration at the current
    /// time; the outcome is that of `decode_cluster_info_at` for some time.
    pub fn decode_cluster_info(bytes: &[u8]) -> (r: Result<ClusterState, DmqError>)
        requires
            !(bytes@.len() > 0 && bytes@[0] == 1 && spec_decode_config(bytes@.subrange(1, bytes@.len() as int)) is Panic),
        ensures
            exists|t: u64| decoded_as(r, spec_decode_cluster_info(bytes@, t)),
    {
        let now = now_ms();
        proof {
            if bytes@.len() > 0 {
                lemma_decode_body_no_panic(bytes@.subrange(1, bytes@.len() as int));
            }
        }
        let r = Self::decode_cluster_info_at(bytes, now);
        assert(decoded_as(r, spec_decode_cluster_info(bytes@, now)));
        r
    }
}

/// A broker that is found by lookup is one that is listed, and conversely.
pub proof fn lemma_lookup_some_iff(bs: Seq<BrokerNodeView>, id: BrokerId)
    ensures
        broker_lookup(bs, id) is Some <==> exists|j: int| 0 <= j < bs.len() && bs[j].id == id,
        broker_lookup(bs, id) matches Some(b) ==> b.id == id,
    decreases bs.len(),
{
    if bs.len() > 0 {
        lemma_lookup_some_iff(bs.drop_first(), id);
        if bs[0].id != id {
            assert forall|j: int| 0 <= j < bs.len() && bs[j].id == id implies exists|k: int|
                0 <= k < bs.drop_first().len() && bs.drop_first()[k].id == id by {
                assert(bs.drop_first()[j - 1] == bs[j]);
            }
            if broker_lookup(bs.drop_first(), id) is Some {
                let k = choose|k: int| 0 <= k < bs.drop_first().len() && bs.drop_first()[k].id == id;
                assert(bs[k + 1].id == id);
            }
        }
    }
}

// ---------------------------------------------------------------------------
// Decoding an encoding gives the state back.

proof fn lemma_parse_live_assignments(p: Seq<u8>, o: int, xs: Seq<LiveAssignmentView>)
    requires
        0 <= o,
        o + live_assignments_bytes(xs).len() <= p.len(),
        p.subrange(o, o + live_assignments_bytes(xs).len()) == live_assignments_bytes(xs),
        forall|i: int| 0 <= i < xs.len() ==> #[trigger] xs[i].replicas.len() <= u16::MAX,
    ensures
        parse_live_assignments(p, o, xs.len()) == Step::Done(xs, o + live_assignments_bytes(xs).len()),
    decreases xs.len(),
{
    if xs.len() > 0 {
        let init = xs.drop_last();
        let last = xs.last();
        lemma_window_split(p, o, live_assignments_bytes(init), live_assignment_bytes(last));
        assert forall|i: int| 0 <= i < init.len() implies #[trigger] init[i].replicas.len() <= u16::MAX by {
            assert(init[i] == xs[i]);
        }
        lemma_parse_live_assignments(p, o, init);
        let o1 = o + live_assignments_bytes(init).len();
        let ab = assignment_bytes(last.placement());
        lemma_window_split(p, o1, ab, be64(last.leader_epoch));
        assert(xs[xs.len() - 1].replicas.len() <= u16::MAX);
        lemma_parse_assignment(p, o1, last.placement());
        let o2 = o1 + ab.len();
        assert forall|i: int| 0 <= i < 8 implies p[o2 + i] == be64(last.leader_epoch)[i] by {
            assert(p.subrange(o2, o2 + 8)[i] == p[o2 + i]);
        }
        lemma_be64(last.leader_epoch);
        assert(init.push(last) =~= xs);
    } else {
        assert(xs =~= Seq::<LiveAssignmentView>::empty());
    }
}

proof fn lemma_parse_seen(p: Seq<u8>, o: int, ps: Seq<(BrokerId, u64)>)
    requires
        0 <= o,
        o + seen_bytes(ps).len() <= p.len(),
        p.subrange(o, o + seen_bytes(ps).len()) == seen_bytes(ps),
    ensures
        parse_seen(p, o, ps.len()) == Step::Done(ps, o + seen_bytes(ps).len()),
        seen_bytes(ps).len() == 10 * ps.len(),
    decreases ps.len(),
{
    if ps.len() > 0 {
        let init = ps.drop_last();
        let last = ps.last();
        let e = be16(last.0) + be64(last.1);
        assert(seen_bytes(ps) == seen_bytes(init) + e);
        lemma_window_split(p, o, seen_bytes(init), e);
        lemma_parse_seen(p, o, init);
        let o1 = o + seen_bytes(init).len();
        lemma_window_split(p, o1, be16(last.0), be64(last.1));
        lemma_u16_window(p, o1, last.0);
        lemma_u64_window(p, o1 + 2, last.1);
        assert(init.push(last) =~= ps);
    } else {
        assert(ps =~= Seq::<(BrokerId, u64)>::empty());
    }
}

/// Decoding a body followed by `tail` gives the body's state, with the liveness
/// that `tail` holds.
proof fn lemma_decode_body_prefix(s: ClusterStateView, tail: Seq<u8>)
    requires
        s.to_cluster_config().encodable(),
    ensures
        spec_decode_body(s.body_bytes() + tail) == match parse_liveness(s.body_bytes() + tail, s.body_bytes().len() as int) {
            Step::Done(ps, o4) => Step::Done(ClusterStateView { broker_last_seen_ms: pairs_map(ps), ..s }, o4),
            Step::Fail(e) => Step::Fail(e),
            Step::Panic => Step::<ClusterStateView>::Panic,
        },
{
    let c = s.to_cluster_config();
    let p = s.body_bytes() + tail;
    let bb = brokers_bytes(s.brokers);
    let lb = live_assignments_bytes(s.assignments);
    assert(s.body_bytes() == be16(s.min_insync_replicas) + be16(s.brokers.len() as u16) + bb + be16(
        s.assignments.len() as u16,
    ) + lb);
    assert(p[0] == be16(s.min_insync_replicas)[0] && p[1] == be16(s.min_insync_replicas)[1]);
    assert(p[2] == be16(s.brokers.len() as u16)[0] && p[3] == be16(s.brokers.len() as u16)[1]);
    lemma_be16(s.min_insync_replicas);
    lemma_be16(s.brokers.len() as u16);
    assert(p.subrange(4, 4 + bb.len() as int) =~= bb);
    assert forall|i: int| 0 <= i < s.brokers.len() implies #[trigger] encode_utf8(s.brokers[i].host).len() <= 255 by {
        assert(c.brokers[i] == s.brokers[i]);
    }
    lemma_parse_brokers(p, 4, s.brokers, true);
    let o1: int = 4 + bb.len() as int;
    assert(p[o1] == be16(s.assignments.len() as u16)[0]);
    assert(p[o1 + 1] == be16(s.assignments.len() as u16)[1]);
    lemma_be16(s.assignments.len() as u16);
    assert(p.subrange(o1 + 2, o1 + 2 + lb.len() as int) =~= lb);
    assert forall|i: int| 0 <= i < s.assignments.len() implies #[trigger] s.assignments[i].replicas.len() <= u16::MAX by {
        assert(c.assignments[i] == s.assignments[i].placement());
        assert(c.assignments[i].replicas.len() <= u16::MAX);
    }
    lemma_parse_live_assignments(p, o1 + 2, s.assignments);
    assert(o1 + 2 + lb.len() == s.body_bytes().len());
}

/// Inserting pairs with distinct keys gives a map that holds exactly those pairs.
proof fn lemma_pairs_map(ps: Seq<(BrokerId, u64)>)
    requires
        forall|i: int, j: int| 0 <= i < j < ps.len() ==> ps[i].0 != ps[j].0,
    ensures
        forall|k: BrokerId| #[trigger] pairs_map(ps).contains_key(k) <==> exists|i: int| 0 <= i < ps.len() && ps[i].0 == k,
        forall|i: int| 0 <= i < ps.len() ==> #[trigger] pairs_map(ps)[ps[i].0] == ps[i].1,
    decreases ps.len(),
{
    if ps.len() > 0 {
        let init = ps.drop_last();
        lemma_pairs_map(init);
        assert forall|k: BrokerId| #[trigger] pairs_map(ps).contains_key(k) implies exists|i: int|
            0 <= i < ps.len() && ps[i].0 == k by {
            if k != ps.last().0 {
                assert(pairs_map(init).contains_key(k));
                let i = choose|i: int| 0 <= i < init.len() && init[i].0 == k;
                assert(ps[i] == init[i]);
            }
        }
        assert forall|k: BrokerId| (exists|i: int| 0 <= i < ps.len() && ps[i].0 == k) implies #[trigger] pairs_map(
            ps,
        ).contains_key(k) by {
            let i = choose|i: int| 0 <= i < ps.len() && ps[i].0 == k;
            if i < ps.len() - 1 {
                assert(init[i] == ps[i]);
                assert(pairs_map(init).contains_key(k));
            }
        }
        assert forall|i: int| 0 <= i < ps.len() implies #[trigger] pairs_map(ps)[ps[i].0] == ps[i].1 by {
            if i < ps.len() - 1 {
                assert(init[i] == ps[i]);
                assert(ps[i].0 != ps[ps.len() - 1].0);
                assert(pairs_map(init)[init[i].0] == init[i].1);
            }
        }
    }
}

/// A listing of a map's entries, inserted in order, builds the map back, and is as
/// long as the map.
proof fn lemma_listing(order: Seq<(BrokerId, u64)>, m: Map<BrokerId, u64>)
    requires
        lists_entries(order, m),
    ensures
        pairs_map(order) == m,
        order.len() == m.dom().len(),
{
    lemma_pairs_map(order);
    assert forall|k: BrokerId| #[trigger] pairs_map(order).contains_key(k) <==> m.contains_key(k) by {
        if pairs_map(order).contains_key(k) {
            let i = choose|i: int| 0 <= i < order.len() && order[i].0 == k;
            assert(m.contains_key(order[i].0));
        }
    }
    assert forall|k: BrokerId| #[trigger] m.contains_key(k) implies pairs_map(order)[k] == m[k] by {
        let i = choose|i: int| 0 <= i < order.len() && order[i].0 == k;
        assert(m.contains_key(order[i].0));
    }
    assert(pairs_map(order) =~= m);
    let keys = order.map_values(|q: (BrokerId, u64)| q.0);
    assert(keys.no_duplicates()) by {
        assert forall|i: int, j: int| 0 <= i < keys.len() && 0 <= j < keys.len() && i != j implies keys[i]
            != keys[j] by {
            assert(keys[i] == order[i].0 && keys[j] == order[j].0);
            if i < j {
                assert(order[i].0 != order[j].0);
            } else {
                assert(order[j].0 != order[i].0);
            }
        }
    }
    keys.unique_seq_to_set();
    assert forall|k: BrokerId| keys.to_set().contains(k) <==> m.dom().contains(k) by {
        if keys.to_set().contains(k) {
            let i = choose|i: int| 0 <= i < keys.len() && keys[i] == k;
            assert(m.contains_key(order[i].0));
        }
        if m.dom().contains(k) {
            let i = choose|i: int| 0 <= i < order.len() && order[i].0 == k;
            assert(keys[i] == k);
        }
    }
    assert(keys.to_set() =~= m.dom());
}

/// Decoding a persisted state gives the state back, whatever order the liveness
/// entries were written in, and consumes every byte after the magic.
#[verifier::rlimit(50)]
pub proof fn lemma_state_roundtrip(s: ClusterStateView, order: Seq<(BrokerId, u64)>)
    requires
        s.encodable(),
        lists_entries(order, s.broker_last_seen_ms),
    ensures
        spec_decode_state(s.encode_with(order)) == Step::Done(s, s.encode_with(order).len() - 6),
{
    let p = s.encode_with(order);
    let body = s.body_bytes();
    let sb = seen_bytes(order);
    let tail = be16(order.len() as u16) + sb;
    lemma_listing(order, s.broker_last_seen_ms);
    assert(p.subrange(0, 6) =~= state_magic());
    let q = p.subrange(6, p.len() as int);
    assert(q =~= body + tail);
    lemma_decode_body_prefix(s, tail);
    let o2 = body.len() as int;
    assert(q[o2] == be16(order.len() as u16)[0] && q[o2 + 1] == be16(order.len() as u16)[1]);
    lemma_be16(order.len() as u16);
    assert(q.subrange(o2 + 2, o2 + 2 + sb.len() as int) =~= sb);
    lemma_parse_seen(q, o2 + 2, order);
    assert(ClusterStateView { broker_last_seen_ms: pairs_map(order), ..s } == s);
}

/// A state file written before liveness was stored (its body ends right after
/// the assignments) still decodes: to the same brokers and assignments, with no
/// liveness entries.
pub proof fn lemma_state_without_liveness_decodes(s: ClusterStateView)
    requires
        s.to_cluster_config().encodable(),
    ensures
        spec_decode_state(state_magic() + s.body_bytes()) == Step::Done(
            ClusterStateView { broker_last_seen_ms: Map::empty(), ..s },
            s.body_bytes().len() as int,
        ),
{
    let p = state_magic() + s.body_bytes();
    assert(p.subrange(0, 6) =~= state_magic());
    assert(p.subrange(6, p.len() as int) =~= s.body_bytes() + Seq::<u8>::empty());
    assert(s.body_bytes() + Seq::<u8>::empty() =~= s.body_bytes());
    lemma_decode_body_prefix(s, Seq::<u8>::empty());
    assert(pairs_map(Seq::<(BrokerId, u64)>::empty()) =~= Map::<BrokerId, u64>::empty());
}

/// Decoding cluster info gives the state back without its liveness entries.
pub proof fn lemma_cluster_info_roundtrip(s: ClusterStateView, now: u64)
    requires
        s.to_cluster_config().encodable(),
    ensures
        spec_decode_cluster_info(s.cluster_info_bytes(), now) == Step::Done(
            ClusterStateView { broker_last_seen_ms: Map::empty(), ..s },
            s.cluster_info_bytes().len() - 1,
        ),
{
    let p = s.cluster_info_bytes();
    let q = p.subrange(1, p.len() as int);
    assert(q =~= s.body_bytes() + Seq::<u8>::empty());
    lemma_decode_body_prefix(s, Seq::<u8>::empty());
    assert(pairs_map(Seq::<(BrokerId, u64)>::empty()) =~= Map::<BrokerId, u64>::empty());
}

/// A listed broker that sent a heartbeat at `at` is alive at any `now` no more than
/// `timeout` ms later.
pub proof fn lemma_heartbeat_keeps_alive(s: ClusterStateView, id: BrokerId, at: u64, now: u64, timeout: u64)
    requires
        broker_lookup(s.brokers, id) is Some,
        at <= now,
        now - at <= timeout,
    ensures
        s.heartbeat(id, at).broker_alive(id, now, timeout),
{
}

/// Failover leaves alone every partition whose leader is alive, and moves the
/// leadership of any other to an alive replica, one epoch later, when there is one.
pub proof fn lemma_failover_outcome(s: ClusterStateView, now: u64, timeout: u64, i: int)
    requires
        0 <= i < s.assignments.len(),
    ensures
        s.broker_alive(s.assignments[i].leader, now, timeout) ==> s.failover(now, timeout).assignments[i]
            == s.assignments[i],
        !s.broker_alive(s.assignments[i].leader, now, timeout) && first_alive_other(
            s.assignments[i].replicas,
            s.assignments[i].leader,
            s.broker_last_seen_ms,
            now,
            timeout,
        ) is Some ==> {
            let a = s.failover(now, timeout).assignments[i];
            &&& s.broker_alive(a.leader, now, timeout)
            &&& s.assignments[i].replicas.contains(a.leader)
            &&& a.leader != s.assignments[i].leader
            &&& s.assignments[i].leader_epoch < u64::MAX ==> a.leader_epoch == s.assignments[i].leader_epoch + 1
        },
{
    let a = s.assignments[i];
    lemma_first_alive_other(a.replicas, a.leader, s.broker_last_seen_ms, now, timeout);
}

/// A partition whose leader is dead moves, on failover, to an alive replica
/// other than the old leader, one epoch later, whenever such a replica exists.
pub proof fn lemma_failover_promotes(s: ClusterStateView, now: u64, timeout: u64, i: int, r: BrokerId)
    requires
        0 <= i < s.assignments.len(),
        !s.broker_alive(s.assignments[i].leader, now, timeout),
        s.assignments[i].replicas.contains(r),
        r != s.assignments[i].leader,
        s.broker_alive(r, now, timeout),
    ensures
        ({
            let a = s.failover(now, timeout).assignments[i];
            &&& s.broker_alive(a.leader, now, timeout)
            &&& s.assignments[i].replicas.contains(a.leader)
            &&& a.leader != s.assignments[i].leader
            &&& s.assignments[i].leader_epoch < u64::MAX ==> a.leader_epoch == s.assignments[i].leader_epoch + 1
        }),
{
    let a = s.assignments[i];
    lemma_first_alive_other_found(a.replicas, a.leader, s.broker_last_seen_ms, now, timeout, r);
    lemma_failover_outcome(s, now, timeout, i);
}

proof fn lemma_first_alive_other_found(replicas: Seq<BrokerId>, leader: BrokerId, seen: Map<BrokerId, u64>, now: u64, timeout: u64, r: BrokerId)
    requires
        replicas.contains(r),
        r != leader,
        spec_alive(seen, r, now, timeout),
    ensures
        first_alive_other(replicas, leader, seen, now, timeout) is Some,
    decreases replicas.len(),
{
    if !(replicas[0] != leader && spec_alive(seen, replicas[0], now, timeout)) {
        let j = choose|j: int| 0 <= j < replicas.len() && replicas[j] == r;
        assert(j != 0);
        assert(replicas.drop_first()[j - 1] == r);
        lemma_first_alive_other_found(replicas.drop_first(), leader, seen, now, timeout, r);
    }
}

proof fn lemma_first_alive_other(replicas: Seq<BrokerId>, leader: BrokerId, seen: Map<BrokerId, u64>, now: u64, timeout: u64)
    ensures
        first_alive_other(replicas, leader, seen, now, timeout) matches Some(l) ==> l != leader && spec_alive(
            seen,
            l,
            now,
            timeout,
        ) && replicas.contains(l),
    decreases replicas.len(),
{
    if replicas.len() > 0 {
        lemma_first_alive_other(replicas.drop_first(), leader, seen, now, timeout);
        if let Some(l) = first_alive_other(replicas, leader, seen, now, timeout) {
            if !(replicas[0] != leader && spec_alive(seen, replicas[0], now, timeout)) {
                let j = choose|j: int| 0 <= j < replicas.drop_first().len() && replicas.drop_first()[j] == l;
                assert(replicas[j + 1] == l);
            } else {
                assert(replicas[0] == l);
            }
        }
    }
}

} // verus!

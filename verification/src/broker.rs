//! The broker's partition logs, offsets and produce/fetch/replication rules,
//! held in memory. Persisting what changes is left to the caller.

use crate::acl::{Acl, AclView, Operation};
use crate::cluster::{BrokerId, BrokerNode, BrokerNodeView, ClusterConfig, ClusterConfigView};
use crate::cluster_state::{changed_assignments, spec_controller, ClusterState, ClusterStateView};
use crate::coordinator::{is_first_free_id, GroupMemberView, GroupState, GroupStateView};
use crate::error::DmqError;
use crate::idempotency::{spec_resolve, IdempotencyAction, IdempotencyState};
use crate::message::{
    be16_all, BrokerHeartbeatRequest, CommitOffsetRequest, ConsumerRegister, FetchRequest, GroupHeartbeatRequest, IdempotentProduceRequest,
    JoinGroupRequest, ProducerRegister,
};
use crate::partition_log::{records_view, PartitionLog, PartitionLogView, Record, RecordView};
use crate::snapshot::{decode_topic, encode_topic, parse_topic, topic_bytes, topic_snapshot};
use crate::topic::{consumer_registered, group_position, pushed, QueueView, Topic};
use crate::topic_config::TopicConfig;
use crate::wire::{be16, be32, be64, put_u16, put_u32, put_u64};
use std::collections::HashMap;
use vstd::prelude::*;

verus! {

broadcast use vstd::std_specs::hash::group_hash_axioms;

/// The key of a partition's log: topic and partition packed into one number.
pub open spec fn log_key(topic_id: u16, partition_id: u16) -> u32 {
    (topic_id as u32 * 65536 + partition_id as u32) as u32
}

/// The key of a committed offset: group, topic and partition packed together.
pub open spec fn offset_key(group_id: u16, topic_id: u16, partition_id: u16) -> u64 {
    (group_id as u64 * 0x1_0000_0000 + topic_id as u64 * 65536 + partition_id as u64) as u64
}

pub proof fn lemma_log_key_injective(t1: u16, p1: u16, t2: u16, p2: u16)
    ensures
        log_key(t1, p1) == log_key(t2, p2) ==> t1 == t2 && p1 == p2,
{
    assert(t1 * 65536 + p1 < 0x1_0000_0000) by (nonlinear_arith)
        requires
            t1 < 65536,
            p1 < 65536,
    ;
    assert(t2 * 65536 + p2 < 0x1_0000_0000) by (nonlinear_arith)
        requires
            t2 < 65536,
            p2 < 65536,
    ;
    if log_key(t1, p1) == log_key(t2, p2) {
        assert(t1 == t2 && p1 == p2) by (nonlinear_arith)
            requires
                t1 * 65536 + p1 == t2 * 65536 + p2,
                0 <= p1 < 65536,
                0 <= p2 < 65536,
        ;
    }
}

fn key_of_log(topic_id: u16, partition_id: u16) -> (k: u32)
    ensures
        k == log_key(topic_id, partition_id),
{
    proof {
        assert(topic_id * 65536 + partition_id < 0x1_0000_0000) by (nonlinear_arith)
            requires
                topic_id < 65536,
                partition_id < 65536,
        ;
    }
    (topic_id as u32) * 65536 + (partition_id as u32)
}

fn key_of_offset(group_id: u16, topic_id: u16, partition_id: u16) -> (k: u64)
    ensures
        k == offset_key(group_id, topic_id, partition_id),
{
    proof {
        assert(group_id * 0x1_0000_0000 + topic_id * 65536 + partition_id < 0x1_0000_0000_0000) by (nonlinear_arith)
            requires
                group_id < 65536,
                topic_id < 65536,
                partition_id < 65536,
        ;
    }
    (group_id as u64) * 0x1_0000_0000 + (topic_id as u64) * 65536 + (partition_id as u64)
}

pub struct Broker {
    logs: HashMap<u32, PartitionLog>,
    topic_configs: HashMap<u16, TopicConfig>,
    committed: HashMap<u64, u64>,
    topics: HashMap<u16, Topic>,
    topic_ids: Vec<u16>,
    groups: HashMap<u32, GroupState>,
    group_keys: Vec<u32>,
    pub idempotency: IdempotencyState,
    pub broker_id: BrokerId,
    pub cluster: Option<ClusterConfig>,
    pub cluster_state: Option<ClusterState>,
    pub acl: Acl,
    pub legacy_push: Option<bool>,
    pub controller_setting: Option<Option<BrokerId>>,
    pub max_payload_bytes: usize,
    pub max_fetch_bytes: u32,
}

/// The broker's state: logs by `log_key`, topic settings, committed offsets by
/// `offset_key`, topics with their sorted ids, coordinated groups by `group_key`
/// in the order they were created, and the cluster and access settings.
pub struct BrokerView {
    pub logs: Map<u32, PartitionLogView>,
    pub topic_configs: Map<u16, TopicConfig>,
    pub committed: Map<u64, u64>,
    pub topics: Map<u16, Topic>,
    pub topic_ids: Seq<u16>,
    pub groups: Map<u32, GroupStateView>,
    pub group_keys: Seq<u32>,
    pub idempotency: Map<u128, (u64, u64)>,
    pub broker_id: BrokerId,
    pub cluster: Option<ClusterConfigView>,
    pub cluster_state: Option<ClusterStateView>,
    pub acl: AclView,
    pub legacy_push: Option<bool>,
    pub controller_setting: Option<Option<BrokerId>>,
    pub max_payload_bytes: usize,
    pub max_fetch_bytes: u32,
}

impl View for Broker {
    type V = BrokerView;

    closed spec fn view(&self) -> BrokerView {
        BrokerView {
            logs: self.logs@.map_values(|l: PartitionLog| l@),
            topic_configs: self.topic_configs@,
            committed: self.committed@,
            topics: self.topics@,
            topic_ids: self.topic_ids@,
            groups: self.groups@.map_values(|g: GroupState| g@),
            group_keys: self.group_keys@,
            idempotency: self.idempotency.entries@,
            broker_id: self.broker_id,
            cluster: match self.cluster {
                Some(c) => Some(c@),
                None => None,
            },
            cluster_state: match self.cluster_state {
                Some(c) => Some(c@),
                None => None,
            },
            acl: self.acl@,
            legacy_push: self.legacy_push,
            controller_setting: self.controller_setting,
            max_payload_bytes: self.max_payload_bytes,
            max_fetch_bytes: self.max_fetch_bytes,
        }
    }
}

/// Creating a topic changes no partition's log as seen through `log`.
pub proof fn lemma_with_topic_log(s: BrokerView, t: u16, fresh: Topic, ids: Seq<u16>, t2: u16, p2: u16)
    ensures
        s.with_topic(t, fresh, ids).log(t2, p2) == s.log(t2, p2),
        s.with_topic(t, fresh, ids).topic_config(t2) == s.topic_config(t2),
{
    lemma_log_key_injective(t, 0, t2, p2);
}

/// The settings of a topic that was never configured.
pub open spec fn default_topic_config(topic_id: u16) -> TopicConfig {
    TopicConfig { topic_id, partition_count: 1, max_records: 10_000 }
}

/// Adds `x`, which is not there yet, to a sorted list of ids.
fn insert_sorted_id(v: &mut Vec<u16>, x: u16)
    requires
        strictly_sorted(old(v)@),
        !old(v)@.contains(x),
    ensures
        strictly_sorted(final(v)@),
        final(v)@.to_set() == old(v)@.to_set().insert(x),
{
    let mut i: usize = 0;
    while i < v.len() && v[i] < x
        invariant
            i <= v@.len(),
            v@ == old(v)@,
            strictly_sorted(v@),
            !v@.contains(x),
            forall|j: int| 0 <= j < i ==> v@[j] < x,
        decreases v@.len() - i,
    {
        i = i + 1;
    }
    let ghost before = v@;
    proof {
        if i < before.len() {
            assert(before[i as int] != x);
        }
    }
    v.insert(i, x);
    assert forall|a: int, b: int| 0 <= a < b < v@.len() implies v@[a] < v@[b] by {
        if b < i {
            assert(v@[a] == before[a] && v@[b] == before[b]);
        } else if b == i {
            assert(v@[a] == before[a]);
        } else if a < i {
            assert(v@[a] == before[a] && v@[b] == before[b - 1]);
            assert(before[i as int] > x);
            if b - 1 > i {
                assert(before[i as int] < before[b - 1]);
            }
        } else if a == i {
            assert(v@[b] == before[b - 1]);
            assert(before[i as int] > x);
            if b - 1 > i {
                assert(before[i as int] < before[b - 1]);
            }
        } else {
            assert(v@[a] == before[a - 1] && v@[b] == before[b - 1]);
        }
    }
    assert forall|y: u16| v@.contains(y) <==> before.contains(y) || y == x by {
        if v@.contains(y) {
            let j = choose|j: int| 0 <= j < v@.len() && v@[j] == y;
            if j < i {
                assert(before[j] == y);
            } else if j > i {
                assert(before[j - 1] == y);
            }
        }
        if before.contains(y) {
            let j = choose|j: int| 0 <= j < before.len() && before[j] == y;
            if j < i {
                assert(v@[j] == y);
            } else {
                assert(v@[j + 1] == y);
            }
        }
        if y == x {
            assert(v@[i as int] == x);
        }
    }
    assert(v@.to_set() =~= before.to_set().insert(x));
}

/// The key of a coordinated group: topic and group packed into one number.
pub open spec fn group_key(topic_id: u16, group_id: u16) -> u32 {
    (topic_id as u32 * 65536 + group_id as u32) as u32
}

pub open spec fn strictly_sorted(s: Seq<u16>) -> bool {
    forall|i: int, j: int| 0 <= i < j < s.len() ==> s[i] < s[j]
}

impl BrokerView {
    /// Every log is well formed.
    pub open spec fn wf(self) -> bool {
        &&& forall|k: u32| #[trigger] self.logs.contains_key(k) ==> self.logs[k].wf()
        &&& forall|t: u16| #[trigger] self.topics.contains_key(t) ==> self.topics[t].wf() && self.topics[t].topic_id == t
        &&& strictly_sorted(self.topic_ids)
        &&& self.topic_ids.to_set() == self.topics.dom()
        &&& self.group_keys.no_duplicates()
        &&& self.group_keys.to_set() == self.groups.dom()
    }

    /// A topic's settings: the registered ones, or the defaults.
    pub open spec fn topic_config(self, topic_id: u16) -> TopicConfig {
        if self.topic_configs.contains_key(topic_id) {
            self.topic_configs[topic_id]
        } else {
            default_topic_config(topic_id)
        }
    }

    /// The state once topic `t` exists, created as `fresh` (with sorted ids
    /// `ids`, and default settings unless some are registered) if it did not,
    /// together with the log of its first partition.
    pub open spec fn with_topic(self, t: u16, fresh: Topic, ids: Seq<u16>) -> BrokerView {
        if self.topics.contains_key(t) {
            self.with_log(t, 0)
        } else {
            BrokerView {
                topics: self.topics.insert(t, fresh),
                topic_ids: ids,
                topic_configs: if self.topic_configs.contains_key(t) {
                    self.topic_configs
                } else {
                    self.topic_configs.insert(t, default_topic_config(t))
                },
                ..self
            }.with_log(t, 0)
        }
    }

    /// A partition's log, or the empty log it would be created as.
    pub open spec fn log(self, topic_id: u16, partition_id: u16) -> PartitionLogView {
        if self.logs.contains_key(log_key(topic_id, partition_id)) {
            self.logs[log_key(topic_id, partition_id)]
        } else {
            PartitionLogView {
                base_offset: 0,
                next_offset: 0,
                records: Seq::empty(),
                max_records: Some(self.topic_config(topic_id).max_records as usize),
            }
        }
    }

    /// The state once the partition's log exists.
    pub open spec fn with_log(self, topic_id: u16, partition_id: u16) -> BrokerView {
        BrokerView { logs: self.logs.insert(log_key(topic_id, partition_id), self.log(topic_id, partition_id)), ..self }
    }

    /// The state after appending `payload` to a partition's log.
    pub open spec fn appended(self, topic_id: u16, partition_id: u16, payload: Seq<u8>) -> BrokerView {
        BrokerView {
            logs: self.logs.insert(log_key(topic_id, partition_id), self.log(topic_id, partition_id).appended(payload)),
            ..self
        }
    }

    pub open spec fn is_partition_replica(self, topic_id: u16, partition_id: u16) -> bool {
        match self.cluster {
            Some(c) => c.replicas_for(topic_id, partition_id).contains(self.broker_id),
            None => true,
        }
    }

    pub open spec fn partition_leader(self, topic_id: u16, partition_id: u16) -> BrokerId {
        match self.cluster {
            Some(c) => match c.leader_for(topic_id, partition_id) {
                Some(l) => l,
                None => self.broker_id,
            },
            None => self.broker_id,
        }
    }

    pub open spec fn partition_replicas(self, topic_id: u16, partition_id: u16) -> Seq<BrokerId> {
        match self.cluster {
            Some(c) => c.replicas_for(topic_id, partition_id),
            None => seq![self.broker_id],
        }
    }

    pub open spec fn committed_offset(self, group_id: u16, topic_id: u16, partition_id: u16) -> Option<u64> {
        self.committed.get(offset_key(group_id, topic_id, partition_id))
    }
}

/// The lag report of a topic for a group: per partition, its index, the
/// committed offset (0 if none), the log's next offset, and the difference.
pub open spec fn lag_bytes(s: BrokerView, group_id: u16, topic_id: u16, n: nat) -> Seq<u8>
    decreases n,
{
    if n == 0 {
        Seq::empty()
    } else {
        let p = (n - 1) as u16;
        let committed = match s.committed_offset(group_id, topic_id, p) {
            Some(c) => c,
            None => 0,
        };
        let end = if s.logs.contains_key(log_key(topic_id, p)) {
            s.logs[log_key(topic_id, p)].next_offset
        } else {
            0
        };
        let lag = if end >= committed {
            (end - committed) as u64
        } else {
            0
        };
        lag_bytes(s, group_id, topic_id, (n - 1) as nat) + be16(p) + be64(committed) + be64(end) + be64(lag)
    }
}

/// `s1` and `r` are what `Broker::append_log` makes of `s0`.
pub open spec fn appended_to_log(s0: BrokerView, s1: BrokerView, topic_id: u16, partition_id: u16, payload: Seq<u8>, r: Result<u64, DmqError>) -> bool {
    &&& match r {
        Ok(offset) => {
            &&& payload.len() <= s0.max_payload_bytes
            &&& offset == s0.log(topic_id, partition_id).next_offset
            &&& s1.topics.contains_key(topic_id)
            &&& !s0.topics.contains_key(topic_id) ==> s1.topics[topic_id].is_fresh(topic_id)
            &&& s1 == s0.with_topic(
                topic_id,
                s1.topics[topic_id],
                s1.topic_ids,
            ).appended(topic_id, partition_id, payload)
        },
        Err(e) => payload.len() > s0.max_payload_bytes && e == DmqError::PayloadTooLarge {
            len: payload.len() as u64,
            max: s0.max_payload_bytes as u64,
        } && s1 == s0,
    }
}

/// `s1` and `r` are what `Broker::apply_replica` makes of `s0`.
pub open spec fn replica_applied(s0: BrokerView, s1: BrokerView, topic_id: u16, partition_id: u16, offset: u64, payload: Seq<u8>, r: Result<(), DmqError>) -> bool {
    &&& !s0.is_partition_replica(topic_id, partition_id) ==> r == Err::<(), DmqError>(DmqError::NotReplica)
        && s1 == s0
    &&& s0.is_partition_replica(topic_id, partition_id) ==> {
        let log = s0.log(topic_id, partition_id);
        if offset < log.next_offset {
            r == Ok::<(), DmqError>(()) && s1 == s0.with_log(topic_id, partition_id)
        } else if offset > log.next_offset {
            r == Err::<(), DmqError>(DmqError::ReplicaGap { expected: log.next_offset, got: offset })
                && s1 == s0.with_log(topic_id, partition_id)
        } else {
            r == Ok::<(), DmqError>(()) && s1 == s0.appended(topic_id, partition_id, payload)
        }
    }
}

/// `s1` and `r` are what `Broker::produce_idempotent` makes of `s0`.
pub open spec fn idempotent_produced(s0: BrokerView, s1: BrokerView, req: IdempotentProduceRequest, r: Result<u64, DmqError>) -> bool {
    &&& req.payload@.len() > s0.max_payload_bytes ==> r == Err::<u64, DmqError>(
        DmqError::PayloadTooLarge { len: req.payload@.len() as u64, max: s0.max_payload_bytes as u64 },
    ) && s1 == s0
    &&& req.payload@.len() <= s0.max_payload_bytes ==> {
        let key = crate::idempotency::spec_entry_key(req.topic_id, req.partition_id, req.producer_id);
        match spec_resolve(s0.idempotency.get(key), req.sequence) {
            Ok(IdempotencyAction::ReturnOffset(o)) => r == Ok::<u64, DmqError>(o) && s1 == s0,
            Err(e) => r == Err::<u64, DmqError>(e) && s1 == s0,
            Ok(IdempotencyAction::Append) => {
                let offset = s0.log(req.topic_id, req.partition_id).next_offset;
                &&& r == Ok::<u64, DmqError>(offset)
                &&& s1.topics.contains_key(req.topic_id)
                &&& !s0.topics.contains_key(req.topic_id) ==> s1.topics[req.topic_id].is_fresh(
                    req.topic_id,
                )
                &&& s1 == (BrokerView {
                    idempotency: s0.idempotency.insert(key, (req.sequence, offset)),
                    ..s0.with_topic(
                        req.topic_id,
                        s1.topics[req.topic_id],
                        s1.topic_ids,
                    ).appended(req.topic_id, req.partition_id, req.payload@)
                })
            },
        }
    }
}

/// `s1` is `s0` after `Broker::commit_offset`.
pub open spec fn offset_committed(s0: BrokerView, s1: BrokerView, req: CommitOffsetRequest) -> bool {
    &&& s1 == (BrokerView {
        committed: s0.committed.insert(offset_key(req.group_id, req.topic_id, req.partition_id), req.offset),
        ..s0
    })
}

/// `s1` and `r` are what `Broker::create_topic` makes of `s0`.
pub open spec fn topic_created(s0: BrokerView, s1: BrokerView, cfg: TopicConfig, r: Result<u8, DmqError>) -> bool {
    &&& s0.topics.contains_key(cfg.topic_id) ==> r == Ok::<u8, DmqError>(1) && s1 == s0
    &&& !s0.topics.contains_key(cfg.topic_id) ==> {
        &&& r == Ok::<u8, DmqError>(0)
        &&& s1.topics.contains_key(cfg.topic_id)
        &&& s1.topics[cfg.topic_id].is_fresh(cfg.topic_id)
        &&& s1 == (BrokerView {
            topic_configs: s0.topic_configs.insert(cfg.topic_id, cfg),
            ..s0
        }).with_topic(cfg.topic_id, s1.topics[cfg.topic_id], s1.topic_ids).with_logs(
            cfg.topic_id,
            cfg.partition_count as nat,
        )
    }
}

/// `s1` and `r` are what `Broker::register_consumer` makes of `s0`.
pub open spec fn consumer_registration(s0: BrokerView, s1: BrokerView, reg: ConsumerRegister, r: Result<u16, DmqError>) -> bool {
    &&& r matches Ok(idx) && {
        let t = reg.topic_id;
        &&& s1.topics.contains_key(t)
        &&& s1.topics == s0.topics.insert(t, s1.topics[t])
        &&& s0.topics.contains_key(t) ==> consumer_registered(
            s0.topics[t],
            s1.topics[t],
            reg.group_id,
            idx,
        )
        &&& !s0.topics.contains_key(t) ==> exists|f: Topic|
            f.is_fresh(t) && consumer_registered(f, s1.topics[t], reg.group_id, idx)
        &&& s1 == (BrokerView {
            topics: s1.topics,
            ..s0.with_topic(t, s1.topics[t], s1.topic_ids)
        })
    }
}

/// `s1` and `r` are what `Broker::join_group` makes of `s0`.
pub open spec fn group_joined(s0: BrokerView, s1: BrokerView, req: JoinGroupRequest, now_ms: u64, r: Result<(u8, u64, u32, Vec<u16>), DmqError>) -> bool {
    &&& ({
        let t = req.topic_id;
        let key = group_key(t, req.group_id);
        let mid = s0.with_topic(t, s1.topics[t], s1.topic_ids);
        let g0 = s0.group_or_new(t, req.group_id);
        let pc = s0.topic_config(t).partition_count;
        &&& s1.topics.contains_key(t)
        &&& !s0.topics.contains_key(t) ==> s1.topics[t].is_fresh(t)
        &&& match r {
            Ok((code, id, generation, parts)) => {
                let g1 = g0.joined(id, pc, now_ms);
                &&& code == 0
                &&& g0.members.len() < usize::MAX
                &&& if req.member_id == 0 {
                    is_first_free_id(g0.members.dom(), id)
                } else {
                    id == req.member_id
                }
                &&& generation == g1.generation
                &&& parts@ == match g1.members.get(id) {
                    Some(m) => m.assigned_partitions,
                    None => Seq::<u16>::empty(),
                }
                &&& s1 == mid.with_group(key, g1)
            },
            Err(e) => e == DmqError::GroupFull && g0.members.len() == usize::MAX && s1 == mid.with_group(key, g0),
        }
    })
}

/// `s1` and `r` are what `Broker::group_heartbeat` makes of `s0`.
pub open spec fn group_heartbeat_answered(s0: BrokerView, s1: BrokerView, req: GroupHeartbeatRequest, now_ms: u64, session_timeout_ms: u64, r: Result<(u8, u8), DmqError>) -> bool {
    &&& match first_key_of_group(s0.group_keys, req.group_id) {
        None => r == Ok::<(u8, u8), DmqError>((1, 1)) && s1 == s0,
        Some(key) => {
            let g1 = s0.refreshed_group(key, now_ms, session_timeout_ms);
            let answer = g1.heartbeat_answer(req.member_id, req.generation);
            &&& r == Ok::<(u8, u8), DmqError>(
                (
                    answer.0,
                    if answer.1 {
                        1u8
                    } else {
                        0u8
                    },
                ),
            )
            &&& s1 == s0.with_group(key, g1.heartbeat_seen(req.member_id, req.generation, now_ms))
        },
    }
}

/// `s1` and `code` are what `Broker::handle_broker_heartbeat` makes of `s0`.
pub open spec fn broker_heartbeat_answered(s0: BrokerView, s1: BrokerView, req: BrokerHeartbeatRequest, now_ms: u64, timeout_ms: u64, code: u8) -> bool {
    &&& s0.is_controller() ==> code == 0 && s1 == s0.with_cluster_state(
        s0.cluster_state->0.heartbeat(req.broker_id, now_ms).failover(now_ms, timeout_ms),
    )
    &&& !s0.is_controller() ==> code == 1 && s1 == s0
}

impl Broker {
    /// A broker with no logs, topics or groups, the given identity, cluster
    /// configuration and size limits, no access rules, and no cluster state.
    pub fn with_limits(broker_id: BrokerId, cluster: Option<ClusterConfig>, max_payload_bytes: usize, max_fetch_bytes: u32) -> (b: Broker)
        ensures
            b@.wf(),
            b@.logs == Map::<u32, PartitionLogView>::empty(),
            b@.topic_configs == Map::<u16, TopicConfig>::empty(),
            b@.committed == Map::<u64, u64>::empty(),
            b@.topics == Map::<u16, Topic>::empty(),
            b@.groups == Map::<u32, GroupStateView>::empty(),
            b@.idempotency == Map::<u128, (u64, u64)>::empty(),
            b@.broker_id == broker_id,
            b@.cluster == match cluster {
                Some(c) => Some(c@),
                None => None::<ClusterConfigView>,
            },
            b@.cluster_state is None,
            !b@.acl.is_configured() && !b@.acl.deny_by_default,
            b@.legacy_push is None,
            b@.controller_setting is None,
            b@.max_payload_bytes == max_payload_bytes,
            b@.max_fetch_bytes == max_fetch_bytes,
    {
        let b = Broker {
            logs: HashMap::new(),
            topic_configs: HashMap::new(),
            committed: HashMap::new(),
            topics: HashMap::new(),
            topic_ids: Vec::new(),
            groups: HashMap::new(),
            group_keys: Vec::new(),
            idempotency: IdempotencyState::new(),
            broker_id,
            cluster,
            cluster_state: None,
            acl: Acl::new(false),
            legacy_push: None,
            controller_setting: None,
            max_payload_bytes,
            max_fetch_bytes,
        };
        assert(b@.logs =~= Map::<u32, PartitionLogView>::empty());
        assert(b@.groups =~= Map::<u32, GroupStateView>::empty());
        assert(b@.topic_ids.to_set() =~= b@.topics.dom());
        assert(b@.group_keys.to_set() =~= b@.groups.dom());
        b
    }

    /// A standalone broker with id 1 and the default limits.
    pub fn new() -> (b: Broker)
        ensures
            b@.wf(),
            b@.logs == Map::<u32, PartitionLogView>::empty(),
            b@.topic_configs == Map::<u16, TopicConfig>::empty(),
            b@.committed == Map::<u64, u64>::empty(),
            b@.topics == Map::<u16, Topic>::empty(),
            b@.groups == Map::<u32, GroupStateView>::empty(),
            b@.idempotency == Map::<u128, (u64, u64)>::empty(),
            b@.broker_id == 1,
            b@.cluster is None,
            b@.cluster_state is None,
            !b@.acl.is_configured() && !b@.acl.deny_by_default,
            b@.legacy_push is None,
            b@.controller_setting is None,
            b@.max_payload_bytes == crate::limits::DEFAULT_MAX_PAYLOAD_BYTES,
            b@.max_fetch_bytes == crate::limits::DEFAULT_MAX_FETCH_BYTES,
    {
        Broker::with_limits(1, None, crate::limits::DEFAULT_MAX_PAYLOAD_BYTES, crate::limits::DEFAULT_MAX_FETCH_BYTES)
    }

    /// A topic's settings (see `BrokerView::topic_config`).
    pub fn topic_config(&self, topic_id: u16) -> (c: TopicConfig)
        ensures
            c == self@.topic_config(topic_id),
    {
        match self.topic_configs.get(&topic_id) {
            Some(c) => TopicConfig { topic_id: c.topic_id, partition_count: c.partition_count, max_records: c.max_records },
            None => TopicConfig::default_for(topic_id),
        }
    }

    /// Creates topic `topic_id` unless it exists (with default settings unless
    /// some are registered), and the log of its first partition; says whether
    /// the topic was created.
    pub fn ensure_topic(&mut self, topic_id: u16) -> (created: bool)
        requires
            old(self)@.wf(),
        ensures
            final(self)@.wf(),
            created == !old(self)@.topics.contains_key(topic_id),
            final(self)@.topics.contains_key(topic_id),
            created ==> final(self)@.topics[topic_id].is_fresh(topic_id),
            final(self)@ == old(self)@.with_topic(topic_id, final(self)@.topics[topic_id], final(self)@.topic_ids),
    {
        let created = !self.topics.contains_key(&topic_id);
        if created {
            let ghost v0 = self@;
            let topic = Topic::new(topic_id);
            let ghost fresh = topic;
            self.topics.insert(topic_id, topic);
            proof {
                assert(!v0.topic_ids.to_set().contains(topic_id));
                assert(!v0.topic_ids.contains(topic_id)) by {
                    if v0.topic_ids.contains(topic_id) {
                        let j = choose|j: int| 0 <= j < v0.topic_ids.len() && v0.topic_ids[j] == topic_id;
                        assert(v0.topic_ids.to_set().contains(v0.topic_ids[j]));
                    }
                }
            }
            insert_sorted_id(&mut self.topic_ids, topic_id);
            if !self.topic_configs.contains_key(&topic_id) {
                self.topic_configs.insert(topic_id, TopicConfig::default_for(topic_id));
            }
            proof {
                assert(self@.topics =~= v0.topics.insert(topic_id, fresh));
                assert(self@.topic_ids.to_set() =~= self@.topics.dom());
                assert(self@.logs =~= v0.logs);
                assert forall|t: u16| #[trigger] self@.topics.contains_key(t) implies self@.topics[t].wf()
                    && self@.topics[t].topic_id == t by {
                    if t != topic_id {
                        assert(v0.topics.contains_key(t));
                    }
                }
            }
        }
        self.ensure_log(topic_id, 0);
        created
    }

    /// Registers a topic's settings.
    pub fn set_topic_config(&mut self, cfg: TopicConfig)
        ensures
            final(self)@ == (BrokerView {
                topic_configs: old(self)@.topic_configs.insert(cfg.topic_id, cfg),
                ..old(self)@
            }),
    {
        let ghost v0 = self@;
        self.topic_configs.insert(cfg.topic_id, cfg);
        assert(self@.logs =~= v0.logs);
    }

    /// Creates the partition's log (with the topic's retention) if it does not exist.
    pub fn ensure_log(&mut self, topic_id: u16, partition_id: u16)
        requires
            old(self)@.wf(),
        ensures
            final(self)@ == old(self)@.with_log(topic_id, partition_id),
            final(self)@.wf(),
    {
        let key = key_of_log(topic_id, partition_id);
        if !self.logs.contains_key(&key) {
            let cfg = self.topic_config(topic_id);
            let ghost v0 = self@;
            let log = PartitionLog::with_max_records(cfg.max_records as usize);
            self.logs.insert(key, log);
            assert(self@.logs =~= v0.logs.insert(key, v0.log(topic_id, partition_id)));
        } else {
            assert(self@.logs.insert(key, self@.logs[key]) =~= self@.logs);
        }
    }

    /// Appends to a partition's log after checking the payload size, creating
    /// the topic (see `ensure_topic`) and the log first; returns the record's
    /// offset.
    pub fn append_log(&mut self, topic_id: u16, partition_id: u16, payload: &[u8]) -> (r: Result<u64, DmqError>)
        requires
            old(self)@.wf(),
            old(self)@.log(topic_id, partition_id).next_offset < u64::MAX,
        ensures
            final(self)@.wf(),
            appended_to_log(old(self)@, final(self)@, topic_id, partition_id, payload@, r),
    {
        if payload.len() > self.max_payload_bytes {
            return Err(DmqError::PayloadTooLarge { len: payload.len() as u64, max: self.max_payload_bytes as u64 });
        }
        let ghost v0 = self@;
        self.ensure_topic(topic_id);
        let ghost v1 = self@;
        proof {
            lemma_with_topic_log(v0, topic_id, v1.topics[topic_id], v1.topic_ids, topic_id, partition_id);
        }
        self.ensure_log(topic_id, partition_id);
        let key = key_of_log(topic_id, partition_id);
        let ghost raw = self.logs@;
        assert(self@.logs.contains_key(key));
        assert(self@.logs[key] == raw[key]@);
        assert(self@.logs[key] == v1.log(topic_id, partition_id));
        let mut log = match self.logs.remove(&key) {
            Some(l) => l,
            None => PartitionLog::new(),
        };
        assert(log@ == v1.log(topic_id, partition_id));
        let offset = log.append(payload);
        self.logs.insert(key, log);
        proof {
            assert(self@.logs =~= v1.logs.insert(key, v1.log(topic_id, partition_id).appended(payload@)));
            crate::partition_log::lemma_appended_wf(v1.log(topic_id, partition_id), payload@);
        }
        Ok(offset)
    }

    pub fn is_partition_replica(&self, topic_id: u16, partition_id: u16) -> (r: bool)
        ensures
            r == self@.is_partition_replica(topic_id, partition_id),
    {
        match &self.cluster {
            Some(c) => c.is_replica(self.broker_id, topic_id, partition_id),
            None => true,
        }
    }

    pub fn partition_leader(&self, topic_id: u16, partition_id: u16) -> (r: BrokerId)
        ensures
            r == self@.partition_leader(topic_id, partition_id),
    {
        match &self.cluster {
            Some(c) => match c.leader_for(topic_id, partition_id) {
                Some(l) => l,
                None => self.broker_id,
            },
            None => self.broker_id,
        }
    }

    pub fn partition_replicas(&self, topic_id: u16, partition_id: u16) -> (r: Vec<BrokerId>)
        ensures
            r@ == self@.partition_replicas(topic_id, partition_id),
    {
        match &self.cluster {
            Some(c) => c.replicas_for(topic_id, partition_id),
            None => {
                let mut v: Vec<BrokerId> = Vec::new();
                v.push(self.broker_id);
                assert(v@ =~= seq![self.broker_id]);
                v
            },
        }
    }

    pub fn is_partition_leader(&self, topic_id: u16, partition_id: u16) -> (r: bool)
        ensures
            r == (self@.partition_leader(topic_id, partition_id) == self@.broker_id),
    {
        self.partition_leader(topic_id, partition_id) == self.broker_id
    }

    /// Where a fetch must go instead: the leader, when fetches must be served by
    /// leaders, the broker is clustered, and it does not lead the partition.
    pub fn fetch_redirect_leader(&self, topic_id: u16, partition_id: u16, requires_leader: bool) -> (r: Option<BrokerId>)
        ensures
            r == if requires_leader && self@.cluster is Some && self@.partition_leader(topic_id, partition_id)
                != self@.broker_id {
                Some(self@.partition_leader(topic_id, partition_id))
            } else {
                None
            },
    {
        if requires_leader && self.cluster.is_some() && !self.is_partition_leader(topic_id, partition_id) {
            Some(self.partition_leader(topic_id, partition_id))
        } else {
            None
        }
    }

    /// Applies a record replicated from the leader. A record already held is
    /// ignored, one past the next offset is refused, and a broker that is not a
    /// replica of the partition refuses everything.
    pub fn apply_replica(&mut self, topic_id: u16, partition_id: u16, offset: u64, payload: &[u8]) -> (r: Result<(), DmqError>)
        requires
            old(self)@.wf(),
            old(self)@.log(topic_id, partition_id).next_offset < u64::MAX,
        ensures
            final(self)@.wf(),
            replica_applied(old(self)@, final(self)@, topic_id, partition_id, offset, payload@, r),
    {
        if !self.is_partition_replica(topic_id, partition_id) {
            return Err(DmqError::NotReplica);
        }
        let ghost v0 = self@;
        self.ensure_log(topic_id, partition_id);
        let key = key_of_log(topic_id, partition_id);
        let ghost raw = self.logs@;
        assert(self@.logs.contains_key(key));
        assert(self@.logs[key] == raw[key]@);
        assert(self@.logs[key] == v0.log(topic_id, partition_id));
        let mut log = match self.logs.remove(&key) {
            Some(l) => l,
            None => PartitionLog::new(),
        };
        assert(log@ == v0.log(topic_id, partition_id));
        let next = log.next_offset();
        if offset < next {
            self.logs.insert(key, log);
            assert(self@.logs =~= v0.with_log(topic_id, partition_id).logs);
            return Ok(());
        }
        if offset > next {
            self.logs.insert(key, log);
            assert(self@.logs =~= v0.with_log(topic_id, partition_id).logs);
            return Err(DmqError::ReplicaGap { expected: next, got: offset });
        }
        log.append(payload);
        self.logs.insert(key, log);
        proof {
            assert(self@.logs =~= v0.logs.insert(key, v0.log(topic_id, partition_id).appended(payload@)));
            crate::partition_log::lemma_appended_wf(v0.log(topic_id, partition_id), payload@);
        }
        Ok(())
    }

    /// An idempotent produce: a repeated sequence gets its recorded offset back,
    /// the next one is appended and recorded, others are refused.
    pub fn produce_idempotent(&mut self, req: &IdempotentProduceRequest) -> (r: Result<u64, DmqError>)
        requires
            old(self)@.wf(),
            old(self)@.log(req.topic_id, req.partition_id).next_offset < u64::MAX,
        ensures
            final(self)@.wf(),
            idempotent_produced(old(self)@, final(self)@, *req, r),
    {
        if req.payload.len() > self.max_payload_bytes {
            return Err(DmqError::PayloadTooLarge { len: req.payload.len() as u64, max: self.max_payload_bytes as u64 });
        }
        match self.idempotency.resolve(req.topic_id, req.partition_id, req.producer_id, req.sequence) {
            Ok(IdempotencyAction::ReturnOffset(offset)) => {
                return Ok(offset);
            },
            Ok(IdempotencyAction::Append) => {},
            Err(e) => {
                return Err(e);
            },
        }
        let offset = self.append_log(req.topic_id, req.partition_id, req.payload.as_slice())?;
        self.idempotency.record(req.topic_id, req.partition_id, req.producer_id, req.sequence, offset);
        Ok(offset)
    }

    /// Fetches from a partition's log within the fetch budget (the request's,
    /// capped at the broker's). A clustered broker that is not a replica of the
    /// partition refuses.
    pub fn fetch_log(&mut self, req: &FetchRequest) -> (r: Result<Vec<Record>, DmqError>)
        requires
            old(self)@.wf(),
        ensures
            final(self)@.wf(),
            old(self)@.cluster is Some && !old(self)@.is_partition_replica(req.topic_id, req.partition_id) ==> r
                == Err::<Vec<Record>, DmqError>(DmqError::NotReplica) && final(self)@ == old(self)@,
            !(old(self)@.cluster is Some && !old(self)@.is_partition_replica(req.topic_id, req.partition_id)) ==> {
                &&& final(self)@ == old(self)@.with_log(req.topic_id, req.partition_id)
                &&& r matches Ok(records) && records_view(records@) == old(self)@.log(req.topic_id, req.partition_id).fetched(
                    req.offset,
                    (if req.max_bytes < old(self)@.max_fetch_bytes {
                        req.max_bytes
                    } else {
                        old(self)@.max_fetch_bytes
                    }) as usize,
                )
            },
    {
        if self.cluster.is_some() && !self.is_partition_replica(req.topic_id, req.partition_id) {
            return Err(DmqError::NotReplica);
        }
        let ghost v0 = self@;
        self.ensure_log(req.topic_id, req.partition_id);
        let max_bytes = crate::limits::clamp_fetch_bytes(req.max_bytes, self.max_fetch_bytes) as usize;
        let key = key_of_log(req.topic_id, req.partition_id);
        assert(self@.logs.contains_key(key));
        assert(self@.logs[key] == self.logs@[key]@);
        assert(self@.logs[key] == v0.log(req.topic_id, req.partition_id));
        let records = match self.logs.get(&key) {
            Some(log) => {
                assert(log@ == v0.log(req.topic_id, req.partition_id));
                log.fetch(req.offset, max_bytes).records
            },
            None => Vec::new(),
        };
        Ok(records)
    }

    /// Records a group's committed offset for a partition.
    pub fn commit_offset(&mut self, req: &CommitOffsetRequest)
        ensures
            offset_committed(old(self)@, final(self)@, *req),
    {
        let ghost v0 = self@;
        self.committed.insert(key_of_offset(req.group_id, req.topic_id, req.partition_id), req.offset);
        assert(self@.logs =~= v0.logs);
    }

    pub fn committed_offset(&self, group_id: u16, topic_id: u16, partition_id: u16) -> (r: Option<u64>)
        ensures
            r == self@.committed_offset(group_id, topic_id, partition_id),
    {
        match self.committed.get(&key_of_offset(group_id, topic_id, partition_id)) {
            Some(o) => Some(*o),
            None => None,
        }
    }

    /// Sets a committed offset that was read back from storage.
    pub fn restore_committed_offset(&mut self, group_id: u16, topic_id: u16, partition_id: u16, offset: u64)
        ensures
            final(self)@ == (BrokerView {
                committed: old(self)@.committed.insert(offset_key(group_id, topic_id, partition_id), offset),
                ..old(self)@
            }),
    {
        let ghost v0 = self@;
        self.committed.insert(key_of_offset(group_id, topic_id, partition_id), offset);
        assert(self@.logs =~= v0.logs);
    }

    /// A partition's log, if it exists.
    pub fn log(&self, topic_id: u16, partition_id: u16) -> (r: Option<&PartitionLog>)
        ensures
            match r {
                Some(l) => self@.logs.contains_key(log_key(topic_id, partition_id)) && l@ == self@.logs[log_key(
                    topic_id,
                    partition_id,
                )],
                None => !self@.logs.contains_key(log_key(topic_id, partition_id)),
            },
    {
        self.logs.get(&key_of_log(topic_id, partition_id))
    }

    /// Installs a log read back from storage.
    pub fn restore_log(&mut self, topic_id: u16, partition_id: u16, log: PartitionLog)
        requires
            old(self)@.wf(),
            log@.wf(),
        ensures
            final(self)@.wf(),
            final(self)@ == (BrokerView {
                logs: old(self)@.logs.insert(log_key(topic_id, partition_id), log@),
                ..old(self)@
            }),
    {
        let ghost v0 = self@;
        let ghost lv = log@;
        self.logs.insert(key_of_log(topic_id, partition_id), log);
        assert(self@.logs =~= v0.logs.insert(log_key(topic_id, partition_id), lv));
    }

    /// The lag report of a topic for a group (see `lag_bytes`).
    pub fn get_lag(&self, group_id: u16, topic_id: u16) -> (out: Vec<u8>)
        ensures
            out@ == be16(self@.topic_config(topic_id).partition_count) + lag_bytes(
                self@,
                group_id,
                topic_id,
                self@.topic_config(topic_id).partition_count as nat,
            ),
    {
        let cfg = self.topic_config(topic_id);
        let mut out: Vec<u8> = Vec::new();
        put_u16(&mut out, cfg.partition_count);
        let ghost head = out@;
        let mut p: u16 = 0;
        assert(lag_bytes(self@, group_id, topic_id, 0) =~= Seq::<u8>::empty());
        while p < cfg.partition_count
            invariant
                p <= cfg.partition_count,
                cfg == self@.topic_config(topic_id),
                out@ == head + lag_bytes(self@, group_id, topic_id, p as nat),
            decreases cfg.partition_count - p,
        {
            let committed = match self.committed_offset(group_id, topic_id, p) {
                Some(c) => c,
                None => 0,
            };
            let end = match self.logs.get(&key_of_log(topic_id, p)) {
                Some(l) => l.next_offset(),
                None => 0,
            };
            let lag = end.saturating_sub(committed);
            put_u16(&mut out, p);
            put_u64(&mut out, committed);
            put_u64(&mut out, end);
            put_u64(&mut out, lag);
            p = p + 1;
            assert(out@ =~= head + lag_bytes(self@, group_id, topic_id, p as nat));
        }
        out
    }
}

/// What is appended through the broker can be fetched back from the offset it was
/// given, unless the topic keeps no records at all.
pub proof fn lemma_broker_read_after_append(s: BrokerView, topic_id: u16, partition_id: u16, payload: Seq<u8>, max_bytes: usize)
    requires
        s.wf(),
        s.log(topic_id, partition_id).next_offset < u64::MAX,
        s.log(topic_id, partition_id).max_records != Some(0usize),
        s.log(topic_id, partition_id).wf(),
    ensures
        s.appended(topic_id, partition_id, payload).log(topic_id, partition_id).fetched(
            s.log(topic_id, partition_id).next_offset,
            max_bytes,
        ) == seq![RecordView { offset: s.log(topic_id, partition_id).next_offset, payload }],
{
    crate::partition_log::lemma_read_after_append(s.log(topic_id, partition_id), payload, max_bytes);
}

/// The broker after appending each of `ps` in turn to partition `(t, p)`.
pub open spec fn appended_each(s: BrokerView, t: u16, p: u16, ps: Seq<Seq<u8>>) -> BrokerView
    decreases ps.len(),
{
    if ps.len() == 0 {
        s
    } else {
        appended_each(s, t, p, ps.drop_last()).appended(t, p, ps.last())
    }
}

/// A log the broker creates for a partition keeps its topic's retention, starts
/// empty at offset 0, and the topic's settings are left as they were.
pub proof fn lemma_created_log_keeps_retention(s: BrokerView, t: u16, p: u16)
    requires
        !s.logs.contains_key(log_key(t, p)),
    ensures
        s.with_log(t, p).logs[log_key(t, p)].max_records == Some(s.topic_config(t).max_records as usize),
        s.with_log(t, p).logs[log_key(t, p)].records.len() == 0,
        s.with_log(t, p).logs[log_key(t, p)].next_offset == 0,
        s.with_log(t, p).topic_config(t) == s.topic_config(t),
{
}

/// However many records are appended through the broker to a partition it had
/// no log for, the log never holds more than the topic's `max_records`.
pub proof fn lemma_appends_keep_retention(s: BrokerView, t: u16, p: u16, ps: Seq<Seq<u8>>)
    requires
        !s.logs.contains_key(log_key(t, p)),
        ps.len() < u64::MAX,
    ensures
        appended_each(s, t, p, ps).log(t, p).records.len() <= s.topic_config(t).max_records,
        appended_each(s, t, p, ps).log(t, p).next_offset == ps.len(),
    decreases ps.len(),
{
    lemma_appends_retention_inv(s, t, p, ps);
}

proof fn lemma_appends_retention_inv(s: BrokerView, t: u16, p: u16, ps: Seq<Seq<u8>>)
    requires
        !s.logs.contains_key(log_key(t, p)),
        ps.len() < u64::MAX,
    ensures
        ({
            let l = appended_each(s, t, p, ps).log(t, p);
            &&& l.wf()
            &&& l.max_records == Some(s.topic_config(t).max_records as usize)
            &&& l.next_offset == ps.len()
        }),
        appended_each(s, t, p, ps).topic_config(t) == s.topic_config(t),
    decreases ps.len(),
{
    if ps.len() > 0 {
        let prev = appended_each(s, t, p, ps.drop_last());
        lemma_appends_retention_inv(s, t, p, ps.drop_last());
        crate::partition_log::lemma_appended_wf(prev.log(t, p), ps.last());
    } else {
        assert(s.log(t, p).records.len() == 0);
    }
}

/// Replication is idempotent: a follower that applies the same record twice
/// ends as after applying it once, and the repeat succeeds as the first did.
pub proof fn lemma_replica_idempotent(
    s0: BrokerView,
    s1: BrokerView,
    s2: BrokerView,
    topic_id: u16,
    partition_id: u16,
    offset: u64,
    payload: Seq<u8>,
    r1: Result<(), DmqError>,
    r2: Result<(), DmqError>,
)
    requires
        replica_applied(s0, s1, topic_id, partition_id, offset, payload, r1),
        replica_applied(s1, s2, topic_id, partition_id, offset, payload, r2),
        r1 is Ok,
        offset < u64::MAX,
    ensures
        r2 == r1,
        s2 == s1,
{
    let k = log_key(topic_id, partition_id);
    assert(s1.is_partition_replica(topic_id, partition_id));
    assert(s1.logs.contains_key(k));
    assert(s1.log(topic_id, partition_id).next_offset > offset);
    assert(s1.logs.insert(k, s1.log(topic_id, partition_id)) =~= s1.logs);
}

/// Retrying an idempotent produce that succeeded is answered with the same
/// offset and changes nothing: the record is appended once.
pub proof fn lemma_idempotent_retry(
    s0: BrokerView,
    s1: BrokerView,
    s2: BrokerView,
    req: IdempotentProduceRequest,
    r1: Result<u64, DmqError>,
    r2: Result<u64, DmqError>,
)
    requires
        idempotent_produced(s0, s1, req, r1),
        idempotent_produced(s1, s2, req, r2),
        r1 is Ok,
    ensures
        r2 == r1,
        s2 == s1,
{
    let key = crate::idempotency::spec_entry_key(req.topic_id, req.partition_id, req.producer_id);
    assert(req.payload@.len() <= s0.max_payload_bytes);
    match spec_resolve(s0.idempotency.get(key), req.sequence) {
        Ok(IdempotencyAction::Append) => {
            let offset = s0.log(req.topic_id, req.partition_id).next_offset;
            assert(s1.idempotency == s0.idempotency.insert(key, (req.sequence, offset)));
            assert(s1.idempotency.get(key) == Some((req.sequence, offset)));
            assert(s1.max_payload_bytes == s0.max_payload_bytes);
        },
        _ => {},
    }
}

/// A committed offset reads back as committed, and commits to other partitions or
/// groups leave it alone.
pub proof fn lemma_commit_then_read(s: BrokerView, g: u16, t: u16, p: u16, offset: u64, g2: u16, t2: u16, p2: u16)
    ensures
        ({
            let s2 = BrokerView { committed: s.committed.insert(offset_key(g, t, p), offset), ..s };
            &&& s2.committed_offset(g, t, p) == Some(offset)
            &&& (g2, t2, p2) != (g, t, p) ==> s2.committed_offset(g2, t2, p2) == s.committed_offset(g2, t2, p2)
        }),
{
    let a: int = 0x1_0000_0000;
    if (g2, t2, p2) != (g, t, p) {
        assert(offset_key(g, t, p) != offset_key(g2, t2, p2)) by (nonlinear_arith)
            requires
                (g2, t2, p2) != (g, t, p),
                offset_key(g, t, p) == g * a + t * 65536 + p,
                offset_key(g2, t2, p2) == g2 * a + t2 * 65536 + p2,
                a == 0x1_0000_0000,
                0 <= t < 65536,
                0 <= p < 65536,
                0 <= t2 < 65536,
                0 <= p2 < 65536,
                0 <= g < 65536,
                0 <= g2 < 65536,
        ;
    }
}


/// Appends the big-endian bytes of each id.
fn put_ids(out: &mut Vec<u8>, ids: &[u16])
    ensures
        final(out)@ == old(out)@ + be16_all(ids@),
{
    let ghost head = out@;
    let mut i: usize = 0;
    while i < ids.len()
        invariant
            i <= ids@.len(),
            out@ == head + be16_all(ids@.subrange(0, i as int)),
        decreases ids@.len() - i,
    {
        put_u16(out, ids[i]);
        assert(ids@.subrange(0, i + 1).drop_last() =~= ids@.subrange(0, i as int));
        i = i + 1;
        assert(out@ =~= head + be16_all(ids@.subrange(0, i as int)));
    }
    assert(ids@.subrange(0, i as int) =~= ids@);
}

impl BrokerView {
    /// The state once partitions `0 .. n` of topic `t` have logs.
    pub open spec fn with_logs(self, t: u16, n: nat) -> BrokerView
        decreases n,
    {
        if n == 0 {
            self
        } else {
            self.with_logs(t, (n - 1) as nat).with_log(t, (n - 1) as u16)
        }
    }

    /// One partition's entry in a topic description: its index, the offsets
    /// around its log, how many records it holds, its leader and its replicas.
    pub open spec fn partition_description(self, t: u16, p: u16) -> Seq<u8> {
        let log = self.log(t, p);
        let reps = self.partition_replicas(t, p);
        be16(p) + be64(log.base_offset) + be64(log.next_offset) + be32(log.records.len() as u32) + be16(
            self.partition_leader(t, p),
        ) + be16(reps.len() as u16) + be16_all(reps)
    }

    /// The entries of partitions `0 .. n`.
    pub open spec fn partition_descriptions(self, t: u16, n: nat) -> Seq<u8>
        decreases n,
    {
        if n == 0 {
            Seq::empty()
        } else {
            self.partition_descriptions(t, (n - 1) as nat) + self.partition_description(t, (n - 1) as u16)
        }
    }

    /// The description of a topic: `[0, 0]` for an unknown topic, else its
    /// partition count and each partition's entry.
    pub open spec fn topic_description(self, t: u16) -> Seq<u8> {
        if !self.topics.contains_key(t) {
            seq![0u8, 0u8]
        } else {
            let n = self.topic_config(t).partition_count;
            be16(n) + self.partition_descriptions(t, n as nat)
        }
    }

    /// The topic list: the count, then the ids in increasing order.
    pub open spec fn topic_list(self) -> Seq<u8> {
        be16(self.topic_ids.len() as u16) + be16_all(self.topic_ids)
    }
}

impl Broker {
    /// Whether topic `topic_id` exists.
    pub fn has_topic(&self, topic_id: u16) -> (r: bool)
        ensures
            r == self@.topics.contains_key(topic_id),
    {
        self.topics.contains_key(&topic_id)
    }

    /// The stored form of a topic's rings (see `topic_bytes`), if it exists.
    pub fn stored_topic(&self, topic_id: u16) -> (r: Option<Vec<u8>>)
        requires
            self@.wf(),
        ensures
            match r {
                Some(b) => self@.topics.contains_key(topic_id) && b@ == topic_bytes(topic_snapshot(self@.topics[topic_id])),
                None => !self@.topics.contains_key(topic_id),
            },
    {
        match self.topics.get(&topic_id) {
            Some(t) => Some(encode_topic(t)),
            None => None,
        }
    }

    /// Puts back a topic read from its stored form, creating it first if it
    /// does not exist; refuses bytes that hold no topic.
    pub fn restore_topic(&mut self, bytes: &[u8]) -> (r: Result<(), DmqError>)
        requires
            old(self)@.wf(),
        ensures
            final(self)@.wf(),
            match r {
                Ok(()) => parse_topic(bytes@) matches Some(snap) && final(self)@.topics.contains_key(snap.topic_id) && {
                    let t = final(self)@.topics[snap.topic_id];
                    let w = old(self)@.with_topic(snap.topic_id, t, final(self)@.topic_ids);
                    &&& topic_snapshot(t) == snap
                    &&& final(self)@ == (BrokerView { topics: w.topics.insert(snap.topic_id, t), ..w })
                },
                Err(e) => e == DmqError::CorruptTopic && parse_topic(bytes@) is None && final(self)@ == old(self)@,
            },
    {
        let t = match decode_topic(bytes) {
            Ok(t) => t,
            Err(e) => {
                return Err(e);
            },
        };
        let id = t.topic_id;
        let ghost v0 = self@;
        let ghost tv = t;
        self.ensure_topic(id);
        let ghost v1 = self@;
        self.topics.insert(id, t);
        proof {
            assert(self@.topics =~= v1.topics.insert(id, tv));
            assert(self@.logs =~= v1.logs);
            assert(self@.groups =~= v1.groups);
            assert(self@.topic_ids.to_set() =~= self@.topics.dom());
            assert forall|k: u16| #[trigger] self@.topics.contains_key(k) implies self@.topics[k].wf()
                && self@.topics[k].topic_id == k by {
                if k != id {
                    assert(v1.topics.contains_key(k));
                }
            }
            let w = v0.with_topic(id, tv, self@.topic_ids);
            assert(w.topics.insert(id, tv) =~= self@.topics);
            assert(self@ == (BrokerView { topics: w.topics.insert(id, tv), ..w }));
        }
        Ok(())
    }

    /// How many consumer groups a topic has, if it exists.
    pub fn topic_group_count(&self, topic_id: u16) -> (r: Option<usize>)
        ensures
            r == if self@.topics.contains_key(topic_id) {
                Some(self@.topics[topic_id].cgroups@.len() as usize)
            } else {
                None::<usize>
            },
    {
        match self.topics.get(&topic_id) {
            Some(t) => Some(t.cgroups.len()),
            None => None,
        }
    }

    /// How many partitions a topic's group has, if both exist.
    pub fn topic_group_partition_count(&self, topic_id: u16, group_id: u16) -> (r: Option<usize>)
        ensures
            r == if self@.topics.contains_key(topic_id) {
                match group_position(self@.topics[topic_id].cgroups@, group_id) {
                    Some(i) => Some(self@.topics[topic_id].cgroups@[i].partitions@.len() as usize),
                    None => None::<usize>,
                }
            } else {
                None::<usize>
            },
    {
        match self.topics.get(&topic_id) {
            Some(t) => match t.group(group_id) {
                Some(g) => Some(g.partitions.len()),
                None => None,
            },
            None => None,
        }
    }

    /// How many messages wait in a topic's staging ring, if it exists.
    pub fn topic_staging_len(&self, topic_id: u16) -> (r: Option<u64>)
        ensures
            r == if self@.topics.contains_key(topic_id) {
                Some(self@.topics[topic_id].staging@.live_len())
            } else {
                None::<u64>
            },
    {
        match self.topics.get(&topic_id) {
            Some(t) => Some(t.staging.live_len()),
            None => None,
        }
    }

    /// Every topic id, in increasing order, with the ids of its groups in the
    /// order they were created.
    pub fn topic_ids_with_groups(&self) -> (r: Vec<(u16, Vec<u16>)>)
        requires
            self@.wf(),
        ensures
            r@.len() == self@.topic_ids.len(),
            forall|i: int| 0 <= i < r@.len() ==> (#[trigger] r@[i]).0 == self@.topic_ids[i] && r@[i].1@ == self@.topics[
                self@.topic_ids[i]
            ].cgroups@.map_values(|g: crate::cgroup::ConsumerGroup| g.group_id),
    {
        let mut out: Vec<(u16, Vec<u16>)> = Vec::new();
        let mut i: usize = 0;
        while i < self.topic_ids.len()
            invariant
                self@.wf(),
                i <= self.topic_ids@.len(),
                out@.len() == i,
                forall|k: int| 0 <= k < i ==> (#[trigger] out@[k]).0 == self@.topic_ids[k] && out@[k].1@ == self@.topics[
                    self@.topic_ids[k]
                ].cgroups@.map_values(|g: crate::cgroup::ConsumerGroup| g.group_id),
            decreases self.topic_ids@.len() - i,
        {
            let id = self.topic_ids[i];
            assert(self@.topic_ids.to_set().contains(id));
            let mut groups: Vec<u16> = Vec::new();
            match self.topics.get(&id) {
                Some(t) => {
                    let mut j: usize = 0;
                    while j < t.cgroups.len()
                        invariant
                            j <= t.cgroups@.len(),
                            groups@ == t.cgroups@.subrange(0, j as int).map_values(
                                |g: crate::cgroup::ConsumerGroup| g.group_id,
                            ),
                        decreases t.cgroups@.len() - j,
                    {
                        groups.push(t.cgroups[j].group_id);
                        j = j + 1;
                        assert(groups@ =~= t.cgroups@.subrange(0, j as int).map_values(
                            |g: crate::cgroup::ConsumerGroup| g.group_id,
                        ));
                    }
                    assert(t.cgroups@.subrange(0, j as int) =~= t.cgroups@);
                },
                None => {},
            }
            out.push((id, groups));
            i = i + 1;
        }
        out
    }

    /// The topic list (see `topic_list`).
    pub fn list_topics(&self) -> (out: Vec<u8>)
        ensures
            out@ == self@.topic_list(),
    {
        let mut out: Vec<u8> = Vec::new();
        put_u16(&mut out, self.topic_ids.len() as u16);
        put_ids(&mut out, self.topic_ids.as_slice());
        out
    }

    /// The description of a topic (see `topic_description`).
    pub fn describe_topic(&self, topic_id: u16) -> (out: Vec<u8>)
        ensures
            out@ == self@.topic_description(topic_id),
    {
        if !self.topics.contains_key(&topic_id) {
            let out: Vec<u8> = vec![0u8, 0u8];
            assert(out@ =~= seq![0u8, 0u8]);
            return out;
        }
        let cfg = self.topic_config(topic_id);
        let mut out: Vec<u8> = Vec::new();
        put_u16(&mut out, cfg.partition_count);
        let ghost head = out@;
        let mut p: u16 = 0;
        while p < cfg.partition_count
            invariant
                p <= cfg.partition_count,
                cfg == self@.topic_config(topic_id),
                out@ == head + self@.partition_descriptions(topic_id, p as nat),
            decreases cfg.partition_count - p,
        {
            let (base, next, len) = match self.logs.get(&key_of_log(topic_id, p)) {
                Some(l) => (l.base_offset(), l.next_offset(), l.len()),
                None => (0u64, 0u64, 0usize),
            };
            let leader = self.partition_leader(topic_id, p);
            let replicas = self.partition_replicas(topic_id, p);
            put_u16(&mut out, p);
            put_u64(&mut out, base);
            put_u64(&mut out, next);
            put_u32(&mut out, len as u32);
            put_u16(&mut out, leader);
            put_u16(&mut out, replicas.len() as u16);
            put_ids(&mut out, replicas.as_slice());
            p = p + 1;
            assert(out@ =~= head + self@.partition_descriptions(topic_id, p as nat));
        }
        out
    }

    /// Creates a topic with the given settings and a log for each of its
    /// partitions; answers 1, changing nothing, when the topic exists, else 0.
    pub fn create_topic(&mut self, cfg: TopicConfig) -> (r: Result<u8, DmqError>)
        requires
            old(self)@.wf(),
        ensures
            final(self)@.wf(),
            topic_created(old(self)@, final(self)@, cfg, r),
    {
        if self.topics.contains_key(&cfg.topic_id) {
            return Ok(1);
        }
        let topic_id = cfg.topic_id;
        let count = cfg.partition_count;
        self.set_topic_config(cfg);
        let ghost v1 = self@;
        self.ensure_topic(topic_id);
        let ghost v2 = self@;
        let mut p: u16 = 0;
        while p < count
            invariant
                p <= count,
                self@.wf(),
                self@ == v2.with_logs(topic_id, p as nat),
                self@.topics == v2.topics,
                self@.topic_ids == v2.topic_ids,
            decreases count - p,
        {
            self.ensure_log(topic_id, p);
            p = p + 1;
        }
        Ok(0)
    }

    /// Registers a producer of a topic, creating the topic if needed; answers 0.
    pub fn register_producer(&mut self, reg: &ProducerRegister) -> (r: Result<u8, DmqError>)
        requires
            old(self)@.wf(),
        ensures
            final(self)@.wf(),
            r == Ok::<u8, DmqError>(0),
            final(self)@.topics.contains_key(reg.topic_id),
            !old(self)@.topics.contains_key(reg.topic_id) ==> final(self)@.topics[reg.topic_id].is_fresh(reg.topic_id),
            final(self)@ == old(self)@.with_topic(reg.topic_id, final(self)@.topics[reg.topic_id], final(self)@.topic_ids),
    {
        self.ensure_topic(reg.topic_id);
        Ok(0)
    }
}


impl BrokerView {
    /// Whether messages are also routed to the topic rings: as configured, or,
    /// when not configured, exactly when the broker has no cluster state.
    pub open spec fn legacy_push_enabled(self) -> bool {
        match self.legacy_push {
            Some(b) => b,
            None => self.cluster_state is None,
        }
    }

    /// A new consumer of group `g` of topic `t` would not overflow the group's
    /// consumer count.
    pub open spec fn consumer_room(self, t: u16, g: u16) -> bool {
        self.topics.contains_key(t) ==> (group_position(self.topics[t].cgroups@, g) matches Some(i)
            ==> self.topics[t].cgroups@[i].consumers() < u32::MAX)
    }

    /// Routing a produced message to topic `t` would not overflow an offset
    /// counter.
    pub open spec fn produce_room(self, t: u16) -> bool {
        &&& self.log(t, 0).next_offset < u64::MAX
        &&& self.topics.contains_key(t) ==> self.topics[t].has_room()
    }
}

/// Topic `nt` is `bt` after a produced message went through it: nothing changes
/// unless routing is on; then the message is staged when the topic has no
/// group, else routed to the groups. `offset` is the answer given: the log
/// offset, or, for a staged message, the larger of it and the staging offset.
pub open spec fn produce_routed(bt: Topic, nt: Topic, payload: Seq<u8>, legacy: bool, log_offset: u64, offset: u64) -> bool {
    if !legacy {
        nt == bt && offset == log_offset
    } else if bt.cgroups@.len() == 0 {
        &&& nt.wf()
        &&& nt.topic_id == bt.topic_id
        &&& nt.cgroups == bt.cgroups
        &&& nt.staging@ == bt.staging@.appended(payload)
        &&& offset == (if log_offset >= bt.staging@.next_offset {
            log_offset
        } else {
            bt.staging@.next_offset
        })
    } else {
        pushed(bt, nt, payload) && offset == log_offset
    }
}

impl Broker {
    /// Whether produced messages are routed to the topic rings (see
    /// `BrokerView::legacy_push_enabled`).
    pub fn legacy_push_enabled(&self) -> (r: bool)
        ensures
            r == self@.legacy_push_enabled(),
    {
        match self.legacy_push {
            Some(b) => b,
            None => self.cluster_state.is_none(),
        }
    }

    /// The answer to an echo request.
    pub fn process_echo(&self, text: &str) -> (r: String)
        ensures
            r@ == "I have receiver: "@ + text@,
    {
        let mut r = String::new();
        r.append("I have receiver: ");
        r.append(text);
        proof {
            assert(r@ =~= "I have receiver: "@ + text@);
        }
        r
    }

    /// Registers a consumer of a group of a topic, creating both if needed, and
    /// returns the index of the partition it was handed.
    pub fn register_consumer(&mut self, reg: &ConsumerRegister) -> (r: Result<u16, DmqError>)
        requires
            old(self)@.wf(),
            old(self)@.consumer_room(reg.topic_id, reg.group_id),
        ensures
            final(self)@.wf(),
            consumer_registration(old(self)@, final(self)@, *reg, r),
    {
        let t = reg.topic_id;
        let ghost v0 = self@;
        self.ensure_topic(t);
        let ghost v1 = self@;
        assert(v1.topics.contains_key(t));
        let ghost bt = v1.topics[t];
        let mut topic = match self.topics.remove(&t) {
            Some(tp) => tp,
            None => Topic::new(t),
        };
        assert(topic == bt);
        let idx = topic.register_consumer(reg.group_id);
        let ghost nt = topic;
        self.topics.insert(t, topic);
        proof {
            assert(self@.topics =~= v1.topics.insert(t, nt));
            assert(self@.topics =~= v0.topics.insert(t, nt));
            assert(self@.topic_ids.to_set() =~= self@.topics.dom());
            assert forall|k: u16| #[trigger] self@.topics.contains_key(k) implies self@.topics[k].wf()
                && self@.topics[k].topic_id == k by {
                if k != t {
                    assert(v1.topics.contains_key(k));
                }
            }
            if !v0.topics.contains_key(t) {
                assert(bt.is_fresh(t));
            }
        }
        Ok(idx)
    }

    /// Appends a produced message to partition 0 of the topic's log (creating
    /// the topic if needed) and, when routing is on, stages it or routes it to the
    /// topic's groups; answers 0 and an offset (see `produce_routed`).
    pub fn produce_pcm(&mut self, topic_id: u16, payload: &[u8]) -> (r: Result<(u8, u64), DmqError>)
        requires
            old(self)@.wf(),
            old(self)@.produce_room(topic_id),
        ensures
            final(self)@.wf(),
            match r {
                Ok((code, offset)) => {
                    let t = topic_id;
                    let log_offset = old(self)@.log(t, 0).next_offset;
                    let legacy = old(self)@.legacy_push_enabled();
                    &&& code == 0
                    &&& payload@.len() <= old(self)@.max_payload_bytes
                    &&& final(self)@.topics.contains_key(t)
                    &&& final(self)@.topics == old(self)@.topics.insert(t, final(self)@.topics[t])
                    &&& old(self)@.topics.contains_key(t) ==> produce_routed(
                        old(self)@.topics[t],
                        final(self)@.topics[t],
                        payload@,
                        legacy,
                        log_offset,
                        offset,
                    )
                    &&& !old(self)@.topics.contains_key(t) ==> exists|f: Topic|
                        f.is_fresh(t) && produce_routed(f, final(self)@.topics[t], payload@, legacy, log_offset, offset)
                    &&& final(self)@ == (BrokerView {
                        topics: final(self)@.topics,
                        ..old(self)@.with_topic(t, final(self)@.topics[t], final(self)@.topic_ids).appended(t, 0, payload@)
                    })
                },
                Err(e) => payload@.len() > old(self)@.max_payload_bytes && e == DmqError::PayloadTooLarge {
                    len: payload@.len() as u64,
                    max: old(self)@.max_payload_bytes as u64,
                } && final(self)@ == old(self)@,
            },
    {
        let ghost v0 = self@;
        let log_offset = self.append_log(topic_id, 0, payload)?;
        let ghost v1 = self@;
        assert(v1.topics.contains_key(topic_id));
        let ghost bt = v1.topics[topic_id];
        proof {
            if !v0.topics.contains_key(topic_id) {
                assert(bt.is_fresh(topic_id));
                assert(bt.has_room());
            } else {
                assert(bt == v0.topics[topic_id]);
            }
        }
        if !self.legacy_push_enabled() {
            return Ok((0, log_offset));
        }
        let mut topic = match self.topics.remove(&topic_id) {
            Some(tp) => tp,
            None => Topic::new(topic_id),
        };
        assert(topic == bt);
        let offset = if topic.cgroups.len() == 0 {
            let staged = topic.append_to_staging(payload);
            if log_offset >= staged {
                log_offset
            } else {
                staged
            }
        } else {
            topic.push_to_groups(payload);
            log_offset
        };
        let ghost nt = topic;
        self.topics.insert(topic_id, topic);
        proof {
            assert(self@.topics =~= v1.topics.insert(topic_id, nt));
            assert(self@.topics =~= v0.topics.insert(topic_id, nt));
            assert(self@.topic_ids.to_set() =~= self@.topics.dom());
            assert forall|k: u16| #[trigger] self@.topics.contains_key(k) implies self@.topics[k].wf()
                && self@.topics[k].topic_id == k by {
                if k != topic_id {
                    assert(v1.topics.contains_key(k));
                }
            }
            assert(produce_routed(bt, nt, payload@, v0.legacy_push_enabled(), v0.log(topic_id, 0).next_offset, offset));
        }
        Ok((0, offset))
    }

    /// Takes the oldest message of a partition of a topic's group (creating the
    /// group when the topic exists) into `payload_out`, and says whether there
    /// was one. An empty partition sets `payload_out` to `None`; it is left alone
    /// when the topic or the partition does not exist.
    pub fn consume_from_partition(
        &mut self,
        topic_id: u16,
        group_id: u16,
        partition_idx: u16,
        payload_out: &mut Option<Vec<u8>>,
    ) -> (r: Result<bool, DmqError>)
        requires
            old(self)@.wf(),
        ensures
            final(self)@.wf(),
            r is Ok,
            !old(self)@.topics.contains_key(topic_id) ==> r == Ok::<bool, DmqError>(false) && final(self)@ == old(self)@
                && *final(payload_out) == *old(payload_out),
            old(self)@.topics.contains_key(topic_id) ==> {
                let ot = old(self)@.topics[topic_id];
                let nt = final(self)@.topics[topic_id];
                &&& final(self)@ == (BrokerView { topics: old(self)@.topics.insert(topic_id, nt), ..old(self)@ })
                &&& nt.topic_id == ot.topic_id
                &&& nt.staging == ot.staging
                &&& match group_position(ot.cgroups@, group_id) {
                    Some(i) => {
                        let og = ot.cgroups@[i];
                        if partition_idx < og.partitions@.len() {
                            let q = og.partitions@[partition_idx as int].queue@;
                            &&& nt.cgroups@.len() == ot.cgroups@.len()
                            &&& forall|j: int| 0 <= j < ot.cgroups@.len() && j != i ==> #[trigger] nt.cgroups@[j] == ot.cgroups@[j]
                            &&& nt.cgroups@[i].group_id == og.group_id
                            &&& nt.cgroups@[i].consumers() == og.consumers()
                            &&& nt.cgroups@[i].partitions@.len() == og.partitions@.len()
                            &&& forall|j: int| 0 <= j < og.partitions@.len() && j != partition_idx ==> #[trigger] nt.cgroups@[i].partitions@[j] == og.partitions@[j]
                            &&& if q.messages.len() == 0 {
                                &&& r == Ok::<bool, DmqError>(false)
                                &&& *final(payload_out) is None
                                &&& nt.cgroups@[i].partitions@[partition_idx as int].queue@ == q
                            } else {
                                &&& r == Ok::<bool, DmqError>(true)
                                &&& *final(payload_out) matches Some(m) && m@ == q.messages[0]
                                &&& nt.cgroups@[i].partitions@[partition_idx as int].queue@ == (QueueView {
                                    base_offset: (q.base_offset + 1) as u64,
                                    next_offset: q.next_offset,
                                    messages: q.messages.drop_first(),
                                })
                            }
                        } else {
                            r == Ok::<bool, DmqError>(false) && nt.cgroups@ == ot.cgroups@ && *final(payload_out) == *old(payload_out)
                        }
                    },
                    None => {
                        &&& r == Ok::<bool, DmqError>(false)
                        &&& partition_idx == 0 ==> *final(payload_out) is None
                        &&& partition_idx != 0 ==> *final(payload_out) == *old(payload_out)
                        &&& nt.cgroups@.drop_last() == ot.cgroups@
                        &&& nt.cgroups@.last().group_id == group_id
                        &&& nt.cgroups@.last().consumers() == 0
                        &&& nt.cgroups@.last().partitions@.len() == 1
                        &&& nt.cgroups@.last().partitions@[0].queue@.messages == Seq::<Seq<u8>>::empty()
                    },
                }
            },
    {
        let ghost v0 = self@;
        if !self.topics.contains_key(&topic_id) {
            return Ok(false);
        }
        let mut topic = match self.topics.remove(&topic_id) {
            Some(tp) => tp,
            None => Topic::new(topic_id),
        };
        let ghost ot = topic;
        assert(ot == v0.topics[topic_id]);
        let created = topic.find_or_create_group(group_id);
        let ghost c1 = topic.cgroups@;
        proof {
            if created {
                crate::topic::lemma_group_position_push(ot.cgroups@, c1.last());
                assert(ot.cgroups@.push(c1.last()) =~= c1);
            }
            crate::topic::lemma_group_position(c1, group_id);
            let i = group_position(c1, group_id)->0;
            if created {
                assert(i == c1.len() - 1);
            } else {
                assert(c1 == ot.cgroups@);
                assert(ot.cgroups@[i].partitions_wf());
            }
            assert(c1[i].partitions_wf());
        }
        let mut found = false;
        let mut taken = false;
        let mut msg: Option<Vec<u8>> = None;
        match topic.group_mut(group_id) {
            Some(g) => {
                let ghost gp0 = g.partitions@;
                if (partition_idx as usize) < g.partitions.len() {
                    found = true;
                    assert(g.partitions@[partition_idx as int].wf());
                    msg = g.partitions[partition_idx as usize].pop_front();
                    assert(g.partitions@ == gp0.update(partition_idx as int, g.partitions@[partition_idx as int]));
                    assert forall|k: int| 0 <= k < g.partitions@.len() implies #[trigger] g.partitions@[k].wf() by {
                        if k != partition_idx {
                            assert(g.partitions@[k] == gp0[k]);
                        }
                    }
                }
                assert(g.partitions_wf());
                assert(g.partitions@.len() >= 1);
            },
            None => {},
        }
        let ghost nt = topic;
        self.topics.insert(topic_id, topic);
        proof {
            assert(self@.topics =~= v0.topics.insert(topic_id, nt));
            assert(self@.topic_ids.to_set() =~= self@.topics.dom());
            let i = group_position(c1, group_id)->0;
            if !created {
                assert(c1 == ot.cgroups@);
            }
            assert(nt.cgroups@.len() == c1.len());
            assert(nt.staging.wf());
            assert(nt.cgroups@[i].partitions_wf());
            assert forall|j: int| 0 <= j < nt.cgroups@.len() implies #[trigger] nt.cgroups@[j].partitions_wf()
                && nt.cgroups@[j].partitions@.len() >= 1 by {
                if j != i {
                    assert(nt.cgroups@[j] == c1[j]);
                    if created && j == c1.len() - 1 {
                    } else {
                        assert(c1[j] == ot.cgroups@[j]);
                        assert(ot.cgroups@[j].partitions_wf());
                    }
                }
            }
            crate::topic::lemma_topic_wf_intro(nt);
            assert(nt.wf());
            assert forall|k: u16| #[trigger] self@.topics.contains_key(k) implies self@.topics[k].wf()
                && self@.topics[k].topic_id == k by {
                if k != topic_id {
                    assert(v0.topics.contains_key(k));
                }
            }
            if created {
                assert(nt.cgroups@.drop_last() =~= ot.cgroups@);
            } else {
                assert forall|j: int| 0 <= j < ot.cgroups@.len() && j != i implies #[trigger] nt.cgroups@[j] == ot.cgroups@[j] by {}
            }
        }
        let r = if found {
            match msg {
                Some(m) => {
                    *payload_out = Some(m);
                    true
                },
                None => {
                    *payload_out = None;
                    false
                },
            }
        } else {
            false
        };
        proof {
            let i = group_position(c1, group_id)->0;
            if !created {
                assert(group_position(ot.cgroups@, group_id) == Some(i));
                let og = ot.cgroups@[i];
                assert(c1[i] == og);
                if partition_idx < og.partitions@.len() {
                    assert(found);
                    assert forall|j: int| 0 <= j < og.partitions@.len() && j != partition_idx implies #[trigger] nt.cgroups@[i].partitions@[j] == og.partitions@[j] by {}
                    let q = og.partitions@[partition_idx as int].queue@;
                    assert(nt.cgroups@.len() == ot.cgroups@.len());
                    assert forall|j: int| 0 <= j < ot.cgroups@.len() && j != i implies #[trigger] nt.cgroups@[j] == ot.cgroups@[j] by {}
                    assert(nt.cgroups@[i].group_id == og.group_id);
                    assert(nt.cgroups@[i].consumers() == og.consumers());
                    assert(nt.cgroups@[i].partitions@.len() == og.partitions@.len());
                    if q.messages.len() == 0 {
                        assert(msg is None);
                        assert(!r);
                        assert(nt.cgroups@[i].partitions@[partition_idx as int].queue@ == q);
                    } else {
                        assert(msg is Some);
                        assert(r);
                    }
                } else {
                    assert(!found);
                    assert(nt.cgroups@ =~= ot.cgroups@);
                }
            } else {
                assert(group_position(ot.cgroups@, group_id) is None);
                assert(c1[i].partitions@.len() == 1);
                if partition_idx == 0 {
                    assert(found);
                    assert(c1[i].partitions@[0].queue@.messages.len() == 0);
                    assert(msg is None);
                }
                assert(nt.cgroups@.last().partitions@[0].queue@.messages == Seq::<Seq<u8>>::empty());
            }
            assert(self@ == (BrokerView { topics: v0.topics.insert(topic_id, nt), ..v0 }));
            assert(nt.topic_id == ot.topic_id);
            assert(nt.staging == ot.staging);
        }
        Ok(r)
    }
}


/// The group id held in a group key.
pub open spec fn key_group(k: u32) -> u16 {
    (k % 65536) as u16
}

/// The topic id held in a group key.
pub open spec fn key_topic(k: u32) -> u16 {
    (k / 65536) as u16
}

/// The first of `keys` that names group `g`.
pub open spec fn first_key_of_group(keys: Seq<u32>, g: u16) -> Option<u32>
    decreases keys.len(),
{
    if keys.len() == 0 {
        None
    } else if key_group(keys[0]) == g {
        Some(keys[0])
    } else {
        first_key_of_group(keys.drop_first(), g)
    }
}

proof fn lemma_first_key_of_group(keys: Seq<u32>, g: u16)
    ensures
        first_key_of_group(keys, g) matches Some(k) ==> keys.contains(k) && key_group(k) == g,
    decreases keys.len(),
{
    if keys.len() > 0 && key_group(keys[0]) != g {
        lemma_first_key_of_group(keys.drop_first(), g);
        if first_key_of_group(keys, g) is Some {
            let k = first_key_of_group(keys, g)->0;
            let j = choose|j: int| 0 <= j < keys.drop_first().len() && keys.drop_first()[j] == k;
            assert(keys[j + 1] == k);
        }
    }
}

fn key_of_group(topic_id: u16, group_id: u16) -> (k: u32)
    ensures
        k == group_key(topic_id, group_id),
        key_group(k) == group_id,
        key_topic(k) == topic_id,
{
    proof {
        assert(topic_id * 65536 + group_id < 0x1_0000_0000) by (nonlinear_arith)
            requires
                topic_id < 65536,
                group_id < 65536,
        ;
        let k = topic_id * 65536 + group_id;
        assert(k % 65536 == group_id && k / 65536 == topic_id) by (nonlinear_arith)
            requires
                k == topic_id * 65536 + group_id,
                0 <= group_id < 65536,
        ;
    }
    (topic_id as u32) * 65536 + (group_id as u32)
}

/// A new coordinated group of a topic.
pub open spec fn new_group_view(group_id: u16, topic_id: u16) -> GroupStateView {
    GroupStateView {
        group_id,
        topic_id,
        generation: 1,
        members: Map::<u64, GroupMemberView>::empty(),
        rebalance_pending: false,
    }
}

impl BrokerView {
    /// The coordinated group of a topic, or a new one.
    pub open spec fn group_or_new(self, topic_id: u16, group_id: u16) -> GroupStateView {
        if self.groups.contains_key(group_key(topic_id, group_id)) {
            self.groups[group_key(topic_id, group_id)]
        } else {
            new_group_view(group_id, topic_id)
        }
    }

    /// The state with `g` as the group under `key`, the key listed last if it is new.
    pub open spec fn with_group(self, key: u32, g: GroupStateView) -> BrokerView {
        BrokerView {
            groups: self.groups.insert(key, g),
            group_keys: if self.groups.contains_key(key) {
                self.group_keys
            } else {
                self.group_keys.push(key)
            },
            ..self
        }
    }

    /// The group a heartbeat for group `g` goes to after stale members were
    /// dropped and, if any were, partitions reassigned.
    pub open spec fn refreshed_group(self, key: u32, now: u64, timeout: u64) -> GroupStateView {
        let g0 = self.groups[key];
        if g0.stale_ids(now, timeout).len() > 0 {
            g0.expired(now, timeout).rebalanced(self.topic_config(key_topic(key)).partition_count, now)
        } else {
            g0
        }
    }
}

impl Broker {
    /// Puts `g` under `key` in the coordinated groups, which are those of
    /// `before` without `key`.
    fn restore_group(&mut self, key: u32, g: GroupState, known: bool, Ghost(before): Ghost<BrokerView>)
        requires
            before.wf(),
            known == before.groups.contains_key(key),
            old(self)@ == (BrokerView { groups: before.groups.remove(key), ..before }),
        ensures
            final(self)@.wf(),
            final(self)@ == before.with_group(key, g@),
    {
        let ghost gv = g@;
        let ghost raw0 = self.groups@;
        self.groups.insert(key, g);
        proof {
            assert forall|k: u32| #[trigger] self@.groups.contains_key(k) == before.groups.insert(key, gv).contains_key(k) by {
                assert(old(self)@.groups.contains_key(k) == raw0.contains_key(k));
            }
            assert forall|k: u32| #[trigger] self@.groups.contains_key(k) implies self@.groups[k] == before.groups.insert(
                key,
                gv,
            )[k] by {
                if k != key {
                    assert(old(self)@.groups.contains_key(k) == raw0.contains_key(k));
                    assert(old(self)@.groups[k] == raw0[k]@);
                }
            }
            assert(self@.groups =~= before.groups.insert(key, gv));
        }
        if !known {
            proof {
                assert(!before.group_keys.contains(key)) by {
                    if before.group_keys.contains(key) {
                        let j = choose|j: int| 0 <= j < before.group_keys.len() && before.group_keys[j] == key;
                        assert(before.group_keys.to_set().contains(before.group_keys[j]));
                    }
                }
            }
            let ghost ks = self.group_keys@;
            self.group_keys.push(key);
            proof {
                assert forall|y: u32| #[trigger] ks.push(key).contains(y) <==> ks.contains(y) || y == key by {
                    if ks.push(key).contains(y) {
                        let j = choose|j: int| 0 <= j < ks.push(key).len() && ks.push(key)[j] == y;
                        if j < ks.len() {
                            assert(ks[j] == y);
                        }
                    }
                    if ks.contains(y) {
                        let j = choose|j: int| 0 <= j < ks.len() && ks[j] == y;
                        assert(ks.push(key)[j] == y);
                    }
                    if y == key {
                        assert(ks.push(key)[ks.len() as int] == y);
                    }
                }
                assert(ks.to_set() == before.groups.dom());
                assert forall|y: u32| #[trigger] ks.push(key).to_set().contains(y) <==> self@.groups.dom().contains(y) by {
                    assert(ks.to_set().contains(y) <==> ks.contains(y));
                }
            }
        }
        proof {
            assert(self@.group_keys.to_set() =~= self@.groups.dom());
            assert(self@.groups =~= before.groups.insert(key, gv));
        }
    }

    /// Joins a member to the coordinated group of a topic (creating the topic
    /// and the group if needed) and reassigns partitions over the topic's
    /// partition count; answers 0, the member's id, the generation and its
    /// partitions. A group that holds as many members as can be counted is
    /// refused.
    pub fn join_group(&mut self, req: &JoinGroupRequest, now_ms: u64) -> (r: Result<(u8, u64, u32, Vec<u16>), DmqError>)
        requires
            old(self)@.wf(),
        ensures
            final(self)@.wf(),
            group_joined(old(self)@, final(self)@, *req, now_ms, r),
    {
        let t = req.topic_id;
        let ghost v0 = self@;
        self.ensure_topic(t);
        let ghost v1 = self@;
        proof {
            lemma_with_topic_log(v0, t, v1.topics[t], v1.topic_ids, t, 0);
        }
        let pc = self.topic_config(t).partition_count;
        let key = key_of_group(t, req.group_id);
        let known = self.groups.contains_key(&key);
        let mut group = match self.groups.remove(&key) {
            Some(g) => g,
            None => GroupState::new(req.group_id, t),
        };
        let ghost g0 = group@;
        proof {
            if !v1.groups.contains_key(key) {
                assert(group@.members =~= Map::<u64, GroupMemberView>::empty());
            }
            assert(g0 == v0.group_or_new(t, req.group_id));
            assert(g0.members.dom() =~= group.members@.dom());
            assert(g0.members.len() == group.members@.len());
        }
        proof {
            assert(self@.groups =~= v1.groups.remove(key));
            assert(self@ == (BrokerView { groups: v1.groups.remove(key), ..v1 }));
        }
        if group.members.len() == usize::MAX {
            self.restore_group(key, group, known, Ghost(v1));
            return Err(DmqError::GroupFull);
        }
        let (id, generation, parts) = match group.join(req.member_id, pc, now_ms) {
            Ok(v) => v,
            Err(e) => {
                self.restore_group(key, group, known, Ghost(v1));
                return Err(e);
            },
        };
        self.restore_group(key, group, known, Ghost(v1));
        Ok((0, id, generation, parts))
    }
}


impl Broker {
    /// The first listed group key naming group `group_id`.
    fn find_group_key(&self, group_id: u16) -> (r: Option<u32>)
        ensures
            r == first_key_of_group(self@.group_keys, group_id),
    {
        let ghost all = self.group_keys@;
        let mut i: usize = 0;
        assert(all.subrange(0, all.len() as int) =~= all);
        while i < self.group_keys.len()
            invariant
                i <= all.len(),
                all == self.group_keys@,
                first_key_of_group(all, group_id) == first_key_of_group(all.subrange(i as int, all.len() as int), group_id),
            decreases all.len() - i,
        {
            let k = self.group_keys[i];
            let ghost rest = all.subrange(i as int, all.len() as int);
            assert(rest[0] == k);
            if (k % 65536) as u16 == group_id {
                return Some(k);
            }
            assert(rest.drop_first() =~= all.subrange(i + 1, all.len() as int));
            i = i + 1;
        }
        None
    }

    /// A heartbeat of a member of the first coordinated group named
    /// `req.group_id`: members silent for longer than `session_timeout_ms` are
    /// dropped first (and partitions reassigned if any were), then the heartbeat
    /// is answered as `GroupStateView::heartbeat_answer` says, the flag as 0 or 1.
    /// An unknown group is answered `(1, 1)`.
    pub fn group_heartbeat(&mut self, req: &GroupHeartbeatRequest, now_ms: u64, session_timeout_ms: u64) -> (r: Result<(u8, u8), DmqError>)
        requires
            old(self)@.wf(),
        ensures
            final(self)@.wf(),
            group_heartbeat_answered(old(self)@, final(self)@, *req, now_ms, session_timeout_ms, r),
    {
        let key = match self.find_group_key(req.group_id) {
            Some(k) => k,
            None => {
                return Ok((1, 1));
            },
        };
        let ghost v0 = self@;
        proof {
            lemma_first_key_of_group(v0.group_keys, req.group_id);
            assert(v0.group_keys.to_set().contains(key));
            assert(v0.groups.contains_key(key));
        }
        let pc = self.topic_config((key / 65536) as u16).partition_count;
        let mut group = match self.groups.remove(&key) {
            Some(g) => g,
            None => GroupState::new(req.group_id, 0),
        };
        proof {
            assert(group@ == v0.groups[key]);
            assert(self@.groups =~= v0.groups.remove(key));
            assert(self@ == (BrokerView { groups: v0.groups.remove(key), ..v0 }));
        }
        if group.expire_stale_members(now_ms, session_timeout_ms) {
            group.rebalance(pc, now_ms);
        }
        let ghost g1 = group@;
        assert(g1 == v0.refreshed_group(key, now_ms, session_timeout_ms));
        let answer = match group.heartbeat(req.member_id, req.generation, now_ms) {
            Ok(a) => a,
            Err(e) => {
                self.restore_group(key, group, true, Ghost(v0));
                return Err(e);
            },
        };
        self.restore_group(key, group, true, Ghost(v0));
        Ok(
            (
                answer.0,
                if answer.1 {
                    1
                } else {
                    0
                },
            ),
        )
    }
}


impl BrokerView {
    /// Whether this broker is the controller of its cluster state.
    pub open spec fn is_controller(self) -> bool {
        match self.cluster_state {
            Some(cs) => spec_controller(cs.brokers, self.controller_setting) == Some(self.broker_id),
            None => false,
        }
    }

    /// The state with cluster state `cs` and the configuration it implies.
    pub open spec fn with_cluster_state(self, cs: ClusterStateView) -> BrokerView {
        BrokerView { cluster_state: Some(cs), cluster: Some(cs.to_cluster_config()), ..self }
    }

    /// The cluster state after a controller failover at `now`; the configuration
    /// follows it only when some assignment changed.
    pub open spec fn failed_over(self, now: u64, timeout: u64) -> BrokerView {
        let cs = self.cluster_state->0;
        let ns = cs.failover(now, timeout);
        if changed_assignments(cs.assignments, cs.broker_last_seen_ms, now, timeout).len() > 0 {
            self.with_cluster_state(ns)
        } else {
            BrokerView { cluster_state: Some(ns), ..self }
        }
    }

    /// How many assignments a failover at `now` changes.
    pub open spec fn failover_count(self, now: u64, timeout: u64) -> nat {
        let cs = self.cluster_state->0;
        changed_assignments(cs.assignments, cs.broker_last_seen_ms, now, timeout).len()
    }

    /// The address of the controller broker, when there is cluster state and the
    /// controller is a listed broker.
    pub open spec fn controller_addr(self) -> Option<Seq<char>> {
        match self.cluster_state {
            Some(cs) => match spec_controller(cs.brokers, self.controller_setting) {
                Some(c) => cs.to_cluster_config().broker_addr(c),
                None => None,
            },
            None => None,
        }
    }

    /// The single-broker configuration a standalone broker describes itself with.
    pub open spec fn standalone_config(self, port: u16) -> ClusterConfigView {
        ClusterConfigView {
            min_insync_replicas: 1,
            brokers: seq![BrokerNodeView { id: self.broker_id, host: "127.0.0.1"@, port }],
            assignments: Seq::empty(),
        }
    }

    /// The cluster description: from the cluster state, else the configuration,
    /// else the standalone one on `port`.
    pub open spec fn cluster_info(self, port: u16) -> Seq<u8> {
        match self.cluster_state {
            Some(cs) => cs.cluster_info_bytes(),
            None => match self.cluster {
                Some(c) => c.spec_encode(),
                None => self.standalone_config(port).spec_encode(),
            },
        }
    }
}

impl Broker {
    pub fn broker_id(&self) -> (r: BrokerId)
        ensures
            r == self@.broker_id,
    {
        self.broker_id
    }

    pub fn cluster(&self) -> (r: Option<&ClusterConfig>)
        ensures
            match r {
                Some(c) => self@.cluster == Some(c@),
                None => self@.cluster is None,
            },
    {
        self.cluster.as_ref()
    }

    pub fn cluster_state(&self) -> (r: Option<&ClusterState>)
        ensures
            match r {
                Some(c) => self@.cluster_state == Some(c@),
                None => self@.cluster_state is None,
            },
    {
        self.cluster_state.as_ref()
    }

    /// Whether this broker is the controller (see `BrokerView::is_controller`).
    pub fn is_controller(&self) -> (r: bool)
        ensures
            r == self@.is_controller(),
    {
        match &self.cluster_state {
            Some(s) => s.is_controller(self.broker_id, self.controller_setting),
            None => false,
        }
    }

    /// Adopts a cluster state and the configuration it implies.
    pub fn apply_cluster_state(&mut self, state: ClusterState)
        ensures
            final(self)@ == old(self)@.with_cluster_state(state@),
    {
        self.cluster = Some(state.to_cluster_config());
        self.cluster_state = Some(state);
    }

    /// A broker's heartbeat, at the controller: it is recorded, dead leaders are
    /// failed over and the configuration follows; answers 0. Anywhere else the
    /// answer is 1 and nothing changes.
    pub fn handle_broker_heartbeat(&mut self, req: &BrokerHeartbeatRequest, now_ms: u64, timeout_ms: u64) -> (code: u8)
        ensures
            broker_heartbeat_answered(old(self)@, final(self)@, *req, now_ms, timeout_ms, code),
    {
        if !self.is_controller() {
            return 1;
        }
        let mut state = match self.cluster_state.take() {
            Some(s) => s,
            None => {
                return 1;
            },
        };
        state.record_heartbeat(req.broker_id, now_ms);
        state.failover_dead_leaders(now_ms, timeout_ms);
        self.apply_cluster_state(state);
        0
    }

    /// At the controller, fails over every dead leader and returns how many
    /// assignments changed; elsewhere returns 0 and changes nothing.
    pub fn run_failover_at(&mut self, now_ms: u64, timeout_ms: u64) -> (n: usize)
        ensures
            old(self)@.is_controller() ==> n == old(self)@.failover_count(now_ms, timeout_ms) && final(self)@ == old(
                self,
            )@.failed_over(now_ms, timeout_ms),
            !old(self)@.is_controller() ==> n == 0 && final(self)@ == old(self)@,
    {
        if !self.is_controller() {
            return 0;
        }
        let mut state = match self.cluster_state.take() {
            Some(s) => s,
            None => {
                return 0;
            },
        };
        let changed = state.failover_dead_leaders(now_ms, timeout_ms);
        let n = changed.len();
        proof {
            assert(n == crate::cluster_state::live_view(changed@).len());
        }
        if n > 0 {
            self.apply_cluster_state(state);
        } else {
            self.cluster_state = Some(state);
        }
        n
    }

    /// At the controller, records its own heartbeat and fails over dead leaders
    /// (see `run_failover_at`); elsewhere returns 0 and changes nothing.
    pub fn controller_tick(&mut self, now_ms: u64, timeout_ms: u64) -> (n: usize)
        ensures
            old(self)@.is_controller() ==> {
                let hb = BrokerView {
                    cluster_state: Some(old(self)@.cluster_state->0.heartbeat(old(self)@.broker_id, now_ms)),
                    ..old(self)@
                };
                n == hb.failover_count(now_ms, timeout_ms) && final(self)@ == hb.failed_over(now_ms, timeout_ms)
            },
            !old(self)@.is_controller() ==> n == 0 && final(self)@ == old(self)@,
    {
        if !self.is_controller() {
            return 0;
        }
        match &mut self.cluster_state {
            Some(s) => s.record_heartbeat(self.broker_id, now_ms),
            None => {},
        }
        self.run_failover_at(now_ms, timeout_ms)
    }

    /// The controller's address (see `BrokerView::controller_addr`).
    pub fn controller_addr(&self) -> (r: Option<String>)
        ensures
            match r {
                Some(a) => self@.controller_addr() == Some(a@),
                None => self@.controller_addr() is None,
            },
    {
        let state = match &self.cluster_state {
            Some(s) => s,
            None => {
                return None;
            },
        };
        let controller = match state.controller_id(self.controller_setting) {
            Some(c) => c,
            None => {
                return None;
            },
        };
        state.to_cluster_config().broker_addr(controller)
    }

    /// The cluster description (see `BrokerView::cluster_info`).
    pub fn cluster_info_bytes(&self, port: u16) -> (out: Vec<u8>)
        ensures
            out@ == self@.cluster_info(port),
    {
        if let Some(state) = &self.cluster_state {
            return state.encode_cluster_info();
        }
        match &self.cluster {
            Some(cfg) => cfg.encode(),
            None => {
                let mut brokers: Vec<BrokerNode> = Vec::new();
                brokers.push(BrokerNode { id: self.broker_id, host: "127.0.0.1".to_string(), port });
                let cfg = ClusterConfig { min_insync_replicas: 1, brokers, assignments: Vec::new() };
                proof {
                    assert(cfg@.brokers =~= self@.standalone_config(port).brokers);
                    assert(cfg@.assignments =~= self@.standalone_config(port).assignments);
                }
                cfg.encode()
            },
        }
    }

    pub fn check_produce_acl(&self, principal: &[u8], topic_id: u16) -> (r: Result<(), DmqError>)
        ensures
            r == self@.acl.check(principal@, Operation::Produce, topic_id),
    {
        self.acl.check(principal, Operation::Produce, topic_id)
    }

    pub fn check_fetch_acl(&self, principal: &[u8], topic_id: u16) -> (r: Result<(), DmqError>)
        ensures
            r == self@.acl.check(principal@, Operation::Fetch, topic_id),
    {
        self.acl.check(principal, Operation::Fetch, topic_id)
    }

    pub fn check_admin_acl(&self, principal: &[u8], topic_id: u16) -> (r: Result<(), DmqError>)
        ensures
            r == self@.acl.check(principal@, Operation::Admin, topic_id),
    {
        self.acl.check(principal, Operation::Admin, topic_id)
    }
}


impl Broker {
    /// Whether one more record fits the offsets of a partition's log.
    pub fn log_has_room(&self, topic_id: u16, partition_id: u16) -> (r: bool)
        ensures
            r == (self@.log(topic_id, partition_id).next_offset < u64::MAX),
    {
        match self.logs.get(&key_of_log(topic_id, partition_id)) {
            Some(l) => l.next_offset() < u64::MAX,
            None => true,
        }
    }

    /// Whether one more consumer fits the count of a topic's group (see
    /// `BrokerView::consumer_room`).
    pub fn consumer_has_room(&self, topic_id: u16, group_id: u16) -> (r: bool)
        ensures
            r == self@.consumer_room(topic_id, group_id),
    {
        match self.topics.get(&topic_id) {
            Some(t) => match t.group(group_id) {
                Some(g) => g.consumer_count < u32::MAX,
                None => true,
            },
            None => true,
        }
    }

    /// Whether a produced message can be routed to a topic without overflowing
    /// an offset (see `BrokerView::produce_room`).
    pub fn produce_has_room(&self, topic_id: u16) -> (r: bool)
        requires
            self@.wf(),
        ensures
            r == self@.produce_room(topic_id),
    {
        if !self.log_has_room(topic_id, 0) {
            return false;
        }
        let t = match self.topics.get(&topic_id) {
            Some(t) => t,
            None => {
                return true;
            },
        };
        assert(self@.topics.contains_key(topic_id));
        assert(self@.topics[topic_id] == *t);
        assert(t.wf());
        let next = t.staging.next_offset();
        if next == u64::MAX {
            return false;
        }
        let staged = t.staging.live_len();
        assert(staged == t.staging@.messages.len()) by {
            crate::topic::lemma_live_len(t.staging);
        }
        let mut i: usize = 0;
        while i < t.cgroups.len()
            invariant
                i <= t.cgroups@.len(),
                self@.topics.contains_key(topic_id),
                self@.topics[topic_id] == *t,
                staged == t.staging@.messages.len(),
                forall|a: int, b: int|
                    0 <= a < i && 0 <= b < t.cgroups@[a].partitions@.len() ==> #[trigger] t.cgroups@[a].partitions@[b].queue@.next_offset
                        + t.staging@.messages.len() < u64::MAX,
            decreases t.cgroups@.len() - i,
        {
            let g = &t.cgroups[i];
            let mut j: usize = 0;
            while j < g.partitions.len()
                invariant
                    j <= g.partitions@.len(),
                    i < t.cgroups@.len(),
                    self@.topics.contains_key(topic_id),
                    self@.topics[topic_id] == *t,
                    g == t.cgroups@[i as int],
                    staged == t.staging@.messages.len(),
                    forall|b: int| 0 <= b < j ==> #[trigger] g.partitions@[b].queue@.next_offset + t.staging@.messages.len() < u64::MAX,
                decreases g.partitions@.len() - j,
            {
                let n = g.partitions[j].queue.next_offset();
                if n >= u64::MAX - staged {
                    assert(t.cgroups@[i as int].partitions@[j as int].queue@.next_offset + t.staging@.messages.len() >= u64::MAX);
                    assert(!t.has_room()) by {
                        if t.has_room() {
                            assert(0 <= i < t.cgroups@.len() && 0 <= j < t.cgroups@[i as int].partitions@.len());
                            assert(t.cgroups@[i as int].partitions@[j as int].queue@.next_offset + t.staging@.messages.len() < u64::MAX);
                        }
                    }
                    return false;
                }
                j = j + 1;
            }
            i = i + 1;
        }
        true
    }

    /// Whether fetches must be served by partition leaders: the setting, when
    /// given, says `leader` in any case.
    pub fn fetch_requires_leader(setting: Option<&[u8]>) -> (r: bool)
        ensures
            r == match setting {
                Some(v) => crate::text::eq_ignore_case(v@, "leader"@.map_values(|c: char| c as u8)),
                None => false,
            },
    {
        match setting {
            Some(v) => {
                let leader: [u8; 6] = [108u8, 101u8, 97u8, 100u8, 101u8, 114u8];
                proof {
                    reveal_strlit("leader");
                    assert(leader@ =~= "leader"@.map_values(|c: char| c as u8));
                }
                crate::text::bytes_eq_ignore_case(v, leader.as_slice())
            },
            None => false,
        }
    }
}

impl Default for Broker {
    fn default() -> (b: Broker)
        ensures
            b@.wf(),
            b@.topics == Map::<u16, Topic>::empty(),
            b@.broker_id == 1,
    {
        Broker::new()
    }
}


impl Broker {
    /// Whether an idempotent produce with this producer and sequence would be
    /// appended (rather than answered with a recorded offset or refused).
    pub fn idempotent_appends(&self, topic_id: u16, partition_id: u16, producer_id: u64, sequence: u64) -> (r: bool)
        ensures
            r == (spec_resolve(
                self@.idempotency.get(crate::idempotency::spec_entry_key(topic_id, partition_id, producer_id)),
                sequence,
            ) == Ok::<IdempotencyAction, DmqError>(IdempotencyAction::Append)),
    {
        match self.idempotency.resolve(topic_id, partition_id, producer_id, sequence) {
            Ok(IdempotencyAction::Append) => true,
            _ => false,
        }
    }
}

} // verus!

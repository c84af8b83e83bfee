use custom_dmq::coordinator::{range_assign, GroupMember, GroupState};
use std::collections::HashMap;

fn member(id: u64, generation: u32) -> GroupMember {
    GroupMember { member_id: id, generation, assigned_partitions: vec![], last_seen_ms: 0 }
}

#[test]
fn range_assign_splits_evenly() {
    let mut members = HashMap::new();
    members.insert(1, member(1, 1));
    members.insert(2, member(2, 1));
    let assigned = range_assign(4, &members, 1);
    assert_eq!(assigned.get(&1).map(|v| v.len()), Some(2));
    assert_eq!(assigned.get(&2).map(|v| v.len()), Some(2));
    let all: std::collections::HashSet<u16> = assigned.values().flatten().copied().collect();
    assert_eq!(all.len(), 4);
}

#[test]
fn range_assign_gives_remainder_to_lowest_ids() {
    let mut members = HashMap::new();
    members.insert(9, member(9, 3));
    members.insert(4, member(4, 3));
    members.insert(7, member(7, 3));
    let assigned = range_assign(5, &members, 3);
    assert_eq!(assigned.get(&4), Some(&vec![0, 1]));
    assert_eq!(assigned.get(&7), Some(&vec![2, 3]));
    assert_eq!(assigned.get(&9), Some(&vec![4]));
    assert!(range_assign(0, &members, 3).is_empty());
}

#[test]
fn range_assign_falls_back_to_all_members() {
    let mut members = HashMap::new();
    members.insert(1, GroupMember { member_id: 1, generation: 1, assigned_partitions: vec![0], last_seen_ms: 0 });
    members.insert(2, GroupMember { member_id: 2, generation: 1, assigned_partitions: vec![1], last_seen_ms: 0 });
    let assigned = range_assign(2, &members, 5);
    assert_eq!(assigned.get(&1), Some(&vec![0]));
    assert_eq!(assigned.get(&2), Some(&vec![1]));
}

#[test]
fn join_assigns_member() {
    let mut group = GroupState::new(1, 1);
    let (id, gen, parts) = group.join(0, 2, 100).unwrap();
    assert!(id > 0);
    assert_eq!(gen, 2);
    assert!(!parts.is_empty());
}

#[test]
fn stale_member_triggers_rebalance_flag() {
    let mut group = GroupState::new(1, 1);
    group.join(1, 2, 100).unwrap();
    assert!(group.expire_stale_members(120_000, 10_000));
    assert!(group.members.is_empty());
}

#[test]
fn heartbeat_codes() {
    let mut group = GroupState::new(1, 1);
    let (id, gen, _) = group.join(0, 4, 10).unwrap();
    assert_eq!(id, 1);
    assert_eq!(group.heartbeat(id, gen, 50).unwrap(), (0, false));
    assert_eq!(group.members.get(&id).unwrap().last_seen_ms, 50);
    assert_eq!(group.heartbeat(id, gen + 1, 60).unwrap(), (2, true));
    assert_eq!(group.heartbeat(99, gen, 60).unwrap(), (1, true));
    let (id2, gen2, parts2) = group.join(0, 4, 70).unwrap();
    assert_eq!(id2, 2);
    assert_eq!(gen2, gen + 1);
    assert_eq!(parts2, vec![0, 1, 2, 3]);
    assert!(!group.expire_stale_members(80, 1_000));
}

#[test]
fn rebalance_reassigns_current_members() {
    let mut group = GroupState::new(1, 1);
    group.join(5, 3, 0).unwrap();
    group.join(6, 3, 0).unwrap();
    let out = group.rebalance(3, 9);
    assert_eq!(out.get(&5), None);
    assert_eq!(out.get(&6), Some(&vec![0, 1, 2]));
    assert_eq!(group.members.get(&5).unwrap().last_seen_ms, 0);
    assert_eq!(group.members.get(&6).unwrap().last_seen_ms, 9);
    assert!(!group.rebalance_pending);
}

use custom_dmq::cgroup::ConsumerGroup;
use custom_dmq::partition::Partition;
use custom_dmq::topic::{Queue, Topic, QUEUE_CAPACITY};

#[test]
fn test_append_returns_ascending_offsets() {
    let mut q = Queue::new();
    assert_eq!(q.append(b"a"), 0);
    assert_eq!(q.append(b"b"), 1);
    assert_eq!(q.append(b"c"), 2);
}

#[test]
fn test_pop_front_fifo() {
    let mut q = Queue::new();
    q.append(b"first");
    q.append(b"second");
    assert_eq!(q.pop_front().unwrap(), b"first");
    assert_eq!(q.pop_front().unwrap(), b"second");
}

#[test]
fn test_ring_wraps_and_evicts_oldest() {
    let mut q = Queue::new();
    for i in 0..QUEUE_CAPACITY {
        q.append(format!("msg-{}", i).as_bytes());
    }
    assert!(q.read_at(0).is_some());
    q.append(b"overflow");
    assert!(q.read_at(0).is_none());
    assert!(q.read_at(1).is_some());
}

#[test]
fn long_payloads_are_cut_to_slot_size() {
    let mut q = Queue::new();
    let big = vec![9u8; 300];
    q.append(&big);
    assert_eq!(q.read_at(0).unwrap().len(), 255);
    assert_eq!(q.live_len(), 1);
    assert!(q.read_at(1).is_none());
}

#[test]
fn partition_append_and_pop_preserves_order() {
    let mut p = Partition::new();
    p.append(b"a");
    p.append(b"b");
    assert_eq!(p.pop_front().unwrap(), b"a");
    assert_eq!(p.pop_front().unwrap(), b"b");
    assert!(p.pop_front().is_none());
    assert!(p.is_empty());
}

#[test]
fn cgroup_assign_partition_grows_with_consumers() {
    let mut group = ConsumerGroup::new(1);
    assert_eq!(group.partitions.len(), 1);
    assert_eq!(group.assign_partition(), 0);
    assert_eq!(group.assign_partition(), 1);
    assert_eq!(group.partitions.len(), 2);
}

#[test]
fn cgroup_smallest_partition_picks_shortest_queue() {
    let mut group = ConsumerGroup::new(1);
    group.partitions.push(Partition::new());
    group.partitions[0].append(b"a");
    group.partitions[0].append(b"b");
    assert_eq!(group.smallest_partition_index(), 1);
}

#[test]
fn topic_staging_drains_into_partition() {
    let mut t = Topic::new(3);
    t.append_to_staging(b"one");
    t.append_to_staging(b"two");
    let mut p = Partition::new();
    t.drain_staging_into(&mut p);
    assert_eq!(t.staging.live_len(), 0);
    assert_eq!(p.pop_front().unwrap(), b"one");
    assert_eq!(p.pop_front().unwrap(), b"two");
    assert!(t.find_or_create_group(4));
    assert!(!t.find_or_create_group(4));
    assert!(t.group(4).is_some());
    assert!(t.group(5).is_none());
    assert_eq!(t.group_mut(4).unwrap().assign_partition(), 0);
}

#[test]
fn cgroup_new_group_has_one_partition() {
    let group = ConsumerGroup::new(1);
    assert_eq!(group.partitions.len(), 1);
}

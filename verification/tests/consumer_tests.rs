use custom_dmq::consumer::ConsumerGroup;

#[test]
fn new_group_starts_at_offset_zero() {
    let group = ConsumerGroup::new("payments-service");
    assert_eq!(group.get_offset("orders"), 0);
}

#[test]
fn advance_increments_offset() {
    let mut group = ConsumerGroup::new("payments-service");
    group.advance("orders");
    group.advance("orders");
    assert_eq!(group.get_offset("orders"), 2);
}

#[test]
fn two_groups_track_offsets_independently() {
    let mut g1 = ConsumerGroup::new("payments-service");
    let mut g2 = ConsumerGroup::new("analytics-service");

    g1.advance("orders");
    g1.advance("orders");
    g1.advance("orders");
    g2.advance("orders");

    assert_eq!(g1.get_offset("orders"), 3);
    assert_eq!(g2.get_offset("orders"), 1);
}

#[test]
fn offsets_are_tracked_per_topic() {
    let mut group = ConsumerGroup::new("analytics-service");
    group.advance("orders");
    group.advance("orders");
    group.advance("payments");

    assert_eq!(group.get_offset("orders"), 2);
    assert_eq!(group.get_offset("payments"), 1);
    assert_eq!(group.get_offset("inventory"), 0);
}

#[test]
fn group_keeps_its_name() {
    let mut group = ConsumerGroup::new("billing");
    group.advance("orders");
    assert_eq!(group.name, "billing");
}

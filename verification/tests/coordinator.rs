use rust_mq::broker::consumer_group_coordinator::ConsumerGroupCoordinator;
use rust_mq::broker::error::BrokerError;
use rust_mq::broker::storage::JoinAnswer;

const NOW: i64 = 1_000_000;

fn coord_with_topic(topic: &str, num_partitions: i32) -> ConsumerGroupCoordinator {
    let mut c = ConsumerGroupCoordinator::new();
    c.update_topic(topic.to_string(), num_partitions);
    c
}

fn join(c: &mut ConsumerGroupCoordinator, group: &str, member: &str, topic: &str) -> JoinAnswer {
    c.join_group(&group.to_string(), &member.to_string(), topic.as_bytes(), 30_000, NOW).unwrap()
}

fn assignment(c: &ConsumerGroupCoordinator, group: &str, member: &str) -> Vec<i32> {
    bincode::deserialize(&c.sync_group(&group.to_string(), &member.to_string()).unwrap()).unwrap()
}

#[test]
fn first_member_gets_all_partitions() {
    let mut coord = coord_with_topic("events", 3);
    let (gen, leader, assigned_id, members) = join(&mut coord, "g1", "m1", "events");
    assert_eq!(gen, 0);
    assert_eq!(leader, "m1");
    assert_eq!(assigned_id, "m1");
    assert_eq!(members.len(), 1);

    assert_eq!(assignment(&coord, "g1", "m1"), vec![0, 1, 2]);
}

#[test]
fn second_member_triggers_rebalance() {
    let mut coord = coord_with_topic("events", 2);
    join(&mut coord, "g1", "m1", "events");

    // m2 joins → rebalance starts
    let (gen, _, _, _) = join(&mut coord, "g1", "m2", "events");
    assert_eq!(gen, 1);

    // sync_group during rebalance → REBALANCE_IN_PROGRESS
    let err = coord.sync_group(&"g1".to_string(), &"m1".to_string()).unwrap_err();
    assert!(matches!(err, BrokerError::RebalanceInProgress));

    // Both members rejoin → rebalance finalizes
    join(&mut coord, "g1", "m1", "events");
    join(&mut coord, "g1", "m2", "events");

    // Now sync should succeed and split partitions
    let a1 = assignment(&coord, "g1", "m1");
    let a2 = assignment(&coord, "g1", "m2");
    let mut combined = [a1, a2].concat();
    combined.sort();
    assert_eq!(combined, vec![0, 1]);
}

#[test]
fn heartbeat_unknown_member_returns_error() {
    let mut coord = ConsumerGroupCoordinator::new();
    join(&mut coord, "g1", "m1", "t");
    let err = coord.heartbeat(&"g1".to_string(), &"nobody".to_string(), NOW).unwrap_err();
    assert!(matches!(err, BrokerError::NotFound(_)));
}

#[test]
fn heartbeat_unknown_group_returns_error() {
    let mut coord = ConsumerGroupCoordinator::new();
    let err = coord.heartbeat(&"no-group".to_string(), &"m1".to_string(), NOW).unwrap_err();
    assert!(matches!(err, BrokerError::NotFound(_)));
}

#[test]
fn leave_group_triggers_rebalance_for_remaining() {
    let mut coord = coord_with_topic("t", 2);
    join(&mut coord, "g1", "m1", "t");
    join(&mut coord, "g1", "m2", "t");
    // Rejoin both to stabilize
    join(&mut coord, "g1", "m1", "t");
    join(&mut coord, "g1", "m2", "t");

    // m2 leaves
    coord.leave_group(&"g1".to_string(), &"m2".to_string(), NOW).unwrap();

    // m1 rejoins to complete rebalance and pick up all partitions
    join(&mut coord, "g1", "m1", "t");
    assert_eq!(assignment(&coord, "g1", "m1"), vec![0, 1]);
}

#[test]
fn update_topic_affects_future_assignments() {
    let mut coord = ConsumerGroupCoordinator::new();
    coord.update_topic("t".to_string(), 1);
    join(&mut coord, "g1", "m1", "t");
    assert_eq!(assignment(&coord, "g1", "m1"), vec![0]);

    // Topic grows to 3 partitions; trigger rebalance manually by having m1 rejoin
    coord.update_topic("t".to_string(), 3);
    coord.leave_group(&"g1".to_string(), &"m1".to_string(), NOW).unwrap();
    join(&mut coord, "g1", "m1", "t");
    assert_eq!(assignment(&coord, "g1", "m1"), vec![0, 1, 2]);
}

#[test]
fn round_robin_assignment_is_balanced() {
    let mut coord = coord_with_topic("t", 4);
    join(&mut coord, "g1", "m1", "t");
    join(&mut coord, "g1", "m2", "t");
    // Both rejoin to finalize
    join(&mut coord, "g1", "m1", "t");
    join(&mut coord, "g1", "m2", "t");

    let a1 = assignment(&coord, "g1", "m1");
    let a2 = assignment(&coord, "g1", "m2");
    assert_eq!(a1.len(), 2);
    assert_eq!(a2.len(), 2);
    let mut all = [a1, a2].concat();
    all.sort();
    assert_eq!(all, vec![0, 1, 2, 3]);
}

#[test]
fn silent_member_is_struck_off() {
    let mut coord = coord_with_topic("t", 2);
    join(&mut coord, "g1", "m1", "t");
    coord.check_liveness(NOW + 30_001);
    let err = coord.heartbeat(&"g1".to_string(), &"m1".to_string(), NOW + 30_002).unwrap_err();
    assert_eq!(err.to_string(), "Unknown member 'm1' in group 'g1'");
}

#[test]
fn unknown_group_is_reported() {
    let mut coord = ConsumerGroupCoordinator::new();
    let nobody = "nobody".to_string();
    assert_eq!(coord.sync_group(&nobody, &nobody).unwrap_err().to_string(), "Group not found");
    assert_eq!(coord.leave_group(&nobody, &nobody, NOW).unwrap_err().to_string(), "Group not found");
    assert_eq!(coord.heartbeat(&nobody, &nobody, NOW).unwrap_err().to_string(), "Unknown group: nobody");
    coord.update_topic("t".to_string(), 2);
    coord.remove_topic(&"t".to_string());
    join(&mut coord, "g1", "m1", "t");
    // A topic that nobody knows counts as one partition.
    assert_eq!(assignment(&coord, "g1", "m1"), vec![0]);
}

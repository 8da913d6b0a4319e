use rust_mq::broker::controller::state_machine::{apply_controller_command, compute_failover_assignments};
use rust_mq::broker::controller::types::{
    BrokerRegistration, ControllerCommand, ControllerMetadata, PartitionAssignment,
};

#[test]
fn state_machine_create_topic_initializes_partitions() {
    let mut meta = ControllerMetadata::default();
    apply_controller_command(
        &mut meta,
        ControllerCommand::CreateTopic {
            topic: "events".to_string(),
            num_partitions: 3,
            replication_factor: 1,
        },
    );
    assert_eq!(meta.topics.len(), 1);
    assert_eq!(meta.partitions.len(), 3);
    assert!(meta.partitions.contains_key(&("events".to_string(), 0)));
    assert!(meta.partitions.contains_key(&("events".to_string(), 2)));
    assert_eq!(meta.topics.get(&"events".to_string()).unwrap().num_partitions, 3);
    assert_eq!(meta.topics.get(&"events".to_string()).unwrap().replication_factor, 1);
}

#[test]
fn state_machine_create_topic_is_idempotent() {
    let mut meta = ControllerMetadata::default();
    for _ in 0..3 {
        apply_controller_command(
            &mut meta,
            ControllerCommand::CreateTopic {
                topic: "t".to_string(),
                num_partitions: 2,
                replication_factor: 1,
            },
        );
    }
    assert_eq!(meta.topics.len(), 1);
    assert_eq!(meta.partitions.len(), 2);
}

#[test]
fn state_machine_delete_topic_removes_all_partitions() {
    let mut meta = ControllerMetadata::default();
    apply_controller_command(
        &mut meta,
        ControllerCommand::CreateTopic {
            topic: "events".to_string(),
            num_partitions: 2,
            replication_factor: 1,
        },
    );
    apply_controller_command(
        &mut meta,
        ControllerCommand::DeleteTopic {
            topic: "events".to_string(),
        },
    );
    assert!(meta.topics.is_empty());
    assert!(meta.partitions.is_empty());
}

#[test]
fn state_machine_delete_unknown_topic_is_noop() {
    let mut meta = ControllerMetadata::default();
    apply_controller_command(
        &mut meta,
        ControllerCommand::DeleteTopic {
            topic: "nonexistent".to_string(),
        },
    );
    assert!(meta.topics.is_empty());
}

#[test]
fn state_machine_partition_change_bumps_epoch_only_on_leader_change() {
    let mut meta = ControllerMetadata::default();
    apply_controller_command(
        &mut meta,
        ControllerCommand::CreateTopic {
            topic: "t".to_string(),
            num_partitions: 1,
            replication_factor: 3,
        },
    );

    // Assign initial leader
    apply_controller_command(
        &mut meta,
        ControllerCommand::PartitionChange {
            topic: "t".to_string(),
            partition: 0,
            leader: 1,
            isr: vec![1, 2, 3],
            replicas: vec![1, 2, 3],
        },
    );
    let p = meta.partitions.get(&("t".to_string(), 0)).unwrap();
    assert_eq!(p.leader, 1);
    assert_eq!(p.leader_epoch, 1);

    // ISR shrink, same leader — epoch must NOT bump
    apply_controller_command(
        &mut meta,
        ControllerCommand::PartitionChange {
            topic: "t".to_string(),
            partition: 0,
            leader: 1,
            isr: vec![1, 2],
            replicas: vec![1, 2, 3],
        },
    );
    let p = meta.partitions.get(&("t".to_string(), 0)).unwrap();
    assert_eq!(p.leader_epoch, 1);
    assert_eq!(p.isr, vec![1, 2]);

    // Leader failover — epoch bumps
    apply_controller_command(
        &mut meta,
        ControllerCommand::PartitionChange {
            topic: "t".to_string(),
            partition: 0,
            leader: 2,
            isr: vec![2, 3],
            replicas: vec![1, 2, 3],
        },
    );
    let p = meta.partitions.get(&("t".to_string(), 0)).unwrap();
    assert_eq!(p.leader, 2);
    assert_eq!(p.leader_epoch, 2);
}

#[test]
fn state_machine_register_and_unregister_broker() {
    let mut meta = ControllerMetadata::default();
    apply_controller_command(
        &mut meta,
        ControllerCommand::RegisterBroker {
            broker_id: 1,
            api_addr: "127.0.0.1:9092".to_string(),
            rpc_addr: "127.0.0.1:9093".to_string(),
        },
    );
    assert_eq!(meta.brokers.len(), 1);
    assert_eq!(meta.brokers.get(&1).unwrap().api_addr, "127.0.0.1:9092");

    apply_controller_command(
        &mut meta,
        ControllerCommand::UnregisterBroker { broker_id: 1 },
    );
    assert!(meta.brokers.is_empty());
}

#[test]
fn state_machine_bump_controller_epoch() {
    let mut meta = ControllerMetadata::default();
    assert_eq!(meta.controller_epoch, 0);
    apply_controller_command(&mut meta, ControllerCommand::BumpControllerEpoch);
    apply_controller_command(&mut meta, ControllerCommand::BumpControllerEpoch);
    assert_eq!(meta.controller_epoch, 2);
}

fn registered_broker(id: u64) -> BrokerRegistration {
    BrokerRegistration {
        broker_id: id,
        api_addr: format!("127.0.0.1:{}", 9000 + id),
        rpc_addr: format!("127.0.0.1:{}", 9100 + id),
        last_seen_ms: 0,
    }
}

#[test]
fn broker_heartbeat_updates_last_seen_ms() {
    let mut meta = ControllerMetadata::default();
    meta.brokers.insert(1, registered_broker(1));

    apply_controller_command(
        &mut meta,
        ControllerCommand::BrokerHeartbeat {
            broker_id: 1,
            timestamp_ms: 1000,
        },
    );
    assert_eq!(meta.brokers.get(&1).unwrap().last_seen_ms, 1000);

    // Later timestamp advances.
    apply_controller_command(
        &mut meta,
        ControllerCommand::BrokerHeartbeat {
            broker_id: 1,
            timestamp_ms: 2000,
        },
    );
    assert_eq!(meta.brokers.get(&1).unwrap().last_seen_ms, 2000);

    // Earlier timestamp is ignored (monotone).
    apply_controller_command(
        &mut meta,
        ControllerCommand::BrokerHeartbeat {
            broker_id: 1,
            timestamp_ms: 500,
        },
    );
    assert_eq!(meta.brokers.get(&1).unwrap().last_seen_ms, 2000);
}

#[test]
fn broker_heartbeat_for_unknown_broker_is_noop() {
    let mut meta = ControllerMetadata::default();
    // Should not panic.
    apply_controller_command(
        &mut meta,
        ControllerCommand::BrokerHeartbeat {
            broker_id: 99,
            timestamp_ms: 1000,
        },
    );
    assert!(meta.brokers.is_empty());
}

#[test]
fn mark_broker_dead_removes_broker_and_reassigns_partitions() {
    let mut meta = ControllerMetadata::default();
    meta.brokers.insert(1, registered_broker(1));
    meta.brokers.insert(2, registered_broker(2));

    // Partition led by broker 1, ISR has both.
    apply_controller_command(
        &mut meta,
        ControllerCommand::CreateTopic {
            topic: "t".to_string(),
            num_partitions: 1,
            replication_factor: 2,
        },
    );
    apply_controller_command(
        &mut meta,
        ControllerCommand::PartitionChange {
            topic: "t".to_string(),
            partition: 0,
            leader: 1,
            isr: vec![1, 2],
            replicas: vec![1, 2],
        },
    );
    assert_eq!(meta.partitions.get(&("t".to_string(), 0)).unwrap().leader_epoch, 1);

    apply_controller_command(
        &mut meta,
        ControllerCommand::MarkBrokerDead {
            broker_id: 1,
            new_assignments: vec![PartitionAssignment {
                topic: "t".to_string(),
                partition: 0,
                new_leader: 2,
                new_isr: vec![2],
                replicas: vec![1, 2],
            }],
        },
    );

    assert!(!meta.brokers.contains_key(&1));
    let pr = meta.partitions.get(&("t".to_string(), 0)).unwrap();
    assert_eq!(pr.leader, 2);
    assert_eq!(pr.isr, vec![2]);
    assert_eq!(pr.leader_epoch, 2); // bumped because leader changed
}

#[test]
fn compute_failover_assigns_correct_new_leader() {
    let mut meta = ControllerMetadata::default();
    meta.brokers.insert(1, registered_broker(1));
    meta.brokers.insert(2, registered_broker(2));
    meta.brokers.insert(3, registered_broker(3));

    apply_controller_command(
        &mut meta,
        ControllerCommand::CreateTopic {
            topic: "t".to_string(),
            num_partitions: 2,
            replication_factor: 3,
        },
    );
    // p0: led by 1, ISR [1,2,3]
    apply_controller_command(
        &mut meta,
        ControllerCommand::PartitionChange {
            topic: "t".to_string(),
            partition: 0,
            leader: 1,
            isr: vec![1, 2, 3],
            replicas: vec![1, 2, 3],
        },
    );
    // p1: led by 2 — should NOT be in the result (not led by dead broker 1)
    apply_controller_command(
        &mut meta,
        ControllerCommand::PartitionChange {
            topic: "t".to_string(),
            partition: 1,
            leader: 2,
            isr: vec![2, 3],
            replicas: vec![1, 2, 3],
        },
    );

    let assignments = compute_failover_assignments(&meta, 1);
    assert_eq!(assignments.len(), 1);
    let a = &assignments[0];
    assert_eq!(a.partition, 0);
    // ISR after removing dead broker: [2, 3]; first is new leader
    assert_eq!(a.new_leader, 2);
    assert_eq!(a.new_isr, vec![2, 3]);
}

use rust_mq::broker::controller_state_machine::apply_controller_command;
use rust_mq::broker::controller_types::{ControllerCommand, ControllerMetadata};

#[test]
fn controller_state_machine_create_topic_initializes_partitions() {
    let mut meta = ControllerMetadata::default();
    apply_controller_command(
        &mut meta,
        ControllerCommand::CreateTopic {
            topic: "events".to_string(),
            num_partitions: 3,
            replication_factor: 1,
        },
    );
    assert_eq!(meta.topics.len(), 1);
    assert_eq!(meta.partitions.len(), 3);
    assert!(meta.partitions.contains_key(&("events".to_string(), 0)));
    assert!(meta.partitions.contains_key(&("events".to_string(), 2)));
    assert_eq!(meta.topics.get(&"events".to_string()).unwrap().num_partitions, 3);
    assert_eq!(meta.topics.get(&"events".to_string()).unwrap().replication_factor, 1);
}

#[test]
fn controller_state_machine_create_topic_is_idempotent() {
    let mut meta = ControllerMetadata::default();
    for _ in 0..3 {
        apply_controller_command(
            &mut meta,
            ControllerCommand::CreateTopic {
                topic: "t".to_string(),
                num_partitions: 2,
                replication_factor: 1,
            },
        );
    }
    assert_eq!(meta.topics.len(), 1);
    assert_eq!(meta.partitions.len(), 2);
}

#[test]
fn controller_state_machine_delete_topic_removes_all_partitions() {
    let mut meta = ControllerMetadata::default();
    apply_controller_command(
        &mut meta,
        ControllerCommand::CreateTopic {
            topic: "events".to_string(),
            num_partitions: 2,
            replication_factor: 1,
        },
    );
    apply_controller_command(
        &mut meta,
        ControllerCommand::DeleteTopic {
            topic: "events".to_string(),
        },
    );
    assert!(meta.topics.is_empty());
    assert!(meta.partitions.is_empty());
}

#[test]
fn controller_state_machine_delete_unknown_topic_is_noop() {
    let mut meta = ControllerMetadata::default();
    apply_controller_command(
        &mut meta,
        ControllerCommand::DeleteTopic {
            topic: "nonexistent".to_string(),
        },
    );
    assert!(meta.topics.is_empty());
}

#[test]
fn controller_state_machine_partition_change_bumps_epoch_only_on_leader_change() {
    let mut meta = ControllerMetadata::default();
    apply_controller_command(
        &mut meta,
        ControllerCommand::CreateTopic {
            topic: "t".to_string(),
            num_partitions: 1,
            replication_factor: 3,
        },
    );

    // Assign initial leader
    apply_controller_command(
        &mut meta,
        ControllerCommand::PartitionChange {
            topic: "t".to_string(),
            partition: 0,
            leader: 1,
            isr: vec![1, 2, 3],
            replicas: vec![1, 2, 3],
        },
    );
    let p = meta.partitions.get(&("t".to_string(), 0)).unwrap();
    assert_eq!(p.leader, 1);
    assert_eq!(p.leader_epoch, 1);

    // ISR shrink, same leader — epoch must NOT bump
    apply_controller_command(
        &mut meta,
        ControllerCommand::PartitionChange {
            topic: "t".to_string(),
            partition: 0,
            leader: 1,
            isr: vec![1, 2],
            replicas: vec![1, 2, 3],
        },
    );
    let p = meta.partitions.get(&("t".to_string(), 0)).unwrap();
    assert_eq!(p.leader_epoch, 1);
    assert_eq!(p.isr, vec![1, 2]);

    // Leader failover — epoch bumps
    apply_controller_command(
        &mut meta,
        ControllerCommand::PartitionChange {
            topic: "t".to_string(),
            partition: 0,
            leader: 2,
            isr: vec![2, 3],
            replicas: vec![1, 2, 3],
        },
    );
    let p = meta.partitions.get(&("t".to_string(), 0)).unwrap();
    assert_eq!(p.leader, 2);
    assert_eq!(p.leader_epoch, 2);
}

#[test]
fn controller_state_machine_register_and_unregister_broker() {
    let mut meta = ControllerMetadata::default();
    apply_controller_command(
        &mut meta,
        ControllerCommand::RegisterBroker {
            broker_id: 1,
            api_addr: "127.0.0.1:9092".to_string(),
            rpc_addr: "127.0.0.1:9093".to_string(),
        },
    );
    assert_eq!(meta.brokers.len(), 1);
    assert_eq!(meta.brokers.get(&1).unwrap().api_addr, "127.0.0.1:9092");

    apply_controller_command(
        &mut meta,
        ControllerCommand::UnregisterBroker { broker_id: 1 },
    );
    assert!(meta.brokers.is_empty());
}

#[test]
fn controller_state_machine_bump_controller_epoch() {
    let mut meta = ControllerMetadata::default();
    assert_eq!(meta.controller_epoch, 0);
    apply_controller_command(&mut meta, ControllerCommand::BumpControllerEpoch);
    apply_controller_command(&mut meta, ControllerCommand::BumpControllerEpoch);
    assert_eq!(meta.controller_epoch, 2);
}

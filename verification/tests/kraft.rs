use rust_mq::broker::controller::state_machine::apply_controller_command;
use rust_mq::broker::controller::types::{BrokerRegistration, ControllerCommand, ControllerMetadata};
use rust_mq::broker::error::BrokerError;
use rust_mq::broker::kraft::broker::{fetching_replica, judge_ack, AckStep, KRaftBroker};
use rust_mq::broker::kraft::isr_manager::IsrManager;
use rust_mq::broker::kraft::replication_manager::{
    handle_fetch, next_fetch_offset, FetchResult, FetchedRecord, ReplicationManager,
};
use rust_mq::broker::partition_log::PartitionLog;
use rust_mq::maps::VecMap;

const NOW: i64 = 1_000_000;

fn temp_log() -> PartitionLog {
    PartitionLog::open(Vec::new(), None, None)
}

fn t() -> String {
    "t".to_string()
}

fn log_with(n: usize) -> VecMap<(String, i32), PartitionLog> {
    let mut log = temp_log();
    for _ in 0..n {
        log.append(None, b"v".to_vec(), NOW);
    }
    let mut logs = VecMap::new();
    logs.insert((t(), 0), log);
    logs
}

fn add(mgr: &mut IsrManager, logs: &VecMap<(String, i32), PartitionLog>, replicas: Vec<u64>, isr: Vec<u64>) {
    mgr.add_partition(t(), 0, replicas, isr, logs.get(&(t(), 0)).unwrap(), NOW);
}

fn watermark(logs: &VecMap<(String, i32), PartitionLog>) -> i64 {
    logs.get(&(t(), 0)).unwrap().high_watermark()
}

#[test]
fn single_node_hw_advances_with_leo() {
    let mut mgr = IsrManager::new(1, 1000, 30_000);
    // HW still 0 until tick runs.
    let mut logs = log_with(3);
    add(&mut mgr, &logs, vec![1], vec![1]);

    let changes = mgr.tick(&mut logs, NOW);
    assert_eq!(changes.len(), 1);
    assert_eq!(changes[0].new_hw, 3);
    assert_eq!(changes[0].new_isr, vec![1]);
    assert_eq!(watermark(&logs), 3);
}

#[test]
fn follower_progress_advances_hw() {
    let mut mgr = IsrManager::new(1, 1000, 30_000);
    let mut logs = log_with(2);
    add(&mut mgr, &logs, vec![1, 2], vec![1, 2]);

    // Follower 2 has fetched offset 2 (caught up).
    mgr.record_fetch_progress(&t(), 0, 2, 2, NOW);

    let changes = mgr.tick(&mut logs, NOW);
    assert_eq!(changes.len(), 1);
    assert_eq!(changes[0].new_hw, 2);
    assert_eq!(watermark(&logs), 2);
}

#[test]
fn lagging_follower_leaves_isr() {
    // lag_max = 2, stale_ms = 60s
    let mut mgr = IsrManager::new(1, 2, 60_000);
    // Append 10 messages; follower only at offset 0 (10 behind)
    let mut logs = log_with(10);
    add(&mut mgr, &logs, vec![1, 2], vec![1, 2]);
    // Record follower 2 at offset 0 (lag = 10 > lag_max 2)
    mgr.record_fetch_progress(&t(), 0, 2, 0, NOW);

    let changes = mgr.tick(&mut logs, NOW);
    assert_eq!(changes.len(), 1);
    // Follower 2 must have been removed from ISR
    assert_eq!(changes[0].new_isr, vec![1]);
}

#[test]
fn caught_up_follower_rejoins_isr() {
    let mut mgr = IsrManager::new(1, 2, 60_000);
    let mut logs = log_with(5);
    add(&mut mgr, &logs, vec![1, 2], vec![1]);

    // Follower 2 catches up to LEO = 5
    mgr.record_fetch_progress(&t(), 0, 2, 5, NOW);

    let changes = mgr.tick(&mut logs, NOW);
    let change = changes.iter().find(|c| c.topic == "t").unwrap();
    assert!(change.new_isr.contains(&2), "follower 2 should rejoin ISR");
}

#[test]
fn reported_watermark_does_not_fall_when_a_slower_replica_comes_into_sync() {
    let mut mgr = IsrManager::new(1, 10, 60_000);
    let mut logs = log_with(5);
    add(&mut mgr, &logs, vec![1, 2], vec![1]);
    mgr.tick(&mut logs, NOW);
    assert_eq!(watermark(&logs), 5);
    mgr.record_fetch_progress(&t(), 0, 2, 3, NOW);

    let changes = mgr.tick(&mut logs, NOW);
    assert_eq!(changes.len(), 1);
    assert_eq!(changes[0].new_isr, vec![1, 2]);
    assert_eq!(changes[0].new_hw, 5);
    assert_eq!(watermark(&logs), 5);
}

#[test]
fn hw_does_not_advance_beyond_slowest_isr_member() {
    let mut mgr = IsrManager::new(1, 100, 60_000);
    let mut logs = log_with(10);
    add(&mut mgr, &logs, vec![1, 2, 3], vec![1, 2, 3]);

    // Follower 2 at 7, follower 3 at 4
    mgr.record_fetch_progress(&t(), 0, 2, 7, NOW);
    mgr.record_fetch_progress(&t(), 0, 3, 4, NOW);

    let changes = mgr.tick(&mut logs, NOW);
    let change = changes.iter().find(|c| c.topic == "t").unwrap();
    // HW = min(10, 7, 4) = 4
    assert_eq!(change.new_hw, 4);
    assert_eq!(watermark(&logs), 4);
}

#[test]
fn no_change_emitted_when_isr_and_hw_are_stable() {
    let mut mgr = IsrManager::new(1, 1000, 60_000);
    let mut logs = log_with(1);
    add(&mut mgr, &logs, vec![1], vec![1]);

    // First tick advances HW → change emitted.
    let c1 = mgr.tick(&mut logs, NOW);
    assert_eq!(c1.len(), 1);

    // Second tick: nothing changed.
    let c2 = mgr.tick(&mut logs, NOW);
    assert!(c2.is_empty(), "no change expected on stable partition");
}

#[test]
fn silent_follower_leaves_isr_and_removed_partitions_are_ignored() {
    let mut mgr = IsrManager::new(1, 100, 1_000);
    let mut logs = log_with(4);
    add(&mut mgr, &logs, vec![1, 2], vec![1, 2]);
    mgr.record_fetch_progress(&t(), 0, 2, 4, NOW);
    mgr.tick(&mut logs, NOW);
    let changes = mgr.tick(&mut logs, NOW + 1_001);
    assert_eq!(changes[0].new_isr, vec![1]);
    mgr.remove_partition(&t(), 0);
    assert!(mgr.tick(&mut logs, NOW + 5_000).is_empty());
}

/// Serves records one at a time, as a leader with all of them committed would.
fn serve(records: &[&[u8]], fetch_offset: i64) -> FetchResult {
    let leader_hw = records.len() as i64;
    let records = records
        .get(fetch_offset as usize)
        .map(|v| vec![FetchedRecord { key: None, value: v.to_vec() }])
        .unwrap_or_default();
    FetchResult { records, leader_hw }
}

fn run_fetches(log: &mut PartitionLog, records: &[&[u8]]) {
    for _ in 0..50 {
        let fetched = serve(records, next_fetch_offset(log));
        if handle_fetch(log, Some(fetched), NOW) > 0 {
            break;
        }
    }
}

#[test]
fn fetch_task_replicates_records_to_log() {
    let mut mgr = ReplicationManager::new();
    let mut log = temp_log();

    mgr.start_fetch_task(t(), 0);
    run_fetches(&mut log, &[b"m0", b"m1", b"m2"]);

    assert_eq!(log.log_end_offset(), 3);
    assert_eq!(log.high_watermark(), 3);

    mgr.stop_fetch_task(&t(), 0);
    assert_eq!(mgr.active_task_count(), 0);
}

#[test]
fn start_fetch_task_replaces_existing_task() {
    let mut mgr = ReplicationManager::new();

    assert!(!mgr.start_fetch_task(t(), 0));
    assert_eq!(mgr.active_task_count(), 1);

    // Replace with a new fetcher for the same partition.
    assert!(mgr.start_fetch_task(t(), 0));
    // Still exactly one task for (t, 0).
    assert_eq!(mgr.active_task_count(), 1);

    assert_eq!(mgr.stop_all(), vec![(t(), 0)]);
    assert_eq!(mgr.active_task_count(), 0);
}

#[test]
fn multiple_partitions_run_independently() {
    let mut mgr = ReplicationManager::new();
    let mut log0 = temp_log();
    let mut log1 = temp_log();

    mgr.start_fetch_task(t(), 0);
    mgr.start_fetch_task(t(), 1);

    assert_eq!(mgr.active_task_count(), 2);

    run_fetches(&mut log0, &[b"a", b"b"]);
    run_fetches(&mut log1, &[b"c"]);
    assert_eq!(log0.log_end_offset(), 2);
    assert_eq!(log1.log_end_offset(), 1);

    mgr.stop_fetch_task(&t(), 0);
    assert_eq!(mgr.active_task_count(), 1);

    mgr.stop_all();
    assert_eq!(mgr.active_task_count(), 0);
}

#[test]
fn failed_fetch_waits_and_changes_nothing() {
    let mut log = temp_log();
    let wait = handle_fetch(&mut log, None, NOW);
    assert!(wait > handle_fetch(&mut temp_log(), Some(serve(&[], 0)), NOW));
    assert_eq!(log.log_end_offset(), 0);
}

fn seeded(node_id: u64, topic: &str, num_partitions: i32) -> ControllerMetadata {
    let mut meta = ControllerMetadata::default();
    apply_controller_command(
        &mut meta,
        ControllerCommand::CreateTopic { topic: topic.to_string(), num_partitions, replication_factor: 1 },
    );
    for p in 0..num_partitions {
        apply_controller_command(
            &mut meta,
            ControllerCommand::PartitionChange {
                topic: topic.to_string(),
                partition: p,
                leader: node_id,
                isr: vec![node_id],
                replicas: vec![node_id],
            },
        );
    }
    apply_controller_command(
        &mut meta,
        ControllerCommand::RegisterBroker {
            broker_id: node_id,
            api_addr: "127.0.0.1:9092".to_string(),
            rpc_addr: "127.0.0.1:9093".to_string(),
        },
    );
    meta
}

fn make_broker_on(meta: &ControllerMetadata, replication_factor: u16) -> KRaftBroker {
    KRaftBroker::new(1, "127.0.0.1:9092".to_string(), meta, VecMap::new(), 30_000, 1_000, replication_factor)
}

fn make_broker() -> (KRaftBroker, ControllerMetadata) {
    let meta = ControllerMetadata::default();
    (make_broker_on(&meta, 1), meta)
}

fn make_broker_with_topic(topic: &str, num_partitions: i32) -> (KRaftBroker, ControllerMetadata) {
    let meta = seeded(1, topic, num_partitions);
    (make_broker_on(&meta, 1), meta)
}

fn create_topic(broker: &mut KRaftBroker, meta: &mut ControllerMetadata, topic: &str, n: i32) -> Result<(), BrokerError> {
    let topic = topic.to_string();
    for command in broker.create_topic_commands(meta, &topic, n, true)? {
        apply_controller_command(meta, command);
    }
    broker.topic_created(meta, &topic, n, NOW);
    Ok(())
}

#[test]
fn create_topic_and_list() {
    let (mut broker, mut meta) = make_broker();
    create_topic(&mut broker, &mut meta, "events", 3).unwrap();
    let topics = broker.get_topics(&meta);
    assert!(topics.contains(&"events".to_string()));
    let partitions = broker.get_topic_partitions(&meta, &"events".to_string()).unwrap();
    assert_eq!(partitions, vec![0, 1, 2]);
}

#[test]
fn create_topic_rejects_invalid_name() {
    let (mut broker, mut meta) = make_broker();
    let err = create_topic(&mut broker, &mut meta, "bad:name", 1).unwrap_err();
    assert!(matches!(err, BrokerError::Validation(_)));
}

#[test]
fn create_topic_rejects_zero_partitions() {
    let (mut broker, mut meta) = make_broker();
    let err = create_topic(&mut broker, &mut meta, "t", 0).unwrap_err();
    assert!(matches!(err, BrokerError::Validation(_)));
}

fn register(meta: &mut ControllerMetadata, id: u64) {
    meta.brokers.insert(
        id,
        BrokerRegistration {
            broker_id: id,
            api_addr: format!("127.0.0.1:{}", 9000 + id),
            rpc_addr: format!("127.0.0.1:{}", 9100 + id),
            last_seen_ms: 0,
        },
    );
}

#[test]
fn create_topic_round_robin_assignment() {
    let mut meta = ControllerMetadata::default();
    for id in [1u64, 2, 3] {
        register(&mut meta, id);
    }
    // replication_factor = 2
    let mut broker = make_broker_on(&meta, 2);

    create_topic(&mut broker, &mut meta, "t", 6).unwrap();

    let expected_leaders = [1u64, 2, 3, 1, 2, 3];
    let expected_replicas: &[&[u64]] = &[&[1, 2], &[2, 3], &[3, 1], &[1, 2], &[2, 3], &[3, 1]];
    for p in 0..6i32 {
        let pr = meta.partitions.get(&(t(), p)).unwrap();
        assert_eq!(pr.leader, expected_leaders[p as usize], "p{} leader", p);
        assert_eq!(&pr.replicas, expected_replicas[p as usize], "p{} replicas", p);
        assert_eq!(&pr.isr, expected_replicas[p as usize], "p{} isr", p);
    }
}

#[test]
fn create_topic_rf_clamped_to_broker_count() {
    let mut meta = ControllerMetadata::default();
    for id in [1u64, 2] {
        register(&mut meta, id);
    }
    // rf=3 > 2 brokers → clamped to 2
    let mut broker = make_broker_on(&meta, 3);

    create_topic(&mut broker, &mut meta, "t", 2).unwrap();

    for p in 0..2i32 {
        let pr = meta.partitions.get(&(t(), p)).unwrap();
        assert_eq!(pr.replicas.len(), 2, "p{} should have 2 replicas", p);
    }
}

#[test]
fn produce_and_fetch_basic() {
    let (mut broker, meta) = make_broker_with_topic("t", 1);
    broker.on_became_leader(&t(), 0, vec![1], NOW);

    let off0 = broker.produce_message(&meta, &t(), 0, None, b"hello".to_vec(), NOW).unwrap();
    let off1 = broker.produce_message(&meta, &t(), 0, None, b"world".to_vec(), NOW).unwrap();
    assert_eq!(off0, 0);
    assert_eq!(off1, 1);

    // Advance HW so fetch can see the messages
    broker.tick(NOW);

    let msgs = broker.fetch_messages(&t(), 0, 0, 65536).unwrap();
    assert_eq!(msgs.len(), 2);
    assert_eq!(msgs[0].value, b"hello");
    assert_eq!(msgs[1].value, b"world");
}

#[test]
fn produce_to_non_leader_returns_not_leader() {
    let mut meta = ControllerMetadata::default();
    apply_controller_command(
        &mut meta,
        ControllerCommand::CreateTopic { topic: t(), num_partitions: 1, replication_factor: 2 },
    );
    apply_controller_command(
        &mut meta,
        ControllerCommand::PartitionChange {
            topic: t(),
            partition: 0,
            leader: 2,
            isr: vec![2],
            replicas: vec![1, 2],
        },
    );
    meta.brokers.insert(
        2,
        BrokerRegistration {
            broker_id: 2,
            api_addr: "127.0.0.1:9094".to_string(),
            rpc_addr: "127.0.0.1:9095".to_string(),
            last_seen_ms: 0,
        },
    );
    let mut broker = make_broker_on(&meta, 1);

    let err = broker.produce_message(&meta, &t(), 0, None, b"x".to_vec(), NOW).unwrap_err();
    match err {
        BrokerError::NotLeader { leader_addr: Some(addr) } => {
            assert_eq!(addr, "127.0.0.1:9094");
        }
        other => panic!("expected NotLeader, got {other:?}"),
    }
}

#[test]
fn offsets_are_sequential_after_topic_creation() {
    let (mut broker, mut meta) = make_broker();
    create_topic(&mut broker, &mut meta, "seq", 1).unwrap();

    for i in 0..5u8 {
        let off = broker.produce_message(&meta, &"seq".to_string(), 0, None, vec![i], NOW).unwrap();
        assert_eq!(off, i as i64);
    }
}

#[test]
fn get_partition_offset_latest_equals_leo() {
    let (mut broker, meta) = make_broker_with_topic("t", 1);
    broker.on_became_leader(&t(), 0, vec![1], NOW);

    broker.produce_message(&meta, &t(), 0, None, b"a".to_vec(), NOW).unwrap();
    broker.produce_message(&meta, &t(), 0, None, b"b".to_vec(), NOW).unwrap();

    let latest = broker.get_partition_offset(&t(), 0, -1).unwrap();
    assert_eq!(latest, vec![2]);
}

#[test]
fn get_partition_offset_earliest_returns_first() {
    let (mut broker, meta) = make_broker_with_topic("t", 1);
    broker.on_became_leader(&t(), 0, vec![1], NOW);

    broker.produce_message(&meta, &t(), 0, None, b"a".to_vec(), NOW).unwrap();

    let earliest = broker.get_partition_offset(&t(), 0, -2).unwrap();
    assert_eq!(earliest, vec![0]);
}

#[test]
fn commit_and_fetch_offset() {
    let (mut broker, _) = make_broker();
    broker.commit_offset(&"grp".to_string(), &t(), 0, 42, "meta".to_string()).unwrap();
    let (off, meta) = broker.fetch_offset(&"grp".to_string(), &t(), 0).unwrap();
    assert_eq!(off, 42);
    assert_eq!(meta, "meta");
}

#[test]
fn fetch_offset_returns_minus_one_when_none() {
    let (broker, _) = make_broker();
    let (off, _) = broker.fetch_offset(&"grp".to_string(), &t(), 0).unwrap();
    assert_eq!(off, -1);
}

#[test]
fn join_group_delegates_to_coordinator() {
    let (mut broker, _) = make_broker_with_topic("t", 2);
    let (gen, leader, member_id, members) =
        broker.join_group(&"g1".to_string(), &"m1".to_string(), b"t", 30_000, NOW).unwrap();
    assert_eq!(gen, 0);
    assert_eq!(leader, "m1");
    assert_eq!(member_id, "m1");
    assert_eq!(members.len(), 1);
}

#[test]
fn get_cluster_metadata_reflects_brokers() {
    let mut meta = ControllerMetadata::default();
    apply_controller_command(
        &mut meta,
        ControllerCommand::RegisterBroker {
            broker_id: 1,
            api_addr: "127.0.0.1:9092".to_string(),
            rpc_addr: "127.0.0.1:9093".to_string(),
        },
    );
    apply_controller_command(
        &mut meta,
        ControllerCommand::RegisterBroker {
            broker_id: 2,
            api_addr: "127.0.0.1:9094".to_string(),
            rpc_addr: "127.0.0.1:9095".to_string(),
        },
    );
    let broker = make_broker_on(&meta, 1);

    let shown = broker.get_cluster_metadata(&meta, 1);
    assert_eq!(shown.brokers.len(), 2);
    assert_eq!(shown.leader_id, 1);
}

#[test]
fn produce_acks_all_single_replica_resolves_immediately() {
    let (mut broker, meta) = make_broker_with_topic("t", 1);
    broker.on_became_leader(&t(), 0, vec![1], NOW);
    broker.tick(NOW);

    let (offset, step) = broker.produce_message_acks_all(&meta, &t(), 0, None, b"hello".to_vec(), NOW).unwrap();
    assert_eq!(offset, 0);
    assert!(matches!(step, AckStep::Done(0)));
    assert!(broker.is_acknowledged(&t(), 0, offset));

    assert!(broker.partition_log(&t(), 0).unwrap().high_watermark() >= 1);
}

#[test]
fn produce_acks_all_waits_for_hw_advance() {
    let (mut broker, meta) = make_broker_with_topic("t", 1);
    broker.on_became_leader(&t(), 0, vec![1], NOW);

    let (offset, _) = broker.produce_message_acks_all(&meta, &t(), 0, None, b"msg".to_vec(), NOW).unwrap();
    assert_eq!(offset, 0);

    broker.tick(NOW + 50);
    let acknowledged = broker.is_acknowledged(&t(), 0, offset);
    assert!(acknowledged);
    assert!(matches!(judge_ack(acknowledged, 50, offset), AckStep::Done(0)));
}

#[test]
fn producer_waits_five_seconds_for_all_replicas() {
    assert!(matches!(judge_ack(true, 0, 7), AckStep::Done(7)));
    assert!(matches!(judge_ack(true, 60_000, 7), AckStep::Done(7)));
    assert!(matches!(judge_ack(false, 0, 7), AckStep::Wait));
    assert!(matches!(judge_ack(false, 4_999, 7), AckStep::Wait));
    match judge_ack(false, 5_000, 7) {
        AckStep::Failed(e) => {
            assert!(matches!(e, BrokerError::Internal(_)));
            assert_eq!(e.to_string(), "acks=all timeout: replication did not complete within 5 s");
        }
        other => panic!("{:?}", other),
    }
}

#[test]
fn refused_message_is_not_waited_for() {
    let (mut broker, meta) = make_broker_with_topic("t", 1);
    let refused = broker.produce_message_acks_all(&meta, &t(), 9, None, b"msg".to_vec(), NOW);
    assert!(matches!(refused, Err(BrokerError::NotFound(_))));
    assert!(broker.partition_log(&t(), 9).is_none());
}

#[test]
fn replicas_name_themselves_when_they_fetch() {
    assert_eq!(fetching_replica(2), Some(2));
    assert_eq!(fetching_replica(0), None);
    assert_eq!(fetching_replica(-1), None);
}

#[test]
fn message_is_acknowledged_when_all_replicas_have_it() {
    let mut meta = seeded(1, "t", 1);
    apply_controller_command(
        &mut meta,
        ControllerCommand::PartitionChange {
            topic: t(),
            partition: 0,
            leader: 1,
            isr: vec![1, 2],
            replicas: vec![1, 2],
        },
    );
    let mut broker = make_broker_on(&meta, 1);
    broker.on_became_leader(&t(), 0, vec![1, 2], NOW);

    let (offset, step) = broker.produce_message_acks_all(&meta, &t(), 0, None, b"msg".to_vec(), NOW).unwrap();
    assert!(matches!(step, AckStep::Wait));
    broker.record_replica_fetch(&t(), 0, 2, 0, NOW);
    broker.tick(NOW);
    assert!(!broker.is_acknowledged(&t(), 0, offset));
    assert!(broker.fetch_messages(&t(), 0, 0, 100).unwrap().is_empty());

    broker.record_replica_fetch(&t(), 0, 2, 1, NOW);
    broker.tick(NOW);
    assert!(broker.is_acknowledged(&t(), 0, offset));
    assert_eq!(broker.fetch_messages(&t(), 0, 0, 100).unwrap().len(), 1);
}

#[test]
fn groups_of_a_broker_sync_beat_and_leave() {
    let (mut broker, _) = make_broker_with_topic("t", 2);
    let group = "g1".to_string();
    let member = "m1".to_string();
    broker.join_group(&group, &member, b"t", 30_000, NOW).unwrap();
    let assigned: Vec<i32> = bincode::deserialize(&broker.sync_group(&group, &member).unwrap()).unwrap();
    assert_eq!(assigned, vec![0, 1]);
    assert!(broker.heartbeat(&group, &member, NOW).is_ok());
    assert!(broker.leave_group(&group, &member, NOW).is_ok());
    assert!(broker.heartbeat(&group, &member, NOW).is_err());
    assert_eq!(broker.get_coordinator_info(), (1, "127.0.0.1".to_string(), 9092));
    assert!(broker.fetch_messages(&"none".to_string(), 0, 0, 100).unwrap().is_empty());
    assert_eq!(broker.get_partition_offset(&"none".to_string(), 0, -1).unwrap(), vec![0]);
}

#[test]
fn follower_takes_over_what_the_leader_hands_out() {
    let (mut broker, _) = make_broker_with_topic("t", 1);
    let fetched = FetchResult {
        records: vec![
            FetchedRecord { key: Some(b"k".to_vec()), value: b"one".to_vec() },
            FetchedRecord { key: None, value: b"two".to_vec() },
        ],
        leader_hw: 1,
    };
    assert_eq!(broker.follow(&t(), 0, Some(fetched), NOW), 0);
    let log = broker.partition_log(&t(), 0).unwrap();
    assert_eq!((log.log_end_offset(), log.high_watermark()), (2, 1));
    let read = broker.fetch_messages(&t(), 0, 0, 100).unwrap();
    assert_eq!(read.len(), 1);
    assert_eq!((read[0].key.as_deref(), read[0].value.as_slice()), (Some(&b"k"[..]), &b"one"[..]));

    let nothing = FetchResult { records: Vec::new(), leader_hw: 2 };
    assert_eq!(broker.follow(&t(), 0, Some(nothing), NOW), 50);
    assert_eq!(broker.follow(&t(), 0, None, NOW), 500);
    assert_eq!(broker.partition_log(&t(), 0).unwrap().high_watermark(), 1);
    assert_eq!(broker.follow(&"new".to_string(), 7, None, NOW), 500);
    assert_eq!(broker.partition_log(&"new".to_string(), 7).unwrap().log_end_offset(), 0);
}

#[test]
fn broker_strikes_off_silent_members() {
    let (mut broker, _) = make_broker_with_topic("t", 1);
    let group = "g1".to_string();
    let member = "m1".to_string();
    broker.join_group(&group, &member, b"t", 1_000, NOW).unwrap();
    broker.check_liveness(NOW + 1_000);
    assert!(broker.heartbeat(&group, &member, NOW + 1_000).is_ok());
    broker.check_liveness(NOW + 2_001);
    assert!(broker.heartbeat(&group, &member, NOW + 2_001).is_err());
}

#[test]
fn restored_log_is_read_and_continued() {
    let (mut broker, meta) = make_broker_with_topic("t", 1);
    let mut log = temp_log();
    log.append(None, b"old".to_vec(), NOW);
    log.advance_hw(1);
    broker.restore_partition_log(&t(), 0, log);
    assert_eq!(broker.produce_message(&meta, &t(), 0, None, b"new".to_vec(), NOW).unwrap(), 1);
    let values: Vec<Vec<u8>> =
        broker.fetch_messages(&t(), 0, 0, 100).unwrap().into_iter().map(|m| m.value).collect();
    assert_eq!(values, vec![b"old".to_vec(), b"new".to_vec()]);
}

#[test]
fn other_broker_creates_a_topic_without_placing_it() {
    let (_, meta) = make_broker();
    let broker = make_broker_on(&meta, 0);
    let commands = broker.create_topic_commands(&meta, &t(), 3, false).unwrap();
    assert_eq!(commands.len(), 1);
    assert!(matches!(
        &commands[0],
        ControllerCommand::CreateTopic { num_partitions: 3, replication_factor: 0, .. }
    ));
}

#[test]
fn new_leader_replaces_the_copying_of_a_partition() {
    let mut manager = ReplicationManager::default();
    assert!(!manager.start_fetch_task(t(), 0));
    assert!(manager.update_leader(t(), 0));
    assert!(!manager.update_leader(t(), 1));
    assert_eq!(manager.active_task_count(), 2);
}

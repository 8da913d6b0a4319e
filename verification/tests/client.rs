use std::collections::hash_map::DefaultHasher;
use std::collections::HashSet;
use std::hash::{Hash, Hasher};

use rust_mq::api::broker::{
    FetchPartitionResult, FetchResponse, FetchTopicResult, FetchedRecord, JoinGroupResponse, ListOffsetsResponse,
    ListOffsetsTopicResult, MetadataBroker, OffsetFetchPartitionResult, OffsetFetchResponse, OffsetFetchTopicResult,
    PartitionMetadata, PartitionOffsets, ProducePartitionResult, ProduceResponse, ProduceTopicResult,
    SyncGroupResponse, TopicMetadata, TopicMetadataResponse,
};
use rust_mq::client::config::{broker_address, AppConfig, ConsumerConfig, ProducerConfig};
use rust_mq::client::console::{line_message, log_level, print_line};
use rust_mq::client::consumer::{
    reassign_offsets, resolve_committed, resolve_listed, resolve_partition_offset, take_messages, ConsumedMessage,
    Consumer, PollStep, ResolveStep, ShutdownStep,
};
use rust_mq::client::group_coordinator::{uuid_simple, CoordError, CoordSignal, GroupSession, GrpcConsumerGroupCoordinator};
use rust_mq::client::joining::{read_assignment, JoinFailure, Joining, JoiningStep};
use rust_mq::client::metadata_cache::{strip_scheme, MetadataCache};
use rust_mq::client::producer::{judge_batch, judge_retry, judge_single, BatchStep, Producer, ProducerMessage};
use rust_mq::client::runtime::ConsumerBuilder;
use rust_mq::maps::VecMap;

#[test]
fn test_default_configs() {
    let producer_config = AppConfig::default_producer("test-topic".to_string());
    assert_eq!(producer_config.producer.unwrap().topic, "test-topic");

    let consumer_config = AppConfig::default_consumer("test-topic".to_string(), Some("group1".to_string()));
    assert_eq!(consumer_config.consumer.unwrap().topic, "test-topic");
}

#[test]
fn configuration_without_topic_is_refused() {
    let producer = AppConfig::default_producer(String::new());
    assert_eq!(producer.validate().unwrap_err(), "Producer topic cannot be empty");
    let consumer = AppConfig::default_consumer(String::new(), None);
    assert_eq!(consumer.validate().unwrap_err(), "Consumer topic cannot be empty");
    let fine = AppConfig::default_producer("t".to_string());
    assert!(fine.validate().is_ok());
    assert_eq!(broker_address(&None, &fine), "http://localhost:50051");
    assert_eq!(broker_address(&Some("http://other:1".to_string()), &fine), "http://other:1");
}

#[test]
fn test_consumed_message() {
    let msg = ConsumedMessage {
        topic: "test".to_string(),
        partition: 0,
        offset: 100,
        key: None,
        value: b"hello".to_vec(),
        timestamp: None,
    };
    assert_eq!(msg.value_as_string().unwrap(), "hello");
    assert_eq!(msg.offset, 100);
}

#[test]
fn value_that_is_no_text_is_refused() {
    let msg = consumed(0, 1, vec![0xff, 0xfe]);
    assert_eq!(msg.value_as_string().unwrap_err(), "Failed to convert message value to string");
    assert_eq!(print_line(&msg), "[t:0:1] <binary data: 2 bytes>");
    assert_eq!(print_line(&consumed(3, 7, b"hi".to_vec())), "[t:3:7] hi");
}

fn consumed(partition: i32, offset: i64, value: Vec<u8>) -> ConsumedMessage {
    ConsumedMessage { topic: "t".to_string(), partition, offset, key: None, value, timestamp: None }
}

#[test]
fn input_lines_become_messages() {
    assert_eq!(line_message(&"  hello world \n".to_string()).unwrap().value, b"hello world".to_vec());
    assert!(line_message(&" \t\n".to_string()).is_none());
    assert_eq!(log_level(true, Some("debug".to_string())), "debug");
    assert_eq!(log_level(false, Some("debug".to_string())), "info");
    assert_eq!(log_level(true, None), "info");
}

#[test]
fn test_uuid_simple_uniqueness() {
    let ids: Vec<String> = (0..10).map(|count| uuid_simple(1_700_000_000, 5, 42, count)).collect();
    // All IDs must be distinct
    let unique: HashSet<_> = ids.iter().collect();
    assert_eq!(unique.len(), 10, "uuid_simple should produce unique IDs");
    assert_eq!(ids[3], "1700000000-5-42-3");
}

#[test]
fn test_partition_offsets_retain_on_rejoin() {
    // Offsets for unassigned partitions must be dropped, existing ones preserved.
    let mut offsets: VecMap<i32, i64> = VecMap::new();
    offsets.insert(0, 100);
    offsets.insert(1, 200);
    offsets.insert(2, 300);

    let new_partitions = vec![0i32, 2i32]; // partition 1 was reassigned away
    let offsets = reassign_offsets(&offsets, &new_partitions, &VecMap::new());

    assert_eq!(offsets.len(), 2);
    assert_eq!(*offsets.get(&0).unwrap(), 100);
    assert_eq!(*offsets.get(&2).unwrap(), 300);
    assert!(!offsets.contains_key(&1));
}

#[test]
fn test_partition_offsets_new_partition_added_on_rejoin() {
    // After rejoin, newly assigned partitions start from offset 0 if not seen before.
    let mut offsets: VecMap<i32, i64> = VecMap::new();
    offsets.insert(0, 50);

    // Partition 3 is newly assigned, and was found to start at 0.
    let new_partitions = vec![0i32, 3i32];
    let mut found: VecMap<i32, i64> = VecMap::new();
    found.insert(3, 0);
    let offsets = reassign_offsets(&offsets, &new_partitions, &found);

    assert_eq!(*offsets.get(&0).unwrap(), 50, "existing offset must be preserved");
    assert_eq!(*offsets.get(&3).unwrap(), 0, "new partition starts at 0");
}

fn consumer_config(group: Option<&str>) -> ConsumerConfig {
    let mut config = AppConfig::default_consumer("t".to_string(), group.map(|g| g.to_string())).consumer.unwrap();
    config.partitions = vec![0, 1];
    config
}

#[test]
fn test_seek_updates_specific_partition_offset() {
    let mut consumer = Consumer::new(consumer_config(None));
    consumer.resolved(&vec![100i64, 200i64]);

    // Seek partition 1 back to 50
    consumer.seek(1, 50);

    let snapshot = consumer.current_offsets();
    assert_eq!(*snapshot.get(&0).unwrap(), 100, "partition 0 offset must be unchanged");
    assert_eq!(*snapshot.get(&1).unwrap(), 50, "partition 1 must reflect seek");
    assert_eq!(consumer.current_offset(), 50);
    let request = consumer.poll();
    assert_eq!(request.topics[0].partitions[0].fetch_offset, 100);
    assert_eq!(request.topics[0].partitions[1].fetch_offset, 50);
}

#[test]
fn lowest_offset_without_offsets_is_zero() {
    let consumer = Consumer::new(consumer_config(None));
    assert_eq!(consumer.current_offset(), 0);
    assert!(consumer.needs_offsets());
}

fn fetched(partition: i32, error_code: i32, offsets: &[i64]) -> FetchPartitionResult {
    FetchPartitionResult {
        partition,
        error_code,
        high_watermark_offset: 0,
        records: offsets
            .iter()
            .map(|&offset| FetchedRecord { offset, key: None, value: format!("m{offset}").into_bytes() })
            .collect(),
    }
}

fn fetch_response(partitions: Vec<FetchPartitionResult>) -> FetchResponse {
    FetchResponse { topics: vec![FetchTopicResult { topic_name: "t".to_string(), partitions }] }
}

#[test]
fn polling_takes_the_first_messages_of_sound_partitions() {
    let mut config = consumer_config(None);
    config.max_messages_per_poll = 3;
    let response = fetch_response(vec![fetched(0, 1, &[1, 2]), fetched(1, 0, &[4, 5]), fetched(2, 0, &[6, 7])]);
    let messages = take_messages(&config, response);
    let seen: Vec<(i32, i64)> = messages.iter().map(|m| (m.partition, m.offset)).collect();
    assert_eq!(seen, vec![(1, 4), (1, 5), (2, 6)]);
    config.max_messages_per_poll = 0;
    assert_eq!(take_messages(&config, fetch_response(vec![fetched(0, 0, &[1, 2])])).len(), 1);
}

#[test]
fn polling_goes_on_behind_the_messages() {
    let mut consumer = Consumer::new(consumer_config(None));
    consumer.resolved(&vec![0i64, 0i64]);
    let messages = consumer.polled(fetch_response(vec![fetched(0, 0, &[3, 4]), fetched(1, 0, &[9])]));
    assert_eq!(messages.len(), 3);
    assert_eq!(*consumer.current_offsets().get(&0).unwrap(), 5);
    assert_eq!(*consumer.current_offsets().get(&1).unwrap(), 10);
}

#[test]
fn handled_messages_never_take_the_consumer_back() {
    let mut consumer = Consumer::new(consumer_config(None));
    consumer.resolved(&vec![10i64, 0i64]);
    consumer.handled(0, 3);
    assert_eq!(*consumer.current_offsets().get(&0).unwrap(), 10);
    consumer.handled(0, 12);
    consumer.handled(0, 12);
    assert_eq!(*consumer.current_offsets().get(&0).unwrap(), 13);
    consumer.handled(7, 1);
    assert_eq!(*consumer.current_offsets().get(&7).unwrap(), 2);
}

#[test]
fn consumer_of_a_group_starts_rejoins_and_stops() {
    let mut consumer = Consumer::new(consumer_config(Some("g")));
    assert!(consumer.heartbeat_request().is_none());
    assert_eq!(consumer.start().unwrap(), Some("g".to_string()));
    assert_eq!(consumer.start().unwrap_err(), "Consumer is already running");
    consumer.joined(vec![4, 5], "member".to_string(), 2);
    assert_eq!(consumer.partitions(), vec![4, 5]);
    consumer.resolved(&vec![40i64, 50i64]);
    consumer.started();
    let beat = consumer.heartbeat_request().unwrap();
    assert_eq!((beat.member_id.as_str(), beat.generation_id), ("member", 2));

    consumer.heartbeat_answered(0);
    assert!(matches!(consumer.poll_step(), PollStep::Fetch { .. }));
    consumer.heartbeat_answered(14);
    match consumer.poll_step() {
        PollStep::Rejoin { group_id, member_id } => {
            assert_eq!(group_id, "g");
            assert_eq!(member_id, Some("member".to_string()));
        }
        other => panic!("unexpected step {other:?}"),
    }
    assert_eq!(consumer.newly_assigned(&vec![9, 5, 6]), vec![9, 6]);
    let mut found: VecMap<i32, i64> = VecMap::new();
    found.insert(6, 60);
    consumer.rejoined(vec![5, 6], "member-2".to_string(), 3, &found);
    match consumer.poll_step() {
        PollStep::Fetch { request } => {
            let list: Vec<(i32, i64)> =
                request.topics[0].partitions.iter().map(|p| (p.partition, p.fetch_offset)).collect();
            assert_eq!(list, vec![(5, 50), (6, 60)]);
        }
        other => panic!("unexpected step {other:?}"),
    }
    let commit = consumer.commit().unwrap();
    assert_eq!(commit.consumer_group_id, "g");
    assert_eq!(commit.topics[0].partitions.len(), 2);
    assert!(consumer.final_commit().is_none());

    match consumer.shutdown() {
        ShutdownStep::Stop { leave } => assert_eq!(leave.unwrap().member_id, "member"),
        other => panic!("unexpected step {other:?}"),
    }
    assert!(matches!(consumer.shutdown(), ShutdownStep::Idle));
}

#[test]
fn failed_rejoin_waits_for_the_next_heartbeat() {
    let mut consumer = Consumer::new(consumer_config(Some("g")));
    consumer.heartbeat_answered(14);
    consumer.rejoin_failed();
    assert!(matches!(consumer.poll_step(), PollStep::Fetch { .. }));
    let mut alone = Consumer::new(consumer_config(None));
    alone.heartbeat_answered(14);
    assert!(matches!(alone.poll_step(), PollStep::Wait));
    assert!(alone.commit().is_none());
    assert!(matches!(alone.shutdown(), ShutdownStep::Idle));
}

#[test]
fn starting_offset_is_found_step_by_step() {
    let mut config = consumer_config(None);
    config.offset = 12;
    assert!(matches!(resolve_partition_offset(&config, 3), ResolveStep::Known { offset: 12 }));

    config.offset = -1;
    match resolve_partition_offset(&config, 3) {
        ResolveStep::AskLog { log_request } => {
            assert_eq!(log_request.topics[0].partitions[0].partition, 3);
            assert_eq!(log_request.topics[0].partitions[0].time, -1);
        }
        other => panic!("unexpected step {other:?}"),
    }

    config.group_id = Some("g".to_string());
    match resolve_partition_offset(&config, 3) {
        ResolveStep::AskCommitted { request } => {
            assert_eq!(request.consumer_group_id, "g");
            assert_eq!(request.topics[0].partitions, vec![3]);
        }
        other => panic!("unexpected step {other:?}"),
    }
    let committed = |offset, error_code| OffsetFetchResponse {
        topics: vec![OffsetFetchTopicResult {
            topic_name: "t".to_string(),
            partitions: vec![OffsetFetchPartitionResult { partition: 3, offset, metadata: String::new(), error_code }],
        }],
    };
    assert!(matches!(resolve_committed(&config, 3, Some(committed(7, 0))), ResolveStep::Known { offset: 8 }));
    assert!(matches!(resolve_committed(&config, 3, Some(committed(-1, 0))), ResolveStep::AskLog { .. }));
    assert!(matches!(resolve_committed(&config, 3, Some(committed(7, 1))), ResolveStep::AskLog { .. }));
    assert!(matches!(resolve_committed(&config, 3, None), ResolveStep::AskLog { .. }));

    let listed = |error_code, offsets| ListOffsetsResponse {
        topics: vec![ListOffsetsTopicResult {
            topic_name: "t".to_string(),
            partitions: vec![PartitionOffsets { partition: 3, error_code, offsets }],
        }],
    };
    assert_eq!(resolve_listed(&listed(0, vec![33, 44])), 33);
    assert_eq!(resolve_listed(&listed(1, vec![33])), 0);
    assert_eq!(resolve_listed(&listed(0, vec![])), 0);
}

fn join_response(error_code: i32, member_id: &str, generation_id: i32) -> JoinGroupResponse {
    JoinGroupResponse {
        error_code,
        generation_id,
        group_protocol: "range".to_string(),
        leader_id: String::new(),
        member_id: member_id.to_string(),
        members: Vec::new(),
    }
}

fn joining() -> Joining {
    Consumer::join_and_sync(&consumer_config(Some("g")), &"g".to_string(), None, &"1-2-3-4".to_string())
}

#[test]
fn joining_takes_the_assignment() {
    let mut member = joining();
    let request = member.join_request();
    assert_eq!(request.member_id, "consumer-1-2-3-4");
    assert_eq!(request.session_timeout, 30000);
    assert_eq!(request.protocol_type, "consumer");
    assert_eq!(request.group_protocols[0].protocol_name, "range");
    assert_eq!(request.group_protocols[0].protocol_metadata, b"t".to_vec());
    match member.joined(&join_response(0, "m-7", 4)) {
        JoiningStep::Sync { request } => {
            assert_eq!(request.member_id, "m-7");
            assert_eq!(request.generation_id, 4);
        }
        other => panic!("unexpected step {other:?}"),
    }
    let assignment = bincode::serialize(&vec![2i32, 5i32]).unwrap();
    match member.synced(&SyncGroupResponse { error_code: 0, member_assignment: assignment }) {
        JoiningStep::Joined { partitions, member_id, generation_id } => {
            assert_eq!(partitions, vec![2, 5]);
            assert_eq!(member_id, "m-7");
            assert_eq!(generation_id, 4);
        }
        other => panic!("unexpected step {other:?}"),
    }
}

#[test]
fn joining_gives_up_after_the_last_attempt() {
    let mut member = joining();
    let mut delays = Vec::new();
    loop {
        match member.joined(&join_response(14, "", 0)) {
            JoiningStep::Retry { delay_ms } => delays.push(delay_ms),
            JoiningStep::Failed { failure } => {
                assert_eq!(failure, JoinFailure::Rebalancing);
                break;
            }
            other => panic!("unexpected step {other:?}"),
        }
    }
    assert_eq!(delays, vec![500, 1000, 1500, 2000]);
    assert_eq!(
        Consumer::join_failed(&"g".to_string(), JoinFailure::Rebalancing),
        "Failed to join group 'g' after 5 attempts: persistent REBALANCE_IN_PROGRESS"
    );
}

#[test]
fn refused_joins_are_described() {
    let mut member = joining();
    match member.joined(&join_response(1, "", -1)) {
        JoiningStep::Failed { failure } => {
            assert_eq!(Consumer::join_failed(&"g".to_string(), failure), "JoinGroup error_code=1");
        }
        other => panic!("unexpected step {other:?}"),
    }
    let mut member = joining();
    member.joined(&join_response(0, "m", 1));
    match member.synced(&SyncGroupResponse { error_code: 3, member_assignment: Vec::new() }) {
        JoiningStep::Failed { failure } => {
            assert_eq!(Consumer::join_failed(&"g".to_string(), failure), "SyncGroup error_code=3");
        }
        other => panic!("unexpected step {other:?}"),
    }
}

#[test]
fn malformed_assignment_means_no_partitions() {
    assert_eq!(read_assignment(&vec![]), Vec::<i32>::new());
    assert_eq!(read_assignment(&vec![9, 9]), Vec::<i32>::new());
}

#[test]
fn coordinator_signals_and_errors() {
    assert_eq!(GrpcConsumerGroupCoordinator::heartbeat(0).unwrap(), CoordSignal::Healthy);
    assert_eq!(GrpcConsumerGroupCoordinator::heartbeat(27).unwrap(), CoordSignal::RejoinRequired);
    let err = GrpcConsumerGroupCoordinator::heartbeat(3).unwrap_err();
    assert_eq!(err.to_string(), "heartbeat failed: error_code=3");
    assert!(GrpcConsumerGroupCoordinator::leave(0).is_ok());
    let err = GrpcConsumerGroupCoordinator::leave(1).unwrap_err();
    assert_eq!(err.to_string(), "leave group failed: error_code=1");
    let unavailable = CoordError::Unavailable("down".to_string());
    assert_eq!(unavailable.to_string(), "group coordinator not available: down");
    let group = "g".to_string();
    let failed = |f| GrpcConsumerGroupCoordinator::open_failed(&group, f).to_string();
    assert_eq!(failed(JoinFailure::Join { error_code: 5 }), "join group failed: error_code=5");
    assert_eq!(failed(JoinFailure::Sync { error_code: 6 }), "sync group failed: error_code=6");
    assert_eq!(
        failed(JoinFailure::Rebalancing),
        "join group failed: persistent REBALANCE_IN_PROGRESS for group 'g'"
    );
}

#[test]
fn coordinator_waits_longer_after_every_refusal() {
    let group = "g".to_string();
    let topic = "t".to_string();
    let mut member = GrpcConsumerGroupCoordinator::open(&group, &topic, 30_000, None, "fresh".to_string());
    assert_eq!(member.join_request().member_id, "fresh");
    assert!(matches!(member.joined(&join_response(27, "", 0)), JoiningStep::Retry { delay_ms: 300 }));
    assert!(matches!(member.joined(&join_response(27, "", 0)), JoiningStep::Retry { delay_ms: 600 }));
    let hinted = GrpcConsumerGroupCoordinator::open(&group, &topic, 30_000, Some("old".to_string()), "fresh".to_string());
    assert_eq!(hinted.join_request().member_id, "old");
    let session = GroupSession {
        group_id: group,
        member_id: "m".to_string(),
        generation_id: 3,
        assigned_partitions: vec![1],
    };
    let beat = GrpcConsumerGroupCoordinator::heartbeat_request(&session);
    assert_eq!((beat.group_id.as_str(), beat.member_id.as_str(), beat.generation_id), ("g", "m", 3));
    assert_eq!(GrpcConsumerGroupCoordinator::leave_request(&session).member_id, "m");
}

#[test]
fn test_producer_message_creation() {
    let msg = ProducerMessage::new(b"test".to_vec());
    assert_eq!(msg.value, b"test");
    assert!(msg.key.is_none());

    let msg_with_key = ProducerMessage::with_key(b"key".to_vec(), b"value".to_vec());
    assert_eq!(msg_with_key.key.unwrap(), b"key");
    assert_eq!(msg_with_key.value, b"value");

    let msg_with_partition = ProducerMessage::new(b"test".to_vec()).to_partition(1);
    assert_eq!(msg_with_partition.partition, Some(1));
}

fn producer_config(partition: i32, partitioning: &str, num_partitions: i32) -> ProducerConfig {
    ProducerConfig {
        topic: "test".to_string(),
        partition,
        partitioning: partitioning.to_string(),
        num_partitions,
        required_acks: 1,
        timeout_ms: 5000,
        batch_size: 100,
        flush_interval_ms: 100,
    }
}

#[test]
fn test_assign_partition_round_robin() {
    let config = producer_config(0, "round_robin", 3);
    let mut counter: u64 = 0;
    let msg = ProducerMessage::new(b"v".to_vec());

    assert_eq!(Producer::assign_partition(&msg, &config, &mut counter), 0);
    assert_eq!(Producer::assign_partition(&msg, &config, &mut counter), 1);
    assert_eq!(Producer::assign_partition(&msg, &config, &mut counter), 2);
    assert_eq!(Producer::assign_partition(&msg, &config, &mut counter), 0);
}

#[test]
fn test_assign_partition_key_hash_is_stable_for_same_key() {
    let config = producer_config(0, "key_hash", 8);
    let mut counter: u64 = 0;
    let m1 = ProducerMessage::with_key(b"order-42".to_vec(), b"v1".to_vec());
    let m2 = ProducerMessage::with_key(b"order-42".to_vec(), b"v2".to_vec());

    let p1 = Producer::assign_partition(&m1, &config, &mut counter);
    let p2 = Producer::assign_partition(&m2, &config, &mut counter);
    assert_eq!(p1, p2);
    assert!(p1 >= 0 && p1 < config.num_partitions);
}

#[test]
fn key_hash_is_that_of_the_key_as_a_list() {
    let config = producer_config(0, "key_hash", 1_000_003);
    let mut counter: u64 = 0;
    for key in [b"order-42".to_vec(), Vec::new(), vec![0u8; 300]] {
        let mut hasher = DefaultHasher::new();
        key.hash(&mut hasher);
        let expected = (hasher.finish() % 1_000_003) as i32;
        let msg = ProducerMessage::with_key(key, b"v".to_vec());
        assert_eq!(Producer::assign_partition(&msg, &config, &mut counter), expected);
    }
    assert_eq!(counter, 0);
}

#[test]
fn test_assign_partition_round_robin_near_u64_max() {
    let config = producer_config(0, "round_robin", 3);
    // Start near u64::MAX to verify wrap-around does not panic
    let mut counter: u64 = u64::MAX - 1;
    let msg = ProducerMessage::new(b"v".to_vec());
    let p1 = Producer::assign_partition(&msg, &config, &mut counter);
    let p2 = Producer::assign_partition(&msg, &config, &mut counter);
    assert!(p1 >= 0 && p1 < 3);
    assert!(p2 >= 0 && p2 < 3);
    assert_eq!(counter, 0);
}

#[test]
fn test_assign_partition_key_hash_falls_back_to_fixed_without_key() {
    let config = producer_config(2, "key_hash", 8);
    let mut counter: u64 = 0;
    let msg = ProducerMessage::new(b"no-key".to_vec()); // no key set
    let p = Producer::assign_partition(&msg, &config, &mut counter);
    // Should fall back to config.partition (2) when no key is present
    assert_eq!(p, 2);
}

#[test]
fn named_partition_comes_first() {
    let mut counter: u64 = 5;
    let msg = ProducerMessage::new(b"v".to_vec()).to_partition(9);
    assert_eq!(Producer::assign_partition(&msg, &producer_config(2, "round_robin", 3), &mut counter), 9);
    assert_eq!(counter, 5);
    let plain = ProducerMessage::new(b"v".to_vec());
    assert_eq!(Producer::assign_partition(&plain, &producer_config(2, "fixed", 3), &mut counter), 2);
    assert_eq!(Producer::assign_partition(&plain, &producer_config(2, "round_robin", 0), &mut counter), 0);
}

#[test]
fn batch_is_handed_out_when_it_is_full() {
    let mut config = producer_config(0, "round_robin", 2);
    config.batch_size = 3;
    let mut producer = Producer::new(config);
    assert!(producer.send(ProducerMessage::new(b"a".to_vec())).is_none());
    assert!(producer.send(ProducerMessage::new(b"b".to_vec())).is_none());
    let batch = producer.send(ProducerMessage::new(b"c".to_vec())).unwrap();
    assert_eq!(batch.len(), 3);
    assert!(producer.flush().is_none());
    let request = producer.batch_request(batch);
    assert_eq!(request.required_acks, 1);
    assert_eq!(request.topics[0].topic_name, "test");
    let mut groups: Vec<(i32, Vec<Vec<u8>>)> = request.topics[0]
        .partitions
        .iter()
        .map(|p| (p.partition, p.records.iter().map(|r| r.value.clone()).collect()))
        .collect();
    groups.sort();
    assert_eq!(groups, vec![(0, vec![b"a".to_vec(), b"c".to_vec()]), (1, vec![b"b".to_vec()])]);
    let single = producer.single_request(ProducerMessage::new(b"d".to_vec()));
    assert_eq!(single.topics[0].partitions[0].partition, 1);
}

fn produced(partition: i32, error_code: i32, leader_addr: &str) -> ProducePartitionResult {
    ProducePartitionResult { partition, error_code, offset: 7, leader_addr: leader_addr.to_string() }
}

fn produce_response(partitions: Vec<ProducePartitionResult>) -> ProduceResponse {
    ProduceResponse { results: vec![ProduceTopicResult { topic_name: "test".to_string(), partitions }] }
}

#[test]
fn answers_to_a_batch_are_judged() {
    assert!(matches!(judge_batch(&produce_response(vec![produced(0, 0, "")])), BatchStep::Done));
    match judge_batch(&produce_response(vec![produced(0, 1, ""), produced(1, 6, "a:1"), produced(2, 6, "b:2")])) {
        BatchStep::Retry { leader_addr } => assert_eq!(leader_addr, "b:2"),
        other => panic!("unexpected step {other:?}"),
    }
    match judge_batch(&produce_response(vec![produced(4, 1, ""), produced(1, 0, ""), produced(2, 6, "")])) {
        BatchStep::Failed { message } => assert_eq!(message, "Produce failed for partitions: [4, 2]"),
        other => panic!("unexpected step {other:?}"),
    }
    assert!(judge_retry(&produce_response(vec![produced(0, 0, "")])).is_ok());
    assert_eq!(
        judge_retry(&produce_response(vec![produced(0, 0, ""), produced(3, 6, "c:3"), produced(4, 1, "")])).unwrap_err(),
        "Produce to leader failed for partition 3: error_code=6"
    );
}

#[test]
fn answer_to_a_single_message_is_judged() {
    let done = judge_single(&produce_response(vec![produced(2, 0, ""), produced(3, 1, "")])).unwrap();
    assert_eq!((done.partition, done.offset, done.error_code), (2, 7, 0));
    assert_eq!(
        judge_single(&produce_response(vec![produced(2, 6, "x:1")])).unwrap_err(),
        "Failed to send message: error_code=6"
    );
    assert_eq!(judge_single(&ProduceResponse { results: vec![] }).unwrap_err(), "No response from broker");
}

fn topic_metadata(topic: &str, error: i32, parts: &[(i32, i32, i32)]) -> TopicMetadata {
    TopicMetadata {
        topic_error_code: error,
        topic_name: topic.to_string(),
        partitions: parts
            .iter()
            .map(|&(partition_id, partition_error_code, leader)| PartitionMetadata {
                partition_error_code,
                partition_id,
                leader,
                replicas: vec![],
                isr: vec![],
            })
            .collect(),
    }
}

#[test]
fn leaders_are_learned_and_forgotten() {
    assert_eq!(strip_scheme(&"http://h:1".to_string()), "h:1");
    assert_eq!(strip_scheme(&"h:1".to_string()), "h:1");
    let mut cache = MetadataCache::new(&"http://h:1".to_string());
    assert_eq!(cache.bootstrap_addr(), "h:1");
    let topic = "t".to_string();
    assert!(cache.needs_refresh(&topic, &vec![0]));
    let response = TopicMetadataResponse {
        brokers: vec![
            MetadataBroker { node_id: 1, host: "a".to_string(), port: 10 },
            MetadataBroker { node_id: 2, host: "b".to_string(), port: 20 },
        ],
        topics: vec![
            topic_metadata("t", 0, &[(0, 0, 1), (1, 0, 2), (2, 0, 1), (3, 5, 1), (4, 0, 9)]),
            topic_metadata("u", 3, &[(0, 0, 1)]),
        ],
    };
    cache.refresh(&response);
    assert_eq!(cache.get_leader(&topic, 1), Some(&"b:20".to_string()));
    assert!(cache.get_leader(&topic, 3).is_none());
    assert!(cache.get_leader(&topic, 4).is_none());
    assert!(cache.get_leader(&"u".to_string(), 0).is_none());
    assert!(!cache.needs_refresh(&topic, &vec![0, 1, 2]));
    let routes = cache.resolve_leaders(&topic, &vec![2, 1, 0]).unwrap();
    assert_eq!(routes.len(), 2);
    assert_eq!(routes.get(&"a:10".to_string()), Some(&vec![2, 0]));
    assert_eq!(routes.get(&"b:20".to_string()), Some(&vec![1]));
    assert_eq!(
        cache.resolve_leaders(&topic, &vec![0, 4]).err().unwrap(),
        "No leader found for t-4 even after metadata refresh"
    );
    assert_eq!(MetadataCache::metadata_request(&topic).topics, vec!["t".to_string()]);
    cache.invalidate_topic(&topic);
    assert!(cache.get_leader(&topic, 1).is_none());
}

#[test]
fn consumers_are_built_step_by_step() {
    let builder = ConsumerBuilder::new("http://h:1".to_string(), "t".to_string());
    assert_eq!(builder.broker_addr, "http://h:1");
    assert_eq!(builder.config.topic, "t");
    assert!(!builder.config.auto_commit);
    assert_eq!(builder.config.offset, -2);
    let builder = builder.group_id("g".to_string()).auto_commit(true).latest();
    assert_eq!(builder.config.group_id, Some("g".to_string()));
    assert!(builder.config.auto_commit);
    assert_eq!(builder.config.offset, -1);
    assert_eq!(builder.earliest().with_config(consumer_config(None)).config.partitions, vec![0, 1]);
}

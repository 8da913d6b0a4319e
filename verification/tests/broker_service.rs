use rust_mq::api::broker::{
    AddNodeRequest, CommitPartition, CommitTopic, CreateTopicRequest, FetchPartition, FetchRequest, FetchTopic,
    GroupCoordinatorRequest, GroupProtocol, HeartbeatRequest, JoinGroupRequest, LeaveGroupRequest, ListOffsetsPartition,
    ListOffsetsRequest, ListOffsetsTopic, OffsetCommitRequest, OffsetFetchRequest, OffsetFetchTopic, ProducePartition,
    ProduceRequest, ProduceTopic, Record, RemoveNodeRequest, SyncGroupRequest, TopicMetadataRequest,
};
use rust_mq::api::requests::BrokerGrpcRequest;
use rust_mq::api::responses::BrokerGrpcResponse;
use rust_mq::broker::broker_core::BrokerCore;
use rust_mq::broker::command_gateway::{
    BrokerCommand, CommandOutcome, LeaderAwareCommandGateway, StorageCommandGateway,
};
use rust_mq::broker::config::RetentionConfig;
use rust_mq::broker::error::BrokerError;
use rust_mq::broker::rpc_router::BrokerRpcRouter;
use rust_mq::broker::service::BrokerStorage;
use rust_mq::broker::storage::{InMemoryStorage, JoinAnswer, StoredMessage};

const NOW: i64 = 1_000_000;

fn s(text: &str) -> String {
    text.to_string()
}

fn router() -> BrokerRpcRouter<InMemoryStorage> {
    BrokerRpcRouter::new(BrokerCore::new(InMemoryStorage::new(1, s("h"), 9092)))
}

fn produce_request(topic: &str, partition: i32, values: &[&[u8]]) -> ProduceRequest {
    ProduceRequest {
        required_acks: 1,
        timeout_ms: 1000,
        topics: vec![ProduceTopic {
            topic_name: s(topic),
            partitions: vec![ProducePartition {
                partition,
                records: values.iter().map(|v| Record { key: None, value: v.to_vec() }).collect(),
            }],
        }],
    }
}

fn fetch_request(topic: &str, partition: i32, fetch_offset: i64) -> FetchRequest {
    FetchRequest {
        replica_id: -1,
        max_wait_time: 0,
        min_bytes: 0,
        topics: vec![FetchTopic {
            topic_name: s(topic),
            partitions: vec![FetchPartition { partition, fetch_offset, max_bytes: 1024 }],
        }],
    }
}

#[test]
fn what_was_produced_is_fetched() {
    let mut router = router();
    let request = BrokerGrpcRequest::Produce(produce_request("t", 0, &[b"a", b"b", b"c"]));
    match router.dispatch(request, NOW) {
        BrokerGrpcResponse::Produce(r) => {
            let p = &r.results[0].partitions[0];
            assert_eq!((p.partition, p.error_code, p.offset, p.leader_addr.as_str()), (0, 0, 2, ""));
        }
        other => panic!("unexpected answer {other:?}"),
    }
    match router.dispatch(BrokerGrpcRequest::Fetch(fetch_request("t", 0, 1)), NOW) {
        BrokerGrpcResponse::Fetch(r) => {
            let p = &r.topics[0].partitions[0];
            assert_eq!(p.high_watermark_offset, 3);
            let values: Vec<Vec<u8>> = p.records.iter().map(|r| r.value.clone()).collect();
            assert_eq!(values, vec![b"b".to_vec(), b"c".to_vec()]);
        }
        other => panic!("unexpected answer {other:?}"),
    }
    match router.dispatch(BrokerGrpcRequest::Fetch(fetch_request("t", 0, 7)), NOW) {
        BrokerGrpcResponse::Fetch(r) => assert_eq!(r.topics[0].partitions[0].high_watermark_offset, 7),
        other => panic!("unexpected answer {other:?}"),
    }
}

#[test]
fn topics_are_created_and_described() {
    let mut router = router();
    let create = |n| BrokerGrpcRequest::CreateTopic(CreateTopicRequest { topic_name: s("t"), num_partitions: n });
    match router.dispatch(create(0), NOW) {
        BrokerGrpcResponse::CreateTopic(r) => {
            assert_eq!((r.error_code, r.error_message.as_str()), (1, "num_partitions must be > 0"));
        }
        other => panic!("unexpected answer {other:?}"),
    }
    match router.dispatch(create(2), NOW) {
        BrokerGrpcResponse::CreateTopic(r) => assert_eq!((r.error_code, r.error_message.as_str()), (0, "")),
        other => panic!("unexpected answer {other:?}"),
    }
    let ask = |topics| BrokerGrpcRequest::GetTopicMetadata(TopicMetadataRequest { topics });
    match router.dispatch(ask(vec![]), NOW) {
        BrokerGrpcResponse::GetTopicMetadata(r) => {
            assert_eq!((r.brokers[0].node_id, r.brokers[0].host.as_str(), r.brokers[0].port), (1, "h", 9092));
            assert_eq!(r.topics.len(), 1);
            assert_eq!(r.topics[0].partitions.len(), 2);
            assert_eq!(r.topics[0].partitions[0].leader, 1);
        }
        other => panic!("unexpected answer {other:?}"),
    }
    match router.dispatch(ask(vec![s("none"), s("t")]), NOW) {
        BrokerGrpcResponse::GetTopicMetadata(r) => assert_eq!(r.topics.len(), 1),
        other => panic!("unexpected answer {other:?}"),
    }
    match router.dispatch(BrokerGrpcRequest::FindCoordinator(GroupCoordinatorRequest { group_id: s("g") }), NOW) {
        BrokerGrpcResponse::FindCoordinator(r) => assert_eq!((r.error_code, r.coordinator_port), (0, 9092)),
        other => panic!("unexpected answer {other:?}"),
    }
}

#[test]
fn offsets_are_listed_committed_and_recalled() {
    let mut router = router();
    router.dispatch(BrokerGrpcRequest::Produce(produce_request("t", 0, &[b"a", b"b"])), NOW);
    let list = |time| {
        BrokerGrpcRequest::ListOffsets(ListOffsetsRequest {
            replica_id: -1,
            topics: vec![ListOffsetsTopic {
                topic_name: s("t"),
                partitions: vec![ListOffsetsPartition { partition: 0, time, max_number_of_offsets: 1 }],
            }],
        })
    };
    for (time, expected) in [(-1, 2), (-2, 0)] {
        match router.dispatch(list(time), NOW) {
            BrokerGrpcResponse::ListOffsets(r) => assert_eq!(r.topics[0].partitions[0].offsets, vec![expected]),
            other => panic!("unexpected answer {other:?}"),
        }
    }
    let recall = || {
        BrokerGrpcRequest::FetchOffset(OffsetFetchRequest {
            consumer_group_id: s("g"),
            topics: vec![OffsetFetchTopic { topic_name: s("t"), partitions: vec![0] }],
        })
    };
    match router.dispatch(recall(), NOW) {
        BrokerGrpcResponse::FetchOffset(r) => {
            assert_eq!((r.topics[0].partitions[0].offset, r.topics[0].partitions[0].error_code), (-1, 0));
        }
        other => panic!("unexpected answer {other:?}"),
    }
    let commit = BrokerGrpcRequest::CommitOffset(OffsetCommitRequest {
        consumer_group_id: s("g"),
        topics: vec![CommitTopic {
            topic_name: s("t"),
            partitions: vec![CommitPartition { partition: 0, offset: 2, metadata: s("note") }],
        }],
    });
    match router.dispatch(commit, NOW) {
        BrokerGrpcResponse::CommitOffset(r) => assert_eq!(r.topics[0].partitions[0].error_code, 0),
        other => panic!("unexpected answer {other:?}"),
    }
    match router.dispatch(recall(), NOW) {
        BrokerGrpcResponse::FetchOffset(r) => {
            let p = &r.topics[0].partitions[0];
            assert_eq!((p.offset, p.metadata.as_str()), (2, "note"));
        }
        other => panic!("unexpected answer {other:?}"),
    }
}

fn join_request(member: &str) -> BrokerGrpcRequest {
    BrokerGrpcRequest::JoinGroup(JoinGroupRequest {
        group_id: s("g"),
        session_timeout: 30_000,
        member_id: s(member),
        protocol_type: s("consumer"),
        group_protocols: vec![GroupProtocol { protocol_name: s("range"), protocol_metadata: b"t".to_vec() }],
    })
}

#[test]
fn members_join_sync_beat_and_leave() {
    let mut router = router();
    router.dispatch(
        BrokerGrpcRequest::CreateTopic(CreateTopicRequest { topic_name: s("t"), num_partitions: 2 }),
        NOW,
    );
    match router.dispatch(join_request("m1"), NOW) {
        BrokerGrpcResponse::JoinGroup(r) => {
            assert_eq!((r.error_code, r.generation_id, r.group_protocol.as_str()), (0, 0, "range"));
            assert_eq!((r.leader_id.as_str(), r.member_id.as_str(), r.members.len()), ("m1", "m1", 1));
        }
        other => panic!("unexpected answer {other:?}"),
    }
    let sync = |member: &str| {
        BrokerGrpcRequest::SyncGroup(SyncGroupRequest {
            group_id: s("g"),
            generation_id: 0,
            member_id: s(member),
            group_assignment: vec![],
        })
    };
    match router.dispatch(sync("m1"), NOW) {
        BrokerGrpcResponse::SyncGroup(r) => {
            let partitions: Vec<i32> = bincode::deserialize(&r.member_assignment).unwrap();
            assert_eq!((r.error_code, partitions), (0, vec![0, 1]));
        }
        other => panic!("unexpected answer {other:?}"),
    }
    router.dispatch(join_request("m2"), NOW);
    match router.dispatch(sync("m1"), NOW) {
        BrokerGrpcResponse::SyncGroup(r) => assert_eq!((r.error_code, r.member_assignment.len()), (27, 0)),
        other => panic!("unexpected answer {other:?}"),
    }
    let beat = |group: &str, member: &str| {
        BrokerGrpcRequest::Heartbeat(HeartbeatRequest { group_id: s(group), generation_id: 0, member_id: s(member) })
    };
    let code = |r: BrokerGrpcResponse| match r {
        BrokerGrpcResponse::Heartbeat(h) => h.error_code,
        BrokerGrpcResponse::LeaveGroup(l) => l.error_code,
        BrokerGrpcResponse::SyncGroup(y) => y.error_code,
        other => panic!("unexpected answer {other:?}"),
    };
    assert_eq!(code(router.dispatch(beat("g", "m1"), NOW)), 27);
    assert_eq!(code(router.dispatch(beat("g", "nobody"), NOW)), 1);
    router.dispatch(join_request("m1"), NOW);
    assert_eq!(code(router.dispatch(beat("g", "m1"), NOW)), 0);
    let leave = |group: &str| {
        BrokerGrpcRequest::LeaveGroup(LeaveGroupRequest { group_id: s(group), member_id: s("m2") })
    };
    assert_eq!(code(router.dispatch(leave("g"), NOW)), 0);
    assert_eq!(code(router.dispatch(leave("unknown"), NOW)), 1);
    let unknown = BrokerGrpcRequest::SyncGroup(SyncGroupRequest {
        group_id: s("unknown"),
        generation_id: 0,
        member_id: s("m"),
        group_assignment: vec![],
    });
    assert_eq!(code(router.dispatch(unknown, NOW)), 1);
}

/// A storage that refuses everything with one message.
struct Refusing(&'static str);

impl BrokerStorage for Refusing {
    fn create_topic(&mut self, _: &String, _: i32) -> Result<(), String> {
        Err(s(self.0))
    }
    fn get_topics(&self) -> Vec<String> {
        vec![]
    }
    fn get_topic_partitions(&self, _: &String) -> Option<Vec<i32>> {
        None
    }
    fn produce_message(
        &mut self,
        _: &String,
        partition: i32,
        _: Option<Vec<u8>>,
        _: Vec<u8>,
        _: i64,
    ) -> Result<i64, String> {
        if partition == 7 {
            Ok(70)
        } else {
            Err(s(self.0))
        }
    }
    fn fetch_messages(&self, _: &String, _: i32, _: i64, _: i32) -> Result<Vec<StoredMessage>, String> {
        Err(s(self.0))
    }
    fn get_partition_offset(&self, _: &String, _: i32, _: i64) -> Result<Vec<i64>, String> {
        Err(s(self.0))
    }
    fn commit_offset(&mut self, _: &String, _: &String, _: i32, _: i64, _: String) -> Result<(), String> {
        Err(s(self.0))
    }
    fn fetch_offset(&self, _: &String, _: &String, _: i32) -> Result<(i64, String), String> {
        Err(s(self.0))
    }
    fn get_coordinator_info(&self) -> (i32, String, i32) {
        (0, String::new(), 0)
    }
    fn join_group(
        &mut self,
        _: &String,
        _: &String,
        _: &String,
        _: &Vec<u8>,
        _: i64,
        _: i64,
    ) -> Result<JoinAnswer, String> {
        Err(s(self.0))
    }
    fn sync_group(&self, _: &String, _: i32, _: &String) -> Result<Vec<u8>, String> {
        Err(s(self.0))
    }
    fn heartbeat(&mut self, _: &String, _: i32, _: &String, _: i64) -> Result<(), String> {
        Err(s(self.0))
    }
    fn leave_group(&mut self, _: &String, _: &String, _: i64) -> Result<(), String> {
        Err(s(self.0))
    }
    fn add_node(&mut self, _: u64, _: &String, _: &String) -> Result<(), String> {
        Err(s(self.0))
    }
    fn remove_node(&mut self, _: u64) -> Result<(), String> {
        Ok(())
    }
}

#[test]
fn refusals_are_answered_with_their_codes() {
    let mut core = BrokerCore::new(Refusing("NOT_LEADER:l:1"));
    let r = core.handle_produce(produce_request("t", 0, &[b"a"]), NOW);
    let p = &r.results[0].partitions[0];
    assert_eq!((p.error_code, p.offset, p.leader_addr.as_str()), (6, -1, "l:1"));
    let add = core.handle_add_node(AddNodeRequest { node_id: 2, api_addr: s("a"), rpc_addr: s("r") });
    assert_eq!((add.error_code, add.error_message.as_str()), (6, "l:1"));
    let removed = core.handle_remove_node(RemoveNodeRequest { node_id: 2 });
    assert_eq!((removed.error_code, removed.error_message.as_str()), (0, ""));

    let mut core = BrokerCore::new(Refusing("broken"));
    let r = core.handle_produce(produce_request("t", 0, &[b"a"]), NOW);
    assert_eq!(r.results[0].partitions[0].error_code, 1);
    let r = core.handle_produce(produce_request("t", 7, &[b"a", b"b"]), NOW);
    assert_eq!((r.results[0].partitions[0].error_code, r.results[0].partitions[0].offset), (0, 70));
    let r = core.handle_fetch(fetch_request("t", 0, 5));
    let p = &r.topics[0].partitions[0];
    assert_eq!((p.error_code, p.high_watermark_offset, p.records.len()), (1, 0, 0));
    let add = core.handle_add_node(AddNodeRequest { node_id: 2, api_addr: s("a"), rpc_addr: s("r") });
    assert_eq!((add.error_code, add.error_message.as_str()), (1, "broken"));
    match core.handle_join_group(
        JoinGroupRequest {
            group_id: s("g"),
            session_timeout: 1,
            member_id: s("m"),
            protocol_type: s("consumer"),
            group_protocols: vec![],
        },
        NOW,
    ) {
        r => assert_eq!((r.error_code, r.generation_id, r.member_id.as_str()), (1, -1, "")),
    }
}

#[test]
fn commands_reach_the_storage() {
    let mut gateway = StorageCommandGateway::new(InMemoryStorage::new(1, s("h"), 9092));
    let create = BrokerCommand::CreateTopic { topic: s("t"), num_partitions: 2 };
    assert!(matches!(gateway.execute(create, NOW), Ok(CommandOutcome::Ack)));
    let produce = || BrokerCommand::Produce { topic: s("t"), partition: 0, key: None, value: b"v".to_vec() };
    assert!(matches!(gateway.execute(produce(), NOW), Ok(CommandOutcome::Offset(0))));
    assert!(matches!(gateway.execute(produce(), NOW), Ok(CommandOutcome::Offset(1))));
    let commit =
        BrokerCommand::CommitOffset { group_id: s("g"), topic: s("t"), partition: 0, offset: 1, metadata: s("") };
    assert!(matches!(gateway.execute(commit, NOW), Ok(CommandOutcome::Ack)));
    let join = BrokerCommand::GroupJoin {
        group_id: s("g"),
        member_id: s("m"),
        topic: s("t"),
        session_timeout_ms: 30_000,
    };
    match gateway.execute(join, NOW).unwrap() {
        CommandOutcome::GroupJoin { generation_id, leader_id, member_id, members } => {
            assert_eq!((generation_id, leader_id.as_str(), member_id.as_str()), (0, "m", "m"));
            assert_eq!(members[0].metadata, b"t".to_vec());
        }
        other => panic!("unexpected outcome {other:?}"),
    }
    let leave = |group: &str| BrokerCommand::GroupLeave { group_id: s(group), member_id: s("m") };
    assert!(matches!(gateway.execute(leave("g"), NOW), Ok(CommandOutcome::Ack)));
    match gateway.execute(leave("other"), NOW).unwrap_err() {
        BrokerError::Internal(m) => assert_eq!(m, "Group not found"),
        other => panic!("unexpected error {other:?}"),
    }
    let mut refusing = StorageCommandGateway::new(Refusing("NOT_LEADER:l:1"));
    match refusing.execute(produce(), NOW).unwrap_err() {
        BrokerError::NotLeader { leader_addr } => assert_eq!(leader_addr, Some(s("l:1"))),
        other => panic!("unexpected error {other:?}"),
    }
}

#[test]
fn single_broker_has_no_cluster() {
    let mut router = router();
    let add = AddNodeRequest { node_id: 2, api_addr: s("a"), rpc_addr: s("r") };
    match router.dispatch(BrokerGrpcRequest::AddNode(add), NOW) {
        BrokerGrpcResponse::AddNode(r) => assert_eq!(r.error_code, 1),
        other => panic!("unexpected answer {other:?}"),
    }
    match router.dispatch(BrokerGrpcRequest::RemoveNode(RemoveNodeRequest { node_id: 2 }), NOW) {
        BrokerGrpcResponse::RemoveNode(r) => assert_eq!(r.error_code, 1),
        other => panic!("unexpected answer {other:?}"),
    }
}

#[test]
fn retention_and_liveness_of_a_single_broker() {
    let mut storage = InMemoryStorage::new(1, s("h"), 9092);
    for i in 0..4 {
        InMemoryStorage::produce_message(&mut storage, &s("t"), 0, None, vec![i as u8], NOW + i * 100).unwrap();
    }
    let retention = RetentionConfig { retention_ms: Some(250), max_messages_per_partition: None };
    storage.apply_retention(&retention, NOW + 400);
    let left = InMemoryStorage::fetch_messages(&storage, &s("t"), 0, 0, 1024).unwrap();
    assert_eq!(left.iter().map(|m| m.offset).collect::<Vec<_>>(), vec![2, 3]);
    InMemoryStorage::join_group(&mut storage, &s("g"), &s("m"), b"t", 1_000, NOW).unwrap();
    storage.check_liveness(NOW + 1_001);
    assert_eq!(
        InMemoryStorage::heartbeat(&mut storage, &s("g"), &s("m"), NOW + 1_002).unwrap_err(),
        "Unknown member"
    );
}

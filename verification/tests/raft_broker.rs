use rust_mq::broker::cluster::{
    begin_join, data_path, failure_proposals, initial_peers, initial_voters, is_expected_refusal, isr_proposals, next_join, JoinEvent,
    JoinStep,
};
use rust_mq::broker::config::{BrokerConfig, ClusterConfig, ClusterMember};
use rust_mq::broker::controller::state_machine::apply_controller_command;
use rust_mq::broker::controller::types::{ControllerCommand, ControllerMetadata};
use rust_mq::broker::error::BrokerError;
use rust_mq::broker::kraft::isr_manager::IsrChange;
use rust_mq::broker::raft_broker::{
    fetch_messages, fetch_offset, get_partition_offset, get_topic_partitions, get_topics, plain_answer, produce_answer,
    Acknowledged, RaftBroker, Route,
};
use rust_mq::broker::raft_network::{PeerInfo, RaftNetworkSender};
use rust_mq::broker::raft_state_machine::{apply_request, BrokerStateMachine, Entry, EntryPayload, LogId, Membership};
use rust_mq::broker::raft_storage::{keys_from, log_index, log_key, BrokerRaftStorage, IndexBound, StoredEntry, Vote};
use rust_mq::broker::raft_types::{create_raft_config, BrokerNode, BrokerRequest, BrokerResponse, BrokerStateMachineData};
use rust_mq::broker::sbe_tcp::codec::Message;
use rust_mq::broker::sbe_tcp::connection::ConnectionManager;
use rust_mq::broker::sbe_tcp::pool::{BufferPool, POOL_SIZE};
use rust_mq::broker::sbe_tcp::server::{handle_frame, next_frame, FrameAction, FrameStep, MAX_FRAME_SIZE_BYTES};
use rust_mq::broker::topics::{parse_api_addr, parse_host_port, validate_topic_name};
use rust_mq::maps::VecMap;

fn s(text: &str) -> String {
    text.to_string()
}

fn produce(topic: &str, partition: i32, message: &[u8]) -> BrokerRequest {
    BrokerRequest::Produce { topic: s(topic), partition, message: message.to_vec() }
}

#[test]
fn requests_change_the_replicated_state() {
    let mut data = BrokerStateMachineData::default();
    let create = BrokerRequest::CreateTopic { topic: s("t"), partitions: 2, replication_factor: 1 };
    assert!(matches!(apply_request(&mut data, &create), BrokerResponse::CreateTopic));
    assert!(matches!(apply_request(&mut data, &produce("t", 0, b"a")), BrokerResponse::Produce { offset: 0 }));
    assert!(matches!(apply_request(&mut data, &produce("t", 0, b"b")), BrokerResponse::Produce { offset: 1 }));
    assert_eq!(get_topic_partitions(&data, &s("t")).unwrap().len(), 2);
    let other = BrokerRequest::CreateTopic { topic: s("a"), partitions: 1, replication_factor: 1 };
    assert!(matches!(apply_request(&mut data, &other), BrokerResponse::CreateTopic));
    assert_eq!(get_topics(&data), vec![s("a"), s("t")]);
    let read = fetch_messages(&data, &s("t"), 0, 1, 100).unwrap();
    assert_eq!(read, (b"b".to_vec(), 2));
    assert_eq!(get_partition_offset(&data, &s("t"), 0, -1).unwrap(), vec![2]);
    let commit = BrokerRequest::CommitOffset { group: s("g"), topic: s("t"), partition: 0, offset: 1, metadata: s("n") };
    assert!(matches!(apply_request(&mut data, &commit), BrokerResponse::CommitOffset));
    assert_eq!(fetch_offset(&data, &s("g"), &s("t"), 0), (1, s("n")));
    let join = BrokerRequest::JoinGroup { group_id: s("g"), member_id: s("m"), protocol_type: s("consumer") };
    assert!(matches!(apply_request(&mut data, &join), BrokerResponse::JoinGroup { .. }));
    let delete = BrokerRequest::DeleteTopic { topic: s("t") };
    assert!(matches!(apply_request(&mut data, &delete), BrokerResponse::DeleteTopic));
    assert!(get_topic_partitions(&data, &s("t")).is_none());
}

#[test]
fn state_machine_counts_what_it_applied() {
    let mut machine = BrokerStateMachine::new();
    let id = |index| LogId { term: 1, node_id: 7, index };
    let answers = machine.apply(vec![
        Entry { log_id: id(1), payload: EntryPayload::Blank },
        Entry { log_id: id(2), payload: EntryPayload::Normal(produce("t", 0, b"a")) },
        Entry { log_id: id(3), payload: EntryPayload::Membership(Membership { configs: vec![vec![1, 2]], nodes: vec![] }) },
    ]);
    assert_eq!(answers.len(), 1);
    let (last, membership) = machine.applied_state();
    assert_eq!(last, Some(id(3)));
    assert_eq!(membership.0, Some(id(3)));
    assert_eq!(membership.1.configs, vec![vec![1, 2]]);
    let info = machine.build_snapshot();
    assert_eq!(info.last_log_id, Some(id(3)));
    assert_eq!(info.last_membership.1.configs, vec![vec![1, 2]]);
    assert_eq!(info.snapshot_id, "1");
    let mut other = BrokerStateMachine::new();
    other.install_snapshot(info, BrokerStateMachineData::default());
    assert_eq!(other.applied_state().0, Some(id(3)));
}

fn entry(index: u64) -> StoredEntry {
    StoredEntry { log_id: LogId { term: 1, node_id: 7, index }, data: vec![index as u8] }
}

#[test]
fn log_is_appended_cut_and_purged() {
    let mut storage = BrokerRaftStorage::new(None, Vec::new());
    assert!(storage.read_vote().is_none());
    let vote = Vote { term: 2, node_id: 1, committed: true };
    storage.save_vote(vote);
    assert_eq!(storage.read_vote(), Some(vote));
    storage.append_to_log((1..=5).map(entry).collect());
    assert_eq!(storage.get_log_state().unwrap().index, 5);
    let older = StoredEntry { log_id: LogId { term: 1, node_id: 6, index: 6 }, data: vec![] };
    storage.append_to_log(vec![older]);
    assert_eq!(storage.get_log_state().unwrap().index, 5);
    let read = storage.try_get_log_entries(IndexBound::Included(2), IndexBound::Excluded(4));
    assert_eq!(read.iter().map(|e| e.log_id.index).collect::<Vec<_>>(), vec![2, 3]);
    storage.delete_conflict_logs_since(4);
    assert!(storage.get_log(4).is_none());
    assert!(storage.get_log(3).is_some());
    storage.purge_logs_upto(2);
    assert!(storage.get_log(2).is_none());
    assert!(storage.get_log(3).is_some());
    let reopened = BrokerRaftStorage::new(Some(vote), (3..=4).map(entry).collect());
    assert_eq!(reopened.read_vote(), Some(vote));
    assert!(reopened.get_log_state().is_none());
    assert_eq!(reopened.get_log(3).unwrap().data, vec![3]);
    assert_eq!(reopened.try_get_log_entries(IndexBound::Included(3), IndexBound::Unbounded).len(), 2);
    assert_eq!(log_index(&log_key(42)), Some(42));
    assert!(log_key(9) < log_key(10));
    assert_eq!(keys_from(&vec![log_key(1), log_key(2), log_key(3)], 2), vec![log_key(2), log_key(3)]);
}

#[test]
fn requests_go_to_the_leader() {
    let mut broker = RaftBroker::new(1, s("r:1"), s("a:1"));
    broker.add_node(2, BrokerNode { rpc_addr: s("r:2"), api_addr: s("b:20") });
    assert!(matches!(broker.forward_to_leader(Some(1)), Route::Here));
    match broker.forward_to_leader(Some(2)) {
        Route::Refused(m) => assert_eq!(m, "Not leader, forward to node 2 at b:20"),
        Route::Here => panic!("another node leads"),
    }
    match broker.forward_to_leader(None) {
        Route::Refused(m) => assert_eq!(m, "No leader available"),
        Route::Here => panic!("nobody leads"),
    }
    assert_eq!(broker.get_coordinator_info(Some(2)), (2, s("b"), 20));
    broker.add_node(9, BrokerNode::default());
    broker.add_node(4, BrokerNode::default());
    assert_eq!(broker.remove_node(2), vec![4, 9]);
    let first = broker.init_cluster();
    assert_eq!(first.len(), 1);
    assert_eq!(first.get(&1).unwrap().api_addr, "a:1");
    assert_eq!(produce_answer(Ok(BrokerResponse::Produce { offset: 4 })).unwrap(), 4);
    assert_eq!(produce_answer(Ok(BrokerResponse::LeaveGroup)).unwrap_err(), "Unexpected response");
    assert_eq!(produce_answer(Ok(BrokerResponse::Error(s("x")))).unwrap_err(), "x");
    assert!(plain_answer(Acknowledged::Heartbeat, Ok(BrokerResponse::GroupHeartbeat)).is_ok());
    assert_eq!(plain_answer(Acknowledged::LeaveGroup, Err(s("down"))).unwrap_err(), "down");
    assert_eq!(create_raft_config().heartbeat_interval, 1000);
    assert_eq!(BrokerNode::default().to_string(), "BrokerNode { rpc: , api:  }");
}

fn peers() -> VecMap<u64, PeerInfo> {
    let mut peers = VecMap::new();
    peers.insert(2, PeerInfo { rpc_addr: s("http://h:2"), api_addr: s("a:2"), sbe_tcp_addr: Some(s("  ")) });
    peers
}

#[test]
fn messages_leave_in_frames() {
    let mut manager = ConnectionManager::new(1, peers());
    let mut to_two = Message::default();
    to_two.to = 2;
    to_two.term = 9;
    let mut to_self = Message::default();
    to_self.to = 1;
    let mut to_nobody = Message::default();
    to_nobody.to = 3;
    let out = manager.send_messages(&vec![to_self, to_two, to_nobody]);
    assert_eq!(out.len(), 1);
    assert_eq!((out[0].peer_id, out[0].addr.as_str()), (2, "h:2"));
    let bytes = &out[0].frame.data;
    let prefix = [bytes[0], bytes[1], bytes[2], bytes[3]];
    assert_eq!(next_frame(prefix), FrameStep::Read { payload_len: bytes.len() - 4 });
    match handle_frame(&bytes[4..]) {
        FrameAction::Deliver(m) => assert_eq!((m.to, m.term), (2, 9)),
        FrameAction::Skip(e) => panic!("frame was refused: {e:?}"),
    }
    assert!(matches!(handle_frame(&bytes[..9]), FrameAction::Skip(_)));
    let too_long = (MAX_FRAME_SIZE_BYTES as u32 + 1).to_le_bytes();
    assert_eq!(next_frame(too_long), FrameStep::Close { payload_len: MAX_FRAME_SIZE_BYTES + 1 });
    let sender = RaftNetworkSender::new(1, peers());
    assert_eq!(sender.peer_api_addr(2), Some("a:2"));
    assert_eq!(sender.peer_api_addr(5), None);
}

#[test]
fn pool_hands_out_empty_buffers() {
    let mut pool = BufferPool::new();
    let mut taken = Vec::new();
    for _ in 0..POOL_SIZE + 2 {
        let mut b = pool.acquire();
        assert!(b.buf.is_empty());
        b.buf.extend_from_slice(b"dirt");
        taken.push(b);
    }
    for b in taken {
        pool.release(b);
    }
    for _ in 0..POOL_SIZE + 2 {
        assert!(pool.acquire().buf.is_empty());
    }
}

fn config() -> BrokerConfig {
    let mut config = BrokerConfig::default_single_node();
    config.storage_path = s("/data");
    config.cluster = Some(ClusterConfig {
        initial_members: vec![ClusterMember { node_id: 2, api_addr: s("a:2"), rpc_addr: s("r:2"), sbe_tcp_addr: None }],
        bootstrap: true,
    });
    config
}

#[test]
fn cluster_starts_with_its_members() {
    let mut config = config();
    let peers = initial_peers(&config);
    assert_eq!(peers.get(&2).unwrap().rpc_addr, "http://r:2");
    assert_eq!(data_path(&config), "/data-kraft-data");
    assert!(config.is_cluster_mode());
    assert!(!BrokerConfig::default_single_node().is_cluster_mode());
    config.join_addr = Some(s("j:1"));
    assert_eq!(initial_peers(&config).len(), 0);
    assert!(is_expected_refusal("error: NOT_LEADER:x"));
    assert!(!is_expected_refusal("disk full"));
}

#[test]
fn members_vote_at_the_start() {
    let mut config = config();
    let mut members = config.cluster.take().unwrap().initial_members;
    for node_id in [7, 1, 2] {
        members.push(ClusterMember { node_id, api_addr: s("a"), rpc_addr: s("r"), sbe_tcp_addr: None });
    }
    assert_eq!(initial_voters(&config), vec![config.node_id]);
    config.cluster = Some(ClusterConfig { initial_members: Vec::new(), bootstrap: true });
    assert_eq!(initial_voters(&config), vec![config.node_id]);
    config.cluster = Some(ClusterConfig { initial_members: members, bootstrap: true });
    assert_eq!(initial_voters(&config), vec![1, 2, 7]);
    config.join_addr = Some(s("j:1"));
    assert!(initial_voters(&config).is_empty());
}

#[test]
fn joining_follows_the_leader_and_gives_up() {
    let mut asked = Vec::new();
    let mut step = begin_join(&s("a:1"));
    loop {
        match step {
            JoinStep::Ask { target, attempt, wait_ms } => {
                asked.push((target.clone(), wait_ms));
                let event = if attempt == 1 {
                    JoinEvent::Answered { error_code: 6, error_message: s("l:1") }
                } else {
                    JoinEvent::Failed
                };
                step = next_join(target, attempt, event);
            }
            JoinStep::Joined => panic!("nobody let it in"),
            JoinStep::GaveUp => break,
        }
    }
    assert_eq!(asked.len(), 10);
    assert_eq!(asked[0], (s("a:1"), 500));
    assert_eq!(asked[1], (s("l:1"), 0));
    assert_eq!(asked[2], (s("l:1"), 2000));
    let done = JoinEvent::Answered { error_code: 0, error_message: s("") };
    assert!(matches!(next_join(s("a:1"), 3, done), JoinStep::Joined));
}

#[test]
fn dead_brokers_are_reported_by_the_controller_alone() {
    let mut meta = ControllerMetadata::default();
    for (broker_id, last) in [(1u64, 0u64), (2, 10_000), (3, 90_000)] {
        apply_controller_command(
            &mut meta,
            ControllerCommand::RegisterBroker { broker_id, api_addr: s("a"), rpc_addr: s("r") },
        );
        if last > 0 {
            apply_controller_command(
                &mut meta,
                ControllerCommand::BrokerHeartbeat { broker_id, timestamp_ms: last },
            );
        }
    }
    assert!(failure_proposals(&meta, false, 100_000).is_empty());
    let proposals = failure_proposals(&meta, true, 100_000);
    assert_eq!(proposals.len(), 1);
    assert!(matches!(proposals[0], ControllerCommand::MarkBrokerDead { broker_id: 2, .. }));
    let change = IsrChange { topic: s("t"), partition: 0, new_isr: vec![1], new_hw: 3 };
    match &isr_proposals(&meta, 1, vec![change])[0] {
        ControllerCommand::PartitionChange { leader, isr, replicas, .. } => {
            assert_eq!((*leader, isr, replicas), (1, &vec![1], &vec![]));
        }
        other => panic!("unexpected proposal {other:?}"),
    }
}

#[test]
fn addresses_and_names_are_read() {
    assert_eq!(parse_host_port(&s("0.0.0.0:9092")), (s("localhost"), 9092));
    assert_eq!(parse_host_port(&s("h:1")), (s("h"), 1));
    assert_eq!(parse_host_port(&s("nonsense")), (s("localhost"), 50051));
    assert_eq!(parse_api_addr(&s("127.0.0.1:9092")), (s("127.0.0.1"), 9092));
    assert!(validate_topic_name(&s("events")).is_ok());
    assert!(matches!(validate_topic_name(&s("a:b")), Err(BrokerError::Validation(_))));
}

#[test]
fn errors_are_read_from_their_messages() {
    assert_eq!(BrokerError::from_message(s("NOT_LEADER:l:1")).leader_addr(), Some("l:1"));
    assert_eq!(BrokerError::from_message(s("NOT_LEADER:")).leader_addr(), None);
    assert!(matches!(BrokerError::from_message(s("REBALANCE_IN_PROGRESS")), BrokerError::RebalanceInProgress));
    assert_eq!(BrokerError::from_message(s("other")).to_string(), "other");
}

use std::collections::BTreeMap;

use rust_mq::broker::assignments::compute_assignments;
use rust_mq::broker::config::{RaftConfig, RetentionConfig};
use rust_mq::broker::durability::stale_key;
use rust_mq::broker::multi_broker::{
    forwarded_answer, transport_of, Forwarded, HeartbeatStep, MultiBroker, Transport,
};
use rust_mq::broker::raft::{BrokerCommand, BrokerData, BrokerStoredMessage, GroupStatus};
use rust_mq::broker::recovery::{is_group_key, load_broker_data_from_sled};
use rust_mq::broker::replicated::{
    end_fits, fetch_messages, fetch_offset, get_partition_offset, get_topic_partitions, logs_fit, retains, truncations,
};
use rust_mq::broker::simple_raft;
use rust_mq::broker::sled_storage::SledStorage;
use rust_mq::broker::state_machine::{apply_raft_command, has_room, BrokerStateStore, ReplicatedStateMachine};
use rust_mq::broker::store::{
    make_committed_key, make_group_key, make_message_key, make_message_prefix, make_topic_key, make_watermark_key,
    read_key, StoreKey, StoreValue, StoreWrite,
};
use rust_mq::maps::{Dup, VecMap};

const NOW: i64 = 1_000_000;

fn s(text: &str) -> String {
    text.to_string()
}

fn produce(topic: &str, partition: i32, value: &[u8]) -> BrokerCommand {
    BrokerCommand::Produce { topic: s(topic), partition, key: None, value: value.to_vec() }
}

fn join(group: &str, member: &str, topic: &str) -> BrokerCommand {
    BrokerCommand::GroupJoin {
        group_id: s(group),
        member_id: s(member),
        topic: s(topic),
        metadata: topic.as_bytes().to_vec(),
        session_timeout_ms: 30_000,
    }
}

fn copy_value(v: &StoreValue) -> StoreValue {
    match v {
        StoreValue::Bytes(b) => StoreValue::Bytes(b.clone()),
        StoreValue::Group(g) => StoreValue::Group(g.dup()),
    }
}

/// A store that keeps what it is told to, sorted by key.
struct Mirror {
    entries: BTreeMap<Vec<u8>, StoreValue>,
}

impl Mirror {
    fn write(&mut self, writes: Vec<StoreWrite>) {
        for w in writes {
            match w {
                StoreWrite::Put { key, value } => {
                    self.entries.insert(key.into_bytes(), value);
                }
                StoreWrite::DropBelow { prefix, before_offset } => {
                    self.entries.retain(|k, _| !(k.starts_with(prefix.as_bytes()) && stale_key(k, before_offset)));
                }
            }
        }
    }

    fn reload(&self) -> BrokerData {
        load_broker_data_from_sled(self.entries.iter().map(|(k, v)| (k.clone(), copy_value(v))).collect())
    }
}

fn values(data: &BrokerData, topic: &str, partition: i32) -> Vec<(i64, Vec<u8>)> {
    data.messages
        .get(&(s(topic), partition))
        .map(|log| log.iter().map(|m| (m.offset, m.value.clone())).collect())
        .unwrap_or_default()
}

#[test]
fn commands_build_up_the_state() {
    let mut data = BrokerData::default();
    apply_raft_command(&mut data, BrokerCommand::CreateTopic { topic: s("t"), num_partitions: 2 }, NOW);
    assert_eq!(get_topic_partitions(&data, &s("t")).unwrap().len(), 2);
    assert_eq!(apply_raft_command(&mut data, produce("t", 0, b"a"), NOW).0, 0);
    assert_eq!(apply_raft_command(&mut data, produce("t", 0, b"b"), NOW).0, 1);
    assert_eq!(apply_raft_command(&mut data, produce("t", 1, b"c"), NOW).0, 0);
    let committed = BrokerCommand::CommitOffset { group_id: s("g"), topic: s("t"), partition: 0, offset: 5 };
    assert_eq!(apply_raft_command(&mut data, committed, NOW).0, 5);
    assert_eq!(fetch_offset(&data, &s("g"), &s("t"), 0), (5, String::new()));
    assert_eq!(fetch_offset(&data, &s("g"), &s("t"), 1).0, -1);
    let read = fetch_messages(&data, &s("t"), 0, 1, 1024);
    assert_eq!(read.len(), 1);
    assert_eq!(read[0].value, b"b".to_vec());
}

#[test]
fn offsets_go_on_after_truncation() {
    let mut data = BrokerData::default();
    for _ in 0..3 {
        apply_raft_command(&mut data, produce("t", 0, b"m"), NOW);
    }
    let cut = BrokerCommand::TruncatePartition { topic: s("t"), partition: 0, before_offset: 3 };
    apply_raft_command(&mut data, cut, NOW);
    assert!(values(&data, "t", 0).is_empty());
    assert_eq!(apply_raft_command(&mut data, produce("t", 0, b"m"), NOW).0, 3);
    assert_eq!(get_partition_offset(&data, &s("t"), 0, -2), vec![3]);
    assert_eq!(get_partition_offset(&data, &s("t"), 0, -1), vec![4]);
}

#[test]
fn store_rebuilds_the_state_it_mirrors() {
    let mut data = BrokerData::default();
    let mut mirror = Mirror { entries: BTreeMap::new() };
    let commands = vec![
        BrokerCommand::CreateTopic { topic: s("t"), num_partitions: 2 },
        produce("t", 0, b"a"),
        produce("t", 0, b"b"),
        produce("t", 0, b"c"),
        produce("t", 1, b"d"),
        BrokerCommand::CommitOffset { group_id: s("g"), topic: s("t"), partition: 0, offset: 2 },
        BrokerCommand::TruncatePartition { topic: s("t"), partition: 0, before_offset: 2 },
        join("g", "m1", "t"),
        join("g", "m2", "t"),
        join("g", "m1", "t"),
        BrokerCommand::GroupLeave { group_id: s("g"), member_id: s("m2") },
    ];
    for c in commands {
        let (_, writes) = apply_raft_command(&mut data, c, NOW);
        mirror.write(writes);
    }
    let again = mirror.reload();
    assert_eq!(values(&again, "t", 0), values(&data, "t", 0));
    assert_eq!(values(&again, "t", 0), vec![(2, b"c".to_vec())]);
    assert_eq!(values(&again, "t", 1), vec![(0, b"d".to_vec())]);
    assert_eq!(fetch_offset(&again, &s("g"), &s("t"), 0).0, 2);
    assert_eq!(*again.topics.get(&s("t")).unwrap(), 2);
    assert_eq!(*again.next_offsets.get(&(s("t"), 0)).unwrap(), 3);
    let group = again.groups.get(&s("g")).unwrap();
    let original = data.groups.get(&s("g")).unwrap();
    assert_eq!(group.generation_id, original.generation_id);
    assert_eq!(group.members.len(), original.members.len());
    assert_eq!(group.status, original.status);
}

#[test]
fn store_keys_are_readable_and_sort_by_offset() {
    assert_eq!(make_message_prefix(&s("t"), 3), "msg:t:0000000003:");
    assert_eq!(make_message_key(&s("t"), 3, 42), "msg:t:0000000003:00000000000000000042");
    assert!(make_message_key(&s("t"), 3, 9) < make_message_key(&s("t"), 3, 10));
    match read_key(&make_watermark_key(&s("t"), 1)).unwrap() {
        StoreKey::Watermark { topic, partition } => assert_eq!((topic.as_str(), partition), ("t", 1)),
        _ => panic!("unexpected key"),
    }
    match read_key(&make_committed_key(&s("g"), &s("t"), 2)).unwrap() {
        StoreKey::Committed { group, topic, partition } => {
            assert_eq!((group.as_str(), topic.as_str(), partition), ("g", "t", 2));
        }
        _ => panic!("unexpected key"),
    }
    assert!(matches!(read_key(&make_topic_key(&s("t"))), Some(StoreKey::Topic { .. })));
    assert!(matches!(read_key(&make_group_key(&s("g"))), Some(StoreKey::Group { .. })));
    assert!(read_key("nonsense").is_none());
    assert!(stale_key(b"msg:t:0:00000000000000000004", 5));
    assert!(!stale_key(b"msg:t:0:00000000000000000005", 5));
    assert!(!stale_key(&[0xff], 5));
}

#[test]
fn partitions_are_shared_out_in_turn() {
    let mut subscriptions: VecMap<String, String> = VecMap::new();
    subscriptions.insert(s("b"), s("t"));
    subscriptions.insert(s("a"), s("t"));
    subscriptions.insert(s("c"), s("u"));
    let mut topics: VecMap<String, i32> = VecMap::new();
    topics.insert(s("t"), 5);
    let assigned = compute_assignments(&subscriptions, &topics);
    assert_eq!(assigned.get(&s("a")), Some(&vec![0, 2, 4]));
    assert_eq!(assigned.get(&s("b")), Some(&vec![1, 3]));
    assert_eq!(assigned.get(&s("c")), Some(&vec![0]));
}

struct Shelf {
    saved: usize,
    full: bool,
}

impl BrokerStateStore for Shelf {
    fn load(&self) -> Result<BrokerData, String> {
        if self.full {
            Err(s("unreadable"))
        } else {
            Ok(BrokerData::default())
        }
    }

    fn save(&mut self, data: &BrokerData) -> Result<(), String> {
        if self.full {
            return Err(s("no room"));
        }
        self.saved = data.messages.len();
        Ok(())
    }
}

#[test]
fn state_machine_hands_every_state_to_its_store() {
    let mut machine = ReplicatedStateMachine::open(Shelf { saved: 0, full: false }).unwrap();
    assert_eq!(machine.apply(produce("t", 0, b"a"), NOW).unwrap(), 0);
    assert_eq!(machine.snapshot().messages.len(), 1);
    assert_eq!(ReplicatedStateMachine::open(Shelf { saved: 0, full: true }).err().unwrap(), "unreadable");
    let mut stuck = ReplicatedStateMachine::with_state(Shelf { saved: 0, full: true }, BrokerData::default());
    assert_eq!(stuck.apply(produce("t", 0, b"a"), NOW).unwrap_err(), "no room");
    assert_eq!(stuck.snapshot().messages.len(), 1);
}

#[test]
fn sled_storage_serves_topics_messages_and_groups() {
    let mut storage = SledStorage::open(1, s("h"), 9, Vec::new());
    let mut mirror = Mirror { entries: BTreeMap::new() };
    assert_eq!(storage.get_coordinator_info(), (1, s("h"), 9));
    assert!(storage.create_topic(&s("t"), 0, NOW).is_err());
    mirror.write(storage.create_topic(&s("t"), 2, NOW).unwrap());
    let (offset, writes) = storage.produce_message(&s("t"), 0, None, b"a".to_vec(), NOW).unwrap();
    assert_eq!(offset, 0);
    mirror.write(writes);
    assert_eq!(storage.fetch_messages(&s("t"), 0, 0, 100).unwrap().len(), 1);
    let mut topics = storage.get_topics();
    topics.sort();
    assert_eq!(topics, vec![s("t")]);
    mirror.write(storage.commit_offset(&s("g"), &s("t"), 0, 7, NOW).unwrap());
    assert_eq!(storage.fetch_offset(&s("g"), &s("t"), 0).unwrap().0, 7);
    let reopened = SledStorage::open(
        1,
        s("h"),
        9,
        mirror.entries.iter().map(|(k, v)| (k.clone(), copy_value(v))).collect(),
    );
    assert_eq!(reopened.fetch_messages(&s("t"), 0, 0, 100).unwrap()[0].value, b"a".to_vec());
    assert_eq!(reopened.fetch_offset(&s("g"), &s("t"), 0).unwrap().0, 7);
}

#[test]
fn retention_truncates_old_and_surplus_messages() {
    let mut data = BrokerData::default();
    for i in 0..5 {
        apply_raft_command(&mut data, produce("t", 0, b"m"), NOW + i * 100);
    }
    let by_age = RetentionConfig { retention_ms: Some(250), max_messages_per_partition: None };
    let cut = truncations(&data, &by_age, NOW + 500);
    assert_eq!(cut, vec![(s("t"), 0, 3)]);
    let by_count = RetentionConfig { retention_ms: None, max_messages_per_partition: Some(2) };
    let cut = truncations(&data, &by_count, NOW);
    assert_eq!(cut, vec![(s("t"), 0, 3)]);
    assert!(retains(&by_age) && retains(&by_count));
    let keep = RetentionConfig { retention_ms: None, max_messages_per_partition: None };
    assert!(truncations(&data, &keep, NOW).is_empty());
    assert!(!retains(&keep));
}

#[test]
fn broker_of_many_answers_or_passes_on() {
    assert_eq!(transport_of(&s("sbe_tcp")), Transport::SbeTcp);
    assert_eq!(transport_of(&s("other")), Transport::Grpc);
    let config: Option<RaftConfig> = None;
    let mut broker = MultiBroker::new(3, &config);
    assert_eq!(broker.get_coordinator_info(), (3, s("127.0.0.1"), 9095));
    assert!(broker.create_topic(&s("bad:name"), 1).is_err());
    assert!(matches!(broker.create_topic(&s("t"), 2).unwrap(), BrokerCommand::CreateTopic { num_partitions: 2, .. }));

    let mut data = BrokerData::default();
    apply_raft_command(&mut data, join("g", "m", "t"), NOW);
    match broker.heartbeat(&data, true, None, &s("g"), &s("m"), NOW) {
        HeartbeatStep::Answer(a) => assert!(a.is_ok()),
        HeartbeatStep::Forward(_) => panic!("the leader answers itself"),
    }
    match broker.heartbeat(&data, false, Some(s("l:1")), &s("g"), &s("m"), NOW) {
        HeartbeatStep::Forward(addr) => assert_eq!(addr, "l:1"),
        HeartbeatStep::Answer(_) => panic!("another broker passes on"),
    }
    match broker.heartbeat(&data, false, None, &s("g"), &s("m"), NOW) {
        HeartbeatStep::Answer(a) => assert_eq!(a.unwrap_err().to_string(), "NOT_LEADER:"),
        HeartbeatStep::Forward(_) => panic!("nobody to pass on to"),
    }
    let leader = s("l:1");
    assert!(forwarded_answer(&leader, Forwarded::Answered(0)).is_ok());
    let text = |f| forwarded_answer(&leader, f).unwrap_err().to_string();
    assert_eq!(text(Forwarded::Answered(27)), "REBALANCE_IN_PROGRESS");
    assert_eq!(text(Forwarded::Answered(3)), "Heartbeat error_code=3 from leader l:1");
    assert_eq!(text(Forwarded::Unreachable), "NOT_LEADER:l:1");
    assert_eq!(text(Forwarded::Failed(s("late"))), "Failed to forward heartbeat to leader l:1: late");
    assert!(broker.liveness(&data, false, NOW + 100_000).is_empty());
    assert!(matches!(
        broker.liveness(&data, true, NOW + 100_000).first(),
        Some(BrokerCommand::GroupExpire { .. })
    ));
}

#[test]
fn groups_rebalance_when_members_come_and_go() {
    let mut data = BrokerData::default();
    apply_raft_command(&mut data, BrokerCommand::CreateTopic { topic: s("t"), num_partitions: 2 }, NOW);
    apply_raft_command(&mut data, join("g", "m1", "t"), NOW);
    assert_eq!(data.groups.get(&s("g")).unwrap().status, GroupStatus::Stable);
    apply_raft_command(&mut data, join("g", "m2", "t"), NOW);
    assert_eq!(data.groups.get(&s("g")).unwrap().status, GroupStatus::PreparingRebalance);
    apply_raft_command(&mut data, BrokerCommand::GroupFinalize { group_id: s("g") }, NOW);
    assert_eq!(data.groups.get(&s("g")).unwrap().status, GroupStatus::Stable);
    let expire = BrokerCommand::GroupExpire { group_id: s("g"), expired_ids: vec![s("m1"), s("m2")] };
    apply_raft_command(&mut data, expire, NOW);
    let group = data.groups.get(&s("g")).unwrap();
    assert!(group.members.is_empty());
    assert_eq!(group.status, GroupStatus::Empty);
}

#[test]
fn rebalance_waits_for_everybody_who_is_left() {
    let mut data = BrokerData::default();
    apply_raft_command(&mut data, BrokerCommand::CreateTopic { topic: s("t"), num_partitions: 3 }, NOW);
    for m in ["m1", "m2", "m1", "m3", "m1", "m2"] {
        apply_raft_command(&mut data, join("g", m, "t"), NOW);
    }
    assert_eq!(data.groups.get(&s("g")).unwrap().status, GroupStatus::Stable);
    assert_eq!(data.groups.get(&s("g")).unwrap().members.len(), 3);
    let leave = BrokerCommand::GroupLeave { group_id: s("g"), member_id: s("m3") };
    apply_raft_command(&mut data, leave, NOW);
    apply_raft_command(&mut data, join("g", "m1", "t"), NOW);
    let group = data.groups.get(&s("g")).unwrap();
    assert_eq!(group.status, GroupStatus::PreparingRebalance);
    assert_eq!(group.members.len(), 2);
    apply_raft_command(&mut data, join("g", "m2", "t"), NOW);
    let group = data.groups.get(&s("g")).unwrap();
    assert_eq!(group.status, GroupStatus::Stable);
    assert_eq!(group.members.len(), 2);
}

#[test]
fn recorded_offsets_outlive_truncation_and_creation() {
    let mut data = BrokerData::default();
    let produce = || BrokerCommand::Produce { topic: s("t"), partition: 0, key: None, value: b"v".to_vec() };
    let create = || BrokerCommand::CreateTopic { topic: s("t"), num_partitions: 1 };
    apply_raft_command(&mut data, create(), NOW);
    assert_eq!(apply_raft_command(&mut data, produce(), NOW).0, 0);
    assert_eq!(apply_raft_command(&mut data, produce(), NOW).0, 1);
    let cut = BrokerCommand::TruncatePartition { topic: s("t"), partition: 0, before_offset: 2 };
    apply_raft_command(&mut data, cut, NOW);
    apply_raft_command(&mut data, create(), NOW);
    assert_eq!(data.next_offsets.get(&(s("t"), 0)), Some(&2));
    assert_eq!(apply_raft_command(&mut data, produce(), NOW).0, 2);
}

#[test]
fn simple_log_applies_what_is_committed() {
    let mut data = simple_raft::BrokerData::default();
    let produce = |value: &[u8]| simple_raft::BrokerCommand::Produce {
        topic: s("t"),
        partition: 0,
        key: None,
        value: value.to_vec(),
    };
    let commit =
        simple_raft::BrokerCommand::CommitOffset { group_id: s("g"), topic: s("t"), partition: 0, offset: 1 };
    simple_raft::apply_committed(&mut data, vec![Some(produce(b"a")), None, Some(produce(b"b")), Some(commit)]);
    let log = data.messages.get(&(s("t"), 0)).unwrap();
    assert_eq!(log.iter().map(|m| m.offset).collect::<Vec<_>>(), vec![0, 1]);
    assert_eq!(*data.offsets.get(&(s("g"), s("t"), 0)).unwrap(), 1);
    assert_eq!(simple_raft::apply_command(&mut data, produce(b"c")), 2);
    assert!(simple_raft::check_leader(true).is_ok());
    assert_eq!(simple_raft::check_leader(false).unwrap_err(), "not leader for partition");
}

#[test]
fn stored_messages_can_be_copied() {
    let m = BrokerStoredMessage { offset: 1, key: Some(vec![1]), value: vec![2], timestamp_ms: 3 };
    let c = m.dup();
    assert_eq!((c.offset, c.key, c.value, c.timestamp_ms), (1, Some(vec![1]), vec![2], 3));
}

fn bytes_of(w: &StoreWrite) -> (String, Vec<u8>) {
    match w {
        StoreWrite::Put { key, value: StoreValue::Bytes(b) } => (key.clone(), b.clone()),
        _ => panic!("no bytes are written"),
    }
}

#[test]
fn numbers_and_messages_are_written_as_bytes() {
    let mut data = BrokerData::default();
    let (_, writes) = apply_raft_command(&mut data, produce("t", 1, b"ab"), NOW);
    let message: (i64, Option<Vec<u8>>, Vec<u8>, i64) = (0, None, b"ab".to_vec(), NOW);
    assert_eq!(bytes_of(&writes[0]), (make_message_key(&s("t"), 1, 0), bincode::serialize(&message).unwrap()));
    assert_eq!(bytes_of(&writes[1]), (make_watermark_key(&s("t"), 1), vec![1, 0, 0, 0, 0, 0, 0, 0]));

    let commit = BrokerCommand::CommitOffset { group_id: s("g"), topic: s("t"), partition: 1, offset: -2 };
    let (_, writes) = apply_raft_command(&mut data, commit, NOW);
    let key = make_committed_key(&s("g"), &s("t"), 1);
    assert_eq!(bytes_of(&writes[0]), (key, vec![254, 255, 255, 255, 255, 255, 255, 255]));

    let create = BrokerCommand::CreateTopic { topic: s("t"), num_partitions: 258 };
    let (_, writes) = apply_raft_command(&mut data, create, NOW);
    assert_eq!(bytes_of(&writes[0]), (make_topic_key(&s("t")), vec![2, 1, 0, 0]));
}

#[test]
fn unreadable_values_are_passed_over() {
    let entry = |key: String, bytes: Vec<u8>| (key.into_bytes(), StoreValue::Bytes(bytes));
    let message: (i64, Option<Vec<u8>>, Vec<u8>, i64) = (7, Some(vec![1]), vec![2, 3], 9);
    let mut whole = bincode::serialize(&message).unwrap();
    let cut = whole[..whole.len() - 1].to_vec();
    whole.push(0);
    let data = load_broker_data_from_sled(vec![
        entry(make_message_key(&s("t"), 0, 7), whole),
        entry(make_message_key(&s("t"), 0, 8), cut),
        entry(make_watermark_key(&s("t"), 0), vec![8, 0, 0, 0, 0, 0, 0, 0, 99]),
        entry(make_watermark_key(&s("t"), 1), vec![8, 0, 0, 0, 0, 0, 0]),
        entry(make_committed_key(&s("g"), &s("t"), 0), bincode::serialize(&-5i64).unwrap()),
        entry(make_committed_key(&s("g"), &s("t"), 1), Vec::new()),
        entry(make_topic_key(&s("t")), bincode::serialize(&3i32).unwrap()),
        entry(make_topic_key(&s("u")), vec![1, 2, 3]),
        entry(make_group_key(&s("g")), vec![1, 2, 3]),
        entry(s("xyz:t"), vec![0; 8]),
        (vec![b'o', b'f', b'f', b':', 255], StoreValue::Bytes(vec![0; 8])),
    ]);
    assert_eq!(values(&data, "t", 0), vec![(7, vec![2, 3])]);
    assert_eq!(data.messages.get(&(s("t"), 0)).unwrap()[0].key, Some(vec![1]));
    assert_eq!(data.next_offsets.len(), 1);
    assert_eq!(*data.next_offsets.get(&(s("t"), 0)).unwrap(), 8);
    assert_eq!(data.offsets.len(), 1);
    assert_eq!(*data.offsets.get(&(s("g"), s("t"), 0)).unwrap(), -5);
    assert_eq!(data.topics.len(), 1);
    assert_eq!(*data.topics.get(&s("t")).unwrap(), 3);
    assert_eq!(data.groups.len(), 0);
}

#[test]
fn groups_are_known_by_their_keys() {
    assert!(is_group_key(make_group_key(&s("g")).as_bytes()));
    assert!(is_group_key(b"grp:"));
    assert!(!is_group_key(b"grp"));
    assert!(!is_group_key(make_topic_key(&s("g")).as_bytes()));
    assert!(!is_group_key(&[b'g', b'r', b'p', b':', 255]));
}

#[test]
fn counting_ends_with_the_type() {
    let mut data = BrokerData::default();
    assert!(has_room(&data, &produce("t", 0, b"a")) && has_room(&data, &join("g", "m", "t")));
    data.next_offsets.insert((s("t"), 0), i64::MAX - 1);
    assert!(has_room(&data, &produce("t", 0, b"a")));
    data.next_offsets.insert((s("t"), 0), i64::MAX);
    assert!(!has_room(&data, &produce("t", 0, b"a")));

    let last = |offset: i64| vec![BrokerStoredMessage { offset, key: None, value: Vec::new(), timestamp_ms: NOW }];
    data.messages.insert((s("t"), 1), last(i64::MAX - 2));
    assert!(has_room(&data, &produce("t", 1, b"a")));
    data.messages.insert((s("t"), 1), last(i64::MAX - 1));
    assert!(!has_room(&data, &produce("t", 1, b"a")));
    assert!(end_fits(&data, &s("t"), 1) && logs_fit(&data));
    data.messages.insert((s("t"), 1), last(i64::MAX));
    assert!(!end_fits(&data, &s("t"), 1) && !logs_fit(&data));
    assert!(end_fits(&data, &s("t"), 0));

    apply_raft_command(&mut data, join("g", "m", "t"), NOW);
    let mut group = data.groups.remove(&s("g")).unwrap();
    group.generation_id = i32::MAX;
    data.groups.insert(s("g"), group);
    assert!(!has_room(&data, &join("g", "m", "t")) && has_room(&data, &join("h", "m", "t")));
    assert!(!has_room(&data, &BrokerCommand::GroupLeave { group_id: s("g"), member_id: s("m") }));
    assert!(has_room(&data, &BrokerCommand::GroupFinalize { group_id: s("g") }));
}

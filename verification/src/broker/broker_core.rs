//! How a broker answers requests out of its storage.
use vstd::prelude::*;

use crate::api::broker::{
    AddNodeRequest, AddNodeResponse, CommitPartition, CommitPartitionResult, CommitTopic, CommitTopicResult,
    CreateTopicRequest, CreateTopicResponse, FetchPartition, FetchPartitionResult, FetchRequest, FetchResponse,
    FetchTopic, FetchTopicResult, FetchedRecord, GroupCoordinatorRequest, GroupCoordinatorResponse, HeartbeatRequest,
    HeartbeatResponse, JoinGroupRequest, JoinGroupResponse, JoinedMember, LeaveGroupRequest, LeaveGroupResponse,
    ListOffsetsPartition, ListOffsetsRequest, ListOffsetsResponse, ListOffsetsTopic, ListOffsetsTopicResult,
    MetadataBroker, OffsetCommitRequest, OffsetCommitResponse, OffsetFetchPartitionResult, OffsetFetchRequest,
    OffsetFetchResponse, OffsetFetchTopic, OffsetFetchTopicResult, PartitionMetadata, PartitionOffsets,
    ProducePartition, ProducePartitionResult, ProduceRequest, ProduceResponse, ProduceTopic, ProduceTopicResult,
    Record, RemoveNodeRequest, RemoveNodeResponse, SyncGroupRequest, SyncGroupResponse, TopicMetadata,
    TopicMetadataRequest, TopicMetadataResponse,
};
use crate::broker::raft::{MemberView, MessageView};
use crate::broker::reading::reading_starts_at_the_message;
use crate::broker::service::{join_shown, shown, unbroken, BrokerStorage, JoinView};
use crate::broker::storage::{messages_of, GroupMember, InMemoryStorage, StoredMessage};
use crate::maps::Dup;
use crate::text::{has_prefix, strip_prefix};

verus! {

/// The answers to storing records one after another, from one storage to the next.
pub open spec fn stores<S: BrokerStorage>(
    before: S,
    topic: Seq<char>,
    partition: i32,
    records: Seq<Record>,
    now: i64,
    results: Seq<Result<i64, Seq<char>>>,
    after: S,
) -> bool
    decreases records.len(),
{
    if records.len() == 0 {
        results.len() == 0 && before == after
    } else {
        results.len() == records.len() && exists|mid: S|
            stores(before, topic, partition, records.drop_last(), now, results.drop_last(), mid) && #[trigger] S::produces(
                mid,
                topic,
                partition,
                records.last().key.deep_view(),
                records.last().value.deep_view(),
                now,
                results.last(),
                after,
            )
    }
}

/// The error names another leader.
pub open spec fn is_not_leader(e: Seq<char>) -> bool {
    has_prefix(e, "NOT_LEADER:"@)
}

/// The leader that the error names.
pub open spec fn named_leader(e: Seq<char>) -> Seq<char> {
    e.skip("NOT_LEADER:"@.len() as int)
}

/// The offset of the last record that was stored, or minus one.
pub open spec fn last_offset(results: Seq<Result<i64, Seq<char>>>) -> i64
    decreases results.len(),
{
    if results.len() == 0 {
        -1i64
    } else {
        match results.last() {
            Ok(o) => o,
            Err(_) => last_offset(results.drop_last()),
        }
    }
}

/// The code of the last error: six where another broker leads, else one; zero where
/// there was no error.
pub open spec fn last_code(results: Seq<Result<i64, Seq<char>>>) -> i32
    decreases results.len(),
{
    if results.len() == 0 {
        0i32
    } else {
        match results.last() {
            Ok(_) => last_code(results.drop_last()),
            Err(e) => if is_not_leader(e) { 6 } else { 1 },
        }
    }
}

/// The leader in the last error that names one.
pub open spec fn last_leader(results: Seq<Result<i64, Seq<char>>>) -> Seq<char>
    decreases results.len(),
{
    if results.len() == 0 {
        Seq::empty()
    } else {
        match results.last() {
            Err(e) if is_not_leader(e) => named_leader(e),
            _ => last_leader(results.drop_last()),
        }
    }
}

/// The answer for a partition, by what became of its records.
pub open spec fn is_produce_answer(a: ProducePartitionResult, partition: i32, results: Seq<Result<i64, Seq<char>>>) -> bool {
    &&& a.partition == partition
    &&& a.error_code == last_code(results)
    &&& a.offset == last_offset(results)
    &&& a.leader_addr@ == last_leader(results)
}

/// A partition's records are stored, and the answer says what became of them.
pub open spec fn answers_partition<S: BrokerStorage>(
    before: S,
    topic: Seq<char>,
    part: ProducePartition,
    now: i64,
    answer: ProducePartitionResult,
    after: S,
) -> bool {
    exists|results: Seq<Result<i64, Seq<char>>>| #[trigger]
        stores(before, topic, part.partition, part.records@, now, results, after) && is_produce_answer(
            answer,
            part.partition,
            results,
        )
}

/// The partitions of a topic are stored one after another.
pub open spec fn answers_partitions<S: BrokerStorage>(
    before: S,
    topic: Seq<char>,
    parts: Seq<ProducePartition>,
    now: i64,
    answers: Seq<ProducePartitionResult>,
    after: S,
) -> bool
    decreases parts.len(),
{
    if parts.len() == 0 {
        answers.len() == 0 && before == after
    } else {
        answers.len() == parts.len() && exists|mid: S|
            answers_partitions(before, topic, parts.drop_last(), now, answers.drop_last(), mid)
                && #[trigger] answers_partition(mid, topic, parts.last(), now, answers.last(), after)
    }
}

/// The topics of a request are stored one after another.
pub open spec fn answers_topics<S: BrokerStorage>(
    before: S,
    topics: Seq<ProduceTopic>,
    now: i64,
    answers: Seq<ProduceTopicResult>,
    after: S,
) -> bool
    decreases topics.len(),
{
    if topics.len() == 0 {
        answers.len() == 0 && before == after
    } else {
        answers.len() == topics.len() && answers.last().topic_name@ == topics.last().topic_name@ && exists|mid: S|
            answers_topics(before, topics.drop_last(), now, answers.drop_last(), mid) && #[trigger] answers_partitions(
                mid,
                topics.last().topic_name@,
                topics.last().partitions@,
                now,
                answers.last().partitions@,
                after,
            )
    }
}

/// The offset behind another; behind the largest comes the smallest.
pub open spec fn successor(offset: i64) -> i64 {
    if offset == i64::MAX { i64::MIN } else { (offset + 1) as i64 }
}

/// The records show the messages.
pub open spec fn show_messages(records: Seq<FetchedRecord>, messages: Seq<MessageView>) -> bool {
    &&& records.len() == messages.len()
    &&& forall|i: int|
        0 <= i < records.len() ==> (#[trigger] records[i]).offset == messages[i].offset && records[i].key.deep_view()
            == messages[i].key && records[i].value.deep_view() == messages[i].value
}

/// The answer for a partition, by what was read.
pub open spec fn is_fetch_answer(
    a: FetchPartitionResult,
    part: FetchPartition,
    r: Result<Seq<MessageView>, Seq<char>>,
) -> bool {
    &&& a.partition == part.partition
    &&& match r {
        Ok(messages) => {
            &&& a.error_code == 0
            &&& a.high_watermark_offset == (if messages.len() == 0 {
                part.fetch_offset
            } else {
                successor(messages.last().offset)
            })
            &&& show_messages(a.records@, messages)
        },
        Err(_) => a.error_code == 1 && a.high_watermark_offset == 0 && a.records@.len() == 0,
    }
}

/// What was read of a partition is what the storage gave.
pub open spec fn fetches_partition<S: BrokerStorage>(
    s: S,
    topic: Seq<char>,
    part: FetchPartition,
    a: FetchPartitionResult,
) -> bool {
    exists|r: Result<Seq<MessageView>, Seq<char>>| #[trigger]
        s.fetches(topic, part.partition, part.fetch_offset, part.max_bytes, r) && is_fetch_answer(a, part, r)
}

/// What was read of a topic is what the storage gave.
pub open spec fn fetches_topic<S: BrokerStorage>(s: S, t: FetchTopic, a: FetchTopicResult) -> bool {
    &&& a.topic_name@ == t.topic_name@
    &&& a.partitions@.len() == t.partitions@.len()
    &&& forall|i: int|
        0 <= i < t.partitions@.len() ==> fetches_partition(
            s,
            t.topic_name@,
            t.partitions@[i],
            #[trigger] a.partitions@[i],
        )
}

/// The answer for a partition, by the offsets that were found.
pub open spec fn is_offsets_answer(a: PartitionOffsets, partition: i32, r: Result<Seq<i64>, Seq<char>>) -> bool {
    &&& a.partition == partition
    &&& match r {
        Ok(offsets) => a.error_code == 0 && a.offsets@ == offsets,
        Err(_) => a.error_code == 1 && a.offsets@.len() == 0,
    }
}

/// The offsets of a topic are those that the storage gave.
pub open spec fn dates_topic<S: BrokerStorage>(s: S, t: ListOffsetsTopic, a: ListOffsetsTopicResult) -> bool {
    &&& a.topic_name@ == t.topic_name@
    &&& a.partitions@.len() == t.partitions@.len()
    &&& forall|i: int|
        0 <= i < t.partitions@.len() ==> dates_partition(
            s,
            t.topic_name@,
            t.partitions@[i],
            #[trigger] a.partitions@[i],
        )
}

/// The offsets of a partition are those that the storage gave.
pub open spec fn dates_partition<S: BrokerStorage>(
    s: S,
    topic: Seq<char>,
    part: ListOffsetsPartition,
    a: PartitionOffsets,
) -> bool {
    exists|r: Result<Seq<i64>, Seq<char>>| #[trigger]
        s.dates(topic, part.partition, part.time, r) && is_offsets_answer(a, part.partition, r)
}

/// The code of a group's refusal: twenty-seven during a rebalance, else one.
pub open spec fn refusal_code(e: Seq<char>) -> i32 {
    if e == "REBALANCE_IN_PROGRESS"@ { 27 } else { 1 }
}

/// The code of an answer: zero, or that of the refusal.
pub open spec fn group_code<T>(r: Result<T, Seq<char>>) -> i32 {
    match r {
        Ok(_) => 0i32,
        Err(e) => refusal_code(e),
    }
}

/// The metadata of the first way of assigning partitions, if there is one.
pub open spec fn first_metadata(request: JoinGroupRequest) -> Seq<u8> {
    if request.group_protocols@.len() == 0 {
        Seq::empty()
    } else {
        request.group_protocols@[0].protocol_metadata@
    }
}

/// The name of the first way of assigning partitions, if there is one.
pub open spec fn first_protocol(request: JoinGroupRequest) -> Seq<char> {
    if request.group_protocols@.len() == 0 {
        Seq::empty()
    } else {
        request.group_protocols@[0].protocol_name@
    }
}

/// The list shows the members.
pub open spec fn show_members(list: Seq<JoinedMember>, members: Seq<MemberView>) -> bool {
    &&& list.len() == members.len()
    &&& forall|i: int|
        0 <= i < list.len() ==> (#[trigger] list[i]).member_id@ == members[i].member_id
            && list[i].member_metadata.deep_view() == members[i].metadata
}

/// The answer to a join.
pub open spec fn is_join_response(a: JoinGroupResponse, protocol: Seq<char>, r: Result<JoinView, Seq<char>>) -> bool {
    match r {
        Ok(j) => {
            &&& a.error_code == 0
            &&& a.generation_id == j.0
            &&& a.group_protocol@ == protocol
            &&& a.leader_id@ == j.1
            &&& a.member_id@ == j.2
            &&& show_members(a.members@, j.3)
        },
        Err(_) => {
            &&& a.error_code == 1
            &&& a.generation_id == -1
            &&& a.group_protocol@.len() == 0
            &&& a.leader_id@.len() == 0
            &&& a.member_id@.len() == 0
            &&& a.members@.len() == 0
        },
    }
}

/// The code of an answer that says no more than whether it worked.
pub open spec fn plain_code<T>(r: Result<T, Seq<char>>) -> i32 {
    if r is Ok { 0 } else { 1 }
}

/// A partition's offset is committed, and the answer says whether it was.
pub open spec fn commits_partition<S: BrokerStorage>(
    before: S,
    group: Seq<char>,
    topic: Seq<char>,
    part: CommitPartition,
    answer: CommitPartitionResult,
    after: S,
) -> bool {
    exists|r: Result<(), Seq<char>>| #[trigger]
        S::commits(before, group, topic, part.partition, part.offset, part.metadata@, r, after) && answer == (
        CommitPartitionResult { partition: part.partition, error_code: plain_code(r) })
}

/// The partitions of a topic are committed one after another.
pub open spec fn commits_partitions<S: BrokerStorage>(
    before: S,
    group: Seq<char>,
    topic: Seq<char>,
    parts: Seq<CommitPartition>,
    answers: Seq<CommitPartitionResult>,
    after: S,
) -> bool
    decreases parts.len(),
{
    if parts.len() == 0 {
        answers.len() == 0 && before == after
    } else {
        answers.len() == parts.len() && exists|mid: S|
            commits_partitions(before, group, topic, parts.drop_last(), answers.drop_last(), mid)
                && #[trigger] commits_partition(mid, group, topic, parts.last(), answers.last(), after)
    }
}

/// The topics of a request are committed one after another.
pub open spec fn commits_topics<S: BrokerStorage>(
    before: S,
    group: Seq<char>,
    topics: Seq<CommitTopic>,
    answers: Seq<CommitTopicResult>,
    after: S,
) -> bool
    decreases topics.len(),
{
    if topics.len() == 0 {
        answers.len() == 0 && before == after
    } else {
        answers.len() == topics.len() && answers.last().topic_name@ == topics.last().topic_name@ && exists|mid: S|
            commits_topics(before, group, topics.drop_last(), answers.drop_last(), mid) && #[trigger] commits_partitions(
                mid,
                group,
                topics.last().topic_name@,
                topics.last().partitions@,
                answers.last().partitions@,
                after,
            )
    }
}

/// The answer for a partition, by what was committed.
pub open spec fn is_recall_answer(
    a: OffsetFetchPartitionResult,
    partition: i32,
    r: Result<(i64, Seq<char>), Seq<char>>,
) -> bool {
    &&& a.partition == partition
    &&& match r {
        Ok(v) => a.error_code == 0 && a.offset == v.0 && a.metadata@ == v.1,
        Err(_) => a.error_code == 1 && a.offset == -1 && a.metadata@.len() == 0,
    }
}

/// What was committed for a partition is what the storage gave.
pub open spec fn recalls_partition<S: BrokerStorage>(
    s: S,
    group: Seq<char>,
    topic: Seq<char>,
    partition: i32,
    a: OffsetFetchPartitionResult,
) -> bool {
    exists|r: Result<(i64, Seq<char>), Seq<char>>| #[trigger]
        s.recalls(group, topic, partition, r) && is_recall_answer(a, partition, r)
}

/// What was committed for a topic is what the storage gave.
pub open spec fn recalls_topic<S: BrokerStorage>(
    s: S,
    group: Seq<char>,
    t: OffsetFetchTopic,
    a: OffsetFetchTopicResult,
) -> bool {
    &&& a.topic_name@ == t.topic_name@
    &&& a.partitions@.len() == t.partitions@.len()
    &&& forall|i: int|
        0 <= i < t.partitions@.len() ==> recalls_partition(
            s,
            group,
            t.topic_name@,
            t.partitions@[i],
            #[trigger] a.partitions@[i],
        )
}

/// A partition that the first broker leads alone.
pub open spec fn is_own_partition(p: PartitionMetadata, partition_id: i32) -> bool {
    &&& p.partition_error_code == 0
    &&& p.partition_id == partition_id
    &&& p.leader == 1
    &&& p.replicas@ == seq![1i32]
    &&& p.isr@ == seq![1i32]
}

/// A topic with its partitions.
pub open spec fn is_topic_metadata(t: TopicMetadata, name: Seq<char>, partitions: Seq<i32>) -> bool {
    &&& t.topic_error_code == 0
    &&& t.topic_name@ == name
    &&& t.partitions@.len() == partitions.len()
    &&& forall|i: int| 0 <= i < partitions.len() ==> is_own_partition(#[trigger] t.partitions@[i], partitions[i])
}

/// The topics among the names that exist, in their order, with their partitions.
pub open spec fn describes<S: BrokerStorage>(s: S, names: Seq<Seq<char>>, topics: Seq<TopicMetadata>) -> bool
    decreases names.len(),
{
    if names.len() == 0 {
        topics.len() == 0
    } else {
        exists|r: Option<Seq<i32>>| #[trigger]
            s.divides(names.last(), r) && match r {
                Some(partitions) => topics.len() > 0 && is_topic_metadata(topics.last(), names.last(), partitions)
                    && describes(s, names.drop_last(), topics.drop_last()),
                None => describes(s, names.drop_last(), topics),
            }
    }
}

/// The topics that a request is about: those that it names, or else all.
pub open spec fn asked_topics<S: BrokerStorage>(s: S, request: TopicMetadataRequest, names: Seq<Seq<char>>) -> bool {
    if request.topics@.len() == 0 {
        s.lists(names)
    } else {
        names == request.topics.deep_view()
    }
}

/// The one broker.
pub open spec fn is_own_broker<S: BrokerStorage>(s: S, brokers: Seq<MetadataBroker>) -> bool {
    brokers.len() == 1 && s.located((brokers[0].node_id, brokers[0].host@, brokers[0].port))
}

/// The code and the text of an answer to a change of the cluster: six with the address
/// of the leader where another broker leads, one with the error otherwise.
pub open spec fn node_answer(r: Result<(), Seq<char>>) -> (i32, Seq<char>) {
    match r {
        Ok(_) => (0i32, Seq::empty()),
        Err(e) => if is_not_leader(e) {
            (6i32, named_leader(e))
        } else {
            (1i32, e)
        },
    }
}

/// Answers requests out of a storage.
pub struct BrokerCore<S: BrokerStorage> {
    pub storage: S,
}

fn answer_node(r: Result<(), String>) -> (a: (i32, String))
    ensures
        (a.0, a.1@) == node_answer(shown(r)),
{
    match r {
        Ok(_) => {
            let none = String::new();
            assert(none@ =~= Seq::<char>::empty());
            (0, none)
        },
        Err(e) => match strip_prefix(e.as_str(), "NOT_LEADER:") {
            Some(addr) => (6, addr),
            None => (1, e),
        },
    }
}

fn code_of_refusal(e: &String) -> (code: i32)
    ensures
        code == refusal_code(e@),
{
    if *e == "REBALANCE_IN_PROGRESS".to_owned() {
        27
    } else {
        1
    }
}

impl<S: BrokerStorage> BrokerCore<S> {
    /// A broker with a storage.
    pub fn new(storage: S) -> (r: Self)
        ensures
            r.storage == storage,
    {
        BrokerCore { storage }
    }

    /// The topics and where they are led.
    pub fn handle_get_topic_metadata(&self, request: TopicMetadataRequest) -> (r: TopicMetadataResponse)
        ensures
            exists|names: Seq<Seq<char>>| #[trigger]
                asked_topics(self.storage, request, names) && describes(self.storage, names, r.topics@),
            is_own_broker(self.storage, r.brokers@),
    {
        let all = request.topics.len() == 0;
        let names = if all { self.storage.get_topics() } else { request.topics };
        let ghost list = names.deep_view();
        assert(asked_topics(self.storage, request, list));
        let n = names.len();
        assert(n == list.len());
        let mut topics: Vec<TopicMetadata> = Vec::new();
        let mut i: usize = 0;
        assert(list.take(0) =~= Seq::empty());
        for name in it: names
            invariant
                it.seq() == names@,
                list == names.deep_view(),
                n == list.len(),
                i == it.index(),
                i <= n,
                describes(self.storage, list.take(i as int), topics@),
        {
            proof {
                assert(name@ == list[i as int]);
                assert(list.take(i + 1).drop_last() =~= list.take(i as int));
                assert(list.take(i + 1).last() == name@);
            }
            let ghost before = topics@;
            let found = self.storage.get_topic_partitions(&name);
            assert(self.storage.divides(name@, found.deep_view()));
            if let Some(ids) = found {
                let partitions = own_partitions(&ids);
                assert(ids.deep_view() =~= ids@);
                topics.push(TopicMetadata { topic_error_code: 0, topic_name: name, partitions });
                assert(topics@.drop_last() =~= before);
            }
            i += 1;
        }
        assert(list.take(i as int) =~= list);
        let (node_id, host, port) = self.storage.get_coordinator_info();
        let mut brokers: Vec<MetadataBroker> = Vec::new();
        brokers.push(MetadataBroker { node_id, host, port });
        TopicMetadataResponse { brokers, topics }
    }

    fn store_partition(&mut self, topic: &String, part: ProducePartition, now: i64) -> (r: ProducePartitionResult)
        ensures
            answers_partition(old(self).storage, topic@, part, now, r, final(self).storage),
    {
        let ghost start = self.storage;
        let ghost records = part.records@;
        let partition = part.partition;
        let mut offset: i64 = -1;
        let mut error_code: i32 = 0;
        let mut leader_addr = String::new();
        let ghost mut results: Seq<Result<i64, Seq<char>>> = Seq::empty();
        let n = part.records.len();
        let mut i: usize = 0;
        assert(records.take(0) =~= Seq::empty());
        assert(leader_addr@ =~= last_leader(results));
        for record in it: part.records
            invariant
                it.seq() == records,
                n == records.len(),
                i == it.index(),
                i <= n,
                results.len() == i,
                stores(start, topic@, partition, records.take(i as int), now, results, self.storage),
                offset == last_offset(results),
                error_code == last_code(results),
                leader_addr@ == last_leader(results),
        {
            let ghost mid = self.storage;
            let ghost seen = results;
            let ghost k = record.key.deep_view();
            let ghost v = record.value.deep_view();
            proof {
                assert(record == records[i as int]);
                assert(records.take(i + 1).drop_last() =~= records.take(i as int));
                assert(records.take(i + 1).last() == records[i as int]);
            }
            let r = self.storage.produce_message(topic, partition, record.key, record.value, now);
            proof {
                results = seen.push(shown(r));
                assert(results.drop_last() =~= seen);
                assert(stores(
                    start,
                    topic@,
                    partition,
                    records.take(i + 1).drop_last(),
                    now,
                    results.drop_last(),
                    mid,
                ));
                assert(S::produces(mid, topic@, partition, k, v, now, results.last(), self.storage));
                assert(stores(start, topic@, partition, records.take(i + 1), now, results, self.storage));
            }
            match r {
                Ok(o) => {
                    offset = o;
                },
                Err(e) => match strip_prefix(e.as_str(), "NOT_LEADER:") {
                    Some(addr) => {
                        error_code = 6;
                        leader_addr = addr;
                    },
                    None => {
                        error_code = 1;
                    },
                },
            }
            i += 1;
        }
        assert(records.take(i as int) =~= records);
        let r = ProducePartitionResult { partition, error_code, offset, leader_addr };
        assert(stores(start, topic@, partition, records, now, results, self.storage) && is_produce_answer(
            r,
            partition,
            results,
        ));
        r
    }

    fn store_topic(&mut self, topic: &String, parts: Vec<ProducePartition>, now: i64) -> (r: Vec<
        ProducePartitionResult,
    >)
        ensures
            answers_partitions(old(self).storage, topic@, parts@, now, r@, final(self).storage),
    {
        let ghost start = self.storage;
        let n = parts.len();
        let mut answers: Vec<ProducePartitionResult> = Vec::new();
        let mut i: usize = 0;
        assert(parts@.take(0) =~= Seq::empty());
        for part in it: parts
            invariant
                it.seq() == parts@,
                n == parts@.len(),
                i == it.index(),
                i <= n,
                answers@.len() == i,
                answers_partitions(start, topic@, parts@.take(i as int), now, answers@, self.storage),
        {
            let ghost mid = self.storage;
            let ghost seen = answers@;
            proof {
                assert(part == parts@[i as int]);
                assert(parts@.take(i + 1).drop_last() =~= parts@.take(i as int));
                assert(parts@.take(i + 1).last() == parts@[i as int]);
            }
            let answer = self.store_partition(topic, part, now);
            answers.push(answer);
            proof {
                assert(answers@.drop_last() =~= seen);
                assert(answers_partitions(
                    start,
                    topic@,
                    parts@.take(i + 1).drop_last(),
                    now,
                    answers@.drop_last(),
                    mid,
                ));
                assert(answers_partition(mid, topic@, parts@[i as int], now, answers@.last(), self.storage));
                assert(answers_partitions(start, topic@, parts@.take(i + 1), now, answers@, self.storage));
            }
            i += 1;
        }
        assert(parts@.take(i as int) =~= parts@);
        answers
    }

    /// Stores records, in the order in which the request holds them.
    pub fn handle_produce(&mut self, request: ProduceRequest, now: i64) -> (r: ProduceResponse)
        ensures
            answers_topics(old(self).storage, request.topics@, now, r.results@, final(self).storage),
    {
        let ghost start = self.storage;
        let ghost topics = request.topics@;
        let n = request.topics.len();
        let mut results: Vec<ProduceTopicResult> = Vec::new();
        let mut i: usize = 0;
        assert(topics.take(0) =~= Seq::empty());
        for topic in it: request.topics
            invariant
                it.seq() == topics,
                n == topics.len(),
                i == it.index(),
                i <= n,
                results@.len() == i,
                answers_topics(start, topics.take(i as int), now, results@, self.storage),
        {
            let ghost mid = self.storage;
            let ghost seen = results@;
            proof {
                assert(topic == topics[i as int]);
                assert(topics.take(i + 1).drop_last() =~= topics.take(i as int));
                assert(topics.take(i + 1).last() == topics[i as int]);
            }
            let partitions = self.store_topic(&topic.topic_name, topic.partitions, now);
            results.push(ProduceTopicResult { topic_name: topic.topic_name, partitions });
            proof {
                assert(results@.drop_last() =~= seen);
                assert(answers_topics(start, topics.take(i + 1).drop_last(), now, results@.drop_last(), mid));
                assert(answers_partitions(
                    mid,
                    topics[i as int].topic_name@,
                    topics[i as int].partitions@,
                    now,
                    results@.last().partitions@,
                    self.storage,
                ));
                assert(answers_topics(start, topics.take(i + 1), now, results@, self.storage));
            }
            i += 1;
        }
        assert(topics.take(i as int) =~= topics);
        ProduceResponse { results }
    }

    fn read_partition(&self, topic: &String, part: &FetchPartition) -> (r: FetchPartitionResult)
        ensures
            fetches_partition(self.storage, topic@, *part, r),
    {
        let r = self.storage.fetch_messages(topic, part.partition, part.fetch_offset, part.max_bytes);
        let ghost given = shown(r);
        assert(self.storage.fetches(topic@, part.partition, part.fetch_offset, part.max_bytes, given));
        let a = match r {
            Ok(messages) => {
                let ghost all = messages.deep_view();
                let n = messages.len();
                let high_watermark_offset = if n == 0 {
                    part.fetch_offset
                } else {
                    assert(all.last() == messages@.last().deep_view());
                    let last = messages[n - 1].offset;
                    if last == i64::MAX {
                        i64::MIN
                    } else {
                        last + 1
                    }
                };
                let records = to_records(messages);
                FetchPartitionResult { partition: part.partition, error_code: 0, high_watermark_offset, records }
            },
            Err(_) => FetchPartitionResult {
                partition: part.partition,
                error_code: 1,
                high_watermark_offset: 0,
                records: Vec::new(),
            },
        };
        assert(is_fetch_answer(a, *part, given));
        a
    }

    /// Reads records.
    pub fn handle_fetch(&self, request: FetchRequest) -> (r: FetchResponse)
        ensures
            r.topics@.len() == request.topics@.len(),
            forall|i: int|
                0 <= i < r.topics@.len() ==> fetches_topic(self.storage, request.topics@[i], #[trigger] r.topics@[i]),
    {
        let mut topics: Vec<FetchTopicResult> = Vec::new();
        let mut i: usize = 0;
        while i < request.topics.len()
            invariant
                i <= request.topics@.len(),
                topics@.len() == i,
                forall|k: int|
                    0 <= k < i ==> fetches_topic(self.storage, request.topics@[k], #[trigger] topics@[k]),
            decreases request.topics@.len() - i,
        {
            let topic = &request.topics[i];
            let mut partitions: Vec<FetchPartitionResult> = Vec::new();
            let mut j: usize = 0;
            while j < topic.partitions.len()
                invariant
                    j <= topic.partitions@.len(),
                    partitions@.len() == j,
                    forall|k: int|
                        0 <= k < j ==> fetches_partition(
                            self.storage,
                            topic.topic_name@,
                            topic.partitions@[k],
                            #[trigger] partitions@[k],
                        ),
                decreases topic.partitions@.len() - j,
            {
                partitions.push(self.read_partition(&topic.topic_name, &topic.partitions[j]));
                j += 1;
            }
            topics.push(FetchTopicResult { topic_name: topic.topic_name.dup(), partitions });
            i += 1;
        }
        FetchResponse { topics }
    }

    fn date_partition(&self, topic: &String, part: &ListOffsetsPartition) -> (r: PartitionOffsets)
        ensures
            dates_partition(self.storage, topic@, *part, r),
    {
        let r = self.storage.get_partition_offset(topic, part.partition, part.time);
        let ghost given = shown(r);
        assert(self.storage.dates(topic@, part.partition, part.time, given));
        let a = match r {
            Ok(offsets) => {
                assert(offsets.deep_view() =~= offsets@);
                PartitionOffsets { partition: part.partition, error_code: 0, offsets }
            },
            Err(_) => PartitionOffsets { partition: part.partition, error_code: 1, offsets: Vec::new() },
        };
        assert(is_offsets_answer(a, part.partition, given));
        a
    }

    /// The offsets that times mean.
    pub fn handle_list_offsets(&self, request: ListOffsetsRequest) -> (r: ListOffsetsResponse)
        ensures
            r.topics@.len() == request.topics@.len(),
            forall|i: int|
                0 <= i < r.topics@.len() ==> dates_topic(self.storage, request.topics@[i], #[trigger] r.topics@[i]),
    {
        let mut topics: Vec<ListOffsetsTopicResult> = Vec::new();
        let mut i: usize = 0;
        while i < request.topics.len()
            invariant
                i <= request.topics@.len(),
                topics@.len() == i,
                forall|k: int| 0 <= k < i ==> dates_topic(self.storage, request.topics@[k], #[trigger] topics@[k]),
            decreases request.topics@.len() - i,
        {
            let topic = &request.topics[i];
            let mut partitions: Vec<PartitionOffsets> = Vec::new();
            let mut j: usize = 0;
            while j < topic.partitions.len()
                invariant
                    j <= topic.partitions@.len(),
                    partitions@.len() == j,
                    forall|k: int|
                        0 <= k < j ==> dates_partition(
                            self.storage,
                            topic.topic_name@,
                            topic.partitions@[k],
                            #[trigger] partitions@[k],
                        ),
                decreases topic.partitions@.len() - j,
            {
                partitions.push(self.date_partition(&topic.topic_name, &topic.partitions[j]));
                j += 1;
            }
            topics.push(ListOffsetsTopicResult { topic_name: topic.topic_name.dup(), partitions });
            i += 1;
        }
        ListOffsetsResponse { topics }
    }

    /// Who coordinates a group: this broker.
    pub fn handle_find_coordinator(&self, request: GroupCoordinatorRequest) -> (r: GroupCoordinatorResponse)
        ensures
            r.error_code == 0,
            self.storage.located((r.coordinator_id, r.coordinator_host@, r.coordinator_port)),
    {
        let (coordinator_id, coordinator_host, coordinator_port) = self.storage.get_coordinator_info();
        GroupCoordinatorResponse { error_code: 0, coordinator_id, coordinator_host, coordinator_port }
    }

    /// Lets a member join a group.
    pub fn handle_join_group(&mut self, request: JoinGroupRequest, now: i64) -> (r: JoinGroupResponse)
        requires
            old(self).storage.can_join(
                request.group_id@,
                request.member_id@,
                first_metadata(request),
                request.session_timeout as i64,
                now,
            ),
        ensures
            exists|a: Result<JoinView, Seq<char>>| #[trigger]
                S::joins(
                    old(self).storage,
                    request.group_id@,
                    request.member_id@,
                    request.protocol_type@,
                    first_metadata(request),
                    request.session_timeout as i64,
                    now,
                    a,
                    final(self).storage,
                ) && is_join_response(r, first_protocol(request), a),
    {
        let ghost start = self.storage;
        let mut metadata: Vec<u8> = Vec::new();
        let mut protocol = String::new();
        if request.group_protocols.len() > 0 {
            metadata = request.group_protocols[0].protocol_metadata.dup();
            protocol = request.group_protocols[0].protocol_name.dup();
            proof {
                assert(metadata.deep_view() =~= metadata@);
                let given = request.group_protocols@[0].protocol_metadata;
                assert(given.deep_view() =~= given@);
            }
        }
        assert(metadata@ =~= first_metadata(request));
        assert(protocol@ =~= first_protocol(request));
        let a = self.storage.join_group(
            &request.group_id,
            &request.member_id,
            &request.protocol_type,
            &metadata,
            request.session_timeout as i64,
            now,
        );
        let ghost given = join_shown(a);
        assert(S::joins(
            start,
            request.group_id@,
            request.member_id@,
            request.protocol_type@,
            first_metadata(request),
            request.session_timeout as i64,
            now,
            given,
            self.storage,
        ));
        let r = match a {
            Ok(j) => {
                let (generation_id, leader_id, member_id, members) = j;
                let members = to_members(&members);
                JoinGroupResponse { error_code: 0, generation_id, group_protocol: protocol, leader_id, member_id, members }
            },
            Err(_) => JoinGroupResponse {
                error_code: 1,
                generation_id: -1,
                group_protocol: String::new(),
                leader_id: String::new(),
                member_id: String::new(),
                members: Vec::new(),
            },
        };
        assert(is_join_response(r, first_protocol(request), given));
        r
    }

    /// Tells a member its partitions.
    pub fn handle_sync_group(&self, request: SyncGroupRequest) -> (r: SyncGroupResponse)
        ensures
            exists|a: Result<Seq<u8>, Seq<char>>| #[trigger]
                self.storage.syncs(request.group_id@, request.generation_id, request.member_id@, a) && r.error_code
                    == group_code(a) && r.member_assignment@ == (match a {
                    Ok(b) => b,
                    Err(_) => Seq::empty(),
                }),
    {
        let a = self.storage.sync_group(&request.group_id, request.generation_id, &request.member_id);
        let ghost given = shown(a);
        assert(self.storage.syncs(request.group_id@, request.generation_id, request.member_id@, given));
        match a {
            Ok(member_assignment) => {
                assert(member_assignment.deep_view() =~= member_assignment@);
                SyncGroupResponse { error_code: 0, member_assignment }
            },
            Err(e) => {
                let member_assignment: Vec<u8> = Vec::new();
                assert(member_assignment@ =~= Seq::empty());
                SyncGroupResponse { error_code: code_of_refusal(&e), member_assignment }
            },
        }
    }

    /// Takes note that a member is alive.
    pub fn handle_heartbeat(&mut self, request: HeartbeatRequest, now: i64) -> (r: HeartbeatResponse)
        ensures
            exists|a: Result<(), Seq<char>>| #[trigger]
                S::beats(
                    old(self).storage,
                    request.group_id@,
                    request.generation_id,
                    request.member_id@,
                    now,
                    a,
                    final(self).storage,
                ) && r.error_code == group_code(a),
    {
        let ghost start = self.storage;
        let a = self.storage.heartbeat(&request.group_id, request.generation_id, &request.member_id, now);
        let ghost given = shown(a);
        assert(S::beats(
            start,
            request.group_id@,
            request.generation_id,
            request.member_id@,
            now,
            given,
            self.storage,
        ));
        match a {
            Ok(_) => HeartbeatResponse { error_code: 0 },
            Err(e) => HeartbeatResponse { error_code: code_of_refusal(&e) },
        }
    }

    /// Lets a member leave its group.
    pub fn handle_leave_group(&mut self, request: LeaveGroupRequest, now: i64) -> (r: LeaveGroupResponse)
        requires
            old(self).storage.can_leave(request.group_id@, request.member_id@, now),
        ensures
            exists|a: Result<(), Seq<char>>| #[trigger]
                S::leaves(old(self).storage, request.group_id@, request.member_id@, now, a, final(self).storage)
                    && r.error_code == plain_code(a),
    {
        let ghost start = self.storage;
        let a = self.storage.leave_group(&request.group_id, &request.member_id, now);
        let ghost given = shown(a);
        assert(S::leaves(start, request.group_id@, request.member_id@, now, given, self.storage));
        match a {
            Ok(_) => LeaveGroupResponse { error_code: 0 },
            Err(_) => LeaveGroupResponse { error_code: 1 },
        }
    }

    fn commit_topic(&mut self, group: &String, topic: &String, parts: Vec<CommitPartition>) -> (r: Vec<
        CommitPartitionResult,
    >)
        ensures
            commits_partitions(old(self).storage, group@, topic@, parts@, r@, final(self).storage),
    {
        let ghost start = self.storage;
        let n = parts.len();
        let mut answers: Vec<CommitPartitionResult> = Vec::new();
        let mut i: usize = 0;
        assert(parts@.take(0) =~= Seq::empty());
        for part in it: parts
            invariant
                it.seq() == parts@,
                n == parts@.len(),
                i == it.index(),
                i <= n,
                answers@.len() == i,
                commits_partitions(start, group@, topic@, parts@.take(i as int), answers@, self.storage),
        {
            let ghost mid = self.storage;
            let ghost seen = answers@;
            proof {
                assert(part == parts@[i as int]);
                assert(parts@.take(i + 1).drop_last() =~= parts@.take(i as int));
                assert(parts@.take(i + 1).last() == parts@[i as int]);
            }
            let partition = part.partition;
            let r = self.storage.commit_offset(group, topic, partition, part.offset, part.metadata);
            let ghost given = shown(r);
            assert(S::commits(
                mid,
                group@,
                topic@,
                partition,
                part.offset,
                part.metadata@,
                given,
                self.storage,
            ));
            let error_code: i32 = if r.is_ok() { 0 } else { 1 };
            answers.push(CommitPartitionResult { partition, error_code });
            proof {
                assert(answers@.drop_last() =~= seen);
                assert(commits_partition(mid, group@, topic@, parts@[i as int], answers@.last(), self.storage));
                assert(commits_partitions(
                    start,
                    group@,
                    topic@,
                    parts@.take(i + 1).drop_last(),
                    answers@.drop_last(),
                    mid,
                ));
                assert(commits_partitions(start, group@, topic@, parts@.take(i + 1), answers@, self.storage));
            }
            i += 1;
        }
        assert(parts@.take(i as int) =~= parts@);
        answers
    }

    /// Records how far a group has read.
    pub fn handle_commit_offset(&mut self, request: OffsetCommitRequest) -> (r: OffsetCommitResponse)
        ensures
            commits_topics(
                old(self).storage,
                request.consumer_group_id@,
                request.topics@,
                r.topics@,
                final(self).storage,
            ),
    {
        let ghost start = self.storage;
        let ghost asked = request.topics@;
        let n = request.topics.len();
        let group = request.consumer_group_id;
        let mut topics: Vec<CommitTopicResult> = Vec::new();
        let mut i: usize = 0;
        assert(asked.take(0) =~= Seq::empty());
        for topic in it: request.topics
            invariant
                it.seq() == asked,
                n == asked.len(),
                i == it.index(),
                i <= n,
                topics@.len() == i,
                commits_topics(start, group@, asked.take(i as int), topics@, self.storage),
        {
            let ghost mid = self.storage;
            let ghost seen = topics@;
            proof {
                assert(topic == asked[i as int]);
                assert(asked.take(i + 1).drop_last() =~= asked.take(i as int));
                assert(asked.take(i + 1).last() == asked[i as int]);
            }
            let partitions = self.commit_topic(&group, &topic.topic_name, topic.partitions);
            topics.push(CommitTopicResult { topic_name: topic.topic_name, partitions });
            proof {
                assert(topics@.drop_last() =~= seen);
                assert(commits_topics(start, group@, asked.take(i + 1).drop_last(), topics@.drop_last(), mid));
                assert(commits_partitions(
                    mid,
                    group@,
                    asked[i as int].topic_name@,
                    asked[i as int].partitions@,
                    topics@.last().partitions@,
                    self.storage,
                ));
                assert(commits_topics(start, group@, asked.take(i + 1), topics@, self.storage));
            }
            i += 1;
        }
        assert(asked.take(i as int) =~= asked);
        OffsetCommitResponse { topics }
    }

    /// Creates a topic.
    pub fn handle_create_topic(&mut self, request: CreateTopicRequest) -> (r: CreateTopicResponse)
        ensures
            exists|a: Result<(), Seq<char>>| #[trigger]
                S::creates(old(self).storage, request.topic_name@, request.num_partitions, a, final(self).storage) && (
                r.error_code, r.error_message@) == (match a {
                    Ok(_) => (0i32, Seq::<char>::empty()),
                    Err(e) => (1i32, e),
                }),
    {
        let ghost start = self.storage;
        let a = self.storage.create_topic(&request.topic_name, request.num_partitions);
        let ghost given = shown(a);
        assert(S::creates(start, request.topic_name@, request.num_partitions, given, self.storage));
        match a {
            Ok(_) => {
                let error_message = String::new();
                assert(error_message@ =~= Seq::<char>::empty());
                CreateTopicResponse { error_code: 0, error_message }
            },
            Err(e) => CreateTopicResponse { error_code: 1, error_message: e },
        }
    }

    fn recall_partition(&self, group: &String, topic: &String, partition: i32) -> (r: OffsetFetchPartitionResult)
        ensures
            recalls_partition(self.storage, group@, topic@, partition, r),
    {
        let r = self.storage.fetch_offset(group, topic, partition);
        let ghost given = shown(r);
        assert(self.storage.recalls(group@, topic@, partition, given));
        let a = match r {
            Ok((offset, metadata)) => OffsetFetchPartitionResult { partition, offset, metadata, error_code: 0 },
            Err(_) => OffsetFetchPartitionResult { partition, offset: -1, metadata: String::new(), error_code: 1 },
        };
        assert(is_recall_answer(a, partition, given));
        a
    }

    /// How far a group has read.
    pub fn handle_fetch_offset(&self, request: OffsetFetchRequest) -> (r: OffsetFetchResponse)
        ensures
            r.topics@.len() == request.topics@.len(),
            forall|i: int|
                0 <= i < r.topics@.len() ==> recalls_topic(
                    self.storage,
                    request.consumer_group_id@,
                    request.topics@[i],
                    #[trigger] r.topics@[i],
                ),
    {
        let mut topics: Vec<OffsetFetchTopicResult> = Vec::new();
        let mut i: usize = 0;
        let group = &request.consumer_group_id;
        while i < request.topics.len()
            invariant
                i <= request.topics@.len(),
                topics@.len() == i,
                forall|k: int|
                    0 <= k < i ==> recalls_topic(self.storage, group@, request.topics@[k], #[trigger] topics@[k]),
            decreases request.topics@.len() - i,
        {
            let topic = &request.topics[i];
            let mut partitions: Vec<OffsetFetchPartitionResult> = Vec::new();
            let mut j: usize = 0;
            while j < topic.partitions.len()
                invariant
                    j <= topic.partitions@.len(),
                    partitions@.len() == j,
                    forall|k: int|
                        0 <= k < j ==> recalls_partition(
                            self.storage,
                            group@,
                            topic.topic_name@,
                            topic.partitions@[k],
                            #[trigger] partitions@[k],
                        ),
                decreases topic.partitions@.len() - j,
            {
                partitions.push(self.recall_partition(group, &topic.topic_name, topic.partitions[j]));
                j += 1;
            }
            topics.push(OffsetFetchTopicResult { topic_name: topic.topic_name.dup(), partitions });
            i += 1;
        }
        OffsetFetchResponse { topics }
    }

    /// Lets a broker into the cluster.
    pub fn handle_add_node(&mut self, request: AddNodeRequest) -> (r: AddNodeResponse)
        ensures
            exists|a: Result<(), Seq<char>>| #[trigger]
                S::admits(
                    old(self).storage,
                    request.node_id,
                    request.api_addr@,
                    request.rpc_addr@,
                    a,
                    final(self).storage,
                ) && (r.error_code, r.error_message@) == node_answer(a),
    {
        let ghost start = self.storage;
        let a = self.storage.add_node(request.node_id, &request.api_addr, &request.rpc_addr);
        let ghost given = shown(a);
        assert(S::admits(start, request.node_id, request.api_addr@, request.rpc_addr@, given, self.storage));
        let (error_code, error_message) = answer_node(a);
        AddNodeResponse { error_code, error_message }
    }

    /// Takes a broker out of the cluster.
    pub fn handle_remove_node(&mut self, request: RemoveNodeRequest) -> (r: RemoveNodeResponse)
        ensures
            exists|a: Result<(), Seq<char>>| #[trigger]
                S::dismisses(old(self).storage, request.node_id, a, final(self).storage) && (
                r.error_code, r.error_message@) == node_answer(a),
    {
        let ghost start = self.storage;
        let a = self.storage.remove_node(request.node_id);
        let ghost given = shown(a);
        assert(S::dismisses(start, request.node_id, given, self.storage));
        let (error_code, error_message) = answer_node(a);
        RemoveNodeResponse { error_code, error_message }
    }
}

fn own_partitions(ids: &Vec<i32>) -> (r: Vec<PartitionMetadata>)
    ensures
        r@.len() == ids@.len(),
        forall|i: int| 0 <= i < ids@.len() ==> is_own_partition(#[trigger] r@[i], ids@[i]),
{
    let mut r: Vec<PartitionMetadata> = Vec::new();
    let mut i: usize = 0;
    while i < ids.len()
        invariant
            i <= ids@.len(),
            r@.len() == i,
            forall|k: int| 0 <= k < i ==> is_own_partition(#[trigger] r@[k], ids@[k]),
        decreases ids@.len() - i,
    {
        let replicas: Vec<i32> = vec![1i32];
        let isr: Vec<i32> = vec![1i32];
        proof {
            assert(replicas@ =~= seq![1i32]);
            assert(isr@ =~= seq![1i32]);
        }
        r.push(PartitionMetadata { partition_error_code: 0, partition_id: ids[i], leader: 1, replicas, isr });
        i += 1;
    }
    r
}

fn to_records(messages: Vec<StoredMessage>) -> (r: Vec<FetchedRecord>)
    ensures
        show_messages(r@, messages.deep_view()),
{
    let ghost all = messages.deep_view();
    let mut r: Vec<FetchedRecord> = Vec::new();
    for m in it: messages
        invariant
            it.seq() == messages@,
            all == messages.deep_view(),
            r@.len() == it.index(),
            forall|i: int|
                0 <= i < r@.len() ==> (#[trigger] r@[i]).offset == all[i].offset && r@[i].key.deep_view() == all[i].key
                    && r@[i].value.deep_view() == all[i].value,
    {
        assert(all[it.index() as int] == messages@[it.index() as int].deep_view());
        r.push(FetchedRecord { offset: m.offset, key: m.key, value: m.value });
    }
    r
}

fn to_members(members: &Vec<GroupMember>) -> (r: Vec<JoinedMember>)
    ensures
        show_members(r@, members.deep_view()),
{
    let ghost all = members.deep_view();
    let mut r: Vec<JoinedMember> = Vec::new();
    let mut i: usize = 0;
    while i < members.len()
        invariant
            i <= members@.len(),
            all == members.deep_view(),
            r@.len() == i,
            forall|k: int|
                0 <= k < i ==> (#[trigger] r@[k]).member_id@ == all[k].member_id && r@[k].member_metadata.deep_view()
                    == all[k].metadata,
        decreases members@.len() - i,
    {
        assert(all[i as int] == members@[i as int].deep_view());
        r.push(JoinedMember { member_id: members[i].member_id.dup(), member_metadata: members[i].metadata.dup() });
        i += 1;
    }
    r
}

/// The message that a record becomes under an offset.
pub open spec fn stored_record(r: Record, offset: int, now: i64) -> MessageView {
    MessageView { offset: offset as i64, key: r.key.deep_view(), value: r.value.deep_view(), timestamp_ms: now }
}

proof fn lemma_stored(
    before: InMemoryStorage,
    topic: Seq<char>,
    partition: i32,
    records: Seq<Record>,
    now: i64,
    results: Seq<Result<i64, Seq<char>>>,
    after: InMemoryStorage,
)
    requires
        stores(before, topic, partition, records, now, results, after),
    ensures
        ({
            let old_log = messages_of(before@, topic, partition);
            let new_log = messages_of(after@, topic, partition);
            &&& results.len() == records.len()
            &&& new_log.len() == old_log.len() + records.len()
            &&& forall|i: int| 0 <= i < old_log.len() ==> #[trigger] new_log[i] == old_log[i]
            &&& forall|i: int|
                old_log.len() <= i < new_log.len() ==> #[trigger] new_log[i] == stored_record(
                    records[i - old_log.len()],
                    i,
                    now,
                )
            &&& forall|i: int| 0 <= i < results.len() ==> #[trigger] results[i] == Ok::<i64, Seq<char>>(
                (old_log.len() + i) as i64,
            )
        }),
    decreases records.len(),
{
    if records.len() > 0 {
        let key = records.last().key.deep_view();
        let value = records.last().value.deep_view();
        let mid = choose|mid: InMemoryStorage|
            stores(before, topic, partition, records.drop_last(), now, results.drop_last(), mid)
                && #[trigger] InMemoryStorage::produces(mid, topic, partition, key, value, now, results.last(), after);
        lemma_stored(before, topic, partition, records.drop_last(), now, results.drop_last(), mid);
        let mid_log = messages_of(mid@, topic, partition);
        let new_log = messages_of(after@, topic, partition);
        assert(new_log == mid_log.push(stored_record(records.last(), mid_log.len() as int, now)));
        assert forall|i: int| 0 <= i < results.len() implies #[trigger] results[i] == Ok::<i64, Seq<char>>(
            (messages_of(before@, topic, partition).len() + i) as i64,
        ) by {
            if i < results.len() - 1 {
                assert(results.drop_last()[i] == results[i]);
            }
        }
    }
}

/// Every record that a broker in memory was given to store is handed out as it was
/// given, to whoever reads from its place on; the answer names the place of the last.
pub proof fn stored_records_are_handed_out(
    before: InMemoryStorage,
    topic: Seq<char>,
    part: ProducePartition,
    now: i64,
    answer: ProducePartitionResult,
    after: InMemoryStorage,
    i: int,
    max_bytes: i32,
    a: FetchPartitionResult,
)
    requires
        answers_partition(before, topic, part, now, answer, after),
        unbroken(messages_of(before@, topic, part.partition)),
        messages_of(before@, topic, part.partition).len() + part.records@.len() <= i64::MAX,
        0 <= i < part.records@.len(),
        fetches_partition(
            after,
            topic,
            FetchPartition {
                partition: part.partition,
                fetch_offset: (messages_of(before@, topic, part.partition).len() + i) as i64,
                max_bytes,
            },
            a,
        ),
    ensures
        answer.error_code == 0,
        answer.offset == messages_of(before@, topic, part.partition).len() + part.records@.len() - 1,
        a.error_code == 0,
        a.records@.len() > 0,
        a.records@[0].offset == messages_of(before@, topic, part.partition).len() + i,
        a.records@[0].key.deep_view() == part.records@[i].key.deep_view(),
        a.records@[0].value.deep_view() == part.records@[i].value.deep_view(),
{
    let old_log = messages_of(before@, topic, part.partition);
    let new_log = messages_of(after@, topic, part.partition);
    let results = choose|results: Seq<Result<i64, Seq<char>>>| #[trigger]
        stores(before, topic, part.partition, part.records@, now, results, after) && is_produce_answer(
            answer,
            part.partition,
            results,
        );
    lemma_stored(before, topic, part.partition, part.records@, now, results, after);
    lemma_no_error(results, old_log.len() as int);
    assert(results.last() == results[results.len() - 1]);
    let at = old_log.len() + i;
    assert(new_log[at] == stored_record(part.records@[i], at, now));
    assert forall|k: int| 0 <= k < new_log.len() implies (#[trigger] new_log[k]).offset == k by {
        if k < old_log.len() {
            assert(new_log[k] == old_log[k]);
        }
    }
    let asked = FetchPartition { partition: part.partition, fetch_offset: at as i64, max_bytes };
    let r = choose|r: Result<Seq<MessageView>, Seq<char>>| #[trigger]
        after.fetches(topic, part.partition, asked.fetch_offset, max_bytes, r) && is_fetch_answer(a, asked, r);
    reading_starts_at_the_message(new_log, at, max_bytes, r->Ok_0);
}

/// What a group commits to a broker in memory is what it is told when it asks, and the
/// answer to the commit says that it was taken.
pub proof fn committed_partition_is_recalled(
    before: InMemoryStorage,
    group: Seq<char>,
    topic: Seq<char>,
    part: CommitPartition,
    answer: CommitPartitionResult,
    after: InMemoryStorage,
    a: OffsetFetchPartitionResult,
)
    requires
        commits_partition(before, group, topic, part, answer, after),
        recalls_partition(after, group, topic, part.partition, a),
    ensures
        answer.error_code == 0,
        a.error_code == 0,
        a.partition == part.partition,
        a.offset == part.offset,
        a.metadata@ == part.metadata@,
{
}

proof fn lemma_no_error(results: Seq<Result<i64, Seq<char>>>, start: int)
    requires
        forall|i: int| 0 <= i < results.len() ==> #[trigger] results[i] == Ok::<i64, Seq<char>>((start + i) as i64),
    ensures
        last_code(results) == 0,
    decreases results.len(),
{
    if results.len() > 0 {
        assert forall|i: int| 0 <= i < results.drop_last().len() implies #[trigger] results.drop_last()[i] == Ok::<
            i64,
            Seq<char>,
        >((start + i) as i64) by {
            assert(results.drop_last()[i] == results[i]);
        }
        lemma_no_error(results.drop_last(), start);
        assert(results.last() == results[results.len() - 1]);
    }
}

/// What a producer is told about a partition. All is well exactly where every record was
/// stored. The offset is that of the last record that was stored, or minus one. The code
/// is that of the last refusal: six where another broker leads, and one otherwise. The
/// leader is the one that was named last.
pub proof fn producer_is_told_the_last_outcome(
    a: ProducePartitionResult,
    partition: i32,
    results: Seq<Result<i64, Seq<char>>>,
    i: int,
    addr: Seq<char>,
)
    requires
        is_produce_answer(a, partition, results),
    ensures
        a.partition == partition,
        a.error_code == 0 <==> forall|j: int| 0 <= j < results.len() ==> #[trigger] results[j] is Ok,
        (forall|j: int| 0 <= j < results.len() ==> #[trigger] results[j] is Err) ==> a.offset == -1,
        0 <= i < results.len() && results[i] is Ok && (forall|j: int| i < j < results.len() ==> #[trigger] results[j] is Err)
            ==> a.offset == results[i]->Ok_0,
        0 <= i < results.len() && results[i] == Err::<i64, Seq<char>>("NOT_LEADER:"@ + addr) && (forall|j: int|
            i < j < results.len() ==> #[trigger] results[j] is Ok) ==> a.error_code == 6 && a.leader_addr@ == addr,
        0 <= i < results.len() && results[i] is Err && !has_prefix(results[i]->Err_0, "NOT_LEADER:"@) && (forall|j: int|
            i < j < results.len() ==> #[trigger] results[j] is Ok) ==> a.error_code == 1,
        (forall|j: int| 0 <= j < results.len() ==> #[trigger] results[j] is Ok) ==> a.leader_addr@.len() == 0,
    decreases results.len(),
{
    lemma_last_outcome(results, i, addr);
}

proof fn lemma_last_outcome(results: Seq<Result<i64, Seq<char>>>, i: int, addr: Seq<char>)
    ensures
        last_code(results) == 0 <==> forall|j: int| 0 <= j < results.len() ==> #[trigger] results[j] is Ok,
        (forall|j: int| 0 <= j < results.len() ==> #[trigger] results[j] is Err) ==> last_offset(results) == -1,
        0 <= i < results.len() && results[i] is Ok && (forall|j: int| i < j < results.len() ==> #[trigger] results[j] is Err)
            ==> last_offset(results) == results[i]->Ok_0,
        0 <= i < results.len() && results[i] == Err::<i64, Seq<char>>("NOT_LEADER:"@ + addr) && (forall|j: int|
            i < j < results.len() ==> #[trigger] results[j] is Ok) ==> last_code(results) == 6 && last_leader(results) == addr,
        0 <= i < results.len() && results[i] is Err && !has_prefix(results[i]->Err_0, "NOT_LEADER:"@) && (forall|j: int|
            i < j < results.len() ==> #[trigger] results[j] is Ok) ==> last_code(results) == 1,
        (forall|j: int| 0 <= j < results.len() ==> #[trigger] results[j] is Ok) ==> last_leader(results).len() == 0,
    decreases results.len(),
{
    if results.len() > 0 {
        let front = results.drop_last();
        let last = results.len() - 1;
        assert(results.last() == results[last]);
        assert(forall|j: int| 0 <= j < last ==> #[trigger] results[j] == front[j]);
        assert(forall|j: int| 0 <= j < last ==> #[trigger] front[j] == results[j]);
        lemma_last_outcome(front, i, addr);
        let named = "NOT_LEADER:"@ + addr;
        assert(named.take("NOT_LEADER:"@.len() as int) =~= "NOT_LEADER:"@);
        assert(named.skip("NOT_LEADER:"@.len() as int) =~= addr);
        if results.last() is Err {
            assert(!(results[last] is Ok));
        } else {
            assert(!(results[last] is Err));
        }
    }
}

/// The records of a partition are stored one after the other, each with its own key and
/// value, in the order of the request, and each is answered for.
pub proof fn records_are_stored_in_order<S: BrokerStorage>(
    before: S,
    topic: Seq<char>,
    partition: i32,
    records: Seq<Record>,
    now: i64,
    results: Seq<Result<i64, Seq<char>>>,
    after: S,
) -> (states: Seq<S>)
    requires
        stores(before, topic, partition, records, now, results, after),
    ensures
        results.len() == records.len(),
        states.len() == records.len() + 1,
        states[0] == before,
        states[records.len() as int] == after,
        forall|i: int|
            #![trigger records[i]]
            0 <= i < records.len() ==> S::produces(
                states[i],
                topic,
                partition,
                records[i].key.deep_view(),
                records[i].value.deep_view(),
                now,
                results[i],
                states[i + 1],
            ),
    decreases records.len(),
{
    if records.len() == 0 {
        seq![before]
    } else {
        let last = records.len() - 1;
        let key = records.last().key.deep_view();
        let value = records.last().value.deep_view();
        let mid = choose|mid: S|
            stores(before, topic, partition, records.drop_last(), now, results.drop_last(), mid) && #[trigger] S::produces(
                mid,
                topic,
                partition,
                key,
                value,
                now,
                results.last(),
                after,
            );
        let front = records_are_stored_in_order(
            before,
            topic,
            partition,
            records.drop_last(),
            now,
            results.drop_last(),
            mid,
        );
        let states = front.push(after);
        assert forall|i: int|
            #![trigger records[i]]
            0 <= i < records.len() implies S::produces(
            states[i],
            topic,
            partition,
            records[i].key.deep_view(),
            records[i].value.deep_view(),
            now,
            results[i],
            states[i + 1],
        ) by {
            if i < last {
                assert(records.drop_last()[i] == records[i]);
                assert(results.drop_last()[i] == results[i]);
                assert(states[i] == front[i] && states[i + 1] == front[i + 1]);
            } else {
                assert(states[i] == mid && states[i + 1] == after);
            }
        }
        states
    }
}

/// The partitions of a topic are stored one after the other, in the order of the request,
/// and each is answered for.
pub proof fn partitions_are_stored_in_order<S: BrokerStorage>(
    before: S,
    topic: Seq<char>,
    parts: Seq<ProducePartition>,
    now: i64,
    answers: Seq<ProducePartitionResult>,
    after: S,
) -> (states: Seq<S>)
    requires
        answers_partitions(before, topic, parts, now, answers, after),
    ensures
        answers.len() == parts.len(),
        states.len() == parts.len() + 1,
        states[0] == before,
        states[parts.len() as int] == after,
        forall|i: int|
            #![trigger parts[i]]
            0 <= i < parts.len() ==> answers_partition(states[i], topic, parts[i], now, answers[i], states[i + 1]),
    decreases parts.len(),
{
    if parts.len() == 0 {
        seq![before]
    } else {
        let last = parts.len() - 1;
        let mid = choose|mid: S|
            answers_partitions(before, topic, parts.drop_last(), now, answers.drop_last(), mid)
                && #[trigger] answers_partition(mid, topic, parts.last(), now, answers.last(), after);
        let front = partitions_are_stored_in_order(before, topic, parts.drop_last(), now, answers.drop_last(), mid);
        let states = front.push(after);
        assert forall|i: int|
            #![trigger parts[i]]
            0 <= i < parts.len() implies answers_partition(states[i], topic, parts[i], now, answers[i], states[i + 1]) by {
            if i < last {
                assert(parts.drop_last()[i] == parts[i]);
                assert(answers.drop_last()[i] == answers[i]);
                assert(states[i] == front[i] && states[i + 1] == front[i + 1]);
            } else {
                assert(states[i] == mid && states[i + 1] == after);
            }
        }
        states
    }
}

/// The topics of a request are stored one after the other, each under its own name, in
/// the order of the request, and each is answered for.
pub proof fn topics_are_stored_in_order<S: BrokerStorage>(
    before: S,
    topics: Seq<ProduceTopic>,
    now: i64,
    answers: Seq<ProduceTopicResult>,
    after: S,
) -> (states: Seq<S>)
    requires
        answers_topics(before, topics, now, answers, after),
    ensures
        answers.len() == topics.len(),
        states.len() == topics.len() + 1,
        states[0] == before,
        states[topics.len() as int] == after,
        forall|i: int|
            #![trigger topics[i]]
            0 <= i < topics.len() ==> answers[i].topic_name@ == topics[i].topic_name@ && answers_partitions(
                states[i],
                topics[i].topic_name@,
                topics[i].partitions@,
                now,
                answers[i].partitions@,
                states[i + 1],
            ),
    decreases topics.len(),
{
    if topics.len() == 0 {
        seq![before]
    } else {
        let last = topics.len() - 1;
        let mid = choose|mid: S|
            answers_topics(before, topics.drop_last(), now, answers.drop_last(), mid) && #[trigger] answers_partitions(
                mid,
                topics.last().topic_name@,
                topics.last().partitions@,
                now,
                answers.last().partitions@,
                after,
            );
        let front = topics_are_stored_in_order(before, topics.drop_last(), now, answers.drop_last(), mid);
        let states = front.push(after);
        assert forall|i: int|
            #![trigger topics[i]]
            0 <= i < topics.len() implies answers[i].topic_name@ == topics[i].topic_name@ && answers_partitions(
            states[i],
            topics[i].topic_name@,
            topics[i].partitions@,
            now,
            answers[i].partitions@,
            states[i + 1],
        ) by {
            if i < last {
                assert(topics.drop_last()[i] == topics[i]);
                assert(answers.drop_last()[i] == answers[i]);
                assert(states[i] == front[i] && states[i + 1] == front[i + 1]);
            } else {
                assert(states[i] == mid && states[i + 1] == after);
            }
        }
        states
    }
}

/// The partitions of a topic are committed one after the other, each with its own offset
/// and remark, and each is answered for: zero where it was taken, and one where not.
pub proof fn partitions_are_committed_in_order<S: BrokerStorage>(
    before: S,
    group: Seq<char>,
    topic: Seq<char>,
    parts: Seq<CommitPartition>,
    answers: Seq<CommitPartitionResult>,
    after: S,
) -> (r: (Seq<S>, Seq<Result<(), Seq<char>>>))
    requires
        commits_partitions(before, group, topic, parts, answers, after),
    ensures
        answers.len() == parts.len(),
        r.0.len() == parts.len() + 1,
        r.1.len() == parts.len(),
        r.0[0] == before,
        r.0[parts.len() as int] == after,
        forall|i: int|
            #![trigger parts[i]]
            0 <= i < parts.len() ==> {
                &&& S::commits(
                    r.0[i],
                    group,
                    topic,
                    parts[i].partition,
                    parts[i].offset,
                    parts[i].metadata@,
                    r.1[i],
                    r.0[i + 1],
                )
                &&& answers[i].partition == parts[i].partition
                &&& r.1[i] is Ok ==> answers[i].error_code == 0
                &&& r.1[i] is Err ==> answers[i].error_code == 1
            },
    decreases parts.len(),
{
    if parts.len() == 0 {
        (seq![before], Seq::empty())
    } else {
        let last = parts.len() - 1;
        let mid = choose|mid: S|
            commits_partitions(before, group, topic, parts.drop_last(), answers.drop_last(), mid)
                && #[trigger] commits_partition(mid, group, topic, parts.last(), answers.last(), after);
        let p = parts.last();
        let one = choose|one: Result<(), Seq<char>>| #[trigger]
            S::commits(mid, group, topic, p.partition, p.offset, p.metadata@, one, after) && answers.last() == (
            CommitPartitionResult { partition: p.partition, error_code: plain_code(one) });
        let front = partitions_are_committed_in_order(before, group, topic, parts.drop_last(), answers.drop_last(), mid);
        let states = front.0.push(after);
        let given = front.1.push(one);
        assert forall|i: int|
            #![trigger parts[i]]
            0 <= i < parts.len() implies {
            &&& S::commits(
                states[i],
                group,
                topic,
                parts[i].partition,
                parts[i].offset,
                parts[i].metadata@,
                given[i],
                states[i + 1],
            )
            &&& answers[i].partition == parts[i].partition
            &&& given[i] is Ok ==> answers[i].error_code == 0
            &&& given[i] is Err ==> answers[i].error_code == 1
        } by {
            if i < last {
                assert(parts.drop_last()[i] == parts[i]);
                assert(answers.drop_last()[i] == answers[i]);
                assert(states[i] == front.0[i] && states[i + 1] == front.0[i + 1] && given[i] == front.1[i]);
            } else {
                assert(states[i] == mid && states[i + 1] == after && given[i] == one);
            }
        }
        (states, given)
    }
}

/// The topics of a commit are taken one after the other, each under its own name, for the
/// group that commits.
pub proof fn topics_are_committed_in_order<S: BrokerStorage>(
    before: S,
    group: Seq<char>,
    topics: Seq<CommitTopic>,
    answers: Seq<CommitTopicResult>,
    after: S,
) -> (states: Seq<S>)
    requires
        commits_topics(before, group, topics, answers, after),
    ensures
        answers.len() == topics.len(),
        states.len() == topics.len() + 1,
        states[0] == before,
        states[topics.len() as int] == after,
        forall|i: int|
            #![trigger topics[i]]
            0 <= i < topics.len() ==> answers[i].topic_name@ == topics[i].topic_name@ && commits_partitions(
                states[i],
                group,
                topics[i].topic_name@,
                topics[i].partitions@,
                answers[i].partitions@,
                states[i + 1],
            ),
    decreases topics.len(),
{
    if topics.len() == 0 {
        seq![before]
    } else {
        let last = topics.len() - 1;
        let mid = choose|mid: S|
            commits_topics(before, group, topics.drop_last(), answers.drop_last(), mid) && #[trigger] commits_partitions(
                mid,
                group,
                topics.last().topic_name@,
                topics.last().partitions@,
                answers.last().partitions@,
                after,
            );
        let front = topics_are_committed_in_order(before, group, topics.drop_last(), answers.drop_last(), mid);
        let states = front.push(after);
        assert forall|i: int|
            #![trigger topics[i]]
            0 <= i < topics.len() implies answers[i].topic_name@ == topics[i].topic_name@ && commits_partitions(
            states[i],
            group,
            topics[i].topic_name@,
            topics[i].partitions@,
            answers[i].partitions@,
            states[i + 1],
        ) by {
            if i < last {
                assert(topics.drop_last()[i] == topics[i]);
                assert(answers.drop_last()[i] == answers[i]);
                assert(states[i] == front[i] && states[i + 1] == front[i + 1]);
            } else {
                assert(states[i] == mid && states[i + 1] == after);
            }
        }
        states
    }
}

/// A fetch is answered partition by partition with what the storage gives for the
/// partition, the offset and the limit that were asked for. Every message becomes a
/// record with its offset, key and value, in order. The watermark lies behind the last
/// record, or where reading was to start. What cannot be read is answered with an error
/// and without records.
pub proof fn fetch_answers_what_was_asked<S: BrokerStorage>(s: S, t: FetchTopic, a: FetchTopicResult, i: int) -> (r: Result<
    Seq<MessageView>,
    Seq<char>,
>)
    requires
        fetches_topic(s, t, a),
        0 <= i < t.partitions@.len(),
    ensures
        ({
            let asked = t.partitions@[i];
            let part = a.partitions@[i];
            &&& a.topic_name@ == t.topic_name@
            &&& a.partitions@.len() == t.partitions@.len()
            &&& part.partition == asked.partition
            &&& s.fetches(t.topic_name@, asked.partition, asked.fetch_offset, asked.max_bytes, r)
            &&& r is Ok ==> {
                let messages = r->Ok_0;
                &&& part.error_code == 0
                &&& part.records@.len() == messages.len()
                &&& forall|k: int|
                    0 <= k < messages.len() ==> (#[trigger] part.records@[k]).offset == messages[k].offset
                        && part.records@[k].key.deep_view() == messages[k].key && part.records@[k].value.deep_view()
                        == messages[k].value
                &&& messages.len() == 0 ==> part.high_watermark_offset == asked.fetch_offset
                &&& messages.len() > 0 && messages[messages.len() - 1].offset < i64::MAX ==> part.high_watermark_offset
                    == messages[messages.len() - 1].offset + 1
            }
            &&& r is Err ==> part.error_code == 1 && part.records@.len() == 0
        }),
{
    let asked = t.partitions@[i];
    let part = a.partitions@[i];
    assert(fetches_partition(s, t.topic_name@, asked, part));
    let r = choose|r: Result<Seq<MessageView>, Seq<char>>| #[trigger]
        s.fetches(t.topic_name@, asked.partition, asked.fetch_offset, asked.max_bytes, r) && is_fetch_answer(part, asked, r);
    if r is Ok && r->Ok_0.len() > 0 {
        assert(r->Ok_0.last() == r->Ok_0[r->Ok_0.len() - 1]);
    }
    r
}

/// A request by time is answered partition by partition with the offsets that the storage
/// gives for the time that was asked for.
pub proof fn times_are_answered_as_asked<S: BrokerStorage>(s: S, t: ListOffsetsTopic, a: ListOffsetsTopicResult, i: int) -> (r:
    Result<Seq<i64>, Seq<char>>)
    requires
        dates_topic(s, t, a),
        0 <= i < t.partitions@.len(),
    ensures
        a.topic_name@ == t.topic_name@,
        a.partitions@.len() == t.partitions@.len(),
        a.partitions@[i].partition == t.partitions@[i].partition,
        s.dates(t.topic_name@, t.partitions@[i].partition, t.partitions@[i].time, r),
        r is Ok ==> a.partitions@[i].error_code == 0 && a.partitions@[i].offsets@ == r->Ok_0,
        r is Err ==> a.partitions@[i].error_code == 1 && a.partitions@[i].offsets@.len() == 0,
{
    let asked = t.partitions@[i];
    let part = a.partitions@[i];
    assert(dates_partition(s, t.topic_name@, asked, part));
    choose|r: Result<Seq<i64>, Seq<char>>| #[trigger]
        s.dates(t.topic_name@, asked.partition, asked.time, r) && is_offsets_answer(part, asked.partition, r)
}

/// A group that asks how far it has read is answered partition by partition with what the
/// storage has recorded for it.
pub proof fn commits_are_recalled_as_asked<S: BrokerStorage>(
    s: S,
    group: Seq<char>,
    t: OffsetFetchTopic,
    a: OffsetFetchTopicResult,
    i: int,
) -> (r: Result<(i64, Seq<char>), Seq<char>>)
    requires
        recalls_topic(s, group, t, a),
        0 <= i < t.partitions@.len(),
    ensures
        a.topic_name@ == t.topic_name@,
        a.partitions@.len() == t.partitions@.len(),
        a.partitions@[i].partition == t.partitions@[i],
        s.recalls(group, t.topic_name@, t.partitions@[i], r),
        r is Ok ==> a.partitions@[i].error_code == 0 && a.partitions@[i].offset == (r->Ok_0).0
            && a.partitions@[i].metadata@ == (r->Ok_0).1,
        r is Err ==> a.partitions@[i].error_code == 1 && a.partitions@[i].offset == -1,
{
    let asked = t.partitions@[i];
    let part = a.partitions@[i];
    assert(recalls_partition(s, group, t.topic_name@, asked, part));
    choose|r: Result<(i64, Seq<char>), Seq<char>>| #[trigger]
        s.recalls(group, t.topic_name@, asked, r) && is_recall_answer(part, asked, r)
}

/// A member that joins is told the generation, the leader, its name and everybody in the
/// group, and the protocol that it asked for first; a refusal names nobody.
pub proof fn joiner_is_told_the_group(a: JoinGroupResponse, protocol: Seq<char>, r: Result<JoinView, Seq<char>>, i: int)
    requires
        is_join_response(a, protocol, r),
    ensures
        a.error_code == 0 <==> r is Ok,
        r is Ok ==> a.generation_id == (r->Ok_0).0 && a.leader_id@ == (r->Ok_0).1 && a.member_id@ == (r->Ok_0).2
            && a.group_protocol@ == protocol && a.members@.len() == (r->Ok_0).3.len(),
        r is Ok && 0 <= i < a.members@.len() ==> a.members@[i].member_id@ == (r->Ok_0).3[i].member_id
            && a.members@[i].member_metadata.deep_view() == (r->Ok_0).3[i].metadata,
        r is Err ==> a.error_code == 1 && a.generation_id == -1 && a.members@.len() == 0,
{
}

/// Of the ways of assigning partitions that a member offers the first counts.
pub proof fn first_way_counts(request: JoinGroupRequest)
    ensures
        request.group_protocols@.len() > 0 ==> first_metadata(request) == request.group_protocols@[0].protocol_metadata@
            && first_protocol(request) == request.group_protocols@[0].protocol_name@,
        request.group_protocols@.len() == 0 ==> first_metadata(request).len() == 0 && first_protocol(request).len() == 0,
{
}

/// A member learns from the code what to do: zero where all is well, twenty-seven during a
/// rebalance, and one where it was refused.
pub proof fn codes_tell_rebalances<T>(r: Result<T, Seq<char>>)
    ensures
        group_code(r) == 0 <==> r is Ok,
        group_code(r) == 27 <==> r is Err && r->Err_0 == "REBALANCE_IN_PROGRESS"@,
        group_code(r) == 1 <==> r is Err && r->Err_0 != "REBALANCE_IN_PROGRESS"@,
        plain_code(r) == 0 <==> r is Ok,
        plain_code(r) == 1 <==> r is Err,
{
}

/// A change of the cluster is answered with the leader where another broker leads, and
/// with the error where it failed otherwise.
pub proof fn cluster_changes_name_the_leader(addr: Seq<char>, e: Seq<char>)
    ensures
        node_answer(Ok(())) == (0i32, Seq::<char>::empty()),
        node_answer(Err("NOT_LEADER:"@ + addr)) == (6i32, addr),
        !has_prefix(e, "NOT_LEADER:"@) ==> node_answer(Err(e)) == (1i32, e),
{
    let named = "NOT_LEADER:"@ + addr;
    assert(named.take("NOT_LEADER:"@.len() as int) =~= "NOT_LEADER:"@);
    assert(named.skip("NOT_LEADER:"@.len() as int) =~= addr);
}

/// The names stand for topics with these partitions, or for nothing.
pub open spec fn is_described<S: BrokerStorage>(s: S, name: Seq<char>, t: TopicMetadata) -> bool {
    exists|partitions: Seq<i32>| #[trigger]
        s.divides(name, Some(partitions)) && t.topic_name@ == name && t.topic_error_code == 0 && t.partitions@.len()
            == partitions.len() && forall|i: int|
            0 <= i < partitions.len() ==> (#[trigger] t.partitions@[i]).partition_id == partitions[i]
                && t.partitions@[i].partition_error_code == 0 && t.partitions@[i].leader == 1
                && t.partitions@[i].replicas@ == seq![1i32] && t.partitions@[i].isr@ == seq![1i32]
}

/// Of the topics that were asked for, those that exist are described, in the order of the
/// request, each with its partitions; those that do not are left out.
pub proof fn existing_topics_are_described<S: BrokerStorage>(s: S, names: Seq<Seq<char>>, topics: Seq<TopicMetadata>) -> (at:
    Seq<int>)
    requires
        describes(s, names, topics),
    ensures
        at.len() == topics.len(),
        forall|x: int|
            0 <= x < at.len() ==> 0 <= #[trigger] at[x] < names.len() && is_described(s, names[at[x]], topics[x]),
        forall|x: int, y: int| 0 <= x < y < at.len() ==> #[trigger] at[x] < #[trigger] at[y],
        forall|k: int| 0 <= k < names.len() ==> at.contains(k) || s.divides(#[trigger] names[k], None),
    decreases names.len(),
{
    if names.len() == 0 {
        Seq::empty()
    } else {
        let last = names.len() - 1;
        let front = names.drop_last();
        assert(names.last() == names[last]);
        assert(forall|k: int| 0 <= k < last ==> #[trigger] names[k] == front[k]);
        let r = choose|r: Option<Seq<i32>>| #[trigger]
            s.divides(names.last(), r) && match r {
                Some(partitions) => topics.len() > 0 && is_topic_metadata(topics.last(), names.last(), partitions)
                    && describes(s, names.drop_last(), topics.drop_last()),
                None => describes(s, names.drop_last(), topics),
            };
        match r {
            Some(partitions) => {
                let before = existing_topics_are_described(s, front, topics.drop_last());
                let at = before.push(last);
                assert(s.divides(names.last(), Some(partitions)));
                assert forall|i: int| 0 <= i < partitions.len() implies (#[trigger] topics.last().partitions@[i]).partition_id
                    == partitions[i] && topics.last().partitions@[i].partition_error_code == 0
                    && topics.last().partitions@[i].leader == 1 && topics.last().partitions@[i].replicas@ == seq![1i32]
                    && topics.last().partitions@[i].isr@ == seq![1i32] by {
                    assert(is_own_partition(topics.last().partitions@[i], partitions[i]));
                }
                assert(is_described(s, names[last], topics.last()));
                assert forall|x: int| 0 <= x < at.len() implies 0 <= #[trigger] at[x] < names.len() && is_described(
                    s,
                    names[at[x]],
                    topics[x],
                ) by {
                    if x < before.len() {
                        assert(at[x] == before[x]);
                        assert(topics.drop_last()[x] == topics[x]);
                        assert(names[before[x]] == front[before[x]]);
                    }
                }
                assert forall|k: int| 0 <= k < names.len() implies at.contains(k) || s.divides(#[trigger] names[k], None) by {
                    if k < last {
                        if before.contains(k) {
                            let x = choose|x: int| 0 <= x < before.len() && before[x] == k;
                            assert(at[x] == k);
                        } else {
                            assert(s.divides(front[k], None));
                        }
                    } else {
                        assert(at[before.len() as int] == k);
                    }
                }
                at
            },
            None => {
                let at = existing_topics_are_described(s, front, topics);
                assert forall|x: int| 0 <= x < at.len() implies 0 <= #[trigger] at[x] < names.len() && is_described(
                    s,
                    names[at[x]],
                    topics[x],
                ) by {
                    assert(names[at[x]] == front[at[x]]);
                }
                assert forall|k: int| 0 <= k < names.len() implies at.contains(k) || s.divides(#[trigger] names[k], None) by {
                    if k < last {
                        assert(front[k] == names[k]);
                    }
                }
                at
            },
        }
    }
}

/// A request that names topics is about those; one that names none is about all.
pub proof fn naming_no_topic_asks_for_all<S: BrokerStorage>(s: S, request: TopicMetadataRequest, names: Seq<Seq<char>>, i: int)
    requires
        asked_topics(s, request, names),
    ensures
        request.topics@.len() == 0 ==> s.lists(names),
        request.topics@.len() > 0 ==> names.len() == request.topics@.len(),
        request.topics@.len() > 0 && 0 <= i < names.len() ==> names[i] == request.topics@[i]@,
{
    if request.topics@.len() > 0 && 0 <= i < names.len() {
        assert(request.topics.deep_view()[i] == request.topics@[i].deep_view());
    }
}

} // verus!

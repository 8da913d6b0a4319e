//! What a consumer reads next, and how far it has come in every partition.
use vstd::prelude::*;
use vstd::string::StringExecFns;
use vstd::utf8::{decode_utf8, valid_utf8};

use crate::api::broker::{
    CommitPartition, CommitTopic, FetchPartition, FetchPartitionResult, FetchRequest, FetchResponse, FetchTopic,
    FetchTopicResult, FetchedRecord, HeartbeatRequest, LeaveGroupRequest, ListOffsetsPartition, ListOffsetsRequest,
    ListOffsetsResponse, ListOffsetsTopic, ListOffsetsTopicResult, OffsetCommitRequest, OffsetFetchPartitionResult,
    OffsetFetchRequest, OffsetFetchResponse, OffsetFetchTopic, OffsetFetchTopicResult, PartitionOffsets,
};
use crate::client::config::ConsumerConfig;
use crate::client::joining::{JoinFailure, Joining, JoiningView};
use crate::maps::{Dup, VecMap};
use crate::seqs::{lemma_filter_ends, lemma_filter_holds, lemma_filter_step};
use crate::text::{decimal, decimal_text, utf8_text};

verus! {

/// The code by which a broker says that a rebalance is under way.
pub const REBALANCE_ERROR_CODE: i32 = 14;

/// A message that was read.
#[derive(Debug)]
pub struct ConsumedMessage {
    pub topic: String,
    pub partition: i32,
    pub offset: i64,
    pub key: Option<Vec<u8>>,
    pub value: Vec<u8>,
    pub timestamp: Option<i64>,
}

/// What a message holds.
#[verifier::ext_equal]
pub struct ConsumedView {
    pub topic: Seq<char>,
    pub partition: i32,
    pub offset: i64,
    pub key: Option<Seq<u8>>,
    pub value: Seq<u8>,
    pub timestamp: Option<i64>,
}

impl DeepView for ConsumedMessage {
    type V = ConsumedView;

    open spec fn deep_view(&self) -> ConsumedView {
        ConsumedView {
            topic: self.topic@,
            partition: self.partition,
            offset: self.offset,
            key: self.key.deep_view(),
            value: self.value.deep_view(),
            timestamp: self.timestamp,
        }
    }
}

impl ConsumedMessage {
    /// The value as text.
    pub fn value_as_string(&self) -> (r: Result<String, String>)
        ensures
            match r {
                Ok(t) => valid_utf8(self.value@) && t@ == decode_utf8(self.value@),
                Err(e) => !valid_utf8(self.value@) && e@ == "Failed to convert message value to string"@,
            },
    {
        match utf8_text(self.value.as_slice()) {
            Some(t) => Ok(t),
            None => Err("Failed to convert message value to string".to_owned()),
        }
    }
}

/// The messages in the records of a partition.
pub open spec fn record_messages(topic: Seq<char>, partition: i32, records: Seq<FetchedRecord>) -> Seq<ConsumedView> {
    Seq::new(
        records.len(),
        |i: int|
            ConsumedView {
                topic,
                partition,
                offset: records[i].offset,
                key: records[i].key.deep_view(),
                value: records[i].value.deep_view(),
                timestamp: None,
            },
    )
}

/// The messages of the partitions that were read without an error.
pub open spec fn partition_messages(topic: Seq<char>, results: Seq<FetchPartitionResult>) -> Seq<ConsumedView>
    decreases results.len(),
{
    if results.len() == 0 {
        Seq::empty()
    } else {
        let before = partition_messages(topic, results.drop_last());
        if results.last().error_code == 0 {
            before + record_messages(topic, results.last().partition, results.last().records@)
        } else {
            before
        }
    }
}

/// The messages of all topics of an answer.
pub open spec fn all_messages(topic: Seq<char>, topics: Seq<FetchTopicResult>) -> Seq<ConsumedView>
    decreases topics.len(),
{
    if topics.len() == 0 {
        Seq::empty()
    } else {
        all_messages(topic, topics.drop_last()) + partition_messages(topic, topics.last().partitions@)
    }
}

/// No more than so many of the messages, the first.
pub open spec fn capped(all: Seq<ConsumedView>, cap: int) -> Seq<ConsumedView> {
    if all.len() <= cap {
        all
    } else {
        all.take(cap)
    }
}

/// How many messages one poll hands out at most; at least one.
pub open spec fn poll_cap(config: ConsumerConfig) -> int {
    if config.max_messages_per_poll >= 1 { config.max_messages_per_poll as int } else { 1 }
}

/// The messages that a poll takes out of an answer.
pub open spec fn taken_messages(config: ConsumerConfig, response: FetchResponse) -> Seq<ConsumedView> {
    capped(all_messages(config.topic@, response.topics@), poll_cap(config))
}

/// The messages of an answer, as many as one poll may hand out.
pub fn take_messages(config: &ConsumerConfig, response: FetchResponse) -> (r: Vec<ConsumedMessage>)
    ensures
        r.deep_view() == taken_messages(*config, response),
{
    let cap: usize = if config.max_messages_per_poll >= 1 { config.max_messages_per_poll } else { 1 };
    let ghost name = config.topic@;
    let ghost topics = response.topics@;
    let mut messages: Vec<ConsumedMessage> = Vec::new();
    proof {
        assert(topics.take(0) =~= Seq::empty());
        assert(messages.deep_view() =~= capped(Seq::empty(), cap as int));
    }
    for topic in it: response.topics
        invariant
            it.seq() == topics,
            name == config.topic@,
            cap >= 1,
            messages.deep_view() == capped(all_messages(name, topics.take(it.index() as int)), cap as int),
    {
        let ghost before = all_messages(name, topics.take(it.index() as int));
        let ghost parts = topic.partitions@;
        proof {
            assert(topics.take(it.index() + 1).drop_last() =~= topics.take(it.index() as int));
            assert(topics.take(it.index() + 1).last() == topic);
            assert(parts.take(0) =~= Seq::empty());
            assert(before + partition_messages(name, parts.take(0)) =~= before);
        }
        for part in jt: topic.partitions
            invariant
                jt.seq() == parts,
                name == config.topic@,
                cap >= 1,
                messages.deep_view() == capped(
                    before + partition_messages(name, parts.take(jt.index() as int)),
                    cap as int,
                ),
        {
            let ghost sofar = before + partition_messages(name, parts.take(jt.index() as int));
            proof {
                assert(parts.take(jt.index() + 1).drop_last() =~= parts.take(jt.index() as int));
                assert(parts.take(jt.index() + 1).last() == part);
            }
            if part.error_code == 0 {
                let partition = part.partition;
                let ghost records = part.records@;
                let ghost found = record_messages(name, partition, records);
                assert(sofar + found.take(0) =~= sofar);
                for record in kt: part.records
                    invariant
                        kt.seq() == records,
                        name == config.topic@,
                        cap >= 1,
                        found == record_messages(name, partition, records),
                        messages.deep_view() == capped(sofar + found.take(kt.index() as int), cap as int),
                {
                    let ghost seen = sofar + found.take(kt.index() as int);
                    let ghost old_messages = messages.deep_view();
                    assert(old_messages.len() == messages@.len());
                    let message = ConsumedMessage {
                        topic: config.topic.dup(),
                        partition,
                        offset: record.offset,
                        key: record.key,
                        value: record.value,
                        timestamp: None,
                    };
                    let ghost shown = message.deep_view();
                    proof {
                        assert(shown == found[kt.index() as int]);
                        assert(sofar + found.take(kt.index() + 1) =~= seen.push(shown));
                    }
                    if messages.len() < cap {
                        messages.push(message);
                        assert(messages.deep_view() =~= old_messages.push(shown));
                        assert(messages.deep_view() =~= capped(seen.push(shown), cap as int));
                    } else {
                        assert(capped(seen, cap as int) =~= capped(seen.push(shown), cap as int));
                    }
                }
                proof {
                    assert(found.take(records.len() as int) =~= found);
                    assert(sofar + found =~= before + partition_messages(name, parts.take(jt.index() + 1)));
                }
            }
        }
        proof {
            assert(parts.take(parts.len() as int) =~= parts);
        }
    }
    assert(topics.take(topics.len() as int) =~= topics);
    messages
}

/// The partitions to read, each from its own offset, or from the start.
pub open spec fn is_fetch_request(
    r: FetchRequest,
    config: ConsumerConfig,
    partitions: Seq<i32>,
    offsets: Map<i32, i64>,
) -> bool {
    &&& r.replica_id == -1
    &&& r.max_wait_time == config.max_wait_ms
    &&& r.min_bytes == config.min_bytes
    &&& r.topics@.len() == 1
    &&& r.topics@[0].topic_name@ == config.topic@
    &&& r.topics@[0].partitions@.len() == partitions.len()
    &&& forall|i: int|
        0 <= i < partitions.len() ==> (#[trigger] r.topics@[0].partitions@[i]) == (FetchPartition {
            partition: partitions[i],
            fetch_offset: next_offset(offsets, partitions[i]),
            max_bytes: config.max_bytes,
        })
}

/// Where reading a partition goes on.
pub open spec fn next_offset(offsets: Map<i32, i64>, partition: i32) -> i64 {
    if offsets.dom().contains(partition) { offsets[partition] } else { 0 }
}

fn fetch_request_for(config: &ConsumerConfig, partitions: &Vec<i32>, offsets: &VecMap<i32, i64>) -> (r: FetchRequest)
    ensures
        is_fetch_request(r, *config, partitions@, offsets@),
{
    let mut list: Vec<FetchPartition> = Vec::new();
    let mut i: usize = 0;
    while i < partitions.len()
        invariant
            i <= partitions@.len(),
            list@.len() == i,
            forall|k: int|
                0 <= k < i ==> (#[trigger] list@[k]) == (FetchPartition {
                    partition: partitions@[k],
                    fetch_offset: next_offset(offsets@, partitions@[k]),
                    max_bytes: config.max_bytes,
                }),
        decreases partitions@.len() - i,
    {
        let fetch_offset: i64 = match offsets.get(&partitions[i]) {
            Some(o) => *o,
            None => 0,
        };
        list.push(FetchPartition { partition: partitions[i], fetch_offset, max_bytes: config.max_bytes });
        i += 1;
    }
    let mut topics: Vec<FetchTopic> = Vec::new();
    topics.push(FetchTopic { topic_name: config.topic.dup(), partitions: list });
    FetchRequest { replica_id: -1, max_wait_time: config.max_wait_ms, min_bytes: config.min_bytes, topics }
}

/// How the start of a partition is found.
#[derive(Debug)]
pub enum ResolveStep {
    /// Here.
    Known { offset: i64 },
    /// Behind the offset that the group committed, if it did.
    AskCommitted { request: OffsetFetchRequest },
    /// At an end of the log.
    AskLog { log_request: ListOffsetsRequest },
}

/// The request for the committed offset of a partition.
pub open spec fn is_committed_request(r: OffsetFetchRequest, group: Seq<char>, topic: Seq<char>, partition: i32) -> bool {
    &&& r.consumer_group_id@ == group
    &&& r.topics@.len() == 1
    &&& r.topics@[0].topic_name@ == topic
    &&& r.topics@[0].partitions@ == seq![partition]
}

/// The request for an end of the log of a partition.
pub open spec fn is_log_request(r: ListOffsetsRequest, config: ConsumerConfig, partition: i32) -> bool {
    &&& r.replica_id == -1
    &&& r.topics@.len() == 1
    &&& r.topics@[0].topic_name@ == config.topic@
    &&& r.topics@[0].partitions@.len() == 1
    &&& r.topics@[0].partitions@[0] == (ListOffsetsPartition {
        partition,
        time: config.offset,
        max_number_of_offsets: 1,
    })
}

fn ask_log(config: &ConsumerConfig, partition: i32) -> (r: ResolveStep)
    ensures
        r matches ResolveStep::AskLog { log_request } && is_log_request(log_request, *config, partition),
{
    let mut partitions: Vec<ListOffsetsPartition> = Vec::new();
    partitions.push(ListOffsetsPartition { partition, time: config.offset, max_number_of_offsets: 1 });
    let mut topics: Vec<ListOffsetsTopic> = Vec::new();
    topics.push(ListOffsetsTopic { topic_name: config.topic.dup(), partitions });
    ResolveStep::AskLog { log_request: ListOffsetsRequest { replica_id: -1, topics } }
}

/// How to find where reading a partition starts: at a configured offset, or where the
/// group stopped, or at an end of the log.
pub fn resolve_partition_offset(config: &ConsumerConfig, partition: i32) -> (r: ResolveStep)
    ensures
        if config.offset >= 0 {
            r == (ResolveStep::Known { offset: config.offset })
        } else {
            match config.group_id {
                Some(group) => r matches ResolveStep::AskCommitted { request } && is_committed_request(
                    request,
                    group@,
                    config.topic@,
                    partition,
                ),
                None => r matches ResolveStep::AskLog { log_request } && is_log_request(log_request, *config, partition),
            }
        },
{
    if config.offset >= 0 {
        return ResolveStep::Known { offset: config.offset };
    }
    match &config.group_id {
        Some(group) => {
            let mut partitions: Vec<i32> = Vec::new();
            partitions.push(partition);
            assert(partitions@ =~= seq![partition]);
            let mut topics: Vec<OffsetFetchTopic> = Vec::new();
            topics.push(OffsetFetchTopic { topic_name: config.topic.dup(), partitions });
            ResolveStep::AskCommitted { request: OffsetFetchRequest { consumer_group_id: group.dup(), topics } }
        },
        None => ask_log(config, partition),
    }
}

/// The committed offsets in an answer, topic by topic.
pub open spec fn committed_results(topics: Seq<OffsetFetchTopicResult>) -> Seq<OffsetFetchPartitionResult>
    decreases topics.len(),
{
    if topics.len() == 0 {
        Seq::empty()
    } else {
        committed_results(topics.drop_last()) + topics.last().partitions@
    }
}

/// An offset was committed.
pub open spec fn is_committed(r: OffsetFetchPartitionResult) -> bool {
    r.error_code == 0 && r.offset >= 0
}

/// The first offset in the answer that was committed.
pub open spec fn first_committed(all: Seq<OffsetFetchPartitionResult>) -> Option<i64>
    decreases all.len(),
{
    if all.len() == 0 {
        None
    } else {
        match first_committed(all.drop_last()) {
            Some(o) => Some(o),
            None => if is_committed(all.last()) {
                Some(all.last().offset)
            } else {
                None
            },
        }
    }
}

/// Goes on after the request for the committed offset was answered, or failed: behind
/// the committed offset, or at an end of the log.
pub fn resolve_committed(config: &ConsumerConfig, partition: i32, response: Option<OffsetFetchResponse>) -> (r:
    ResolveStep)
    requires
        response matches Some(a) ==> first_committed(committed_results(a.topics@)) != Some(i64::MAX),
    ensures
        match response {
            Some(a) => match first_committed(committed_results(a.topics@)) {
                Some(o) => r matches ResolveStep::Known { offset } && offset == o + 1,
                None => r matches ResolveStep::AskLog { log_request } && is_log_request(log_request, *config, partition),
            },
            None => r matches ResolveStep::AskLog { log_request } && is_log_request(log_request, *config, partition),
        },
{
    if let Some(answer) = response {
        if let Some(o) = find_committed(&answer) {
            return ResolveStep::Known { offset: o + 1 };
        }
    }
    ask_log(config, partition)
}

fn find_committed(answer: &OffsetFetchResponse) -> (r: Option<i64>)
    ensures
        r == first_committed(committed_results(answer.topics@)),
{
    let ghost topics = answer.topics@;
    let mut found: Option<i64> = None;
    let mut i: usize = 0;
    assert(topics.take(0) =~= Seq::empty());
    while i < answer.topics.len()
        invariant
            i <= topics.len(),
            topics == answer.topics@,
            found == first_committed(committed_results(topics.take(i as int))),
        decreases topics.len() - i,
    {
        let parts = &answer.topics[i].partitions;
        let ghost before = committed_results(topics.take(i as int));
        let mut j: usize = 0;
        assert(before + parts@.take(0) =~= before);
        while j < parts.len()
            invariant
                j <= parts@.len(),
                found == first_committed(before + parts@.take(j as int)),
            decreases parts@.len() - j,
        {
            proof {
                let next = before + parts@.take(j + 1);
                assert(next.drop_last() =~= before + parts@.take(j as int));
                assert(next.last() == parts@[j as int]);
            }
            if found.is_none() && parts[j].error_code == 0 && parts[j].offset >= 0 {
                found = Some(parts[j].offset);
            }
            j += 1;
        }
        proof {
            assert(parts@.take(j as int) =~= parts@);
            assert(topics.take(i + 1).drop_last() =~= topics.take(i as int));
            assert(topics.take(i + 1).last() == answer.topics@[i as int]);
        }
        i += 1;
    }
    assert(topics.take(i as int) =~= topics);
    found
}

/// The ends of logs in an answer, topic by topic.
pub open spec fn log_results(topics: Seq<ListOffsetsTopicResult>) -> Seq<PartitionOffsets>
    decreases topics.len(),
{
    if topics.len() == 0 {
        Seq::empty()
    } else {
        log_results(topics.drop_last()) + topics.last().partitions@
    }
}

/// The first offset that the answer gives, or zero.
pub open spec fn first_listed(all: Seq<PartitionOffsets>) -> Option<i64>
    decreases all.len(),
{
    if all.len() == 0 {
        None
    } else {
        match first_listed(all.drop_last()) {
            Some(o) => Some(o),
            None => if all.last().error_code == 0 && all.last().offsets@.len() > 0 {
                Some(all.last().offsets@[0])
            } else {
                None
            },
        }
    }
}

/// Where reading starts, by the answer about the log; at the start where it says nothing.
pub fn resolve_listed(answer: &ListOffsetsResponse) -> (r: i64)
    ensures
        r == (match first_listed(log_results(answer.topics@)) {
            Some(o) => o,
            None => 0i64,
        }),
{
    let ghost topics = answer.topics@;
    let mut found: Option<i64> = None;
    let mut i: usize = 0;
    assert(topics.take(0) =~= Seq::empty());
    while i < answer.topics.len()
        invariant
            i <= topics.len(),
            topics == answer.topics@,
            found == first_listed(log_results(topics.take(i as int))),
        decreases topics.len() - i,
    {
        let parts = &answer.topics[i].partitions;
        let ghost before = log_results(topics.take(i as int));
        let mut j: usize = 0;
        assert(before + parts@.take(0) =~= before);
        while j < parts.len()
            invariant
                j <= parts@.len(),
                found == first_listed(before + parts@.take(j as int)),
            decreases parts@.len() - j,
        {
            proof {
                let next = before + parts@.take(j + 1);
                assert(next.drop_last() =~= before + parts@.take(j as int));
                assert(next.last() == parts@[j as int]);
            }
            if found.is_none() && parts[j].error_code == 0 && parts[j].offsets.len() > 0 {
                found = Some(parts[j].offsets[0]);
            }
            j += 1;
        }
        proof {
            assert(parts@.take(j as int) =~= parts@);
            assert(topics.take(i + 1).drop_last() =~= topics.take(i as int));
            assert(topics.take(i + 1).last() == answer.topics@[i as int]);
        }
        i += 1;
    }
    assert(topics.take(i as int) =~= topics);
    match found {
        Some(o) => o,
        None => 0,
    }
}

/// The state of a consumer.
pub struct Consumer {
    config: ConsumerConfig,
    partition_offsets: VecMap<i32, i64>,
    offsets_initialized: bool,
    active_partitions: Vec<i32>,
    polled_partitions: Vec<i32>,
    needs_rejoin: bool,
    member_id: Option<String>,
    session: Option<(String, i32)>,
    is_running: bool,
}

/// What a consumer knows.
#[verifier::ext_equal]
pub struct ConsumerView {
    /// Where reading goes on, by partition.
    pub offsets: Map<i32, i64>,
    /// The offsets were found or set.
    pub initialized: bool,
    /// The partitions that the consumer reads on demand.
    pub partitions: Seq<i32>,
    /// The partitions that it reads in the background.
    pub polled: Seq<i32>,
    /// The group is being rebalanced.
    pub needs_rejoin: bool,
    /// The name under which the consumer first joined its group.
    pub member_id: Option<Seq<char>>,
    /// The name and the generation in the group now.
    pub session: Option<(Seq<char>, i32)>,
    pub running: bool,
}

/// Offsets by partition, where the lists go together; of two entries the later counts.
pub open spec fn paired(partitions: Seq<i32>, offsets: Seq<i64>) -> Map<i32, i64>
    decreases partitions.len(),
{
    if partitions.len() == 0 || offsets.len() != partitions.len() {
        Map::empty()
    } else {
        paired(partitions.drop_last(), offsets.drop_last()).insert(partitions.last(), offsets.last())
    }
}

/// The offsets of the partitions.
pub fn resolve_starting_offsets(partitions: &Vec<i32>, offsets: &Vec<i64>) -> (r: VecMap<i32, i64>)
    requires
        offsets@.len() == partitions@.len(),
    ensures
        r@ == paired(partitions@, offsets@),
{
    let mut r: VecMap<i32, i64> = VecMap::new();
    let mut i: usize = 0;
    while i < partitions.len()
        invariant
            i <= partitions@.len(),
            offsets@.len() == partitions@.len(),
            r@ == paired(partitions@.take(i as int), offsets@.take(i as int)),
        decreases partitions@.len() - i,
    {
        proof {
            assert(partitions@.take(i + 1).drop_last() =~= partitions@.take(i as int));
            assert(offsets@.take(i + 1).drop_last() =~= offsets@.take(i as int));
        }
        r.insert(partitions[i], offsets[i]);
        i += 1;
    }
    proof {
        assert(partitions@.take(i as int) =~= partitions@);
        assert(offsets@.take(i as int) =~= offsets@);
    }
    r
}

/// A partition whose offset is not known.
pub open spec fn not_among(offsets: Map<i32, i64>) -> spec_fn(i32) -> bool {
    |p: i32| !offsets.dom().contains(p)
}

/// The offsets after a group has assigned partitions anew: what is known is kept, what
/// is new starts where it was found to start, and what is gone is forgotten.
pub open spec fn reassigned(known: Map<i32, i64>, partitions: Seq<i32>, found: Map<i32, i64>) -> Map<i32, i64> {
    Map::new(
        |p: i32| partitions.contains(p) && (known.dom().contains(p) || found.dom().contains(p)),
        |p: i32| if known.dom().contains(p) { known[p] } else { found[p] },
    )
}

/// The offsets after a group has assigned partitions anew.
pub fn reassign_offsets(known: &VecMap<i32, i64>, partitions: &Vec<i32>, found: &VecMap<i32, i64>) -> (r: VecMap<
    i32,
    i64,
>)
    ensures
        r@ == reassigned(known@, partitions@, found@),
{
    let mut r: VecMap<i32, i64> = VecMap::new();
    let mut i: usize = 0;
    assert(r@ =~= reassigned(known@, partitions@.take(0), found@));
    while i < partitions.len()
        invariant
            i <= partitions@.len(),
            r@ == reassigned(known@, partitions@.take(i as int), found@),
        decreases partitions@.len() - i,
    {
        let p = partitions[i];
        let ghost before = r@;
        match known.get(&p) {
            Some(o) => {
                r.insert(p, *o);
            },
            None => if let Some(o) = found.get(&p) {
                r.insert(p, *o);
            },
        }
        proof {
            lemma_reassigned_step(known@, partitions@, found@, i as int);
        }
        i += 1;
    }
    assert(partitions@.take(i as int) =~= partitions@);
    r
}

proof fn lemma_reassigned_step(known: Map<i32, i64>, partitions: Seq<i32>, found: Map<i32, i64>, i: int)
    requires
        0 <= i < partitions.len(),
    ensures
        ({
            let p = partitions[i];
            let before = reassigned(known, partitions.take(i), found);
            reassigned(known, partitions.take(i + 1), found) == (if known.dom().contains(p) {
                before.insert(p, known[p])
            } else if found.dom().contains(p) {
                before.insert(p, found[p])
            } else {
                before
            })
        }),
{
    let p = partitions[i];
    let a = partitions.take(i);
    let b = partitions.take(i + 1);
    assert(b =~= a.push(p));
    assert forall|q: i32| b.contains(q) == (a.contains(q) || q == p) by {
        if a.contains(q) {
            let k = choose|k: int| 0 <= k < a.len() && a[k] == q;
            assert(b[k] == q);
        }
        assert(b[i] == p);
        if b.contains(q) && q != p {
            let k = choose|k: int| 0 <= k < b.len() && b[k] == q;
            assert(a[k] == q);
        }
    }
    let before = reassigned(known, a, found);
    let after = reassigned(known, b, found);
    if known.dom().contains(p) {
        assert(after =~= before.insert(p, known[p]));
    } else if found.dom().contains(p) {
        assert(after =~= before.insert(p, found[p]));
    } else {
        assert(after =~= before);
    }
}

/// The offsets after a message was handled; they never go back.
pub open spec fn advanced(offsets: Map<i32, i64>, partition: i32, next: i64) -> Map<i32, i64> {
    if offsets.dom().contains(partition) && offsets[partition] >= next {
        offsets
    } else {
        offsets.insert(partition, next)
    }
}

/// The offsets after messages were handed out: behind the last of every partition.
pub open spec fn handed_out(offsets: Map<i32, i64>, messages: Seq<ConsumedView>) -> Map<i32, i64>
    decreases messages.len(),
{
    if messages.len() == 0 {
        offsets
    } else {
        handed_out(offsets, messages.drop_last()).insert(
            messages.last().partition,
            (messages.last().offset + 1) as i64,
        )
    }
}

/// An offset comes after that of each message.
pub open spec fn have_successors(messages: Seq<ConsumedView>) -> bool {
    forall|i: int| 0 <= i < messages.len() ==> (#[trigger] messages[i]).offset < i64::MAX
}

/// A commit of exactly these offsets.
pub open spec fn is_commit_request(r: OffsetCommitRequest, group: Seq<char>, topic: Seq<char>, offsets: Map<i32, i64>) -> bool {
    &&& r.consumer_group_id@ == group
    &&& r.topics@.len() == 1
    &&& r.topics@[0].topic_name@ == topic
    &&& commits_exactly(r.topics@[0].partitions@, offsets)
}

/// Every offset stands in the list, each once.
pub open spec fn commits_exactly(list: Seq<CommitPartition>, offsets: Map<i32, i64>) -> bool {
    &&& offsets.dom().finite()
    &&& list.len() == offsets.dom().len()
    &&& forall|i: int|
        0 <= i < list.len() ==> offsets.dom().contains((#[trigger] list[i]).partition) && list[i].offset
            == offsets[list[i].partition] && list[i].metadata@.len() == 0
    &&& forall|i: int, j: int|
        0 <= i < list.len() && 0 <= j < list.len() && i != j ==> (#[trigger] list[i]).partition != (
        #[trigger] list[j]).partition
}

fn commit_all_offsets(config: &ConsumerConfig, group_id: &String, offsets: &VecMap<i32, i64>) -> (r: OffsetCommitRequest)
    ensures
        is_commit_request(r, group_id@, config.topic@, offsets@),
{
    let n = offsets.len();
    let ghost order = offsets.order();
    let mut list: Vec<CommitPartition> = Vec::new();
    let mut i: usize = 0;
    while i < n
        invariant
            i <= n,
            order == offsets.order(),
            n == order.len(),
            list@.len() == i,
            forall|k: int|
                0 <= k < i ==> (#[trigger] list@[k]).partition == order[k] && offsets@.dom().contains(order[k])
                    && list@[k].offset == offsets@[order[k]] && list@[k].metadata@.len() == 0,
        decreases n - i,
    {
        let partition = *offsets.key_at(i);
        let offset = *offsets.value_at(i);
        list.push(CommitPartition { partition, offset, metadata: String::new() });
        i += 1;
    }
    let mut topics: Vec<CommitTopic> = Vec::new();
    assert(commits_exactly(list@, offsets@));
    topics.push(CommitTopic { topic_name: config.topic.dup(), partitions: list });
    OffsetCommitRequest { consumer_group_id: group_id.dup(), topics }
}

/// What a consumer does at the next tick.
#[derive(Debug)]
pub enum PollStep {
    /// Joins its group again, under its name.
    Rejoin { group_id: String, member_id: Option<String> },
    /// Reads.
    Fetch { request: FetchRequest },
    /// Nothing.
    Wait,
}

/// How a consumer stops.
#[derive(Debug)]
pub enum ShutdownStep {
    /// It was not running.
    Idle,
    /// It stops, and leaves its group if it has one.
    Stop { leave: Option<LeaveGroupRequest> },
}

/// The lowest of the offsets, or zero where there are none.
pub open spec fn is_lowest(offsets: Map<i32, i64>, r: i64) -> bool {
    if offsets.dom() == Set::<i32>::empty() {
        r == 0
    } else {
        &&& exists|p: i32| #[trigger] offsets.dom().contains(p) && offsets[p] == r
        &&& forall|p: i32| #[trigger] offsets.dom().contains(p) ==> r <= offsets[p]
    }
}

impl Consumer {
    /// What the consumer knows.
    pub closed spec fn view(&self) -> ConsumerView {
        ConsumerView {
            offsets: self.partition_offsets@,
            initialized: self.offsets_initialized,
            partitions: self.active_partitions@,
            polled: self.polled_partitions@,
            needs_rejoin: self.needs_rejoin,
            member_id: self.member_id.deep_view(),
            session: self.session.deep_view(),
            running: self.is_running,
        }
    }

    /// The configuration.
    pub closed spec fn settings(&self) -> ConsumerConfig {
        self.config
    }

    /// A consumer that has not read anything.
    pub fn new(config: ConsumerConfig) -> (r: Self)
        ensures
            r.settings() == config,
            r@ == (ConsumerView {
                offsets: Map::empty(),
                initialized: false,
                partitions: config.partitions@,
                polled: Seq::empty(),
                needs_rejoin: false,
                member_id: None,
                session: None,
                running: false,
            }),
    {
        let active_partitions = config.partitions.dup();
        proof {
            assert(active_partitions.deep_view() =~= active_partitions@);
            assert(config.partitions.deep_view() =~= config.partitions@);
        }
        let polled_partitions: Vec<i32> = Vec::new();
        Consumer {
            config,
            partition_offsets: VecMap::new(),
            offsets_initialized: false,
            active_partitions,
            polled_partitions,
            needs_rejoin: false,
            member_id: None,
            session: None,
            is_running: false,
        }
    }

    /// Starts to read in the background. Tells which group is to be joined first.
    pub fn start(&mut self) -> (r: Result<Option<String>, String>)
        ensures
            final(self).settings() == old(self).settings(),
            if old(self)@.running {
                &&& r matches Err(e) && e@ == "Consumer is already running"@
                &&& final(self)@ == old(self)@
            } else {
                &&& r matches Ok(group) && group.deep_view() == old(self).settings().group_id.deep_view()
                &&& final(self)@ == (ConsumerView { running: true, ..old(self)@ })
            },
    {
        if self.is_running {
            return Err("Consumer is already running".to_owned());
        }
        self.is_running = true;
        Ok(self.config.group_id.dup())
    }

    /// Begins to join a group, under the own name or a fresh one.
    pub fn join_and_sync(
        config: &ConsumerConfig,
        group_id: &String,
        existing_member_id: Option<String>,
        fresh_id: &String,
    ) -> (r: Joining)
        ensures
            r@ == (JoiningView {
                group_id: group_id@,
                topic: config.topic@,
                session_timeout: 30000,
                rebalance_code: REBALANCE_ERROR_CODE,
                step_ms: 500,
                attempt: 0,
                member_id: match existing_member_id {
                    Some(m) => m@,
                    None => "consumer-"@ + fresh_id@,
                },
                generation_id: 0,
            }),
    {
        let member_id = match existing_member_id {
            Some(m) => m,
            None => {
                let mut m = "consumer-".to_owned();
                m.append(fresh_id.as_str());
                m
            },
        };
        Joining::new(group_id.dup(), config.topic.dup(), 30000, REBALANCE_ERROR_CODE, 500, member_id)
    }

    /// How a failed join is described.
    pub fn join_failed(group_id: &String, failure: JoinFailure) -> (r: String)
        ensures
            r@ == (match failure {
                JoinFailure::Join { error_code } => "JoinGroup error_code="@ + decimal_text(error_code as int),
                JoinFailure::Sync { error_code } => "SyncGroup error_code="@ + decimal_text(error_code as int),
                JoinFailure::Rebalancing => "Failed to join group '"@ + group_id@
                    + "' after 5 attempts: persistent REBALANCE_IN_PROGRESS"@,
            }),
    {
        match failure {
            JoinFailure::Join { error_code } => {
                let mut r = "JoinGroup error_code=".to_owned();
                r.append(decimal(error_code as i64).as_str());
                r
            },
            JoinFailure::Sync { error_code } => {
                let mut r = "SyncGroup error_code=".to_owned();
                r.append(decimal(error_code as i64).as_str());
                r
            },
            JoinFailure::Rebalancing => {
                let mut r = "Failed to join group '".to_owned();
                r.append(group_id.as_str());
                r.append("' after 5 attempts: persistent REBALANCE_IN_PROGRESS");
                r
            },
        }
    }

    /// Takes note of the group that was joined. A group that assigns no partitions
    /// leaves those that the consumer has.
    pub fn joined(&mut self, assigned: Vec<i32>, member_id: String, generation_id: i32)
        ensures
            final(self).settings() == old(self).settings(),
            final(self)@ == (ConsumerView {
                partitions: if assigned@.len() > 0 { assigned@ } else { old(self)@.partitions },
                member_id: Some(member_id@),
                session: Some((member_id@, generation_id)),
                ..old(self)@
            }),
    {
        self.session = Some((member_id.dup(), generation_id));
        self.member_id = Some(member_id);
        if assigned.len() > 0 {
            self.active_partitions = assigned;
        }
    }

    /// The partitions whose offsets are to be found before reading starts.
    pub fn partitions(&self) -> (r: Vec<i32>)
        ensures
            r@ == self@.partitions,
    {
        let r = self.active_partitions.dup();
        proof {
            assert(r.deep_view() =~= r@);
            assert(self.active_partitions.deep_view() =~= self.active_partitions@);
        }
        r
    }

    /// Offsets have yet to be found before messages can be read on demand.
    pub fn needs_offsets(&self) -> (b: bool)
        ensures
            b == !self@.initialized,
    {
        !self.offsets_initialized
    }

    /// Takes note of the offsets at which the partitions start.
    pub fn resolved(&mut self, offsets: &Vec<i64>)
        requires
            offsets@.len() == old(self)@.partitions.len(),
        ensures
            final(self).settings() == old(self).settings(),
            final(self)@ == (ConsumerView {
                offsets: paired(old(self)@.partitions, offsets@),
                initialized: true,
                ..old(self)@
            }),
    {
        self.partition_offsets = resolve_starting_offsets(&self.active_partitions, offsets);
        self.offsets_initialized = true;
    }

    /// From now on the partitions are read in the background.
    pub fn started(&mut self)
        ensures
            final(self).settings() == old(self).settings(),
            final(self)@ == (ConsumerView { polled: old(self)@.partitions, ..old(self)@ }),
    {
        self.polled_partitions = self.partitions();
    }

    /// The request that says that the member is alive; there is none without a group.
    pub fn heartbeat_request(&self) -> (r: Option<HeartbeatRequest>)
        ensures
            match (self.settings().group_id, self@.member_id) {
                (Some(group), Some(member)) => r matches Some(h) && h.group_id@ == group@ && (h.member_id@, h.generation_id)
                    == (match self@.session {
                    Some(s) => s,
                    None => (member, 0i32),
                }),
                _ => r is None,
            },
    {
        match (&self.config.group_id, &self.member_id) {
            (Some(group_id), Some(member_id)) => match &self.session {
                Some(s) => Some(
                    HeartbeatRequest { group_id: group_id.dup(), generation_id: s.1, member_id: s.0.dup() },
                ),
                None => Some(
                    HeartbeatRequest { group_id: group_id.dup(), generation_id: 0, member_id: member_id.dup() },
                ),
            },
            _ => None,
        }
    }

    /// Takes note of the answer to a heartbeat.
    pub fn heartbeat_answered(&mut self, error_code: i32)
        ensures
            final(self).settings() == old(self).settings(),
            final(self)@ == (ConsumerView {
                needs_rejoin: old(self)@.needs_rejoin || error_code == REBALANCE_ERROR_CODE,
                ..old(self)@
            }),
    {
        if error_code == REBALANCE_ERROR_CODE {
            self.needs_rejoin = true;
        }
    }

    /// What to do at the next tick.
    pub fn poll_step(&self) -> (r: PollStep)
        ensures
            if self@.needs_rejoin {
                match self.settings().group_id {
                    Some(group) => r matches PollStep::Rejoin { group_id, member_id } && group_id@ == group@
                        && member_id.deep_view() == (match self@.session {
                        Some(s) => Some(s.0),
                        None => None,
                    }),
                    None => r is Wait,
                }
            } else {
                r matches PollStep::Fetch { request } && is_fetch_request(
                    request,
                    self.settings(),
                    self@.polled,
                    self@.offsets,
                )
            },
    {
        if self.needs_rejoin {
            match &self.config.group_id {
                Some(group_id) => {
                    let member_id = match &self.session {
                        Some(s) => Some(s.0.dup()),
                        None => None,
                    };
                    PollStep::Rejoin { group_id: group_id.dup(), member_id }
                },
                None => PollStep::Wait,
            }
        } else {
            PollStep::Fetch {
                request: fetch_request_for(&self.config, &self.polled_partitions, &self.partition_offsets),
            }
        }
    }

    /// The partitions among the new ones whose offset is not known.
    pub fn newly_assigned(&self, partitions: &Vec<i32>) -> (r: Vec<i32>)
        ensures
            r@ == partitions@.filter(not_among(self@.offsets)),
    {
        let ghost p = not_among(self@.offsets);
        let mut r: Vec<i32> = Vec::new();
        let mut i: usize = 0;
        proof {
            lemma_filter_ends(partitions@, p);
        }
        while i < partitions.len()
            invariant
                i <= partitions@.len(),
                p == not_among(self@.offsets),
                r@ == partitions@.take(i as int).filter(p),
            decreases partitions@.len() - i,
        {
            let q = partitions[i];
            proof {
                lemma_filter_step(partitions@, p, i as int);
            }
            if !self.partition_offsets.contains_key(&q) {
                r.push(q);
            }
            i += 1;
        }
        assert(partitions@.take(i as int) =~= partitions@);
        r
    }

    /// Takes note of the group that was joined again, with the offsets of partitions
    /// that were found since.
    pub fn rejoined(
        &mut self,
        partitions: Vec<i32>,
        member_id: String,
        generation_id: i32,
        found: &VecMap<i32, i64>,
    )
        ensures
            final(self).settings() == old(self).settings(),
            final(self)@ == (ConsumerView {
                offsets: reassigned(old(self)@.offsets, partitions@, found@),
                polled: partitions@,
                needs_rejoin: false,
                session: match old(self)@.session {
                    Some(_) => Some((member_id@, generation_id)),
                    None => None,
                },
                ..old(self)@
            }),
    {
        if self.session.is_some() {
            self.session = Some((member_id, generation_id));
        }
        self.partition_offsets = reassign_offsets(&self.partition_offsets, &partitions, found);
        self.polled_partitions = partitions;
        self.needs_rejoin = false;
    }

    /// The group could not be joined again; the next heartbeat decides anew.
    pub fn rejoin_failed(&mut self)
        ensures
            final(self).settings() == old(self).settings(),
            final(self)@ == (ConsumerView { needs_rejoin: false, ..old(self)@ }),
    {
        self.needs_rejoin = false;
    }

    /// Takes note of a message that was handled.
    pub fn handled(&mut self, partition: i32, offset: i64)
        requires
            offset < i64::MAX,
        ensures
            final(self).settings() == old(self).settings(),
            final(self)@ == (ConsumerView {
                offsets: advanced(old(self)@.offsets, partition, (offset + 1) as i64),
                ..old(self)@
            }),
    {
        let next: i64 = offset + 1;
        let behind = match self.partition_offsets.get(&partition) {
            Some(o) => next > *o,
            None => true,
        };
        if behind {
            self.partition_offsets.insert(partition, next);
        }
    }

    /// The request that reads messages on demand.
    pub fn poll(&self) -> (r: FetchRequest)
        ensures
            is_fetch_request(r, self.settings(), self@.partitions, self@.offsets),
    {
        fetch_request_for(&self.config, &self.active_partitions, &self.partition_offsets)
    }

    /// Hands out the messages of an answer, and goes on behind them.
    pub fn polled(&mut self, response: FetchResponse) -> (r: Vec<ConsumedMessage>)
        requires
            have_successors(taken_messages(old(self).settings(), response)),
        ensures
            final(self).settings() == old(self).settings(),
            r.deep_view() == taken_messages(old(self).settings(), response),
            final(self)@ == (ConsumerView {
                offsets: handed_out(old(self)@.offsets, taken_messages(old(self).settings(), response)),
                ..old(self)@
            }),
    {
        let messages = take_messages(&self.config, response);
        let ghost all = messages.deep_view();
        let ghost start = self@;
        let ghost config = self.config;
        let mut i: usize = 0;
        assert(all.take(0) =~= Seq::empty());
        assert(all.len() == messages@.len());
        while i < messages.len()
            invariant
                i <= messages@.len(),
                all == messages.deep_view(),
                all.len() == messages@.len(),
                have_successors(all),
                self.config == config,
                self@ == (ConsumerView { offsets: handed_out(start.offsets, all.take(i as int)), ..start }),
            decreases messages@.len() - i,
        {
            proof {
                assert(all[i as int] == messages@[i as int].deep_view());
                assert(all.take(i + 1).drop_last() =~= all.take(i as int));
                assert(all.take(i + 1).last() == all[i as int]);
            }
            self.partition_offsets.insert(messages[i].partition, messages[i].offset + 1);
            assert(self@ =~= (ConsumerView { offsets: handed_out(start.offsets, all.take(i + 1)), ..start }));
            i += 1;
        }
        assert(all.take(i as int) =~= all);
        messages
    }

    /// The request that commits the offsets; there is none without a group.
    pub fn commit(&self) -> (r: Option<OffsetCommitRequest>)
        ensures
            match self.settings().group_id {
                Some(group) => r matches Some(c) && is_commit_request(c, group@, self.settings().topic@, self@.offsets),
                None => r is None,
            },
    {
        match &self.config.group_id {
            Some(group_id) => Some(commit_all_offsets(&self.config, group_id, &self.partition_offsets)),
            None => None,
        }
    }

    /// The request that commits the offsets when the consumer stops.
    pub fn final_commit(&self) -> (r: Option<OffsetCommitRequest>)
        ensures
            match self.settings().group_id {
                Some(group) if self.settings().auto_commit => r matches Some(c) && is_commit_request(
                    c,
                    group@,
                    self.settings().topic@,
                    self@.offsets,
                ),
                _ => r is None,
            },
    {
        if self.config.auto_commit {
            self.commit()
        } else {
            None
        }
    }

    /// The lowest of the offsets.
    pub fn current_offset(&self) -> (r: i64)
        ensures
            is_lowest(self@.offsets, r),
    {
        let n = self.partition_offsets.len();
        let ghost order = self.partition_offsets.order();
        let ghost offsets = self.partition_offsets@;
        if n == 0 {
            assert(offsets.dom() =~= Set::<i32>::empty());
            return 0;
        }
        let mut low: i64 = *self.partition_offsets.value_at(0);
        let mut i: usize = 1;
        assert(offsets.dom().contains(order[0]));
        while i < n
            invariant
                1 <= i <= n,
                n == order.len(),
                order == self.partition_offsets.order(),
                offsets == self.partition_offsets@,
                forall|k: int| 0 <= k < i ==> low <= offsets[#[trigger] order[k]],
                exists|p: i32| #[trigger] offsets.dom().contains(p) && offsets[p] == low,
            decreases n - i,
        {
            let o = *self.partition_offsets.value_at(i);
            if o < low {
                low = o;
                assert(offsets.dom().contains(order[i as int]) && offsets[order[i as int]] == low);
            }
            i += 1;
        }
        proof {
            assert forall|p: i32| #[trigger] offsets.dom().contains(p) implies low <= offsets[p] by {
                assert(order.to_set().contains(p));
                let k = choose|k: int| 0 <= k < order.len() && order[k] == p;
                assert(low <= offsets[order[k]]);
            }
        }
        low
    }

    /// The offsets of all partitions.
    pub fn current_offsets(&self) -> (r: VecMap<i32, i64>)
        ensures
            r@ == self@.offsets,
    {
        self.partition_offsets.dup()
    }

    /// Goes on reading a partition at an offset.
    pub fn seek(&mut self, partition: i32, offset: i64)
        ensures
            final(self).settings() == old(self).settings(),
            final(self)@ == (ConsumerView {
                offsets: old(self)@.offsets.insert(partition, offset),
                initialized: true,
                ..old(self)@
            }),
    {
        self.partition_offsets.insert(partition, offset);
        self.offsets_initialized = true;
    }

    /// Stops.
    pub fn shutdown(&mut self) -> (r: ShutdownStep)
        ensures
            final(self).settings() == old(self).settings(),
            final(self)@ == (ConsumerView { running: false, ..old(self)@ }),
            if !old(self)@.running {
                r is Idle
            } else {
                match (old(self).settings().group_id, old(self)@.member_id) {
                    (Some(group), Some(member)) => r matches ShutdownStep::Stop { leave: Some(l) } && l.group_id@ == group@
                        && l.member_id@ == member,
                    _ => r == (ShutdownStep::Stop { leave: None }),
                }
            },
    {
        if !self.is_running {
            return ShutdownStep::Idle;
        }
        self.is_running = false;
        let leave = match (&self.config.group_id, &self.member_id) {
            (Some(group_id), Some(member_id)) => Some(
                LeaveGroupRequest { group_id: group_id.dup(), member_id: member_id.dup() },
            ),
            _ => None,
        };
        ShutdownStep::Stop { leave }
    }
}

/// A partition that a consumer keeps when its group is rebalanced is read on where it
/// was, and one that it loses is forgotten.
pub proof fn rejoining_keeps_offsets(known: Map<i32, i64>, partitions: Seq<i32>, found: Map<i32, i64>, p: i32)
    ensures
        partitions.contains(p) && known.dom().contains(p) ==> reassigned(known, partitions, found).dom().contains(p)
            && reassigned(known, partitions, found)[p] == known[p],
        partitions.contains(p) && !known.dom().contains(p) && found.dom().contains(p) ==> reassigned(
            known,
            partitions,
            found,
        ).dom().contains(p) && reassigned(known, partitions, found)[p] == found[p],
        !partitions.contains(p) ==> !reassigned(known, partitions, found).dom().contains(p),
{
}

/// Handling messages never takes a consumer back, in any partition, and it ends up
/// behind the message.
pub proof fn handling_never_goes_back(offsets: Map<i32, i64>, partition: i32, next: i64, p: i32)
    ensures
        next_offset(advanced(offsets, partition, next), partition) >= next,
        offsets.dom().contains(p) ==> advanced(offsets, partition, next).dom().contains(p) && advanced(
            offsets,
            partition,
            next,
        )[p] >= offsets[p],
{
}

/// A message that is handled twice counts once.
pub proof fn handling_twice_is_handling_once(offsets: Map<i32, i64>, partition: i32, next: i64)
    ensures
        advanced(advanced(offsets, partition, next), partition, next) == advanced(offsets, partition, next),
{
}

/// After a seek the partition is read from where it was set to, and the others from
/// where they were.
pub proof fn seeking_decides_what_is_read(
    r: FetchRequest,
    config: ConsumerConfig,
    partitions: Seq<i32>,
    offsets: Map<i32, i64>,
    partition: i32,
    offset: i64,
    i: int,
)
    requires
        is_fetch_request(r, config, partitions, offsets.insert(partition, offset)),
        0 <= i < partitions.len(),
    ensures
        r.topics@[0].partitions@[i].fetch_offset == (if partitions[i] == partition {
            offset
        } else {
            next_offset(offsets, partitions[i])
        }),
{
    assert(r.topics@[0].partitions@[i].partition == partitions[i]);
}

/// Messages that are handed out are not read again: reading a partition goes on behind
/// the last of them.
pub proof fn reading_goes_on_behind(offsets: Map<i32, i64>, messages: Seq<ConsumedView>, i: int)
    requires
        have_successors(messages),
        0 <= i < messages.len(),
        forall|j: int| i < j < messages.len() ==> (#[trigger] messages[j]).partition != messages[i].partition,
    ensures
        next_offset(handed_out(offsets, messages), messages[i].partition) == messages[i].offset + 1,
    decreases messages.len(),
{
    if i < messages.len() - 1 {
        assert(messages.drop_last()[i] == messages[i]);
        assert(messages.last() == messages[messages.len() - 1]);
        assert forall|j: int| i < j < messages.drop_last().len() implies (#[trigger] messages.drop_last()[j]).partition
            != messages.drop_last()[i].partition by {
            assert(messages[j].partition != messages[i].partition);
        }
        assert(have_successors(messages.drop_last())) by {
            assert forall|k: int| 0 <= k < messages.drop_last().len() implies (#[trigger] messages.drop_last()[k]).offset
                < i64::MAX by {
                assert(messages[k].offset < i64::MAX);
            }
        }
        reading_goes_on_behind(offsets, messages.drop_last(), i);
    }
}

/// How many records stand in an answer before those of a partition, not counting the
/// partitions that could not be read.
pub open spec fn records_before(topics: Seq<FetchTopicResult>, t: int, p: int) -> int
    decreases t, p,
{
    if p > 0 {
        let one = topics[t].partitions@[p - 1];
        records_before(topics, t, p - 1) + (if one.error_code == 0 { one.records@.len() as int } else { 0 })
    } else if t > 0 {
        records_before(topics, t - 1, topics[t - 1].partitions@.len() as int)
    } else {
        0
    }
}

/// The message is the record: it has the partition, the offset, the key and the value.
pub open spec fn carries(m: ConsumedView, topic: Seq<char>, partition: i32, record: FetchedRecord) -> bool {
    &&& m.topic == topic
    &&& m.partition == partition
    &&& m.offset == record.offset
    &&& record.key matches Some(k) ==> m.key == Some(k@)
    &&& record.key is None ==> m.key is None
    &&& m.value == record.value@
    &&& m.timestamp is None
}

proof fn lemma_bytes_shown(record: FetchedRecord)
    ensures
        record.value.deep_view() == record.value@,
        record.key matches Some(k) ==> record.key.deep_view() == Some(k@),
        record.key is None ==> record.key.deep_view() is None,
{
    assert(record.value.deep_view() =~= record.value@);
    if let Some(k) = record.key {
        assert(k.deep_view() =~= k@);
    }
}

proof fn lemma_messages_of_partitions(name: Seq<char>, topics: Seq<FetchTopicResult>, t: int, p: int)
    requires
        0 <= t < topics.len(),
        0 <= p <= topics[t].partitions@.len(),
    ensures
        records_before(topics, t, p) == records_before(topics, t, 0) + partition_messages(
            name,
            topics[t].partitions@.take(p),
        ).len(),
    decreases p,
{
    let parts = topics[t].partitions@;
    if p > 0 {
        lemma_messages_of_partitions(name, topics, t, p - 1);
        assert(parts.take(p).drop_last() =~= parts.take(p - 1));
        assert(parts.take(p).last() == parts[p - 1]);
    } else {
        assert(parts.take(0) =~= Seq::empty());
    }
}

proof fn lemma_messages_of_topics(name: Seq<char>, topics: Seq<FetchTopicResult>, t: int)
    requires
        0 <= t <= topics.len(),
    ensures
        records_before(topics, t, 0) == all_messages(name, topics.take(t)).len(),
    decreases t,
{
    if t > 0 {
        let parts = topics[t - 1].partitions@;
        lemma_messages_of_topics(name, topics, t - 1);
        lemma_messages_of_partitions(name, topics, t - 1, parts.len() as int);
        assert(parts.take(parts.len() as int) =~= parts);
        assert(topics.take(t).drop_last() =~= topics.take(t - 1));
        assert(topics.take(t).last() == topics[t - 1]);
    } else {
        assert(topics.take(0) =~= Seq::empty());
    }
}

proof fn lemma_partition_message(name: Seq<char>, parts: Seq<FetchPartitionResult>, p: int, q: int, k: int)
    requires
        0 <= p < q <= parts.len(),
        parts[p].error_code == 0,
        0 <= k < parts[p].records@.len(),
    ensures
        ({
            let at = partition_messages(name, parts.take(p)).len() + k;
            &&& at < partition_messages(name, parts.take(q)).len()
            &&& partition_messages(name, parts.take(q))[at] == record_messages(
                name,
                parts[p].partition,
                parts[p].records@,
            )[k]
        }),
    decreases q,
{
    assert(parts.take(q).drop_last() =~= parts.take(q - 1));
    assert(parts.take(q).last() == parts[q - 1]);
    if p < q - 1 {
        lemma_partition_message(name, parts, p, q - 1, k);
    }
}

proof fn lemma_topic_message(name: Seq<char>, topics: Seq<FetchTopicResult>, t: int, u: int, p: int, k: int)
    requires
        0 <= t < u <= topics.len(),
        0 <= p < topics[t].partitions@.len(),
        topics[t].partitions@[p].error_code == 0,
        0 <= k < topics[t].partitions@[p].records@.len(),
    ensures
        ({
            let part = topics[t].partitions@[p];
            let at = records_before(topics, t, p) + k;
            &&& 0 <= at < all_messages(name, topics.take(u)).len()
            &&& all_messages(name, topics.take(u))[at] == record_messages(name, part.partition, part.records@)[k]
        }),
    decreases u,
{
    assert(topics.take(u).drop_last() =~= topics.take(u - 1));
    assert(topics.take(u).last() == topics[u - 1]);
    if t < u - 1 {
        lemma_topic_message(name, topics, t, u - 1, p, k);
    } else {
        let parts = topics[t].partitions@;
        lemma_messages_of_topics(name, topics, t);
        lemma_messages_of_partitions(name, topics, t, p);
        lemma_partition_message(name, parts, p, parts.len() as int, k);
        assert(parts.take(parts.len() as int) =~= parts);
    }
}

proof fn lemma_record_of_partition(name: Seq<char>, parts: Seq<FetchPartitionResult>, q: int, i: int) -> (r: (int, int))
    requires
        0 <= q <= parts.len(),
        0 <= i < partition_messages(name, parts.take(q)).len(),
    ensures
        0 <= r.0 < q,
        parts[r.0].error_code == 0,
        0 <= r.1 < parts[r.0].records@.len(),
        partition_messages(name, parts.take(q))[i] == record_messages(name, parts[r.0].partition, parts[r.0].records@)[r.1],
    decreases q,
{
    assert(q > 0);
    assert(parts.take(q).drop_last() =~= parts.take(q - 1));
    assert(parts.take(q).last() == parts[q - 1]);
    let before = partition_messages(name, parts.take(q - 1));
    if i < before.len() {
        lemma_record_of_partition(name, parts, q - 1, i)
    } else {
        (q - 1, i - before.len())
    }
}

proof fn lemma_record_of_topic(name: Seq<char>, topics: Seq<FetchTopicResult>, u: int, i: int) -> (r: (int, int, int))
    requires
        0 <= u <= topics.len(),
        0 <= i < all_messages(name, topics.take(u)).len(),
    ensures
        0 <= r.0 < u,
        0 <= r.1 < topics[r.0].partitions@.len(),
        topics[r.0].partitions@[r.1].error_code == 0,
        0 <= r.2 < topics[r.0].partitions@[r.1].records@.len(),
        all_messages(name, topics.take(u))[i] == record_messages(
            name,
            topics[r.0].partitions@[r.1].partition,
            topics[r.0].partitions@[r.1].records@,
        )[r.2],
    decreases u,
{
    assert(u > 0);
    assert(topics.take(u).drop_last() =~= topics.take(u - 1));
    assert(topics.take(u).last() == topics[u - 1]);
    let before = all_messages(name, topics.take(u - 1));
    if i < before.len() {
        lemma_record_of_topic(name, topics, u - 1, i)
    } else {
        let parts = topics[u - 1].partitions@;
        assert(parts.take(parts.len() as int) =~= parts);
        let (p, k) = lemma_record_of_partition(name, parts, parts.len() as int, i - before.len());
        (u - 1, p, k)
    }
}

/// Every message that a poll hands out is a record of the answer, out of a partition
/// that was read without an error, with its offset, key and value.
pub proof fn handed_out_messages_are_records(config: ConsumerConfig, response: FetchResponse, i: int) -> (r: (int, int, int))
    requires
        0 <= i < taken_messages(config, response).len(),
    ensures
        ({
            let topics = response.topics@;
            &&& 0 <= r.0 < topics.len()
            &&& 0 <= r.1 < topics[r.0].partitions@.len()
            &&& topics[r.0].partitions@[r.1].error_code == 0
            &&& 0 <= r.2 < topics[r.0].partitions@[r.1].records@.len()
            &&& carries(
                taken_messages(config, response)[i],
                config.topic@,
                topics[r.0].partitions@[r.1].partition,
                topics[r.0].partitions@[r.1].records@[r.2],
            )
        }),
{
    let topics = response.topics@;
    assert(topics.take(topics.len() as int) =~= topics);
    let (t, p, k) = lemma_record_of_topic(config.topic@, topics, topics.len() as int, i);
    lemma_bytes_shown(topics[t].partitions@[p].records@[k]);
    (t, p, k)
}

/// A poll hands out the records of an answer in their order, leaving none out, up to the
/// number of messages that one poll may hand out, which is at least one.
pub proof fn records_are_handed_out_in_order(config: ConsumerConfig, response: FetchResponse, t: int, p: int, k: int)
    requires
        0 <= t < response.topics@.len(),
        0 <= p < response.topics@[t].partitions@.len(),
        response.topics@[t].partitions@[p].error_code == 0,
        0 <= k < response.topics@[t].partitions@[p].records@.len(),
    ensures
        ({
            let at = records_before(response.topics@, t, p) + k;
            let part = response.topics@[t].partitions@[p];
            &&& at == 0 || at < config.max_messages_per_poll <==> 0 <= at < taken_messages(config, response).len()
            &&& 0 <= at < taken_messages(config, response).len() ==> carries(
                taken_messages(config, response)[at],
                config.topic@,
                part.partition,
                part.records@[k],
            )
        }),
{
    let topics = response.topics@;
    assert(topics.take(topics.len() as int) =~= topics);
    lemma_topic_message(config.topic@, topics, t, topics.len() as int, p, k);
    lemma_bytes_shown(topics[t].partitions@[p].records@[k]);
}

/// A poll hands out no more messages than it may, and no more than there are records.
pub proof fn polls_are_bounded(config: ConsumerConfig, response: FetchResponse)
    ensures
        taken_messages(config, response).len() <= records_before(response.topics@, response.topics@.len() as int, 0),
        taken_messages(config, response).len() <= 1 || taken_messages(config, response).len() <= config.max_messages_per_poll,
{
    let topics = response.topics@;
    assert(topics.take(topics.len() as int) =~= topics);
    lemma_messages_of_topics(config.topic@, topics, topics.len() as int);
}

/// Handing out messages of some partitions leaves the others where they were.
pub proof fn other_partitions_are_read_on(offsets: Map<i32, i64>, messages: Seq<ConsumedView>, p: i32)
    requires
        forall|i: int| 0 <= i < messages.len() ==> (#[trigger] messages[i]).partition != p,
    ensures
        handed_out(offsets, messages).dom().contains(p) <==> offsets.dom().contains(p),
        offsets.dom().contains(p) ==> handed_out(offsets, messages)[p] == offsets[p],
    decreases messages.len(),
{
    if messages.len() > 0 {
        let front = messages.drop_last();
        assert(messages.last() == messages[messages.len() - 1]);
        assert forall|i: int| 0 <= i < front.len() implies (#[trigger] front[i]).partition != p by {
            assert(messages[i].partition != p);
        }
        other_partitions_are_read_on(offsets, front, p);
    }
}

/// Handling a message takes the consumer to just behind it, unless it is further on, and
/// moves no other partition.
pub proof fn handling_moves_one_partition(offsets: Map<i32, i64>, partition: i32, next: i64, p: i32)
    ensures
        ({
            let r = advanced(offsets, partition, next);
            &&& p != partition ==> (r.dom().contains(p) <==> offsets.dom().contains(p))
            &&& p != partition && offsets.dom().contains(p) ==> r[p] == offsets[p]
            &&& r.dom().contains(partition)
            &&& r[partition] == next || (offsets.dom().contains(partition) && r[partition] == offsets[partition]
                && offsets[partition] > next)
        }),
{
}

/// A fetch asks for every partition once, in the order of the list, from where reading
/// goes on; a partition that was not read yet is read from offset zero.
pub proof fn fetch_asks_from_where_reading_goes_on(
    r: FetchRequest,
    config: ConsumerConfig,
    partitions: Seq<i32>,
    offsets: Map<i32, i64>,
    i: int,
)
    requires
        is_fetch_request(r, config, partitions, offsets),
        0 <= i < partitions.len(),
    ensures
        r.replica_id == -1,
        r.max_wait_time == config.max_wait_ms,
        r.min_bytes == config.min_bytes,
        r.topics@.len() == 1,
        r.topics@[0].topic_name@ == config.topic@,
        r.topics@[0].partitions@.len() == partitions.len(),
        r.topics@[0].partitions@[i].partition == partitions[i],
        r.topics@[0].partitions@[i].max_bytes == config.max_bytes,
        offsets.dom().contains(partitions[i]) ==> r.topics@[0].partitions@[i].fetch_offset == offsets[partitions[i]],
        !offsets.dom().contains(partitions[i]) ==> r.topics@[0].partitions@[i].fetch_offset == 0,
{
    let one = r.topics@[0].partitions@[i];
    assert(one.partition == partitions[i]);
}

/// A commit names the group, the topic and every partition with its offset, each once.
pub proof fn commit_names_every_partition(
    r: OffsetCommitRequest,
    group: Seq<char>,
    topic: Seq<char>,
    offsets: Map<i32, i64>,
    p: i32,
) -> (i: int)
    requires
        is_commit_request(r, group, topic, offsets),
        offsets.dom().contains(p),
    ensures
        r.consumer_group_id@ == group,
        r.topics@.len() == 1,
        r.topics@[0].topic_name@ == topic,
        0 <= i < r.topics@[0].partitions@.len(),
        r.topics@[0].partitions@[i].partition == p,
        r.topics@[0].partitions@[i].offset == offsets[p],
        r.topics@[0].partitions@.len() == offsets.dom().len(),
{
    let list = r.topics@[0].partitions@;
    let named = Seq::new(list.len(), |i: int| list[i].partition);
    assert(named.no_duplicates());
    named.unique_seq_to_set();
    assert forall|q: i32| named.to_set().contains(q) implies offsets.dom().contains(q) by {
        let k = choose|k: int| 0 <= k < named.len() && named[k] == q;
        assert(list[k].partition == q);
    }
    assert(named.to_set().subset_of(offsets.dom()));
    vstd::set_lib::lemma_subset_equality(named.to_set(), offsets.dom());
    assert(named.to_set().contains(p));
    let i = choose|i: int| 0 <= i < named.len() && named[i] == p;
    assert(list[i].partition == p);
    i
}

proof fn lemma_committed_result(topics: Seq<OffsetFetchTopicResult>, i: int) -> (r: (int, int))
    requires
        0 <= i < committed_results(topics).len(),
    ensures
        0 <= r.0 < topics.len(),
        0 <= r.1 < topics[r.0].partitions@.len(),
        topics[r.0].partitions@[r.1] == committed_results(topics)[i],
    decreases topics.len(),
{
    let front = committed_results(topics.drop_last());
    if i < front.len() {
        let (t, p) = lemma_committed_result(topics.drop_last(), i);
        assert(topics.drop_last()[t] == topics[t]);
        (t, p)
    } else {
        (topics.len() - 1, i - front.len())
    }
}

proof fn lemma_committed_listed(topics: Seq<OffsetFetchTopicResult>, t: int, p: int) -> (i: int)
    requires
        0 <= t < topics.len(),
        0 <= p < topics[t].partitions@.len(),
    ensures
        0 <= i < committed_results(topics).len(),
        topics[t].partitions@[p] == committed_results(topics)[i],
    decreases topics.len(),
{
    let front = committed_results(topics.drop_last());
    if t < topics.len() - 1 {
        assert(topics.drop_last()[t] == topics[t]);
        lemma_committed_listed(topics.drop_last(), t, p)
    } else {
        front.len() + p
    }
}

proof fn lemma_first_committed(all: Seq<OffsetFetchPartitionResult>)
    ensures
        match first_committed(all) {
            Some(o) => exists|i: int|
                0 <= i < all.len() && (#[trigger] all[i]).error_code == 0 && all[i].offset == o && o >= 0 && forall|j: int|
                    0 <= j < i ==> !((#[trigger] all[j]).error_code == 0 && all[j].offset >= 0),
            None => forall|j: int| 0 <= j < all.len() ==> !((#[trigger] all[j]).error_code == 0 && all[j].offset >= 0),
        },
    decreases all.len(),
{
    if all.len() > 0 {
        let front = all.drop_last();
        lemma_first_committed(front);
        match first_committed(front) {
            Some(o) => {
                let i = choose|i: int|
                    0 <= i < front.len() && (#[trigger] front[i]).error_code == 0 && front[i].offset == o && o >= 0 && forall|
                        j: int,
                    | 0 <= j < i ==> !((#[trigger] front[j]).error_code == 0 && front[j].offset >= 0);
                assert(all[i] == front[i]);
                assert forall|j: int| 0 <= j < i implies !((#[trigger] all[j]).error_code == 0 && all[j].offset >= 0) by {
                    assert(all[j] == front[j]);
                }
            },
            None => {
                assert forall|j: int| 0 <= j < front.len() implies !((#[trigger] all[j]).error_code == 0 && all[j].offset
                    >= 0) by {
                    assert(all[j] == front[j]);
                }
                assert(all.last() == all[all.len() - 1]);
            },
        }
    }
}

/// The committed offset of an answer is one that it gives, without an error and not
/// negative, and none of those before it is; where no such offset is given there is none.
pub proof fn committed_offset_is_the_first_given(topics: Seq<OffsetFetchTopicResult>, t: int, p: int)
    ensures
        first_committed(committed_results(topics)) matches Some(o) ==> o >= 0 && exists|a: int, b: int|
            0 <= a < topics.len() && 0 <= b < topics[a].partitions@.len() && (
            #[trigger] topics[a].partitions@[b]).error_code == 0 && topics[a].partitions@[b].offset == o,
        0 <= t < topics.len() && 0 <= p < topics[t].partitions@.len() && topics[t].partitions@[p].error_code == 0
            && topics[t].partitions@[p].offset >= 0 ==> first_committed(committed_results(topics)) is Some,
        topics.len() == 1 && 0 <= p < topics[0].partitions@.len() && topics[0].partitions@[p].error_code == 0
            && topics[0].partitions@[p].offset >= 0 && (forall|q: int|
            0 <= q < p ==> !((#[trigger] topics[0].partitions@[q]).error_code == 0 && topics[0].partitions@[q].offset >= 0))
            ==> first_committed(committed_results(topics)) == Some(topics[0].partitions@[p].offset),
{
    let all = committed_results(topics);
    lemma_first_committed(all);
    if let Some(o) = first_committed(all) {
        let i = choose|i: int|
            0 <= i < all.len() && (#[trigger] all[i]).error_code == 0 && all[i].offset == o && o >= 0 && forall|j: int|
                0 <= j < i ==> !((#[trigger] all[j]).error_code == 0 && all[j].offset >= 0);
        let (a, b) = lemma_committed_result(topics, i);
        assert(topics[a].partitions@[b].error_code == 0 && topics[a].partitions@[b].offset == o);
        if topics.len() == 1 {
            assert(committed_results(topics.drop_last()) =~= Seq::empty());
            assert(all =~= topics[0].partitions@);
        }
    }
    if 0 <= t < topics.len() && 0 <= p < topics[t].partitions@.len() {
        let i = lemma_committed_listed(topics, t, p);
    }
    if topics.len() == 1 && 0 <= p < topics[0].partitions@.len() {
        let i = lemma_committed_listed(topics, 0, p);
    }
}

proof fn lemma_log_result(topics: Seq<ListOffsetsTopicResult>, i: int) -> (r: (int, int))
    requires
        0 <= i < log_results(topics).len(),
    ensures
        0 <= r.0 < topics.len(),
        0 <= r.1 < topics[r.0].partitions@.len(),
        topics[r.0].partitions@[r.1] == log_results(topics)[i],
    decreases topics.len(),
{
    let front = log_results(topics.drop_last());
    if i < front.len() {
        let (t, p) = lemma_log_result(topics.drop_last(), i);
        assert(topics.drop_last()[t] == topics[t]);
        (t, p)
    } else {
        (topics.len() - 1, i - front.len())
    }
}

proof fn lemma_log_listed(topics: Seq<ListOffsetsTopicResult>, t: int, p: int) -> (i: int)
    requires
        0 <= t < topics.len(),
        0 <= p < topics[t].partitions@.len(),
    ensures
        0 <= i < log_results(topics).len(),
        topics[t].partitions@[p] == log_results(topics)[i],
    decreases topics.len(),
{
    let front = log_results(topics.drop_last());
    if t < topics.len() - 1 {
        assert(topics.drop_last()[t] == topics[t]);
        lemma_log_listed(topics.drop_last(), t, p)
    } else {
        front.len() + p
    }
}

proof fn lemma_first_listed(all: Seq<PartitionOffsets>)
    ensures
        match first_listed(all) {
            Some(o) => exists|i: int|
                0 <= i < all.len() && (#[trigger] all[i]).error_code == 0 && all[i].offsets@.len() > 0 && all[i].offsets@[0]
                    == o && forall|j: int|
                    0 <= j < i ==> !((#[trigger] all[j]).error_code == 0 && all[j].offsets@.len() > 0),
            None => forall|j: int| 0 <= j < all.len() ==> !((#[trigger] all[j]).error_code == 0 && all[j].offsets@.len() > 0),
        },
    decreases all.len(),
{
    if all.len() > 0 {
        let front = all.drop_last();
        lemma_first_listed(front);
        match first_listed(front) {
            Some(o) => {
                let i = choose|i: int|
                    0 <= i < front.len() && (#[trigger] front[i]).error_code == 0 && front[i].offsets@.len() > 0
                        && front[i].offsets@[0] == o && forall|j: int|
                        0 <= j < i ==> !((#[trigger] front[j]).error_code == 0 && front[j].offsets@.len() > 0);
                assert(all[i] == front[i]);
                assert forall|j: int| 0 <= j < i implies !((#[trigger] all[j]).error_code == 0 && all[j].offsets@.len()
                    > 0) by {
                    assert(all[j] == front[j]);
                }
            },
            None => {
                assert forall|j: int| 0 <= j < front.len() implies !((#[trigger] all[j]).error_code == 0
                    && all[j].offsets@.len() > 0) by {
                    assert(all[j] == front[j]);
                }
                assert(all.last() == all[all.len() - 1]);
            },
        }
    }
}

/// The end of the log in an answer is the first offset that it gives without an error;
/// where none is given there is none.
pub proof fn listed_offset_is_the_first_given(topics: Seq<ListOffsetsTopicResult>, t: int, p: int)
    ensures
        first_listed(log_results(topics)) matches Some(o) ==> exists|a: int, b: int|
            0 <= a < topics.len() && 0 <= b < topics[a].partitions@.len() && (
            #[trigger] topics[a].partitions@[b]).error_code == 0 && topics[a].partitions@[b].offsets@.len() > 0
                && topics[a].partitions@[b].offsets@[0] == o,
        0 <= t < topics.len() && 0 <= p < topics[t].partitions@.len() && topics[t].partitions@[p].error_code == 0
            && topics[t].partitions@[p].offsets@.len() > 0 ==> first_listed(log_results(topics)) is Some,
        topics.len() == 1 && topics[0].partitions@.len() == 1 && topics[0].partitions@[0].error_code == 0
            && topics[0].partitions@[0].offsets@.len() > 0 ==> first_listed(log_results(topics)) == Some(
            topics[0].partitions@[0].offsets@[0],
        ),
{
    let all = log_results(topics);
    lemma_first_listed(all);
    if let Some(o) = first_listed(all) {
        let i = choose|i: int|
            0 <= i < all.len() && (#[trigger] all[i]).error_code == 0 && all[i].offsets@.len() > 0 && all[i].offsets@[0] == o
                && forall|j: int| 0 <= j < i ==> !((#[trigger] all[j]).error_code == 0 && all[j].offsets@.len() > 0);
        let (a, b) = lemma_log_result(topics, i);
        assert(topics[a].partitions@[b].error_code == 0);
    }
    if 0 <= t < topics.len() && 0 <= p < topics[t].partitions@.len() {
        let i = lemma_log_listed(topics, t, p);
    }
    if topics.len() == 1 && topics[0].partitions@.len() == 1 {
        let i = lemma_log_listed(topics, 0, 0);
    }
}

/// Of the offsets that were found for a list of partitions the last one counts that
/// stands at the place of the partition; no other partition has an offset.
pub proof fn offsets_stand_at_their_partitions(partitions: Seq<i32>, offsets: Seq<i64>, i: int, p: i32)
    requires
        partitions.len() == offsets.len(),
    ensures
        paired(partitions, offsets).dom().contains(p) <==> partitions.contains(p),
        0 <= i < partitions.len() && partitions[i] == p && (forall|j: int| i < j < partitions.len() ==> partitions[j] != p)
            ==> paired(partitions, offsets)[p] == offsets[i],
    decreases partitions.len(),
{
    if partitions.len() > 0 {
        let a = partitions.drop_last();
        let b = offsets.drop_last();
        let last = partitions.len() - 1;
        assert(partitions.last() == partitions[last] && offsets.last() == offsets[last]);
        assert(forall|j: int| 0 <= j < a.len() ==> a[j] == partitions[j]);
        offsets_stand_at_their_partitions(a, b, i, p);
        if a.contains(p) {
            let k = choose|k: int| 0 <= k < a.len() && a[k] == p;
            assert(partitions[k] == p);
        }
        if partitions.contains(p) && p != partitions.last() {
            let k = choose|k: int| 0 <= k < partitions.len() && partitions[k] == p;
            assert(a[k] == p);
        }
    }
}

/// Exactly those partitions of a new assignment have to be looked up whose offset the
/// consumer does not know.
pub proof fn only_unknown_partitions_are_looked_up(partitions: Seq<i32>, offsets: Map<i32, i64>, p: i32)
    ensures
        partitions.filter(not_among(offsets)).contains(p) <==> partitions.contains(p) && !offsets.dom().contains(p),
{
    lemma_filter_holds(partitions, not_among(offsets));
}

/// The lowest offset is that of some partition, and no partition is further behind; a
/// consumer without partitions is at zero.
pub proof fn lowest_offset_is_behind_all(offsets: Map<i32, i64>, r: i64, p: i32)
    requires
        is_lowest(offsets, r),
    ensures
        offsets.dom().contains(p) ==> r <= offsets[p],
        offsets.dom().contains(p) ==> exists|q: i32| #[trigger] offsets.dom().contains(q) && offsets[q] == r,
        offsets.dom() == Set::<i32>::empty() ==> r == 0,
{
}

/// A request about a partition asks about that partition of the topic alone: for the
/// offset that the group committed, or for the end of the log that is configured.
pub proof fn requests_name_the_partition(
    c: OffsetFetchRequest,
    l: ListOffsetsRequest,
    group: Seq<char>,
    config: ConsumerConfig,
    partition: i32,
)
    ensures
        is_committed_request(c, group, config.topic@, partition) ==> c.consumer_group_id@ == group && c.topics@.len() == 1
            && c.topics@[0].topic_name@ == config.topic@ && c.topics@[0].partitions@.len() == 1
            && c.topics@[0].partitions@[0] == partition,
        is_log_request(l, config, partition) ==> l.replica_id == -1 && l.topics@.len() == 1 && l.topics@[0].topic_name@
            == config.topic@ && l.topics@[0].partitions@.len() == 1 && l.topics@[0].partitions@[0].partition == partition
            && l.topics@[0].partitions@[0].time == config.offset && l.topics@[0].partitions@[0].max_number_of_offsets == 1,
{
}

} // verus!

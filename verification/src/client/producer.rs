//! Which partition a message goes to, how messages are batched, and what becomes of a
//! batch.
use std::collections::hash_map::DefaultHasher;
use std::hash::Hasher;
use vstd::prelude::*;
use vstd::std_specs::hash::DefaultHasherAdditionalSpecFns;
use vstd::string::StringExecFns;

use crate::api::broker::{
    ProducePartition, ProducePartitionResult, ProduceRequest, ProduceResponse, ProduceTopic, ProduceTopicResult, Record,
    RecordView,
};
use crate::client::config::ProducerConfig;
use crate::maps::{Dup, VecMap};
use crate::seqs::lemma_next_element;
use crate::text::{decimal, decimal_text};
use crate::wire::{le, put_le};

verus! {

/// A message to be sent.
#[derive(Debug)]
pub struct ProducerMessage {
    pub key: Option<Vec<u8>>,
    pub value: Vec<u8>,
    /// Where the message is to go, whatever the configuration says.
    pub partition: Option<i32>,
}

/// What a message holds.
#[verifier::ext_equal]
pub struct OutgoingView {
    pub key: Option<Seq<u8>>,
    pub value: Seq<u8>,
    pub partition: Option<i32>,
}

impl DeepView for ProducerMessage {
    type V = OutgoingView;

    open spec fn deep_view(&self) -> OutgoingView {
        OutgoingView { key: self.key.deep_view(), value: self.value.deep_view(), partition: self.partition }
    }
}

impl ProducerMessage {
    /// A message without a key.
    pub fn new(value: Vec<u8>) -> (r: Self)
        ensures
            r.deep_view() == (OutgoingView { key: None, value: value.deep_view(), partition: None }),
    {
        ProducerMessage { key: None, value, partition: None }
    }

    /// A message with a key.
    pub fn with_key(key: Vec<u8>, value: Vec<u8>) -> (r: Self)
        ensures
            r.deep_view() == (OutgoingView {
                key: Some(key.deep_view()),
                value: value.deep_view(),
                partition: None,
            }),
    {
        ProducerMessage { key: Some(key), value, partition: None }
    }

    /// The message, bound for a partition.
    pub fn to_partition(self, partition: i32) -> (r: Self)
        ensures
            r.deep_view() == (OutgoingView { partition: Some(partition), ..self.deep_view() }),
    {
        let mut m = self;
        m.partition = Some(partition);
        m
    }
}

/// What became of a single message.
#[derive(Debug, Clone, Copy, PartialEq, Eq)]
pub struct ProducerResult {
    pub partition: i32,
    pub offset: i64,
    pub error_code: i32,
}

/// The hash of a key: that of its length in eight bytes and of its bytes.
pub open spec fn key_hash(key: Seq<u8>) -> u64 {
    DefaultHasher::spec_finish(seq![le(key.len(), 8), key])
}

/// How many partitions there are to choose from; at least one.
pub open spec fn choice(num_partitions: i32) -> int {
    if num_partitions >= 1 { num_partitions as int } else { 1 }
}

/// The counter decides about the message.
pub open spec fn takes_turns(m: OutgoingView, config: ProducerConfig) -> bool {
    m.partition is None && config.partitioning@ == "round_robin"@
}

/// The partition of a message: the one that it names, or the next in turn, or the one
/// that its key hashes to, or the configured one.
pub open spec fn chosen_partition(m: OutgoingView, config: ProducerConfig, counter: u64) -> int {
    match m.partition {
        Some(p) => p as int,
        None => if config.partitioning@ == "round_robin"@ {
            counter as int % choice(config.num_partitions)
        } else if config.partitioning@ == "key_hash"@ {
            match m.key {
                Some(k) => key_hash(k) as int % choice(config.num_partitions),
                None => config.partition as int,
            }
        } else {
            config.partition as int
        },
    }
}

/// The counter after a message; behind the largest number comes zero.
pub open spec fn counter_after(m: OutgoingView, config: ProducerConfig, counter: u64) -> u64 {
    if !takes_turns(m, config) {
        counter
    } else if counter == u64::MAX {
        0
    } else {
        (counter + 1) as u64
    }
}

fn hash_key(key: &Vec<u8>) -> (r: u64)
    ensures
        r == key_hash(key.deep_view()),
{
    let mut prefix: Vec<u8> = Vec::new();
    put_le(&mut prefix, key.len() as u64, 8);
    let mut hasher = DefaultHasher::new();
    hasher.write(prefix.as_slice());
    hasher.write(key.as_slice());
    proof {
        assert(prefix@ =~= le(key@.len(), 8));
        assert(key.deep_view() =~= key@);
        assert(hasher@ =~= seq![le(key@.len(), 8), key@]);
    }
    hasher.finish()
}

/// A chosen partition exists.
pub proof fn chosen_partition_exists(m: OutgoingView, config: ProducerConfig, counter: u64)
    requires
        m.partition is None,
        config.partitioning@ == "round_robin"@ || (config.partitioning@ == "key_hash"@ && m.key is Some),
        config.num_partitions >= 1,
    ensures
        0 <= chosen_partition(m, config, counter) < config.num_partitions,
{
}

/// Messages with one key go to one partition, whatever was sent in between.
pub proof fn same_key_same_partition(a: OutgoingView, b: OutgoingView, config: ProducerConfig, c: u64, d: u64)
    requires
        a.partition is None,
        b.partition is None,
        a.key is Some,
        a.key == b.key,
        config.partitioning@ == "key_hash"@,
    ensures
        chosen_partition(a, config, c) == chosen_partition(b, config, d),
{
    reveal_strlit("round_robin");
    reveal_strlit("key_hash");
    assert("key_hash"@.len() != "round_robin"@.len());
}

/// In turn, every partition comes after its predecessor, and the first after the last.
pub proof fn turns_go_round(m: OutgoingView, config: ProducerConfig, counter: u64)
    requires
        takes_turns(m, config),
        config.num_partitions >= 1,
        counter < u64::MAX,
    ensures
        ({
            let now = chosen_partition(m, config, counter);
            let next = chosen_partition(m, config, counter_after(m, config, counter));
            next == (if now + 1 == config.num_partitions { 0 } else { now + 1 })
        }),
{
    let n = config.num_partitions as int;
    let c = counter as int;
    vstd::arithmetic::div_mod::lemma_fundamental_div_mod(c, n);
    let q = c / n;
    let r = c % n;
    assert(c + 1 == n * q + (r + 1));
    if r + 1 == n {
        assert(n * q + n == n * (q + 1)) by (nonlinear_arith);
        vstd::arithmetic::div_mod::lemma_fundamental_div_mod_converse(c + 1, n, q + 1, 0);
    } else {
        vstd::arithmetic::div_mod::lemma_fundamental_div_mod_converse(c + 1, n, q, r + 1);
    }
}

/// The partitions of several messages, and the counter after them.
pub open spec fn chosen_partitions(msgs: Seq<OutgoingView>, config: ProducerConfig, counter: u64) -> (Seq<int>, u64)
    decreases msgs.len(),
{
    if msgs.len() == 0 {
        (Seq::empty(), counter)
    } else {
        let before = chosen_partitions(msgs.drop_last(), config, counter);
        (
            before.0.push(chosen_partition(msgs.last(), config, before.1)),
            counter_after(msgs.last(), config, before.1),
        )
    }
}

/// The records of the messages that go to a partition, in their order.
pub open spec fn records_for(msgs: Seq<OutgoingView>, parts: Seq<int>, p: int) -> Seq<RecordView>
    decreases msgs.len(),
{
    if msgs.len() == 0 || parts.len() != msgs.len() {
        Seq::empty()
    } else {
        let before = records_for(msgs.drop_last(), parts.drop_last(), p);
        if parts.last() == p {
            before.push(RecordView { key: msgs.last().key, value: msgs.last().value })
        } else {
            before
        }
    }
}

/// One entry for every partition that messages go to, with exactly those messages.
pub open spec fn are_grouped(msgs: Seq<OutgoingView>, parts: Seq<int>, r: Seq<ProducePartition>) -> bool {
    &&& forall|i: int|
        0 <= i < r.len() ==> parts.contains((#[trigger] r[i]).partition as int) && r[i].records.deep_view() == records_for(
            msgs,
            parts,
            r[i].partition as int,
        )
    &&& forall|i: int, j: int|
        0 <= i < r.len() && 0 <= j < r.len() && i != j ==> (#[trigger] r[i]).partition != (#[trigger] r[j]).partition
    &&& forall|k: int| 0 <= k < parts.len() ==> has_partition(r, #[trigger] parts[k])
}

/// There is an entry for the partition.
pub open spec fn has_partition(r: Seq<ProducePartition>, p: int) -> bool {
    exists|i: int| 0 <= i < r.len() && (#[trigger] r[i]).partition == p
}

proof fn lemma_record_is_kept(msgs: Seq<OutgoingView>, parts: Seq<int>, i: int)
    requires
        parts.len() == msgs.len(),
        0 <= i < msgs.len(),
    ensures
        records_for(msgs, parts, parts[i]).contains(RecordView { key: msgs[i].key, value: msgs[i].value }),
    decreases msgs.len(),
{
    let record = RecordView { key: msgs[i].key, value: msgs[i].value };
    let before = records_for(msgs.drop_last(), parts.drop_last(), parts[i]);
    let all = records_for(msgs, parts, parts[i]);
    if i == msgs.len() - 1 {
        assert(all[before.len() as int] == record);
    } else {
        lemma_record_is_kept(msgs.drop_last(), parts.drop_last(), i);
        let k = choose|k: int| 0 <= k < before.len() && before[k] == record;
        assert(all[k] == record);
    }
}

/// Every message of a batch is sent, to its own partition.
pub proof fn every_message_is_sent(msgs: Seq<OutgoingView>, parts: Seq<int>, r: Seq<ProducePartition>, i: int)
    requires
        are_grouped(msgs, parts, r),
        parts.len() == msgs.len(),
        0 <= i < msgs.len(),
    ensures
        exists|k: int|
            0 <= k < r.len() && (#[trigger] r[k]).partition == parts[i] && r[k].records.deep_view().contains(
                RecordView { key: msgs[i].key, value: msgs[i].value },
            ),
{
    lemma_record_is_kept(msgs, parts, i);
    assert(has_partition(r, parts[i]));
    let k = choose|k: int| 0 <= k < r.len() && (#[trigger] r[k]).partition == parts[i];
    assert(r[k].records.deep_view() == records_for(msgs, parts, parts[i]));
}

/// Messages that wait to be sent.
pub struct Producer {
    config: ProducerConfig,
    batch: Vec<ProducerMessage>,
    counter: u64,
}

impl Producer {
    /// The messages that wait.
    pub closed spec fn waiting(&self) -> Seq<OutgoingView> {
        self.batch.deep_view()
    }

    /// The configuration.
    pub closed spec fn settings(&self) -> ProducerConfig {
        self.config
    }

    /// How many messages have taken their turn.
    pub closed spec fn turns(&self) -> u64 {
        self.counter
    }

    /// A producer with nothing to send.
    pub fn new(config: ProducerConfig) -> (r: Self)
        ensures
            r.waiting() == Seq::<OutgoingView>::empty(),
            r.settings() == config,
            r.turns() == 0,
    {
        let batch: Vec<ProducerMessage> = Vec::new();
        assert(batch.deep_view() =~= Seq::empty());
        Producer { config, batch, counter: 0 }
    }

    /// Lets a message wait. Hands out all that wait, once there are enough.
    pub fn send(&mut self, message: ProducerMessage) -> (r: Option<Vec<ProducerMessage>>)
        ensures
            ({
                let all = old(self).waiting().push(message.deep_view());
                if all.len() >= old(self).settings().batch_size {
                    (r matches Some(b) && b.deep_view() == all) && final(self).waiting() == Seq::<
                        OutgoingView,
                    >::empty()
                } else {
                    r is None && final(self).waiting() == all
                }
            }),
            final(self).settings() == old(self).settings(),
            final(self).turns() == old(self).turns(),
    {
        let ghost before = self.batch.deep_view();
        self.batch.push(message);
        assert(self.batch.deep_view() =~= before.push(message.deep_view()));
        assert(self.batch@.len() == self.batch.deep_view().len());
        if self.batch.len() >= self.config.batch_size {
            self.flush()
        } else {
            None
        }
    }

    /// Hands out all messages that wait, if any do.
    pub fn flush(&mut self) -> (r: Option<Vec<ProducerMessage>>)
        ensures
            final(self).waiting() == Seq::<OutgoingView>::empty(),
            match r {
                Some(b) => b.deep_view() == old(self).waiting() && old(self).waiting().len() > 0,
                None => old(self).waiting().len() == 0,
            },
            final(self).settings() == old(self).settings(),
            final(self).turns() == old(self).turns(),
    {
        assert(self.batch@.len() == self.batch.deep_view().len());
        let mut out: Vec<ProducerMessage> = Vec::new();
        std::mem::swap(&mut out, &mut self.batch);
        assert(self.batch.deep_view() =~= Seq::empty());
        if out.len() == 0 {
            None
        } else {
            Some(out)
        }
    }

    /// The partition of a message.
    pub fn assign_partition(msg: &ProducerMessage, config: &ProducerConfig, counter: &mut u64) -> (r: i32)
        ensures
            r == chosen_partition(msg.deep_view(), *config, *old(counter)),
            *final(counter) == counter_after(msg.deep_view(), *config, *old(counter)),
    {
        if let Some(p) = msg.partition {
            return p;
        }
        let n: u64 = if config.num_partitions >= 1 { config.num_partitions as u64 } else { 1 };
        if config.partitioning == "round_robin".to_owned() {
            let next: u64 = *counter;
            *counter = if next == u64::MAX { 0 } else { next + 1 };
            return (next % n) as i32;
        }
        if config.partitioning == "key_hash".to_owned() {
            if let Some(key) = &msg.key {
                return (hash_key(key) % n) as i32;
            }
        }
        config.partition
    }

    /// The request that sends a batch: one entry for every partition.
    pub fn batch_request(&mut self, messages: Vec<ProducerMessage>) -> (r: ProduceRequest)
        ensures
            ({
                let chosen = chosen_partitions(messages.deep_view(), old(self).settings(), old(self).turns());
                &&& final(self).turns() == chosen.1
                &&& is_produce_request(r, old(self).settings())
                &&& are_grouped(messages.deep_view(), chosen.0, r.topics@[0].partitions@)
            }),
            final(self).settings() == old(self).settings(),
            final(self).waiting() == old(self).waiting(),
    {
        let ghost all = messages.deep_view();
        let ghost config = self.config;
        let ghost start = self.counter;
        let n = messages.len();
        let mut groups: VecMap<i32, Vec<Record>> = VecMap::new();
        let mut i: usize = 0;
        proof {
            assert(all.take(0) =~= Seq::empty());
            assert(chosen_partitions(all.take(0), config, start).0 =~= Seq::empty());
        }
        for msg in it: messages
            invariant
                it.seq() == messages@,
                all == messages.deep_view(),
                n == all.len(),
                i == it.index(),
                i <= n,
                self.config == config,
                self.batch == old(self).batch,
                self.counter == chosen_partitions(all.take(i as int), config, start).1,
                groups_hold(groups@, all.take(i as int), chosen_partitions(all.take(i as int), config, start).0),
        {
            let ghost m = msg.deep_view();
            let ghost seen = all.take(i as int);
            let ghost parts = chosen_partitions(seen, config, start).0;
            let ghost before = groups@;
            proof {
                assert(m == all[i as int]);
                assert(all.take(i + 1).drop_last() =~= seen);
                assert(all.take(i + 1).last() == m);
            }
            let p = Producer::assign_partition(&msg, &self.config, &mut self.counter);
            let mut records = match groups.remove(&p) {
                Some(v) => v,
                None => Vec::new(),
            };
            assert(!before.dom().contains(p) ==> records.deep_view() =~= Seq::empty());
            let ghost old_records = records.deep_view();
            let record = Record { key: msg.key, value: msg.value };
            let ghost shown = record.deep_view();
            records.push(record);
            assert(records.deep_view() =~= old_records.push(shown));
            groups.insert(p, records);
            proof {
                assert(groups@ =~= before.insert(p, old_records.push(shown)));
                lemma_groups_grow(before, groups@, seen, parts, m, p as int, old_records);
                assert(all.take(i + 1) =~= seen.push(m));
            }
            i += 1;
        }
        proof {
            assert(all.take(i as int) =~= all);
        }
        let keys = groups.keys();
        let ghost parts = chosen_partitions(all, config, start).0;
        let ghost map = groups@;
        let ghost order = keys.deep_view();
        assert(order =~= keys@);
        let mut partitions: Vec<ProducePartition> = Vec::new();
        let mut j: usize = 0;
        while j < keys.len()
            invariant
                j <= keys@.len(),
                order == keys@,
                order.no_duplicates(),
                order.to_set() == map.dom(),
                groups@ == map.remove_keys(order.take(j as int).to_set()),
                partitions@.len() == j,
                forall|k: int|
                    0 <= k < j ==> (#[trigger] partitions@[k]).partition == order[k] && partitions@[k].records.deep_view()
                        == map[order[k]],
            decreases keys@.len() - j,
        {
            proof {
                lemma_next_element(order, j as int);
            }
            if let Some(records) = groups.remove(&keys[j]) {
                partitions.push(ProducePartition { partition: keys[j], records });
            }
            proof {
                assert(groups@ =~= map.remove_keys(order.take(j + 1).to_set()));
            }
            j += 1;
        }
        proof {
            lemma_grouped(map, all, parts, order, partitions@);
        }
        let mut topics: Vec<ProduceTopic> = Vec::new();
        topics.push(ProduceTopic { topic_name: self.config.topic.dup(), partitions });
        ProduceRequest { required_acks: self.config.required_acks, timeout_ms: self.config.timeout_ms, topics }
    }

    /// The request that sends a single message.
    pub fn single_request(&mut self, message: ProducerMessage) -> (r: ProduceRequest)
        ensures
            final(self).turns() == counter_after(message.deep_view(), old(self).settings(), old(self).turns()),
            final(self).settings() == old(self).settings(),
            final(self).waiting() == old(self).waiting(),
            is_produce_request(r, old(self).settings()),
            r.topics@[0].partitions@.len() == 1,
            r.topics@[0].partitions@[0].partition == chosen_partition(
                message.deep_view(),
                old(self).settings(),
                old(self).turns(),
            ),
            r.topics@[0].partitions@[0].records.deep_view() == seq![
                RecordView { key: message.deep_view().key, value: message.deep_view().value },
            ],
    {
        let partition = Producer::assign_partition(&message, &self.config, &mut self.counter);
        let record = Record { key: message.key, value: message.value };
        let ghost shown = record.deep_view();
        let mut records: Vec<Record> = Vec::new();
        records.push(record);
        assert(records.deep_view() =~= seq![shown]);
        let mut partitions: Vec<ProducePartition> = Vec::new();
        partitions.push(ProducePartition { partition, records });
        let mut topics: Vec<ProduceTopic> = Vec::new();
        topics.push(ProduceTopic { topic_name: self.config.topic.dup(), partitions });
        ProduceRequest { required_acks: self.config.required_acks, timeout_ms: self.config.timeout_ms, topics }
    }
}

/// The request is for the configured topic.
pub open spec fn is_produce_request(r: ProduceRequest, config: ProducerConfig) -> bool {
    &&& r.required_acks == config.required_acks
    &&& r.timeout_ms == config.timeout_ms
    &&& r.topics@.len() == 1
    &&& r.topics@[0].topic_name@ == config.topic@
}

/// The groups hold the messages by partition.
spec fn groups_hold(groups: Map<i32, Seq<RecordView>>, msgs: Seq<OutgoingView>, parts: Seq<int>) -> bool {
    &&& parts.len() == msgs.len()
    &&& forall|p: i32| #[trigger] groups.dom().contains(p) <==> parts.contains(p as int)
    &&& forall|p: i32| #[trigger] groups.dom().contains(p) ==> groups[p] == records_for(msgs, parts, p as int)
    &&& forall|k: int| 0 <= k < parts.len() ==> i32::MIN <= #[trigger] parts[k] <= i32::MAX
}

proof fn lemma_no_records(msgs: Seq<OutgoingView>, parts: Seq<int>, p: int)
    requires
        !parts.contains(p),
    ensures
        records_for(msgs, parts, p) == Seq::<RecordView>::empty(),
    decreases msgs.len(),
{
    if msgs.len() > 0 && parts.len() == msgs.len() {
        assert(parts.contains(parts.last()));
        assert forall|i: int| 0 <= i < parts.drop_last().len() implies parts.drop_last()[i] != p by {
            assert(parts.contains(parts[i]));
        }
        lemma_no_records(msgs.drop_last(), parts.drop_last(), p);
    }
}

proof fn lemma_groups_grow(
    before: Map<i32, Seq<RecordView>>,
    after: Map<i32, Seq<RecordView>>,
    msgs: Seq<OutgoingView>,
    parts: Seq<int>,
    m: OutgoingView,
    p: int,
    old_records: Seq<RecordView>,
)
    requires
        groups_hold(before, msgs, parts),
        i32::MIN <= p <= i32::MAX,
        old_records == (if before.dom().contains(p as i32) { before[p as i32] } else { Seq::empty() }),
        after == before.insert(p as i32, old_records.push(RecordView { key: m.key, value: m.value })),
    ensures
        groups_hold(after, msgs.push(m), parts.push(p)),
{
    let ms = msgs.push(m);
    let ps = parts.push(p);
    assert(ms.drop_last() =~= msgs);
    assert(ps.drop_last() =~= parts);
    assert forall|q: i32| #[trigger] after.dom().contains(q) <==> ps.contains(q as int) by {
        if parts.contains(q as int) {
            let k = choose|k: int| 0 <= k < parts.len() && parts[k] == q as int;
            assert(ps[k] == q as int);
        }
        assert(ps[parts.len() as int] == p);
        if ps.contains(q as int) && q as int != p {
            let k = choose|k: int| 0 <= k < ps.len() && ps[k] == q as int;
            assert(parts[k] == q as int);
        }
    }
    assert forall|q: i32| #[trigger] after.dom().contains(q) implies after[q] == records_for(ms, ps, q as int) by {
        if q as int == p {
            if !before.dom().contains(q) {
                lemma_no_records(msgs, parts, p);
            }
        }
    }
}

proof fn lemma_grouped(
    map: Map<i32, Seq<RecordView>>,
    msgs: Seq<OutgoingView>,
    parts: Seq<int>,
    order: Seq<i32>,
    r: Seq<ProducePartition>,
)
    requires
        groups_hold(map, msgs, parts),
        order.no_duplicates(),
        order.to_set() == map.dom(),
        r.len() == order.len(),
        forall|k: int|
            0 <= k < r.len() ==> (#[trigger] r[k]).partition == order[k] && r[k].records.deep_view() == map[order[k]],
    ensures
        are_grouped(msgs, parts, r),
{
    assert forall|i: int| 0 <= i < r.len() implies parts.contains((#[trigger] r[i]).partition as int)
        && r[i].records.deep_view() == records_for(msgs, parts, r[i].partition as int) by {
        assert(order.contains(order[i]));
        assert(map.dom().contains(order[i]));
    }
    assert forall|k: int| 0 <= k < parts.len() implies has_partition(r, #[trigger] parts[k]) by {
        let p = parts[k] as i32;
        assert(parts.contains(parts[k]));
        assert(map.dom().contains(p));
        assert(order.to_set().contains(p));
        let i = choose|i: int| 0 <= i < order.len() && order[i] == p;
        assert(r[i].partition == parts[k]);
    }
}

/// The answers for the partitions, topic by topic.
pub open spec fn answers(results: Seq<ProduceTopicResult>) -> Seq<ProducePartitionResult>
    decreases results.len(),
{
    if results.len() == 0 {
        Seq::empty()
    } else {
        answers(results.drop_last()) + results.last().partitions@
    }
}

/// The references point to the answers.
pub open spec fn point_to(r: Seq<&ProducePartitionResult>, all: Seq<ProducePartitionResult>) -> bool {
    r.len() == all.len() && forall|i: int| 0 <= i < r.len() ==> *(#[trigger] r[i]) == all[i]
}

fn collect_answers<'a>(response: &'a ProduceResponse) -> (r: Vec<&'a ProducePartitionResult>)
    ensures
        point_to(r@, answers(response.results@)),
{
    let mut r: Vec<&ProducePartitionResult> = Vec::new();
    let mut i: usize = 0;
    assert(response.results@.take(0) =~= Seq::empty());
    while i < response.results.len()
        invariant
            i <= response.results@.len(),
            point_to(r@, answers(response.results@.take(i as int))),
        decreases response.results@.len() - i,
    {
        let topic = &response.results[i];
        let ghost before = answers(response.results@.take(i as int));
        let mut j: usize = 0;
        while j < topic.partitions.len()
            invariant
                j <= topic.partitions@.len(),
                point_to(r@, before + topic.partitions@.take(j as int)),
            decreases topic.partitions@.len() - j,
        {
            r.push(&topic.partitions[j]);
            j += 1;
        }
        proof {
            assert(topic.partitions@.take(j as int) =~= topic.partitions@);
            assert(response.results@.take(i + 1).drop_last() =~= response.results@.take(i as int));
            assert(response.results@.take(i + 1).last() == *topic);
        }
        i += 1;
    }
    assert(response.results@.take(i as int) =~= response.results@);
    r
}

/// Another broker leads the partition, and it is known which.
pub open spec fn is_redirect(a: ProducePartitionResult) -> bool {
    a.error_code == 6 && a.leader_addr@.len() > 0
}

/// The address in the last answer that names another leader.
pub open spec fn last_redirect(all: Seq<ProducePartitionResult>) -> Option<Seq<char>>
    decreases all.len(),
{
    if all.len() == 0 {
        None
    } else if is_redirect(all.last()) {
        Some(all.last().leader_addr@)
    } else {
        last_redirect(all.drop_last())
    }
}

/// The partitions that failed without naming another leader.
pub open spec fn failed_partitions(all: Seq<ProducePartitionResult>) -> Seq<i32>
    decreases all.len(),
{
    if all.len() == 0 {
        Seq::empty()
    } else if !is_redirect(all.last()) && all.last().error_code != 0 {
        failed_partitions(all.drop_last()).push(all.last().partition)
    } else {
        failed_partitions(all.drop_last())
    }
}

/// Numbers, separated by a comma and a blank.
pub open spec fn listed(numbers: Seq<i32>) -> Seq<char>
    decreases numbers.len(),
{
    if numbers.len() == 0 {
        Seq::empty()
    } else if numbers.len() == 1 {
        decimal_text(numbers[0] as int)
    } else {
        listed(numbers.drop_last()) + ", "@ + decimal_text(numbers.last() as int)
    }
}

/// How a failed batch is described.
pub open spec fn batch_failure(partitions: Seq<i32>) -> Seq<char> {
    "Produce failed for partitions: ["@ + listed(partitions) + "]"@
}

fn describe_failure(partitions: &Vec<i32>) -> (r: String)
    ensures
        r@ == batch_failure(partitions@),
{
    let mut list = String::new();
    let mut i: usize = 0;
    assert(partitions@.take(0) =~= Seq::empty());
    while i < partitions.len()
        invariant
            i <= partitions@.len(),
            list@ == listed(partitions@.take(i as int)),
        decreases partitions@.len() - i,
    {
        if i > 0 {
            list.append(", ");
        }
        list.append(decimal(partitions[i] as i64).as_str());
        proof {
            assert(partitions@.take(i + 1).drop_last() =~= partitions@.take(i as int));
            assert(partitions@.take(i + 1).last() == partitions@[i as int]);
            assert(list@ =~= listed(partitions@.take(i + 1)));
        }
        i += 1;
    }
    assert(partitions@.take(i as int) =~= partitions@);
    let mut r = "Produce failed for partitions: [".to_owned();
    r.append(list.as_str());
    r.append("]");
    assert(r@ =~= batch_failure(partitions@));
    r
}

/// What is to be done with a batch once it was answered.
#[derive(Debug)]
pub enum BatchStep {
    /// Every partition took its records.
    Done,
    /// The whole batch is to be sent once more, to the leader.
    Retry { leader_addr: String },
    /// The batch failed.
    Failed { message: String },
}

/// What is to be done after the answer to a batch. One partition that names another
/// leader is enough to send the batch there.
pub fn judge_batch(response: &ProduceResponse) -> (r: BatchStep)
    ensures
        ({
            let all = answers(response.results@);
            match last_redirect(all) {
                Some(addr) => r matches BatchStep::Retry { leader_addr } && leader_addr@ == addr,
                None => if failed_partitions(all).len() == 0 {
                    r is Done
                } else {
                    r matches BatchStep::Failed { message } && message@ == batch_failure(failed_partitions(all))
                },
            }
        }),
{
    let flat = collect_answers(response);
    let ghost all = answers(response.results@);
    let mut redirect: Option<String> = None;
    let mut failed: Vec<i32> = Vec::new();
    let mut i: usize = 0;
    assert(all.take(0) =~= Seq::empty());
    while i < flat.len()
        invariant
            i <= flat@.len(),
            point_to(flat@, all),
            redirect.deep_view() == last_redirect(all.take(i as int)),
            failed@ == failed_partitions(all.take(i as int)),
        decreases flat@.len() - i,
    {
        let answer = flat[i];
        proof {
            assert(all.take(i + 1).drop_last() =~= all.take(i as int));
            assert(all.take(i + 1).last() == *answer);
        }
        if answer.error_code == 6 && !answer.leader_addr.as_str().is_empty() {
            redirect = Some(answer.leader_addr.dup());
        } else if answer.error_code != 0 {
            failed.push(answer.partition);
        }
        i += 1;
    }
    assert(all.take(i as int) =~= all);
    match redirect {
        Some(leader_addr) => BatchStep::Retry { leader_addr },
        None => if failed.len() == 0 {
            BatchStep::Done
        } else {
            BatchStep::Failed { message: describe_failure(&failed) }
        },
    }
}

/// How a failed second try is described.
pub open spec fn retry_failure(a: ProducePartitionResult) -> Seq<char> {
    "Produce to leader failed for partition "@ + decimal_text(a.partition as int) + ": error_code="@ + decimal_text(
        a.error_code as int,
    )
}

/// What became of a batch that was sent a second time. It is not sent a third time.
pub fn judge_retry(response: &ProduceResponse) -> (r: Result<(), String>)
    ensures
        ({
            let all = answers(response.results@);
            match r {
                Ok(_) => forall|i: int| 0 <= i < all.len() ==> (#[trigger] all[i]).error_code == 0,
                Err(e) => exists|i: int|
                    #![trigger all[i]]
                    0 <= i < all.len() && all[i].error_code != 0 && e@ == retry_failure(all[i]) && forall|j: int|
                        0 <= j < i ==> (#[trigger] all[j]).error_code == 0,
            }
        }),
{
    let flat = collect_answers(response);
    let ghost all = answers(response.results@);
    let mut i: usize = 0;
    while i < flat.len()
        invariant
            i <= flat@.len(),
            all == answers(response.results@),
            point_to(flat@, all),
            forall|j: int| 0 <= j < i ==> (#[trigger] all[j]).error_code == 0,
        decreases flat@.len() - i,
    {
        let answer = flat[i];
        if answer.error_code != 0 {
            let mut r = "Produce to leader failed for partition ".to_owned();
            r.append(decimal(answer.partition as i64).as_str());
            r.append(": error_code=");
            r.append(decimal(answer.error_code as i64).as_str());
            proof {
                assert(all[i as int] == *answer);
                assert(r@ =~= retry_failure(all[i as int]));
            }
            return Err(r);
        }
        i += 1;
    }
    Ok(())
}

/// What became of a message that was sent alone: the first answer decides.
pub fn judge_single(response: &ProduceResponse) -> (r: Result<ProducerResult, String>)
    ensures
        ({
            let all = answers(response.results@);
            if all.len() == 0 {
                r matches Err(e) && e@ == "No response from broker"@
            } else if all[0].error_code == 0 {
                r == Ok::<ProducerResult, String>(
                    ProducerResult { partition: all[0].partition, offset: all[0].offset, error_code: 0 },
                )
            } else {
                r matches Err(e) && e@ == "Failed to send message: error_code="@ + decimal_text(all[0].error_code as int)
            }
        }),
{
    let flat = collect_answers(response);
    if flat.len() == 0 {
        return Err("No response from broker".to_owned());
    }
    let answer = flat[0];
    if answer.error_code == 0 {
        return Ok(ProducerResult { partition: answer.partition, offset: answer.offset, error_code: 0 });
    }
    let mut r = "Failed to send message: error_code=".to_owned();
    r.append(decimal(answer.error_code as i64).as_str());
    Err(r)
}

/// Where a message goes. The partition that it names comes first. Else, in turn, it goes
/// to the partition at which the counter stands; by key, to the one that the hash of its
/// key stands for; and otherwise to the configured one.
pub proof fn message_goes_where_it_is_bound(m: OutgoingView, config: ProducerConfig, counter: u64)
    ensures
        ({
            let p = chosen_partition(m, config, counter);
            let n = config.num_partitions;
            &&& m.partition matches Some(x) ==> p == x
            &&& m.partition is None && config.partitioning@ == "round_robin"@ && n >= 1 ==> p == counter as int % n as int
            &&& m.partition is None && config.partitioning@ == "round_robin"@ && n < 1 ==> p == 0
            &&& m.partition is None && config.partitioning@ == "key_hash"@ ==> (m.key matches Some(k) ==> (n >= 1 ==> p
                == DefaultHasher::spec_finish(seq![le(k.len(), 8), k]) as int % n as int))
            &&& m.partition is None && config.partitioning@ == "key_hash"@ && m.key is None ==> p == config.partition
            &&& m.partition is None && config.partitioning@ != "round_robin"@ && config.partitioning@ != "key_hash"@ ==> p
                == config.partition
        }),
{
    reveal_strlit("round_robin");
    reveal_strlit("key_hash");
    assert("key_hash"@.len() != "round_robin"@.len());
}

/// The counter moves by one for every message that takes its turn, and for no other.
pub proof fn only_turns_are_counted(m: OutgoingView, config: ProducerConfig, counter: u64)
    ensures
        m.partition is Some || config.partitioning@ != "round_robin"@ ==> counter_after(m, config, counter) == counter,
        m.partition is None && config.partitioning@ == "round_robin"@ && counter < u64::MAX ==> counter_after(
            m,
            config,
            counter,
        ) == counter + 1,
        m.partition is None && config.partitioning@ == "round_robin"@ && counter == u64::MAX ==> counter_after(
            m,
            config,
            counter,
        ) == 0,
{
}

/// Each message of a batch gets the partition that it would get alone, with the counter
/// as the messages before it left it.
pub proof fn batch_chooses_one_by_one(msgs: Seq<OutgoingView>, config: ProducerConfig, counter: u64, i: int)
    requires
        0 <= i < msgs.len(),
    ensures
        chosen_partitions(msgs, config, counter).0.len() == msgs.len(),
        chosen_partitions(msgs, config, counter).0[i] == chosen_partition(
            msgs[i],
            config,
            chosen_partitions(msgs.take(i), config, counter).1,
        ),
    decreases msgs.len(),
{
    lemma_chosen_len(msgs, config, counter);
    lemma_chosen_len(msgs.drop_last(), config, counter);
    if i < msgs.len() - 1 {
        batch_chooses_one_by_one(msgs.drop_last(), config, counter, i);
        assert(msgs.drop_last().take(i) =~= msgs.take(i));
    } else {
        assert(msgs.take(i) =~= msgs.drop_last());
    }
}

proof fn lemma_chosen_len(msgs: Seq<OutgoingView>, config: ProducerConfig, counter: u64)
    ensures
        chosen_partitions(msgs, config, counter).0.len() == msgs.len(),
    decreases msgs.len(),
{
    if msgs.len() > 0 {
        lemma_chosen_len(msgs.drop_last(), config, counter);
    }
}

/// Messages that take turns are dealt round the partitions, one after the other, from
/// where the counter stands.
pub proof fn turns_deal_evenly(msgs: Seq<OutgoingView>, config: ProducerConfig, counter: u64, i: int)
    requires
        config.partitioning@ == "round_robin"@,
        config.num_partitions >= 1,
        forall|j: int| 0 <= j < msgs.len() ==> (#[trigger] msgs[j]).partition is None,
        counter + msgs.len() <= u64::MAX,
    ensures
        0 <= i < msgs.len() ==> chosen_partitions(msgs, config, counter).0[i] == (counter + i)
            % config.num_partitions as int,
        chosen_partitions(msgs, config, counter).1 == counter + msgs.len(),
    decreases msgs.len(),
{
    if msgs.len() > 0 {
        let front = msgs.drop_last();
        assert(msgs.last() == msgs[msgs.len() - 1]);
        assert forall|j: int| 0 <= j < front.len() implies (#[trigger] front[j]).partition is None by {
            assert(msgs[j].partition is None);
        }
        turns_deal_evenly(front, config, counter, i);
        lemma_chosen_len(front, config, counter);
    }
}

proof fn lemma_record_places(msgs: Seq<OutgoingView>, parts: Seq<int>, p: int) -> (at: Seq<int>)
    requires
        parts.len() == msgs.len(),
    ensures
        at.len() == records_for(msgs, parts, p).len(),
        forall|x: int|
            0 <= x < at.len() ==> 0 <= #[trigger] at[x] < msgs.len() && parts[at[x]] == p && records_for(msgs, parts, p)[x].key
                == msgs[at[x]].key && records_for(msgs, parts, p)[x].value == msgs[at[x]].value,
        forall|x: int, y: int| 0 <= x < y < at.len() ==> #[trigger] at[x] < #[trigger] at[y],
        forall|k: int| 0 <= k < msgs.len() && #[trigger] parts[k] == p ==> at.contains(k),
    decreases msgs.len(),
{
    if msgs.len() == 0 {
        Seq::empty()
    } else {
        let ms = msgs.drop_last();
        let ps = parts.drop_last();
        let front = lemma_record_places(ms, ps, p);
        let last = msgs.len() - 1;
        assert(parts.last() == parts[last] && msgs.last() == msgs[last]);
        assert(forall|k: int| 0 <= k < last ==> #[trigger] parts[k] == ps[k] && msgs[k] == ms[k]);
        if parts.last() == p {
            let at = front.push(last);
            assert forall|k: int| 0 <= k < msgs.len() && #[trigger] parts[k] == p implies at.contains(k) by {
                if k < last {
                    assert(ps[k] == p);
                    assert(front.contains(k));
                    let x = choose|x: int| 0 <= x < front.len() && front[x] == k;
                    assert(at[x] == k);
                } else {
                    assert(at[front.len() as int] == k);
                }
            }
            at
        } else {
            assert forall|k: int| 0 <= k < msgs.len() && #[trigger] parts[k] == p implies front.contains(k) by {
                assert(ps[k] == p);
            }
            front
        }
    }
}

/// A request sends to each partition exactly the messages of the batch that go there,
/// with their keys and values, in the order in which they were handed over.
pub proof fn partition_gets_its_messages_in_order(
    msgs: Seq<OutgoingView>,
    parts: Seq<int>,
    r: Seq<ProducePartition>,
    i: int,
) -> (at: Seq<int>)
    requires
        are_grouped(msgs, parts, r),
        parts.len() == msgs.len(),
        0 <= i < r.len(),
    ensures
        at.len() == r[i].records@.len(),
        forall|x: int|
            0 <= x < at.len() ==> 0 <= #[trigger] at[x] < msgs.len() && parts[at[x]] == r[i].partition
                && r[i].records@[x].key.deep_view() == msgs[at[x]].key && r[i].records@[x].value@ == msgs[at[x]].value,
        forall|x: int, y: int| 0 <= x < y < at.len() ==> #[trigger] at[x] < #[trigger] at[y],
        forall|k: int| 0 <= k < msgs.len() && #[trigger] parts[k] == r[i].partition ==> at.contains(k),
{
    let p = r[i].partition as int;
    let at = lemma_record_places(msgs, parts, p);
    let shown = r[i].records.deep_view();
    assert(shown == records_for(msgs, parts, p));
    assert forall|x: int| 0 <= x < at.len() implies 0 <= #[trigger] at[x] < msgs.len() && parts[at[x]] == r[i].partition
        && r[i].records@[x].key.deep_view() == msgs[at[x]].key && r[i].records@[x].value@ == msgs[at[x]].value by {
        assert(shown[x] == r[i].records@[x].deep_view());
        assert(r[i].records@[x].value.deep_view() =~= r[i].records@[x].value@);
    }
    at
}

/// A request for a batch goes to the configured topic, with the acknowledgements and the
/// time that are configured.
pub proof fn batch_goes_to_the_topic(r: ProduceRequest, config: ProducerConfig)
    requires
        is_produce_request(r, config),
    ensures
        r.topics@.len() == 1,
        r.topics@[0].topic_name@ == config.topic@,
        r.required_acks == config.required_acks,
        r.timeout_ms == config.timeout_ms,
{
}

/// The answers to a batch are those of its topics, none more and none less; those of the
/// first topic come first.
pub proof fn answers_are_those_of_the_topics(results: Seq<ProduceTopicResult>, a: ProducePartitionResult, i: int)
    ensures
        answers(results).contains(a) <==> exists|t: int, p: int|
            0 <= t < results.len() && 0 <= p < results[t].partitions@.len() && #[trigger] results[t].partitions@[p] == a,
        results.len() > 0 && 0 <= i < results[0].partitions@.len() ==> i < answers(results).len() && answers(results)[i]
            == results[0].partitions@[i],
    decreases results.len(),
{
    let all = answers(results);
    if results.len() > 0 {
        let front = results.drop_last();
        let before = answers(front);
        let last = results.len() - 1;
        answers_are_those_of_the_topics(front, a, i);
        assert(results.last() == results[last]);
        if all.contains(a) {
            let x = choose|x: int| 0 <= x < all.len() && all[x] == a;
            if x < before.len() {
                assert(before[x] == a);
                let (t, p) = choose|t: int, p: int|
                    0 <= t < front.len() && 0 <= p < front[t].partitions@.len() && #[trigger] front[t].partitions@[p] == a;
                assert(results[t] == front[t]);
                assert(results[t].partitions@[p] == a);
            } else {
                assert(results[last].partitions@[x - before.len()] == a);
            }
        }
        if exists|t: int, p: int|
            0 <= t < results.len() && 0 <= p < results[t].partitions@.len() && #[trigger] results[t].partitions@[p] == a {
            let (t, p) = choose|t: int, p: int|
                0 <= t < results.len() && 0 <= p < results[t].partitions@.len() && #[trigger] results[t].partitions@[p] == a;
            if t < last {
                assert(front[t] == results[t]);
                assert(front[t].partitions@[p] == a);
                let x = choose|x: int| 0 <= x < before.len() && before[x] == a;
                assert(all[x] == a);
            } else {
                assert(all[before.len() + p] == a);
            }
        }
        if last == 0 {
            assert(before =~= Seq::empty());
        } else {
            assert(front[0] == results[0]);
        }
    }
}

/// When a batch is sent again: exactly where some partition names another leader. It goes
/// to the one that was named last.
pub proof fn batch_follows_the_last_redirect(all: Seq<ProducePartitionResult>, i: int)
    ensures
        last_redirect(all) is None <==> forall|j: int|
            0 <= j < all.len() ==> !((#[trigger] all[j]).error_code == 6 && all[j].leader_addr@.len() > 0),
        0 <= i < all.len() && all[i].error_code == 6 && all[i].leader_addr@.len() > 0 && (forall|j: int|
            i < j < all.len() ==> !((#[trigger] all[j]).error_code == 6 && all[j].leader_addr@.len() > 0)) ==> last_redirect(all)
            == Some(all[i].leader_addr@),
    decreases all.len(),
{
    if all.len() > 0 {
        let front = all.drop_last();
        let last = all.len() - 1;
        assert(all.last() == all[last]);
        assert(forall|j: int| 0 <= j < last ==> #[trigger] all[j] == front[j]);
        assert(forall|j: int| 0 <= j < last ==> #[trigger] front[j] == all[j]);
        batch_follows_the_last_redirect(front, i);
        if is_redirect(all.last()) {
            assert(all[last].error_code == 6);
        }
    }
}

/// A batch fails for exactly those partitions that answer with an error and do not name
/// another leader.
pub proof fn batch_fails_for_refused_partitions(all: Seq<ProducePartitionResult>, p: i32)
    ensures
        failed_partitions(all).contains(p) <==> exists|j: int|
            0 <= j < all.len() && (#[trigger] all[j]).partition == p && all[j].error_code != 0 && !(all[j].error_code == 6
                && all[j].leader_addr@.len() > 0),
        failed_partitions(all).len() == 0 <==> forall|j: int|
            0 <= j < all.len() ==> (#[trigger] all[j]).error_code == 0 || (all[j].error_code == 6 && all[j].leader_addr@.len()
                > 0),
    decreases all.len(),
{
    if all.len() > 0 {
        let front = all.drop_last();
        let last = all.len() - 1;
        let before = failed_partitions(front);
        let r = failed_partitions(all);
        assert(all.last() == all[last]);
        assert(forall|j: int| 0 <= j < last ==> #[trigger] all[j] == front[j]);
        assert(forall|j: int| 0 <= j < last ==> #[trigger] front[j] == all[j]);
        batch_fails_for_refused_partitions(front, p);
        if r.contains(p) {
            let x = choose|x: int| 0 <= x < r.len() && r[x] == p;
            if x < before.len() {
                assert(before[x] == p);
                let j = choose|j: int|
                    0 <= j < front.len() && (#[trigger] front[j]).partition == p && front[j].error_code != 0 && !(
                    front[j].error_code == 6 && front[j].leader_addr@.len() > 0);
                assert(all[j].partition == p);
            } else {
                assert(all[last].partition == p);
            }
        }
        if exists|j: int|
            0 <= j < all.len() && (#[trigger] all[j]).partition == p && all[j].error_code != 0 && !(all[j].error_code == 6
                && all[j].leader_addr@.len() > 0) {
            let j = choose|j: int|
                0 <= j < all.len() && (#[trigger] all[j]).partition == p && all[j].error_code != 0 && !(all[j].error_code == 6
                    && all[j].leader_addr@.len() > 0);
            if j < last {
                assert(front[j].partition == p);
                let x = choose|x: int| 0 <= x < before.len() && before[x] == p;
                assert(r[x] == p);
            } else {
                assert(r[before.len() as int] == p);
            }
        }
        if r.len() == 0 {
            assert(before.len() == 0);
        }
    }
}

} // verus!

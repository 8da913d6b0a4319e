//! What clients are told from the replicated state, and what is to be truncated.
use vstd::prelude::*;

use crate::broker::config::RetentionConfig;
use crate::broker::raft::{BrokerCommand, BrokerData, BrokerDataView, BrokerStoredMessage, MessageView};
use crate::broker::reading::{
    ages, end_offset, fetch_from, is_fetched, is_offset_at, is_truncation, offset_at, retention_drops_surplus_and_old,
    truncation_offset,
};
use crate::broker::state_machine::{applied, log_end, log_of, rising, watermark_of};
use crate::broker::storage::{to_stored, StoredMessage};
use crate::maps::Dup;
use crate::seqs::{lemma_next_element, range, up_to};

verus! {

/// The topics.
pub fn get_topics(data: &BrokerData) -> (r: Vec<String>)
    ensures
        r.deep_view().no_duplicates(),
        r.deep_view().to_set() == data@.topics.dom(),
{
    data.topics.keys()
}

/// The partitions of a topic.
pub fn get_topic_partitions(data: &BrokerData, topic: &String) -> (r: Option<Vec<i32>>)
    ensures
        match r {
            Some(p) => data@.topics.dom().contains(topic@) && p@ == up_to(data@.topics[topic@] as int),
            None => !data@.topics.dom().contains(topic@),
        },
{
    match data.topics.get(topic) {
        Some(n) => Some(range(*n)),
        None => None,
    }
}

/// Reads the messages from an offset on, as far as they fit.
pub fn fetch_messages(data: &BrokerData, topic: &String, partition: i32, offset: i64, max_bytes: i32) -> (r: Vec<
    StoredMessage,
>)
    ensures
        is_fetched(log_of(data@, topic@, partition), offset, max_bytes, r.deep_view()),
{
    match data.messages.get(&(topic.dup(), partition)) {
        Some(log) => to_stored(fetch_from(log, offset, max_bytes)),
        None => {
            let none: Vec<BrokerStoredMessage> = Vec::new();
            assert(none.deep_view() =~= Seq::<MessageView>::empty());
            to_stored(fetch_from(&none, offset, max_bytes))
        },
    }
}

/// The offset that a request by time means. The recorded next offset counts where the
/// log is empty, so that truncation does not set it back.
pub fn get_partition_offset(data: &BrokerData, topic: &String, partition: i32, time: i64) -> (r: Vec<i64>)
    requires
        end_offset(log_of(data@, topic@, partition), watermark_of(data@, topic@, partition)) <= i64::MAX,
    ensures
        r@.len() == 1,
        is_offset_at(log_of(data@, topic@, partition), watermark_of(data@, topic@, partition), time, r@[0] as int),
{
    let k = (topic.dup(), partition);
    let mark: i64 = match data.next_offsets.get(&k) {
        Some(m) => *m,
        None => 0,
    };
    let offset: i64 = match data.messages.get(&k) {
        Some(log) => offset_at(log, mark, time),
        None => {
            let none: Vec<BrokerStoredMessage> = Vec::new();
            assert(none.deep_view() =~= Seq::<MessageView>::empty());
            offset_at(&none, mark, time)
        },
    };
    let mut r: Vec<i64> = Vec::new();
    r.push(offset);
    r
}

/// The offset that a group has committed; minus one where it has not.
pub open spec fn committed_offset(d: BrokerDataView, group: Seq<char>, topic: Seq<char>, partition: i32) -> i64 {
    if d.offsets.dom().contains((group, topic, partition)) { d.offsets[(group, topic, partition)] } else { -1i64 }
}

/// The offset that a group has committed, and no metadata.
pub fn fetch_offset(data: &BrokerData, group: &String, topic: &String, partition: i32) -> (r: (i64, String))
    ensures
        r.0 == committed_offset(data@, group@, topic@, partition),
        r.1@ == Seq::<char>::empty(),
{
    match data.offsets.get(&(group.dup(), topic.dup(), partition)) {
        Some(o) => (*o, String::new()),
        None => (-1, String::new()),
    }
}

/// Whether messages are to be dropped at all.
pub fn retains(retention: &RetentionConfig) -> (b: bool)
    ensures
        b == (retention.retention_ms is Some || retention.max_messages_per_partition is Some),
{
    retention.retention_ms.is_some() || retention.max_messages_per_partition.is_some()
}

/// A partition, and the offset before which it is to be truncated.
pub type Truncation = (String, i32, i64);

/// Every partition that is to be truncated is named once, with the right offset.
pub open spec fn are_truncations(
    d: BrokerDataView,
    retention: RetentionConfig,
    now: i64,
    r: Seq<(Seq<char>, i32, i64)>,
) -> bool {
    &&& forall|i: int|
        0 <= i < r.len() ==> d.messages.dom().contains(((#[trigger] r[i]).0, r[i].1)) && is_truncation(
            d.messages[(r[i].0, r[i].1)],
            retention,
            now,
            Some(r[i].2 as int),
        )
    &&& forall|i: int, j: int|
        0 <= i < r.len() && 0 <= j < r.len() && i != j ==> ((#[trigger] r[i]).0, r[i].1) != ((#[trigger] r[j]).0, r[j].1)
    &&& forall|k: (Seq<char>, i32)| #[trigger]
        d.messages.dom().contains(k) ==> is_named(r, k) || is_truncation(d.messages[k], retention, now, None)
}

/// The partition is named.
pub open spec fn is_named(r: Seq<(Seq<char>, i32, i64)>, k: (Seq<char>, i32)) -> bool {
    exists|i: int| 0 <= i < r.len() && (#[trigger] r[i]).0 == k.0 && r[i].1 == k.1
}

spec fn truncations_among(
    d: BrokerDataView,
    retention: RetentionConfig,
    now: i64,
    seen: Set<(Seq<char>, i32)>,
    r: Seq<(Seq<char>, i32, i64)>,
) -> bool {
    &&& forall|i: int|
        0 <= i < r.len() ==> seen.contains(((#[trigger] r[i]).0, r[i].1)) && d.messages.dom().contains((r[i].0, r[i].1))
            && is_truncation(d.messages[(r[i].0, r[i].1)], retention, now, Some(r[i].2 as int))
    &&& forall|i: int, j: int|
        0 <= i < r.len() && 0 <= j < r.len() && i != j ==> ((#[trigger] r[i]).0, r[i].1) != ((#[trigger] r[j]).0, r[j].1)
    &&& forall|k: (Seq<char>, i32)| #[trigger]
        seen.contains(k) ==> is_named(r, k) || is_truncation(d.messages[k], retention, now, None)
}

proof fn lemma_truncations_grow(
    d: BrokerDataView,
    retention: RetentionConfig,
    now: i64,
    seen: Set<(Seq<char>, i32)>,
    k: (Seq<char>, i32),
    r: Seq<(Seq<char>, i32, i64)>,
    t: Seq<(Seq<char>, i32, i64)>,
)
    requires
        truncations_among(d, retention, now, seen, r),
        !seen.contains(k),
        d.messages.dom().contains(k),
        (t == r && is_truncation(d.messages[k], retention, now, None)) || exists|o: i64|
            t == #[trigger] r.push((k.0, k.1, o)) && is_truncation(d.messages[k], retention, now, Some(o as int)),
    ensures
        truncations_among(d, retention, now, seen.insert(k), t),
{
    assert forall|i: int| 0 <= i < r.len() implies #[trigger] t[i] == r[i] by {}
    assert forall|x: (Seq<char>, i32)| #[trigger] seen.insert(k).contains(x) implies is_named(t, x) || is_truncation(
        d.messages[x],
        retention,
        now,
        None,
    ) by {
        if x == k {
            if t != r {
                assert(t[r.len() as int].0 == k.0 && t[r.len() as int].1 == k.1);
                assert(is_named(t, k));
            }
        } else {
            assert(seen.contains(x));
            if is_named(r, x) {
                let i = choose|i: int| 0 <= i < r.len() && (#[trigger] r[i]).0 == x.0 && r[i].1 == x.1;
                assert(t[i] == r[i]);
                assert(is_named(t, x));
            }
        }
    }
}

/// The offset behind every log fits its type.
pub open spec fn logs_end_in_range(d: BrokerDataView) -> bool {
    forall|k: (Seq<char>, i32)| #[trigger] d.messages.dom().contains(k) ==> log_end(d.messages[k]) <= i64::MAX
}

/// Whether the offset behind a log fits its type.
pub fn end_fits(data: &BrokerData, topic: &String, partition: i32) -> (b: bool)
    ensures
        b == (log_end(log_of(data@, topic@, partition)) <= i64::MAX),
        b ==> end_offset(log_of(data@, topic@, partition), watermark_of(data@, topic@, partition)) <= i64::MAX,
{
    match data.messages.get(&(topic.dup(), partition)) {
        Some(log) => {
            assert(log.deep_view() == log_of(data@, topic@, partition));
            if log.len() == 0 {
                true
            } else {
                assert(log.deep_view().last() == log@.last().deep_view());
                log[log.len() - 1].offset < i64::MAX
            }
        },
        None => true,
    }
}

/// Whether the offset behind every log fits its type.
pub fn logs_fit(data: &BrokerData) -> (b: bool)
    ensures
        b == logs_end_in_range(data@),
{
    let n = data.messages.len();
    let ghost order = data.messages.order();
    let mut i: usize = 0;
    while i < n
        invariant
            i <= n,
            n == order.len(),
            order == data.messages.order(),
            order.to_set() == data@.messages.dom(),
            forall|j: int| 0 <= j < i ==> log_end(data@.messages[#[trigger] order[j]]) <= i64::MAX,
        decreases n - i,
    {
        let log = data.messages.value_at(i);
        if log.len() > 0 {
            assert(log.deep_view().last() == log@.last().deep_view());
            if log[log.len() - 1].offset == i64::MAX {
                assert(data@.messages.dom().contains(order[i as int]));
                return false;
            }
        }
        i += 1;
    }
    proof {
        assert forall|k: (Seq<char>, i32)| #[trigger] data@.messages.dom().contains(k) implies log_end(data@.messages[k])
            <= i64::MAX by {
            assert(order.to_set().contains(k));
            let j = choose|j: int| 0 <= j < order.len() && order[j] == k;
            assert(log_end(data@.messages[order[j]]) <= i64::MAX);
        }
    }
    true
}

/// The partitions that are to be truncated, and where.
pub fn truncations(data: &BrokerData, retention: &RetentionConfig, now: i64) -> (r: Vec<Truncation>)
    requires
        logs_end_in_range(data@),
    ensures
        are_truncations(data@, *retention, now, r.deep_view()),
{
    let n = data.messages.len();
    let ghost d = data@;
    let ghost order = data.messages.order();
    let mut r: Vec<Truncation> = Vec::new();
    let mut i: usize = 0;
    proof {
        assert(order.take(0).to_set() =~= Set::empty());
        assert(r.deep_view() =~= Seq::empty());
    }
    while i < n
        invariant
            i <= n,
            n == order.len(),
            order == data.messages.order(),
            order.no_duplicates(),
            order.to_set() == d.messages.dom(),
            d == data@,
            logs_end_in_range(d),
            truncations_among(d, *retention, now, order.take(i as int).to_set(), r.deep_view()),
        decreases n - i,
    {
        let ghost k = order[i as int];
        let ghost seen = order.take(i as int).to_set();
        let ghost before = r.deep_view();
        proof {
            lemma_next_element(order, i as int);
            assert(d.messages.dom().contains(k));
        }
        let key = data.messages.key_at(i);
        let log = data.messages.value_at(i);
        match truncation_offset(log, retention, now) {
            Some(o) => {
                r.push((key.0.dup(), key.1, o));
                assert(r.deep_view() =~= before.push((k.0, k.1, o)));
            },
            None => {},
        }
        proof {
            lemma_truncations_grow(d, *retention, now, seen, k, before, r.deep_view());
        }
        i += 1;
    }
    assert(order.take(i as int) =~= order);
    r
}

/// What a group has committed is what it is told afterwards. Where it has not, it is told
/// minus one.
pub proof fn committed_offset_is_told(
    d: BrokerDataView,
    cmd: BrokerCommand,
    now: i64,
    group: Seq<char>,
    topic: Seq<char>,
    partition: i32,
)
    ensures
        cmd matches BrokerCommand::CommitOffset { group_id, topic: t, partition: p, offset } ==> committed_offset(
            applied(d, cmd, now),
            group_id@,
            t@,
            p,
        ) == offset,
        cmd matches BrokerCommand::CommitOffset { group_id, topic: t, partition: p, .. } ==> ((group_id@, t@, p) != (
            group,
            topic,
            partition,
        ) ==> committed_offset(applied(d, cmd, now), group, topic, partition) == committed_offset(d, group, topic, partition)),
        !(cmd is CommitOffset) ==> committed_offset(applied(d, cmd, now), group, topic, partition) == committed_offset(
            d,
            group,
            topic,
            partition,
        ),
        !d.offsets.dom().contains((group, topic, partition)) ==> committed_offset(d, group, topic, partition) == -1,
        d.offsets.dom().contains((group, topic, partition)) ==> committed_offset(d, group, topic, partition) == d.offsets[(
            group,
            topic,
            partition,
        )],
{
}

/// What is to be truncated reaches exactly the messages behind which there are as many as
/// may stay, and those that are older than they may be.
pub proof fn truncations_reach_surplus_and_old(
    d: BrokerDataView,
    retention: RetentionConfig,
    now: i64,
    r: Seq<(Seq<char>, i32, i64)>,
    k: (Seq<char>, i32),
    i: int,
)
    requires
        are_truncations(d, retention, now, r),
        d.messages.dom().contains(k),
        rising(d.messages[k]),
        ages(d.messages[k]),
        retention.retention_ms matches Some(ms) ==> ms <= i64::MAX,
        0 <= i < d.messages[k].len(),
    ensures
        ({
            let log = d.messages[k];
            (exists|x: int| 0 <= x < r.len() && (#[trigger] r[x]).0 == k.0 && r[x].1 == k.1 && log[i].offset < r[x].2) <==> ((
            retention.max_messages_per_partition matches Some(n) && log.len() - i > n) || (
            retention.retention_ms matches Some(ms) && now - log[i].timestamp_ms > ms))
        }),
{
    let log = d.messages[k];
    if is_named(r, k) {
        let x = choose|x: int| 0 <= x < r.len() && (#[trigger] r[x]).0 == k.0 && r[x].1 == k.1;
        assert((r[x].0, r[x].1) == k);
        retention_drops_surplus_and_old(log, retention, now, Some(r[x].2 as int), i);
        assert forall|y: int| 0 <= y < r.len() && (#[trigger] r[y]).0 == k.0 && r[y].1 == k.1 implies y == x by {
            if y != x {
                assert((r[x].0, r[x].1) != (r[y].0, r[y].1));
            }
        }
    } else {
        retention_drops_surplus_and_old(log, retention, now, None, i);
        if exists|x: int| 0 <= x < r.len() && (#[trigger] r[x]).0 == k.0 && r[x].1 == k.1 && log[i].offset < r[x].2 {
            let x = choose|x: int| 0 <= x < r.len() && (#[trigger] r[x]).0 == k.0 && r[x].1 == k.1 && log[i].offset < r[x].2;
            assert(is_named(r, k));
        }
    }
}

} // verus!

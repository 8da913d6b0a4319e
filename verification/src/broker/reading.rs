//! Reading partition logs: where to start, how much fits, which offsets there
//! are, and what retention drops.
use vstd::prelude::*;

use crate::broker::config::RetentionConfig;
use crate::broker::raft::{BrokerStoredMessage, MessageView};
use crate::broker::state_machine::{log_end, rising};
use crate::maps::Dup;

verus! {

/// The place in a log up to which the messages satisfy `p` and from which they do
/// not. Where the log is not divided like that, some place where it changes.
pub open spec fn is_cut(log: Seq<MessageView>, p: spec_fn(MessageView) -> bool, i: int) -> bool {
    &&& 0 <= i <= log.len()
    &&& i > 0 ==> p(log[i - 1])
    &&& i < log.len() ==> !p(log[i])
}

/// The messages of a log are divided: those that satisfy `p` come first.
pub open spec fn divided(log: Seq<MessageView>, p: spec_fn(MessageView) -> bool) -> bool {
    forall|i: int, j: int| 0 <= i < j < log.len() && p(#[trigger] log[j]) ==> p(#[trigger] log[i])
}

/// A divided log is cut in one place only.
pub proof fn cut_is_unique(log: Seq<MessageView>, p: spec_fn(MessageView) -> bool, i: int, j: int)
    requires
        divided(log, p),
        is_cut(log, p, i),
        is_cut(log, p, j),
    ensures
        i == j,
{
    if i < j {
        assert(p(log[j - 1]));
        if i < j - 1 {
            assert(p(log[i]));
        }
    }
    if j < i {
        assert(p(log[i - 1]));
        if j < i - 1 {
            assert(p(log[j]));
        }
    }
}

/// The message lies before an offset.
pub open spec fn below(offset: i64) -> spec_fn(MessageView) -> bool {
    |m: MessageView| m.offset < offset
}

/// The message is older than a time.
pub open spec fn older(time: int) -> spec_fn(MessageView) -> bool {
    |m: MessageView| m.timestamp_ms < time
}

/// A rising log is divided by every offset.
pub proof fn rising_is_divided(log: Seq<MessageView>, offset: i64)
    requires
        rising(log),
    ensures
        divided(log, below(offset)),
{
}

/// Where the messages from an offset on begin.
pub fn find_offset(log: &Vec<BrokerStoredMessage>, offset: i64) -> (r: usize)
    ensures
        is_cut(log.deep_view(), below(offset), r as int),
{
    let mut lo: usize = 0;
    let mut hi: usize = log.len();
    while lo < hi
        invariant
            lo <= hi <= log@.len(),
            lo > 0 ==> below(offset)(log.deep_view()[lo - 1]),
            hi < log@.len() ==> !below(offset)(log.deep_view()[hi as int]),
        decreases hi - lo,
    {
        let mid: usize = lo + (hi - lo) / 2;
        assert(log.deep_view()[mid as int] == log@[mid as int].deep_view());
        if log[mid].offset < offset {
            lo = mid + 1;
        } else {
            hi = mid;
        }
    }
    lo
}

/// Where the messages that are not older than a time begin.
pub fn find_time(log: &Vec<BrokerStoredMessage>, time: i128) -> (r: usize)
    ensures
        is_cut(log.deep_view(), older(time as int), r as int),
{
    let mut lo: usize = 0;
    let mut hi: usize = log.len();
    while lo < hi
        invariant
            lo <= hi <= log@.len(),
            lo > 0 ==> older(time as int)(log.deep_view()[lo - 1]),
            hi < log@.len() ==> !older(time as int)(log.deep_view()[hi as int]),
        decreases hi - lo,
    {
        let mid: usize = lo + (hi - lo) / 2;
        assert(log.deep_view()[mid as int] == log@[mid as int].deep_view());
        if (log[mid].timestamp_ms as i128) < time {
            lo = mid + 1;
        } else {
            hi = mid;
        }
    }
    lo
}

/// What a message counts for: its value and its key.
pub open spec fn weight(m: MessageView) -> int {
    m.value.len() + (match m.key {
        Some(k) => k.len() as int,
        None => 0,
    })
}

/// What fits: messages from the front until one would exceed the limit; the first
/// is taken whatever it weighs.
pub open spec fn fitting(log: Seq<MessageView>, used: int, limit: int, first: bool) -> Seq<MessageView>
    decreases log.len(),
{
    if log.len() == 0 || (used + weight(log[0]) > limit && !first) {
        Seq::empty()
    } else {
        seq![log[0]] + fitting(log.skip(1), used + weight(log[0]), limit, false)
    }
}

/// The byte limit that a request states; a negative one is none.
pub open spec fn byte_limit(max_bytes: i32) -> int {
    if max_bytes >= 0 { max_bytes as int } else { usize::MAX + 1 + max_bytes }
}

/// The weight of several messages.
pub open spec fn total_weight(log: Seq<MessageView>) -> int
    decreases log.len(),
{
    if log.len() == 0 { 0 } else { weight(log[0]) + total_weight(log.skip(1)) }
}

proof fn lemma_fitting(log: Seq<MessageView>, used: int, limit: int, first: bool)
    ensures
        fitting(log, used, limit, first).len() <= log.len(),
        fitting(log, used, limit, first) == log.take(fitting(log, used, limit, first).len() as int),
        !first && used <= limit ==> used + total_weight(fitting(log, used, limit, first)) <= limit,
        first && fitting(log, used, limit, first).len() > 1 ==> used + total_weight(fitting(log, used, limit, first)) <= limit,
    decreases log.len(),
{
    let r = fitting(log, used, limit, first);
    if r.len() > 0 {
        let rest = log.skip(1);
        let q = fitting(rest, used + weight(log[0]), limit, false);
        lemma_fitting(rest, used + weight(log[0]), limit, false);
        assert(r =~= seq![log[0]] + q);
        assert(r.skip(1) =~= q);
        assert(r =~= log.take(r.len() as int));
        if q.len() > 0 {
            assert(used + weight(log[0]) + weight(rest[0]) <= limit);
            assert(weight(rest[0]) >= 0);
        }
    } else {
        assert(log.take(0) =~= r);
    }
}

/// What is read is the front of what there is, it is not empty where there is
/// something, and it stays within the limit unless it is a single message.
pub proof fn reading_is_bounded(log: Seq<MessageView>, limit: int)
    ensures
        ({
            let r = fitting(log, 0, limit, true);
            &&& r == log.take(r.len() as int)
            &&& log.len() > 0 ==> r.len() > 0
            &&& r.len() > 1 ==> total_weight(r) <= limit
        }),
{
    lemma_fitting(log, 0, limit, true);
}

/// The messages of a log from `start` on, as far as they fit.
pub fn take_fitting(log: &Vec<BrokerStoredMessage>, start: usize, max_bytes: i32) -> (r: Vec<BrokerStoredMessage>)
    requires
        start <= log@.len(),
    ensures
        r.deep_view() == fitting(log.deep_view().skip(start as int), 0, byte_limit(max_bytes), true),
{
    let limit: u128 = if max_bytes >= 0 { max_bytes as u128 } else { (usize::MAX as i128 + 1 + max_bytes as i128) as u128 };
    let ghost s = log.deep_view();
    let mut r: Vec<BrokerStoredMessage> = Vec::new();
    let mut used: u128 = 0;
    let mut i: usize = start;
    assert(r.deep_view() =~= Seq::empty());
    assert(r.deep_view() + fitting(s.skip(i as int), used as int, limit as int, i == start) =~= fitting(
        s.skip(start as int),
        0,
        byte_limit(max_bytes),
        true,
    ));
    while i < log.len()
        invariant
            start <= i <= log@.len(),
            s == log.deep_view(),
            limit == byte_limit(max_bytes),
            limit <= 0x1_0000_0000_0000_0000,
            (i == start) == (r@.len() == 0),
            r.deep_view() + fitting(s.skip(i as int), used as int, limit as int, i == start) == fitting(
                s.skip(start as int),
                0,
                byte_limit(max_bytes),
                true,
            ),
            i == start ==> used == 0,
            i > start + 1 ==> used <= limit,
            used <= 0x2_0000_0000_0000_0000,
        decreases log@.len() - i,
    {
        let m = &log[i];
        let key_len: usize = match &m.key {
            Some(k) => k.len(),
            None => 0,
        };
        let size: u128 = m.value.len() as u128 + key_len as u128;
        proof {
            assert(s.skip(i as int)[0] == m.deep_view());
            assert(s.skip(i as int).skip(1) =~= s.skip(i + 1));
        }
        if used + size > limit && r.len() > 0 {
            assert(r.deep_view() + Seq::empty() =~= r.deep_view());
            return r;
        }
        let ghost before = r.deep_view();
        let ghost v = m.deep_view();
        r.push(m.dup());
        proof {
            assert(r.deep_view() =~= before.push(v));
            assert(before.push(v) + fitting(s.skip(i + 1), used + size, limit as int, false) =~= before + (seq![v]
                + fitting(s.skip(i + 1), used + size, limit as int, false)));
        }
        used = used + size;
        i += 1;
    }
    assert(r.deep_view() + Seq::empty() =~= r.deep_view());
    r
}

/// What a reader gets of a log: the messages from an offset on, as far as they fit.
pub open spec fn is_fetched(log: Seq<MessageView>, offset: i64, max_bytes: i32, r: Seq<MessageView>) -> bool {
    exists|start: int|
        #[trigger] is_cut(log, below(offset), start) && r == fitting(log.skip(start), 0, byte_limit(max_bytes), true)
}

/// Reads the messages from an offset on, as far as they fit.
pub fn fetch_from(log: &Vec<BrokerStoredMessage>, offset: i64, max_bytes: i32) -> (r: Vec<BrokerStoredMessage>)
    ensures
        is_fetched(log.deep_view(), offset, max_bytes, r.deep_view()),
{
    let start = find_offset(log, offset);
    take_fitting(log, start, max_bytes)
}

/// Of a rising log a reader gets exactly the messages from the offset on that fit.
pub proof fn fetch_of_rising_log(log: Seq<MessageView>, offset: i64, max_bytes: i32, r: Seq<MessageView>, i: int)
    requires
        rising(log),
        is_fetched(log, offset, max_bytes, r),
        0 <= i < r.len(),
    ensures
        r[i].offset >= offset,
        log.contains(r[i]),
{
    let start = choose|start: int|
        #[trigger] is_cut(log, below(offset), start) && r == fitting(log.skip(start), 0, byte_limit(max_bytes), true);
    lemma_fitting(log.skip(start), 0, byte_limit(max_bytes), true);
    assert(r[i] == log[start + i]);
    if i > 0 {
        assert(log[start].offset < log[start + i].offset);
    }
}

/// Who reads a rising log from a message's offset on gets that message first.
pub proof fn reading_starts_at_the_message(log: Seq<MessageView>, i: int, max_bytes: i32, r: Seq<MessageView>)
    requires
        rising(log),
        0 <= i < log.len(),
        is_fetched(log, log[i].offset, max_bytes, r),
    ensures
        r.len() > 0,
        r[0] == log[i],
{
    let p = below(log[i].offset);
    let start = choose|start: int|
        #[trigger] is_cut(log, p, start) && r == fitting(log.skip(start), 0, byte_limit(max_bytes), true);
    rising_is_divided(log, log[i].offset);
    if i > 0 {
        assert(log[i - 1].offset < log[i].offset);
    }
    assert(is_cut(log, p, i));
    cut_is_unique(log, p, start, i);
}

/// The offset behind a log; behind an empty one the recorded next offset.
pub open spec fn end_offset(log: Seq<MessageView>, mark: int) -> int {
    if log.len() == 0 { mark } else { log.last().offset + 1 }
}

/// The offset that a request by time means: minus one the end, minus two the
/// beginning, any other time the first message that is not older.
pub open spec fn is_offset_at(log: Seq<MessageView>, mark: int, time: i64, r: int) -> bool {
    if time == -1 {
        r == end_offset(log, mark)
    } else if time == -2 {
        r == (if log.len() == 0 { 0 } else { log[0].offset as int })
    } else {
        exists|i: int|
            #[trigger] is_cut(log, older(time as int), i) && r == (if i < log.len() {
                log[i].offset as int
            } else {
                end_offset(log, mark)
            })
    }
}

/// The offset that a request by time means.
pub fn offset_at(log: &Vec<BrokerStoredMessage>, mark: i64, time: i64) -> (r: i64)
    requires
        end_offset(log.deep_view(), mark as int) <= i64::MAX,
    ensures
        is_offset_at(log.deep_view(), mark as int, time, r as int),
{
    let n = log.len();
    let ghost s = log.deep_view();
    let end: i64 = if n == 0 {
        mark
    } else {
        assert(s.last() == log@[n - 1].deep_view());
        log[n - 1].offset + 1
    };
    if time == -1 {
        return end;
    }
    if time == -2 {
        if n == 0 {
            return 0;
        }
        assert(s[0] == log@[0].deep_view());
        return log[0].offset;
    }
    let i = find_time(log, time as i128);
    if i < n {
        assert(s[i as int] == log@[i as int].deep_view());
        log[i].offset
    } else {
        end
    }
}

/// A time span as the clock's type holds it.
pub open spec fn span(ms: u64) -> int {
    if ms <= i64::MAX { ms as int } else { ms - 0x1_0000_0000_0000_0000 }
}

/// The time before which messages are dropped.
pub fn cutoff_time(now: i64, ms: u64) -> (r: i128)
    ensures
        r == now - span(ms),
{
    let s: i128 = if ms <= 0x7fff_ffff_ffff_ffff { ms as i128 } else { ms as i128 - 0x1_0000_0000_0000_0000i128 };
    now as i128 - s
}

/// The offset of message `drop`; behind the last one the offset behind the log.
pub open spec fn offset_behind(log: Seq<MessageView>, drop: int) -> int {
    if drop < log.len() { log[drop].offset as int } else { log_end(log) }
}

/// The offset before which the number of messages calls for truncation.
pub open spec fn count_bound(log: Seq<MessageView>, max: Option<usize>) -> Option<int> {
    match max {
        Some(n) => if log.len() > n { Some(offset_behind(log, log.len() - n)) } else { None },
        None => None,
    }
}

/// The offset before which the age of messages calls for truncation.
pub open spec fn is_age_bound(log: Seq<MessageView>, ms: Option<u64>, now: i64, r: Option<int>) -> bool {
    match ms {
        Some(t) => exists|i: int|
            #[trigger] is_cut(log, older(now - span(t)), i) && r == (if i > 0 { Some(offset_behind(log, i)) } else { None }),
        None => r is None,
    }
}

/// The later of two bounds.
pub open spec fn later(a: Option<int>, b: Option<int>) -> Option<int> {
    match (a, b) {
        (Some(x), Some(y)) => Some(if x >= y { x } else { y }),
        (Some(x), None) => Some(x),
        (None, y) => y,
    }
}

/// `r` is the offset before which a log is to be truncated.
pub open spec fn is_truncation(log: Seq<MessageView>, retention: RetentionConfig, now: i64, r: Option<int>) -> bool {
    exists|age: Option<int>|
        #[trigger] is_age_bound(log, retention.retention_ms, now, age) && r == later(
            count_bound(log, retention.max_messages_per_partition),
            age,
        )
}

/// The offset before which a log is to be truncated, if any.
pub fn truncation_offset(log: &Vec<BrokerStoredMessage>, retention: &RetentionConfig, now: i64) -> (r: Option<i64>)
    requires
        log_end(log.deep_view()) <= i64::MAX,
    ensures
        is_truncation(log.deep_view(), *retention, now, match r {
            Some(o) => Some(o as int),
            None => None,
        }),
{
    let n = log.len();
    let ghost s = log.deep_view();
    let mut bound: Option<i64> = None;
    if let Some(max) = retention.max_messages_per_partition {
        if n > max {
            bound = Some(offset_at_drop(log, n - max));
        }
    }
    let ghost count = count_bound(s, retention.max_messages_per_partition);
    let mut age: Option<i64> = None;
    if let Some(ms) = retention.retention_ms {
        let drop = find_time(log, cutoff_time(now, ms));
        if drop > 0 {
            age = Some(offset_at_drop(log, drop));
        }
        assert(is_cut(s, older(now - span(ms)), drop as int));
    }
    let ghost a: Option<int> = match age {
        Some(x) => Some(x as int),
        None => None,
    };
    assert(is_age_bound(s, retention.retention_ms, now, a));
    match (bound, age) {
        (Some(x), Some(y)) => Some(if x >= y { x } else { y }),
        (Some(x), None) => Some(x),
        (None, y) => y,
    }
}

fn offset_at_drop(log: &Vec<BrokerStoredMessage>, drop: usize) -> (r: i64)
    requires
        log_end(log.deep_view()) <= i64::MAX,
        drop <= log@.len(),
    ensures
        r == offset_behind(log.deep_view(), drop as int),
{
    let n = log.len();
    if drop < n {
        assert(log.deep_view()[drop as int] == log@[drop as int].deep_view());
        log[drop].offset
    } else if n > 0 {
        assert(log.deep_view().last() == log@[n - 1].deep_view());
        log[n - 1].offset + 1
    } else {
        0
    }
}

/// A message counts for the bytes of its value and of its key.
pub proof fn message_weighs_key_and_value(m: MessageView)
    ensures
        m.key is None ==> weight(m) == m.value.len(),
        m.key matches Some(k) ==> weight(m) == m.value.len() + k.len(),
{
}

/// The weight of several messages is the sum of their bytes.
pub proof fn weights_add_up(s: Seq<MessageView>, m: MessageView)
    ensures
        total_weight(Seq::empty()) == 0,
        m.key is None ==> total_weight(s.push(m)) == total_weight(s) + m.value.len(),
        m.key matches Some(k) ==> total_weight(s.push(m)) == total_weight(s) + m.value.len() + k.len(),
        total_weight(s) >= 0,
    decreases s.len(),
{
    if s.len() == 0 {
        assert(s.push(m).skip(1) =~= Seq::empty());
        assert(s =~= Seq::empty());
        reveal_with_fuel(total_weight, 2);
    } else {
        weights_add_up(s.skip(1), m);
        assert(s.push(m).skip(1) =~= s.skip(1).push(m));
    }
}

/// A byte limit is meant as it was stated; a negative one is larger than any that can be
/// stated.
pub proof fn limit_is_meant_as_stated(max_bytes: i32)
    ensures
        max_bytes >= 0 ==> byte_limit(max_bytes) == max_bytes,
        max_bytes < 0 ==> byte_limit(max_bytes) > i32::MAX,
{
}

proof fn lemma_fitting_ends(log: Seq<MessageView>, used: int, limit: int, first: bool)
    ensures
        ({
            let r = fitting(log, used, limit, first);
            r.len() < log.len() && (!first || r.len() > 0) ==> used + total_weight(r) + weight(log[r.len() as int]) > limit
        }),
    decreases log.len(),
{
    let r = fitting(log, used, limit, first);
    if r.len() > 0 {
        let rest = log.skip(1);
        let q = fitting(rest, used + weight(log[0]), limit, false);
        lemma_fitting_ends(rest, used + weight(log[0]), limit, false);
        assert(r =~= seq![log[0]] + q);
        assert(r.skip(1) =~= q);
        if r.len() < log.len() {
            assert(rest[q.len() as int] == log[r.len() as int]);
        }
    }
}

/// What is read of a rising log has no gap. It begins at the first message that does not
/// lie before the offset, goes on from message to message, and ends at the end of the log
/// or where the next message would exceed the byte limit. One message is read whatever it
/// weighs; more than one stay within the limit.
pub proof fn fetch_has_no_gap(log: Seq<MessageView>, offset: i64, max_bytes: i32, r: Seq<MessageView>) -> (start: int)
    requires
        rising(log),
        is_fetched(log, offset, max_bytes, r),
    ensures
        0 <= start,
        start + r.len() <= log.len(),
        forall|i: int| 0 <= i < start ==> (#[trigger] log[i]).offset < offset,
        forall|i: int| start <= i < log.len() ==> (#[trigger] log[i]).offset >= offset,
        forall|i: int| 0 <= i < r.len() ==> #[trigger] r[i] == log[start + i],
        start < log.len() ==> r.len() > 0,
        r.len() > 1 && max_bytes >= 0 ==> total_weight(r) <= max_bytes,
        start + r.len() < log.len() ==> total_weight(r.push(log[start + r.len()])) > max_bytes,
        start + r.len() < log.len() && max_bytes < 0 ==> total_weight(r.push(log[start + r.len()])) > i32::MAX,
{
    let start = choose|start: int|
        #[trigger] is_cut(log, below(offset), start) && r == fitting(log.skip(start), 0, byte_limit(max_bytes), true);
    let tail = log.skip(start);
    lemma_fitting(tail, 0, byte_limit(max_bytes), true);
    lemma_fitting_ends(tail, 0, byte_limit(max_bytes), true);
    limit_is_meant_as_stated(max_bytes);
    assert forall|i: int| 0 <= i < start implies (#[trigger] log[i]).offset < offset by {
        assert(below(offset)(log[start - 1]));
        if i < start - 1 {
            assert(log[i].offset < log[start - 1].offset);
        }
    }
    assert forall|i: int| start <= i < log.len() implies (#[trigger] log[i]).offset >= offset by {
        assert(!below(offset)(log[start]));
        if start < i {
            assert(log[start].offset < log[i].offset);
        }
    }
    assert forall|i: int| 0 <= i < r.len() implies #[trigger] r[i] == log[start + i] by {
        assert(r[i] == tail.take(r.len() as int)[i]);
    }
    if start + r.len() < log.len() {
        assert(tail[r.len() as int] == log[start + r.len()]);
        weights_add_up(r, log[start + r.len()]);
        message_weighs_key_and_value(log[start + r.len()]);
    }
    start
}

/// The messages of a log are not older than those before them.
pub open spec fn ages(log: Seq<MessageView>) -> bool {
    forall|i: int, j: int| 0 <= i < j < log.len() ==> (#[trigger] log[i]).timestamp_ms <= (#[trigger] log[j]).timestamp_ms
}

proof fn lemma_time_cut(log: Seq<MessageView>, time: int, c: int)
    requires
        ages(log),
        is_cut(log, older(time), c),
    ensures
        forall|i: int| 0 <= i < log.len() ==> ((#[trigger] log[i]).timestamp_ms < time <==> i < c),
{
    assert forall|i: int| 0 <= i < log.len() implies ((#[trigger] log[i]).timestamp_ms < time <==> i < c) by {
        if i < c {
            assert(older(time)(log[c - 1]));
            if i < c - 1 {
                assert(log[i].timestamp_ms <= log[c - 1].timestamp_ms);
            }
        } else {
            assert(!older(time)(log[c]));
            if c < i {
                assert(log[c].timestamp_ms <= log[i].timestamp_ms);
            }
        }
    }
}

/// Which offset a time means. Minus one means the end: behind the last message, or the
/// next offset of an empty log. Minus two means the first message, or zero. Any other
/// time means the first message that is not older, or the end where all are.
pub proof fn time_means_first_message_not_older(log: Seq<MessageView>, mark: int, time: i64, r: int, i: int)
    requires
        ages(log),
        is_offset_at(log, mark, time, r),
    ensures
        time == -1 && log.len() == 0 ==> r == mark,
        time == -1 && log.len() > 0 ==> r == log[log.len() - 1].offset + 1,
        time == -2 && log.len() == 0 ==> r == 0,
        time == -2 && log.len() > 0 ==> r == log[0].offset,
        time != -1 && time != -2 && 0 <= i < log.len() && log[i].timestamp_ms >= time && (i == 0 || log[i - 1].timestamp_ms
            < time) ==> r == log[i].offset,
        time != -1 && time != -2 && log.len() > 0 && log[log.len() - 1].timestamp_ms < time ==> r == log[log.len() - 1].offset
            + 1,
        time != -1 && time != -2 && log.len() == 0 ==> r == mark,
{
    if time != -1 && time != -2 {
        let c = choose|c: int|
            #[trigger] is_cut(log, older(time as int), c) && r == (if c < log.len() {
                log[c].offset as int
            } else {
                end_offset(log, mark)
            });
        lemma_time_cut(log, time as int, c);
        if log.len() > 0 {
            assert(log.last() == log[log.len() - 1]);
        }
    }
}

/// What retention drops of a log: exactly the messages behind which there are at least as
/// many as may stay, and those that are older than they may be.
pub proof fn retention_drops_surplus_and_old(
    log: Seq<MessageView>,
    retention: RetentionConfig,
    now: i64,
    bound: Option<int>,
    i: int,
)
    requires
        rising(log),
        ages(log),
        is_truncation(log, retention, now, bound),
        retention.retention_ms matches Some(ms) ==> ms <= i64::MAX,
        0 <= i < log.len(),
    ensures
        (bound matches Some(b) && log[i].offset < b) <==> ((retention.max_messages_per_partition matches Some(n)
            && log.len() - i > n) || (retention.retention_ms matches Some(ms) && now - log[i].timestamp_ms > ms)),
{
    let age = choose|age: Option<int>|
        #[trigger] is_age_bound(log, retention.retention_ms, now, age) && bound == later(
            count_bound(log, retention.max_messages_per_partition),
            age,
        );
    let count = count_bound(log, retention.max_messages_per_partition);
    assert(log.last() == log[log.len() - 1]);
    assert(log[i].offset <= log[log.len() - 1].offset) by {
        if i < log.len() - 1 {
            assert(log[i].offset < log[log.len() - 1].offset);
        }
    }
    if let Some(n) = retention.max_messages_per_partition {
        if log.len() > n {
            let drop = log.len() - n;
            if drop < log.len() {
                if i < drop {
                    assert(log[i].offset < log[drop].offset);
                } else if drop < i {
                    assert(log[drop].offset < log[i].offset);
                }
            }
        }
    }
    assert((count matches Some(b) && log[i].offset < b) <==> (retention.max_messages_per_partition matches Some(n)
        && log.len() - i > n));
    if let Some(ms) = retention.retention_ms {
        let c = choose|c: int|
            #[trigger] is_cut(log, older(now - span(ms)), c) && age == (if c > 0 { Some(offset_behind(log, c)) } else { None });
        lemma_time_cut(log, now - span(ms), c);
        if 0 < c && c < log.len() {
            if i < c {
                assert(log[i].offset < log[c].offset);
            } else if c < i {
                assert(log[c].offset < log[i].offset);
            }
        }
    }
    assert((age matches Some(b) && log[i].offset < b) <==> (retention.retention_ms matches Some(ms) && now
        - log[i].timestamp_ms > ms));
}

} // verus!

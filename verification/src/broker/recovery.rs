//! Rebuilding the broker state from what the store holds.
use vstd::prelude::*;
use vstd::utf8::*;

use crate::broker::partition_log::read_entry;
use crate::broker::raft::{empty_data, BrokerData, BrokerDataView, BrokerStoredMessage, MessageView};
use crate::broker::state_machine::{log_of, watermark_of};
use crate::broker::store::{key_read, read_key, value_said, KeyView, StoreKey, StoreValue, StoredView, ValueView};
use crate::text::utf8_text;
use crate::wire::{decode_i32, decode_i64};

verus! {

/// A log with one more message, behind all that have no larger offset.
pub open spec fn placed(log: Seq<MessageView>, m: MessageView) -> Seq<MessageView>
    decreases log.len(),
{
    if log.len() == 0 || log.last().offset <= m.offset {
        log.push(m)
    } else {
        placed(log.drop_last(), m).push(log.last())
    }
}

/// The state with what a value under a key says. A value of another kind says nothing.
pub open spec fn with_entry(d: BrokerDataView, key: Option<KeyView>, value: ValueView) -> BrokerDataView {
    match (key, value) {
        (Some(KeyView::Message { topic, partition }), ValueView::Message(m)) => BrokerDataView {
            messages: d.messages.insert((topic, partition), placed(log_of(d, topic, partition), m)),
            ..d
        },
        (Some(KeyView::Watermark { topic, partition }), ValueView::Offset(o)) => BrokerDataView {
            next_offsets: d.next_offsets.insert(
                (topic, partition),
                if watermark_of(d, topic, partition) >= o { watermark_of(d, topic, partition) as i64 } else { o },
            ),
            ..d
        },
        (Some(KeyView::Committed { group, topic, partition }), ValueView::Offset(o)) => BrokerDataView {
            offsets: d.offsets.insert((group, topic, partition), o),
            ..d
        },
        (Some(KeyView::Topic { topic }), ValueView::Count(n)) => BrokerDataView {
            topics: d.topics.insert(topic, n),
            ..d
        },
        (Some(KeyView::Group { group }), ValueView::Group(g)) => BrokerDataView {
            groups: d.groups.insert(group, g),
            ..d
        },
        _ => d,
    }
}

/// What a key of bytes is the key of; only text is a key.
pub open spec fn bytes_read(key: Seq<u8>) -> Option<KeyView> {
    if valid_utf8(key) { key_read(decode_utf8(key)) } else { None }
}

/// The state with what the store keeps under a key. A key or a value that cannot be read
/// is passed over.
pub open spec fn with_stored(d: BrokerDataView, key: Option<KeyView>, v: StoredView) -> BrokerDataView {
    match key {
        Some(k) => match value_said(k, v) {
            Some(said) => with_entry(d, key, said),
            None => d,
        },
        None => d,
    }
}

/// The state that the entries of a store say.
pub open spec fn loaded(entries: Seq<(Seq<u8>, StoredView)>) -> BrokerDataView
    decreases entries.len(),
{
    if entries.len() == 0 {
        empty_data()
    } else {
        with_stored(loaded(entries.drop_last()), bytes_read(entries.last().0), entries.last().1)
    }
}

fn place(log: &mut Vec<BrokerStoredMessage>, m: BrokerStoredMessage)
    ensures
        final(log).deep_view() == placed(old(log).deep_view(), m.deep_view()),
{
    let ghost s = log.deep_view();
    let ghost v = m.deep_view();
    let mut i: usize = log.len();
    assert(s.take(i as int) =~= s);
    assert(s.skip(i as int) =~= Seq::empty());
    assert(placed(s, v) =~= placed(s.take(i as int), v) + s.skip(i as int));
    while i > 0 && log[i - 1].offset > m.offset
        invariant
            i <= log@.len(),
            s == log.deep_view(),
            v == m.deep_view(),
            placed(s, v) == placed(s.take(i as int), v) + s.skip(i as int),
        decreases i,
    {
        i -= 1;
        proof {
            assert(s[i as int] == log@[i as int].deep_view());
            assert(s.take(i + 1).last() == s[i as int]);
            assert(s.take(i + 1).drop_last() =~= s.take(i as int));
            assert(placed(s.take(i as int), v).push(s[i as int]) + s.skip(i + 1) =~= placed(s.take(i as int), v) + s.skip(
                i as int,
            ));
        }
    }
    proof {
        if i > 0 {
            assert(s.take(i as int).last() == s[i - 1]);
            assert(s[i - 1] == log@[i - 1].deep_view());
        }
        assert(placed(s.take(i as int), v) == s.take(i as int).push(v));
        assert(s.insert(i as int, v) =~= s.take(i as int).push(v) + s.skip(i as int));
    }
    log.insert(i, m);
    assert(log.deep_view() =~= s.insert(i as int, v));
}

/// Whether a key is that of a group, whose bytes who keeps the store has to read.
pub fn is_group_key(key: &[u8]) -> (b: bool)
    ensures
        b == (bytes_read(key@) matches Some(k) && k is Group),
{
    match utf8_text(key) {
        Some(text) => match read_key(text.as_str()) {
            Some(StoreKey::Group { .. }) => true,
            _ => false,
        },
        None => false,
    }
}

/// Rebuilds the state from the entries that a scan of the store gives.
pub fn load_broker_data_from_sled(entries: Vec<(Vec<u8>, StoreValue)>) -> (data: BrokerData)
    ensures
        data@ == loaded(entries.deep_view()),
{
    let ghost s = entries.deep_view();
    let mut data: BrokerData = BrokerData::default();
    assert(s.take(0) =~= Seq::empty());
    for e in it: entries
        invariant
            it.seq() == entries@,
            s == entries.deep_view(),
            data@ == loaded(s.take(it.index())),
    {
        let ghost i = it.index();
        let ghost before = data@;
        let (key, value) = e;
        let ghost kv = value.deep_view();
        let ghost read = bytes_read(key@);
        proof {
            assert(s[i] == (key.deep_view(), kv));
            assert(key.deep_view() =~= key@);
            assert(s.take(i + 1).drop_last() =~= s.take(i));
            assert(s.take(i + 1).last() == s[i]);
        }
        let parsed: Option<StoreKey> = match utf8_text(key.as_slice()) {
            Some(text) => read_key(text.as_str()),
            None => None,
        };
        assert(parsed.deep_view() == read);
        match (parsed, value) {
            (Some(StoreKey::Message { topic, partition }), StoreValue::Bytes(bytes)) => {
                if let Ok(m) = read_entry(bytes.as_slice()) {
                    let ghost said = ValueView::Message(m.deep_view());
                    let k = (topic, partition);
                    let mut log: Vec<BrokerStoredMessage> = match data.messages.remove(&k) {
                        Some(l) => l,
                        None => Vec::new(),
                    };
                    assert(log.deep_view() =~= log_of(before, k.0@, k.1));
                    place(
                        &mut log,
                        BrokerStoredMessage {
                            offset: m.offset,
                            key: m.key,
                            value: m.value,
                            timestamp_ms: m.timestamp_ms,
                        },
                    );
                    data.messages.insert(k, log);
                    assert(data@.messages =~= with_entry(before, read, said).messages);
                }
            },
            (Some(StoreKey::Watermark { topic, partition }), StoreValue::Bytes(bytes)) => {
                if let Some(next) = decode_i64(bytes.as_slice()) {
                    let k = (topic, partition);
                    let known: i64 = match data.next_offsets.get(&k) {
                        Some(o) => *o,
                        None => 0,
                    };
                    data.next_offsets.insert(k, if known >= next { known } else { next });
                }
            },
            (Some(StoreKey::Committed { group, topic, partition }), StoreValue::Bytes(bytes)) => {
                if let Some(offset) = decode_i64(bytes.as_slice()) {
                    data.offsets.insert((group, topic, partition), offset);
                }
            },
            (Some(StoreKey::Topic { topic }), StoreValue::Bytes(bytes)) => {
                if let Some(n) = decode_i32(bytes.as_slice()) {
                    data.topics.insert(topic, n);
                }
            },
            (Some(StoreKey::Group { group }), StoreValue::Group(g)) => {
                data.groups.insert(group, g);
            },
            _ => {},
        }
        assert(data@ =~= with_stored(before, read, kv));
    }
    assert(s.take(s.len() as int) =~= s);
    data
}

/// A message that is read back takes its place by its offset, in whatever order the store
/// hands messages out: nothing is lost, and the log stays in order.
pub proof fn restored_messages_are_in_order(log: Seq<MessageView>, m: MessageView, x: MessageView)
    requires
        forall|i: int, j: int| 0 <= i < j < log.len() ==> (#[trigger] log[i]).offset <= (#[trigger] log[j]).offset,
    ensures
        placed(log, m).len() == log.len() + 1,
        placed(log, m).contains(x) <==> log.contains(x) || x == m,
        forall|i: int, j: int|
            0 <= i < j < placed(log, m).len() ==> (#[trigger] placed(log, m)[i]).offset <= (
            #[trigger] placed(log, m)[j]).offset,
    decreases log.len(),
{
    let r = placed(log, m);
    if log.len() == 0 || log.last().offset <= m.offset {
        assert(r == log.push(m));
        assert(r[log.len() as int] == m);
        if log.contains(x) {
            let k = choose|k: int| 0 <= k < log.len() && log[k] == x;
            assert(r[k] == x);
        }
        if r.contains(x) && x != m {
            let k = choose|k: int| 0 <= k < r.len() && r[k] == x;
            assert(log[k] == x);
        }
        assert forall|i: int, j: int| 0 <= i < j < r.len() implies (#[trigger] r[i]).offset <= (#[trigger] r[j]).offset by {
            assert(log.last() == log[log.len() - 1]);
        }
    } else {
        let front = log.drop_last();
        let p = placed(front, m);
        let last = log.last();
        assert(last == log[log.len() - 1]);
        assert forall|i: int, j: int| 0 <= i < j < front.len() implies (#[trigger] front[i]).offset <= (
        #[trigger] front[j]).offset by {
            assert(front[i] == log[i] && front[j] == log[j]);
        }
        restored_messages_are_in_order(front, m, x);
        assert forall|i: int| 0 <= i < p.len() implies (#[trigger] p[i]).offset <= last.offset by {
            restored_messages_are_in_order(front, m, p[i]);
            assert(p.contains(p[i]));
            if front.contains(p[i]) {
                let k = choose|k: int| 0 <= k < front.len() && front[k] == p[i];
                assert(log[k] == p[i]);
            }
        }
        assert(r == p.push(last));
        assert(r[p.len() as int] == last);
        if log.contains(x) || x == m {
            if x == last {
            } else {
                if log.contains(x) {
                    let k = choose|k: int| 0 <= k < log.len() && log[k] == x;
                    assert(front[k] == x);
                }
                assert(p.contains(x));
                let k = choose|k: int| 0 <= k < p.len() && p[k] == x;
                assert(r[k] == x);
            }
        }
        if r.contains(x) {
            let k = choose|k: int| 0 <= k < r.len() && r[k] == x;
            if k < p.len() {
                assert(p[k] == x);
                if front.contains(x) {
                    let y = choose|y: int| 0 <= y < front.len() && front[y] == x;
                    assert(log[y] == x);
                }
            }
        }
    }
}

/// What an entry of the store restores: a message in its partition, the next offset of a
/// partition unless a larger one is known, a committed offset, the size of a topic, or a
/// group. Nothing else is touched by it.
pub proof fn entries_restore_one_thing(d: BrokerDataView, key: KeyView, value: ValueView)
    ensures
        ({
            let r = with_entry(d, Some(key), value);
            match (key, value) {
                (KeyView::Message { topic, partition }, ValueView::Message(m)) => {
                    &&& r.messages.dom().contains((topic, partition))
                    &&& r.messages[(topic, partition)] == placed(log_of(d, topic, partition), m)
                    &&& r.next_offsets == d.next_offsets && r.offsets == d.offsets && r.topics == d.topics && r.groups
                        == d.groups
                },
                (KeyView::Watermark { topic, partition }, ValueView::Offset(o)) => {
                    &&& r.next_offsets.dom().contains((topic, partition))
                    &&& r.next_offsets[(topic, partition)] >= o
                    &&& d.next_offsets.dom().contains((topic, partition)) ==> r.next_offsets[(topic, partition)]
                        >= d.next_offsets[(topic, partition)] && (r.next_offsets[(topic, partition)] == o
                        || r.next_offsets[(topic, partition)] == d.next_offsets[(topic, partition)])
                    &&& !d.next_offsets.dom().contains((topic, partition)) && o >= 0 ==> r.next_offsets[(topic, partition)]
                        == o
                    &&& r.messages == d.messages && r.offsets == d.offsets && r.topics == d.topics && r.groups == d.groups
                },
                (KeyView::Committed { group, topic, partition }, ValueView::Offset(o)) => {
                    &&& r.offsets == d.offsets.insert((group, topic, partition), o)
                    &&& r.messages == d.messages && r.next_offsets == d.next_offsets && r.topics == d.topics && r.groups
                        == d.groups
                },
                (KeyView::Topic { topic }, ValueView::Count(n)) => {
                    &&& r.topics == d.topics.insert(topic, n)
                    &&& r.messages == d.messages && r.next_offsets == d.next_offsets && r.offsets == d.offsets && r.groups
                        == d.groups
                },
                (KeyView::Group { group }, ValueView::Group(g)) => {
                    &&& r.groups == d.groups.insert(group, g)
                    &&& r.messages == d.messages && r.next_offsets == d.next_offsets && r.offsets == d.offsets && r.topics
                        == d.topics
                },
                _ => r == d,
            }
        }),
{
}

} // verus!

//! The store mirrors the broker state: every command keeps it so, and the state
//! can be rebuilt from the store alone.
use vstd::prelude::*;
use vstd::utf8::*;

use crate::broker::partition_log::message_fits;
use crate::broker::raft::{empty_data, BrokerCommand, BrokerDataView, GroupView, MessageView};
use crate::broker::recovery::{bytes_read, loaded, placed, with_entry};
use crate::broker::state_machine::{
    all_applied, applied, changes_of, command_fits, commands_fit, from_offset, group_write, lemma_commands_prefix,
    lemma_filtered_rising, log_of, next_offset, produced, rising, truncated, watermark_of, writes_of,
};
use crate::broker::store::{
    committed_key, committed_key_reads_back, group_key, key_read, message_key, message_key_reads_back, message_prefix,
    name_keys_read_back, stored, stored_value_reads_back, stored_write, stored_writes, topic_key, value_said,
    watermark_key, watermark_key_reads_back, KeyView, StoredView, ValueView, WriteView,
};
use crate::text::{
    cut, cut_joined, has_prefix, last_part, last_part_joined, number_within, padded, padded_has_no_colon,
    padded_reads_back, parse_i64, rsplit_once, utf8_text, whole_is_last_part,
};

verus! {

/// The offset at the end of a key lies below the bound.
pub open spec fn is_stale(key: Seq<char>, before_offset: i64) -> bool {
    match number_within(last_part(key, ':'), i64::MIN as int, i64::MAX as int) {
        Some(v) => v < before_offset,
        None => false,
    }
}

/// Whether a key of the store ends in an offset below the bound.
pub fn stale_key(key: &[u8], before_offset: i64) -> (b: bool)
    ensures
        b == (valid_utf8(key@) && is_stale(decode_utf8(key@), before_offset)),
{
    match utf8_text(key) {
        Some(text) => {
            let tail = match rsplit_once(text.as_str(), ':') {
                Some((head, tail)) => {
                    proof {
                        last_part_joined(head@, tail@, ':');
                    }
                    tail
                },
                None => {
                    proof {
                        whole_is_last_part(text@, ':');
                    }
                    text
                },
            };
            match parse_i64(tail.as_str()) {
                Some(v) => v < before_offset,
                None => false,
            }
        },
        None => false,
    }
}

/// The store after a change.
pub open spec fn written<V>(store: Map<Seq<char>, V>, w: WriteView<V>) -> Map<Seq<char>, V> {
    match w {
        WriteView::Put { key, value } => store.insert(key, value),
        WriteView::DropBelow { prefix, before_offset } => Map::new(
            |k: Seq<char>| store.dom().contains(k) && !(has_prefix(k, prefix) && is_stale(k, before_offset)),
            |k: Seq<char>| store[k],
        ),
    }
}

/// The store after a row of changes.
pub open spec fn written_all<V>(store: Map<Seq<char>, V>, ws: Seq<WriteView<V>>) -> Map<Seq<char>, V>
    decreases ws.len(),
{
    if ws.len() == 0 {
        store
    } else {
        written(written_all(store, ws.drop_last()), ws.last())
    }
}

/// The name holds no separator.
pub open spec fn plain(name: Seq<char>) -> bool {
    !name.contains(':')
}

/// A key that commands write, with a value of its kind.
pub open spec fn canonical(key: Seq<char>, v: ValueView) -> bool {
    ||| exists|t: Seq<char>, p: i32, o: i64|
        plain(t) && key == #[trigger] message_key(t, p, o) && v is Message && v->Message_0.offset == o
    ||| exists|t: Seq<char>, p: i32|
        plain(t) && key == #[trigger] watermark_key(t, p) && v is Offset && v->Offset_0 >= 0
    ||| exists|g: Seq<char>, t: Seq<char>, p: i32|
        plain(g) && plain(t) && key == #[trigger] committed_key(g, t, p) && v is Offset
    ||| exists|t: Seq<char>| key == #[trigger] topic_key(t) && v is Count
    ||| exists|g: Seq<char>| key == #[trigger] group_key(g) && v is Group
}

/// The store holds exactly the messages of the logs.
pub open spec fn mirrors_messages(store: Map<Seq<char>, ValueView>, d: BrokerDataView) -> bool {
    &&& forall|t: Seq<char>, p: i32| rising(#[trigger] log_of(d, t, p))
    &&& forall|t: Seq<char>, p: i32| (#[trigger] log_of(d, t, p)).len() > 0 ==> plain(t)
    &&& forall|t: Seq<char>, p: i32, i: int|
        0 <= i < log_of(d, t, p).len() ==> store.dom().contains(message_key(t, p, (#[trigger] log_of(d, t, p)[i]).offset))
            && store[message_key(t, p, log_of(d, t, p)[i].offset)] == ValueView::Message(log_of(d, t, p)[i])
    &&& forall|t: Seq<char>, p: i32, o: i64|
        plain(t) && store.dom().contains(#[trigger] message_key(t, p, o)) ==> exists|i: int|
            0 <= i < log_of(d, t, p).len() && (#[trigger] log_of(d, t, p)[i]).offset == o
}

/// The store holds the next offsets; one that it does not hold is zero.
pub open spec fn mirrors_marks(store: Map<Seq<char>, ValueView>, d: BrokerDataView) -> bool {
    &&& forall|t: Seq<char>, p: i32|
        plain(t) ==> #[trigger] watermark_of(d, t, p) == (if store.dom().contains(watermark_key(t, p)) {
            store[watermark_key(t, p)]->Offset_0 as int
        } else {
            0
        })
    &&& forall|t: Seq<char>, p: i32| !plain(t) ==> #[trigger] watermark_of(d, t, p) == 0
}

/// The store holds exactly the committed offsets.
pub open spec fn mirrors_offsets(store: Map<Seq<char>, ValueView>, d: BrokerDataView) -> bool {
    &&& forall|g: Seq<char>, t: Seq<char>, p: i32|
        plain(g) && plain(t) ==> #[trigger] d.offsets.dom().contains((g, t, p)) == store.dom().contains(
            committed_key(g, t, p),
        )
    &&& forall|g: Seq<char>, t: Seq<char>, p: i32|
        #[trigger] d.offsets.dom().contains((g, t, p)) ==> plain(g) && plain(t) && store[committed_key(g, t, p)]
            == ValueView::Offset(d.offsets[(g, t, p)])
}

/// The store holds exactly the topics.
pub open spec fn mirrors_topics(store: Map<Seq<char>, ValueView>, d: BrokerDataView) -> bool {
    &&& forall|t: Seq<char>| #[trigger] d.topics.dom().contains(t) == store.dom().contains(topic_key(t))
    &&& forall|t: Seq<char>|
        #[trigger] d.topics.dom().contains(t) ==> store[topic_key(t)] == ValueView::Count(d.topics[t])
}

/// The store holds exactly the groups.
pub open spec fn mirrors_groups(store: Map<Seq<char>, ValueView>, d: BrokerDataView) -> bool {
    &&& forall|g: Seq<char>| #[trigger] d.groups.dom().contains(g) == store.dom().contains(group_key(g))
    &&& forall|g: Seq<char>|
        #[trigger] d.groups.dom().contains(g) ==> store[group_key(g)] == ValueView::Group(d.groups[g])
}

/// The store says what the state holds, and nothing else.
#[verifier::opaque]
pub open spec fn mirrors(store: Map<Seq<char>, ValueView>, d: BrokerDataView) -> bool {
    &&& forall|k: Seq<char>| #[trigger] store.dom().contains(k) ==> canonical(k, store[k])
    &&& mirrors_messages(store, d)
    &&& mirrors_marks(store, d)
    &&& mirrors_offsets(store, d)
    &&& mirrors_topics(store, d)
    &&& mirrors_groups(store, d)
}

/// Two states that nothing can tell apart: an empty log counts as no log, and
/// the next offset zero as none.
pub open spec fn same_state(a: BrokerDataView, b: BrokerDataView) -> bool {
    &&& forall|t: Seq<char>, p: i32| #[trigger] log_of(a, t, p) == log_of(b, t, p)
    &&& forall|t: Seq<char>, p: i32| #[trigger] watermark_of(a, t, p) == watermark_of(b, t, p)
    &&& a.offsets == b.offsets
    &&& a.topics == b.topics
    &&& a.groups == b.groups
}

/// The names in a command's partition and offset keys hold no separator.
pub open spec fn command_plain(cmd: BrokerCommand) -> bool {
    match cmd {
        BrokerCommand::Produce { topic, .. } => plain(topic@),
        BrokerCommand::CommitOffset { group_id, topic, .. } => plain(group_id@) && plain(topic@),
        BrokerCommand::TruncatePartition { topic, .. } => plain(topic@),
        _ => true,
    }
}

/// The empty store mirrors the state before any command.
pub proof fn empty_store_mirrors()
    ensures
        mirrors(Map::<Seq<char>, ValueView>::empty(), empty_data()),
{
    reveal(mirrors);
}

proof fn lemma_same_message_key(t: Seq<char>, p: i32, o: i64, t2: Seq<char>, p2: i32, o2: i64)
    requires
        plain(t),
        plain(t2),
        message_key(t, p, o) == message_key(t2, p2, o2),
    ensures
        t == t2,
        p == p2,
        o == o2,
{
    message_key_reads_back(t, p, o);
    message_key_reads_back(t2, p2, o2);
    let n = message_prefix(t, p).len() as int;
    assert(message_key(t, p, o).skip(n) =~= padded(o as int, 20));
    assert(message_key(t2, p2, o2).skip(n) =~= padded(o2 as int, 20));
    padded_reads_back(o as int, 20);
    padded_reads_back(o2 as int, 20);
}

proof fn lemma_log_insert(d: BrokerDataView, t: Seq<char>, p: i32, log: Seq<MessageView>)
    ensures
        ({
            let e = BrokerDataView { messages: d.messages.insert((t, p), log), ..d };
            &&& log_of(e, t, p) == log
            &&& forall|t2: Seq<char>, p2: i32|
                (t2 != t || p2 != p) ==> #[trigger] log_of(e, t2, p2) == log_of(d, t2, p2)
        }),
{
}

proof fn lemma_frame_canonical(store: Map<Seq<char>, ValueView>, key: Seq<char>, v: ValueView)
    requires
        forall|k: Seq<char>| #[trigger] store.dom().contains(k) ==> canonical(k, store[k]),
        canonical(key, v),
    ensures
        forall|k: Seq<char>| #[trigger] store.insert(key, v).dom().contains(k) ==> canonical(k, store.insert(key, v)[k]),
{
    let st = store.insert(key, v);
    assert forall|k: Seq<char>| #[trigger] st.dom().contains(k) implies canonical(k, st[k]) by {
        if k != key {
            assert(store.dom().contains(k));
        }
    }
}

proof fn lemma_frame_messages(
    store: Map<Seq<char>, ValueView>,
    d: BrokerDataView,
    e: BrokerDataView,
    key: Seq<char>,
    v: ValueView,
)
    requires
        mirrors_messages(store, d),
        !(key_read(key) is Some && key_read(key)->0 is Message),
        forall|t: Seq<char>, p: i32| #[trigger] log_of(e, t, p) == log_of(d, t, p),
    ensures
        mirrors_messages(store.insert(key, v), e),
{
    let st = store.insert(key, v);
    assert forall|t: Seq<char>, p: i32| rising(#[trigger] log_of(e, t, p)) by {
        assert(rising(log_of(d, t, p)));
    }
    assert forall|t: Seq<char>, p: i32| (#[trigger] log_of(e, t, p)).len() > 0 implies plain(t) by {
        assert(log_of(d, t, p).len() > 0);
    }
    assert forall|t: Seq<char>, p: i32, i: int| 0 <= i < log_of(e, t, p).len() implies st.dom().contains(
        message_key(t, p, (#[trigger] log_of(e, t, p)[i]).offset),
    ) && st[message_key(t, p, log_of(e, t, p)[i].offset)] == ValueView::Message(log_of(e, t, p)[i]) by {
        let x = log_of(d, t, p)[i];
        assert(log_of(d, t, p).len() > 0);
        message_key_reads_back(t, p, x.offset);
    }
    assert forall|t: Seq<char>, p: i32, o: i64| plain(t) && st.dom().contains(#[trigger] message_key(t, p, o)) implies exists|
        i: int,
    |
        0 <= i < log_of(e, t, p).len() && (#[trigger] log_of(e, t, p)[i]).offset == o by {
        message_key_reads_back(t, p, o);
        assert(store.dom().contains(message_key(t, p, o)));
        let j = choose|j: int| 0 <= j < log_of(d, t, p).len() && (#[trigger] log_of(d, t, p)[j]).offset == o;
        assert(log_of(e, t, p)[j].offset == o);
    }
}

proof fn lemma_frame_marks(
    store: Map<Seq<char>, ValueView>,
    d: BrokerDataView,
    e: BrokerDataView,
    key: Seq<char>,
    v: ValueView,
)
    requires
        mirrors_marks(store, d),
        !(key_read(key) is Some && key_read(key)->0 is Watermark),
        forall|t: Seq<char>, p: i32| #[trigger] watermark_of(e, t, p) == watermark_of(d, t, p),
    ensures
        mirrors_marks(store.insert(key, v), e),
{
    let st = store.insert(key, v);
    assert forall|t: Seq<char>, p: i32| plain(t) implies #[trigger] watermark_of(e, t, p) == (if st.dom().contains(
        watermark_key(t, p),
    ) {
        st[watermark_key(t, p)]->Offset_0 as int
    } else {
        0
    }) by {
        watermark_key_reads_back(t, p);
        assert(watermark_of(d, t, p) == watermark_of(e, t, p));
    }
    assert forall|t: Seq<char>, p: i32| !plain(t) implies #[trigger] watermark_of(e, t, p) == 0 by {
        assert(watermark_of(d, t, p) == 0);
    }
}

proof fn lemma_frame_offsets(
    store: Map<Seq<char>, ValueView>,
    d: BrokerDataView,
    e: BrokerDataView,
    key: Seq<char>,
    v: ValueView,
)
    requires
        mirrors_offsets(store, d),
        !(key_read(key) is Some && key_read(key)->0 is Committed),
        e.offsets == d.offsets,
    ensures
        mirrors_offsets(store.insert(key, v), e),
{
    let st = store.insert(key, v);
    assert forall|g: Seq<char>, t: Seq<char>, p: i32| plain(g) && plain(t) implies #[trigger] e.offsets.dom().contains(
        (g, t, p),
    ) == st.dom().contains(committed_key(g, t, p)) by {
        committed_key_reads_back(g, t, p);
        assert(d.offsets.dom().contains((g, t, p)) == store.dom().contains(committed_key(g, t, p)));
    }
    assert forall|g: Seq<char>, t: Seq<char>, p: i32| #[trigger] e.offsets.dom().contains((g, t, p)) implies plain(g)
        && plain(t) && st[committed_key(g, t, p)] == ValueView::Offset(e.offsets[(g, t, p)]) by {
        assert(d.offsets.dom().contains((g, t, p)));
        committed_key_reads_back(g, t, p);
    }
}

proof fn lemma_frame_names(
    store: Map<Seq<char>, ValueView>,
    d: BrokerDataView,
    e: BrokerDataView,
    key: Seq<char>,
    v: ValueView,
)
    requires
        mirrors_topics(store, d),
        mirrors_groups(store, d),
    ensures
        !(key_read(key) is Some && key_read(key)->0 is Topic) && e.topics == d.topics ==> mirrors_topics(
            store.insert(key, v),
            e,
        ),
        !(key_read(key) is Some && key_read(key)->0 is Group) && e.groups == d.groups ==> mirrors_groups(
            store.insert(key, v),
            e,
        ),
{
    assert forall|n: Seq<char>| key_read(#[trigger] topic_key(n)) == Some(KeyView::Topic { topic: n }) by {
        name_keys_read_back(n);
    }
    assert forall|n: Seq<char>| key_read(#[trigger] group_key(n)) == Some(KeyView::Group { group: n }) by {
        name_keys_read_back(n);
    }
}

/// A message whose offset is not there yet is added to the store and to its log.
proof fn lemma_add_message(
    store: Map<Seq<char>, ValueView>,
    d: BrokerDataView,
    t: Seq<char>,
    p: i32,
    m: MessageView,
    log: Seq<MessageView>,
)
    requires
        mirrors(store, d),
        plain(t),
        rising(log),
        forall|x: MessageView| #[trigger] log.contains(x) <==> x == m || log_of(d, t, p).contains(x),
        forall|i: int| 0 <= i < log_of(d, t, p).len() ==> (#[trigger] log_of(d, t, p)[i]).offset != m.offset,
    ensures
        mirrors(
            store.insert(message_key(t, p, m.offset), ValueView::Message(m)),
            BrokerDataView { messages: d.messages.insert((t, p), log), ..d },
        ),
{
    reveal(mirrors);
    let key = message_key(t, p, m.offset);
    let v = ValueView::Message(m);
    let st = store.insert(key, v);
    let e = BrokerDataView { messages: d.messages.insert((t, p), log), ..d };
    lemma_log_insert(d, t, p, log);
    message_key_reads_back(t, p, m.offset);
    lemma_frame_canonical(store, key, v);
    lemma_frame_marks(store, d, e, key, v);
    lemma_frame_offsets(store, d, e, key, v);
    lemma_frame_names(store, d, e, key, v);
    assert(log.contains(m));
    assert forall|t2: Seq<char>, p2: i32| rising(#[trigger] log_of(e, t2, p2)) by {
        if t2 != t || p2 != p {
            assert(rising(log_of(d, t2, p2)));
        }
    }
    assert forall|t2: Seq<char>, p2: i32| (#[trigger] log_of(e, t2, p2)).len() > 0 implies plain(t2) by {
        if t2 != t || p2 != p {
            assert(log_of(d, t2, p2).len() > 0);
        }
    }
    assert forall|t2: Seq<char>, p2: i32, i: int| 0 <= i < log_of(e, t2, p2).len() implies st.dom().contains(
        message_key(t2, p2, (#[trigger] log_of(e, t2, p2)[i]).offset),
    ) && st[message_key(t2, p2, log_of(e, t2, p2)[i].offset)] == ValueView::Message(log_of(e, t2, p2)[i]) by {
        let x = log_of(e, t2, p2)[i];
        assert(plain(t2)) by {
            assert(log_of(e, t2, p2).len() > 0);
        }
        if t2 == t && p2 == p {
            assert(log.contains(x));
            if x != m {
                let j = choose|j: int| 0 <= j < log_of(d, t, p).len() && log_of(d, t, p)[j] == x;
                assert(log_of(d, t, p)[j].offset != m.offset);
                if message_key(t, p, x.offset) == key {
                    lemma_same_message_key(t, p, x.offset, t, p, m.offset);
                }
            }
        } else {
            assert(log_of(d, t2, p2)[i] == x);
            if message_key(t2, p2, x.offset) == key {
                lemma_same_message_key(t2, p2, x.offset, t, p, m.offset);
            }
        }
    }
    assert forall|t2: Seq<char>, p2: i32, o: i64| plain(t2) && st.dom().contains(#[trigger] message_key(t2, p2, o)) implies exists|
        i: int,
    |
        0 <= i < log_of(e, t2, p2).len() && (#[trigger] log_of(e, t2, p2)[i]).offset == o by {
        if message_key(t2, p2, o) == key {
            lemma_same_message_key(t2, p2, o, t, p, m.offset);
            let i = choose|i: int| 0 <= i < log.len() && log[i] == m;
            assert(log_of(e, t2, p2)[i].offset == o);
        } else {
            assert(store.dom().contains(message_key(t2, p2, o)));
            let j = choose|j: int| 0 <= j < log_of(d, t2, p2).len() && (#[trigger] log_of(d, t2, p2)[j]).offset == o;
            if t2 == t && p2 == p {
                assert(log_of(d, t, p).contains(log_of(d, t, p)[j]));
                assert(log.contains(log_of(d, t, p)[j]));
                let i = choose|i: int| 0 <= i < log.len() && log[i] == log_of(d, t, p)[j];
                assert(log_of(e, t2, p2)[i].offset == o);
            } else {
                assert(log_of(e, t2, p2)[j].offset == o);
            }
        }
    }
}

/// A next offset is set in the store and in the state.
proof fn lemma_set_mark(store: Map<Seq<char>, ValueView>, d: BrokerDataView, t: Seq<char>, p: i32, o: i64)
    requires
        mirrors(store, d),
        plain(t),
        o >= 0,
    ensures
        mirrors(
            store.insert(watermark_key(t, p), ValueView::Offset(o)),
            BrokerDataView { next_offsets: d.next_offsets.insert((t, p), o), ..d },
        ),
{
    reveal(mirrors);
    let key = watermark_key(t, p);
    let v = ValueView::Offset(o);
    let st = store.insert(key, v);
    let e = BrokerDataView { next_offsets: d.next_offsets.insert((t, p), o), ..d };
    watermark_key_reads_back(t, p);
    lemma_frame_canonical(store, key, v);
    lemma_frame_messages(store, d, e, key, v);
    lemma_frame_offsets(store, d, e, key, v);
    lemma_frame_names(store, d, e, key, v);
    assert forall|t2: Seq<char>, p2: i32| plain(t2) implies #[trigger] watermark_of(e, t2, p2) == (if st.dom().contains(
        watermark_key(t2, p2),
    ) {
        st[watermark_key(t2, p2)]->Offset_0 as int
    } else {
        0
    }) by {
        watermark_key_reads_back(t2, p2);
        if t2 != t || p2 != p {
            assert(watermark_of(d, t2, p2) == watermark_of(e, t2, p2));
        }
    }
    assert forall|t2: Seq<char>, p2: i32| !plain(t2) implies #[trigger] watermark_of(e, t2, p2) == 0 by {
        assert(watermark_of(d, t2, p2) == 0);
    }
}

/// A committed offset is set in the store and in the state.
proof fn lemma_set_offset(
    store: Map<Seq<char>, ValueView>,
    d: BrokerDataView,
    g: Seq<char>,
    t: Seq<char>,
    p: i32,
    o: i64,
)
    requires
        mirrors(store, d),
        plain(g),
        plain(t),
    ensures
        mirrors(
            store.insert(committed_key(g, t, p), ValueView::Offset(o)),
            BrokerDataView { offsets: d.offsets.insert((g, t, p), o), ..d },
        ),
{
    reveal(mirrors);
    let key = committed_key(g, t, p);
    let v = ValueView::Offset(o);
    let st = store.insert(key, v);
    let e = BrokerDataView { offsets: d.offsets.insert((g, t, p), o), ..d };
    committed_key_reads_back(g, t, p);
    lemma_frame_canonical(store, key, v);
    lemma_frame_messages(store, d, e, key, v);
    lemma_frame_marks(store, d, e, key, v);
    lemma_frame_names(store, d, e, key, v);
    assert forall|g2: Seq<char>, t2: Seq<char>, p2: i32| plain(g2) && plain(t2) implies #[trigger] e.offsets.dom().contains(
        (g2, t2, p2),
    ) == st.dom().contains(committed_key(g2, t2, p2)) by {
        committed_key_reads_back(g2, t2, p2);
        assert(d.offsets.dom().contains((g2, t2, p2)) == store.dom().contains(committed_key(g2, t2, p2)));
    }
    assert forall|g2: Seq<char>, t2: Seq<char>, p2: i32| #[trigger] e.offsets.dom().contains((g2, t2, p2)) implies plain(g2)
        && plain(t2) && st[committed_key(g2, t2, p2)] == ValueView::Offset(e.offsets[(g2, t2, p2)]) by {
        if g2 == g && t2 == t && p2 == p {
        } else {
            assert(d.offsets.dom().contains((g2, t2, p2)));
            committed_key_reads_back(g2, t2, p2);
        }
    }
}

/// A topic is set in the store and in the state; logs and next offsets read the same.
proof fn lemma_set_topic(store: Map<Seq<char>, ValueView>, d: BrokerDataView, e: BrokerDataView, t: Seq<char>, n: i32)
    requires
        mirrors(store, d),
        forall|t2: Seq<char>, p2: i32| #[trigger] log_of(e, t2, p2) == log_of(d, t2, p2),
        forall|t2: Seq<char>, p2: i32| #[trigger] watermark_of(e, t2, p2) == watermark_of(d, t2, p2),
        e.offsets == d.offsets,
        e.groups == d.groups,
        e.topics == d.topics.insert(t, n),
    ensures
        mirrors(store.insert(topic_key(t), ValueView::Count(n)), e),
{
    reveal(mirrors);
    let key = topic_key(t);
    let v = ValueView::Count(n);
    name_keys_read_back(t);
    lemma_frame_canonical(store, key, v);
    lemma_frame_messages(store, d, e, key, v);
    lemma_frame_marks(store, d, e, key, v);
    lemma_frame_offsets(store, d, e, key, v);
    lemma_frame_names(store, d, e, key, v);
    assert forall|x: Seq<char>| key_read(#[trigger] topic_key(x)) == Some(KeyView::Topic { topic: x }) by {
        name_keys_read_back(x);
    }
    assert(mirrors_topics(store.insert(key, v), e));
}

/// A group is set in the store and in the state.
proof fn lemma_set_group(store: Map<Seq<char>, ValueView>, d: BrokerDataView, g: Seq<char>, s: GroupView)
    requires
        mirrors(store, d),
    ensures
        mirrors(
            store.insert(group_key(g), ValueView::Group(s)),
            BrokerDataView { groups: d.groups.insert(g, s), ..d },
        ),
{
    reveal(mirrors);
    let key = group_key(g);
    let v = ValueView::Group(s);
    let e = BrokerDataView { groups: d.groups.insert(g, s), ..d };
    name_keys_read_back(g);
    lemma_frame_canonical(store, key, v);
    lemma_frame_messages(store, d, e, key, v);
    lemma_frame_marks(store, d, e, key, v);
    lemma_frame_offsets(store, d, e, key, v);
    lemma_frame_names(store, d, e, key, v);
    assert forall|x: Seq<char>| key_read(#[trigger] group_key(x)) == Some(KeyView::Group { group: x }) by {
        name_keys_read_back(x);
    }
    assert(mirrors_groups(store.insert(key, v), e));
}

proof fn lemma_prefix_parts(k: Seq<char>, t: Seq<char>, p: i32)
    requires
        plain(t),
        has_prefix(k, message_prefix(t, p)),
    ensures
        key_read(k) == Some(KeyView::Message { topic: t, partition: p }),
{
    reveal_strlit("msg:");
    let pre = message_prefix(t, p);
    let rest = k.skip(pre.len() as int);
    assert(k =~= pre + rest);
    let head = seq!['m', 's', 'g'];
    let n = padded(p as int, 10);
    assert(k =~= head + seq![':'] + (t + seq![':'] + (n + seq![':'] + rest)));
    assert(!head.contains(':'));
    padded_has_no_colon(p as int, 10);
    cut_joined(head, t + seq![':'] + (n + seq![':'] + rest), 4, ':');
    cut_joined(t, n + seq![':'] + rest, 3, ':');
    cut_joined(n, rest, 2, ':');
    assert(cut(rest, 1, ':') == seq![rest]);
    assert(cut(k, 4, ':') =~= seq![head, t, n, rest]);
    padded_reads_back(p as int, 10);
    assert(k.take(4) =~= "msg:"@);
}

/// A partition's messages start with its prefix, and no others do; they end in their offset.
proof fn lemma_prefix_is_partition(t: Seq<char>, p: i32, t2: Seq<char>, p2: i32, o2: i64)
    requires
        plain(t),
        plain(t2),
    ensures
        has_prefix(message_key(t2, p2, o2), message_prefix(t, p)) == (t == t2 && p == p2),
        last_part(message_key(t2, p2, o2), ':') == padded(o2 as int, 20),
{
    let k = message_key(t2, p2, o2);
    let pre = message_prefix(t, p);
    if has_prefix(k, pre) {
        lemma_prefix_parts(k, t, p);
        message_key_reads_back(t2, p2, o2);
    }
    if t == t2 && p == p2 {
        assert(k.take(pre.len() as int) =~= pre);
    }
    padded_has_no_colon(o2 as int, 20);
    let before = "msg:"@ + t2 + seq![':'] + padded(p2 as int, 10);
    assert(k =~= before + seq![':'] + padded(o2 as int, 20));
    last_part_joined(before, padded(o2 as int, 20), ':');
}

proof fn lemma_truncate(store: Map<Seq<char>, ValueView>, d: BrokerDataView, t: Seq<char>, p: i32, b: i64)
    requires
        mirrors(store, d),
        plain(t),
        d.messages.dom().contains((t, p)),
    ensures
        mirrors(written(store, WriteView::DropBelow { prefix: message_prefix(t, p), before_offset: b }), truncated(d, t, p, b)),
{
    reveal(mirrors);
    let pre = message_prefix(t, p);
    let st = written(store, WriteView::DropBelow { prefix: pre, before_offset: b });
    let e = truncated(d, t, p, b);
    let log = log_of(d, t, p);
    lemma_filtered_rising(log, b);
    lemma_log_insert(d, t, p, from_offset(log, b));
    reveal_strlit("msg:");
    reveal_strlit("off:");
    reveal_strlit("top:");
    reveal_strlit("grp:");
    reveal_strlit("hwm:");
    assert(pre.take(4) =~= "msg:"@);
    assert forall|k: Seq<char>| has_prefix(k, pre) implies k[0] == 'm' by {
        assert(k[0] == k.take(pre.len() as int)[0]);
        assert(pre[0] == "msg:"@[0]);
    }
    assert forall|t2: Seq<char>, p2: i32, o2: i64| plain(t2) implies st.dom().contains(#[trigger] message_key(t2, p2, o2))
        == (store.dom().contains(message_key(t2, p2, o2)) && !(t2 == t && p2 == p && o2 < b)) by {
        lemma_prefix_is_partition(t, p, t2, p2, o2);
        padded_reads_back(o2 as int, 20);
    }
    assert forall|t2: Seq<char>, p2: i32| rising(#[trigger] log_of(e, t2, p2)) by {
        if t2 != t || p2 != p {
            assert(rising(log_of(d, t2, p2)));
        }
    }
    assert forall|t2: Seq<char>, p2: i32| (#[trigger] log_of(e, t2, p2)).len() > 0 implies plain(t2) by {
        if t2 != t || p2 != p {
            assert(log_of(d, t2, p2).len() > 0);
        }
    }
    assert forall|t2: Seq<char>, p2: i32, i: int| 0 <= i < log_of(e, t2, p2).len() implies st.dom().contains(
        message_key(t2, p2, (#[trigger] log_of(e, t2, p2)[i]).offset),
    ) && st[message_key(t2, p2, log_of(e, t2, p2)[i].offset)] == ValueView::Message(log_of(e, t2, p2)[i]) by {
        let x = log_of(e, t2, p2)[i];
        assert(log_of(e, t2, p2).len() > 0);
        if t2 == t && p2 == p {
            assert(from_offset(log, b).contains(x));
            let j = choose|j: int| 0 <= j < log.len() && log[j] == x;
            assert(log_of(d, t, p)[j] == x);
        } else {
            assert(log_of(d, t2, p2)[i] == x);
        }
    }
    assert forall|t2: Seq<char>, p2: i32, o: i64| plain(t2) && st.dom().contains(#[trigger] message_key(t2, p2, o)) implies exists|
        i: int,
    |
        0 <= i < log_of(e, t2, p2).len() && (#[trigger] log_of(e, t2, p2)[i]).offset == o by {
        assert(store.dom().contains(message_key(t2, p2, o)));
        let j = choose|j: int| 0 <= j < log_of(d, t2, p2).len() && (#[trigger] log_of(d, t2, p2)[j]).offset == o;
        if t2 == t && p2 == p {
            assert(log.contains(log[j]));
            assert(from_offset(log, b).contains(log[j]));
            let i = choose|i: int| 0 <= i < from_offset(log, b).len() && from_offset(log, b)[i] == log[j];
            assert(log_of(e, t2, p2)[i].offset == o);
        } else {
            assert(log_of(e, t2, p2)[j].offset == o);
        }
    }
    assert(mirrors_messages(st, e));
    assert forall|t2: Seq<char>, p2: i32| st.dom().contains(#[trigger] watermark_key(t2, p2)) == store.dom().contains(
        watermark_key(t2, p2),
    ) by {
        assert(watermark_key(t2, p2)[0] == "hwm:"@[0]);
    }
    assert forall|t2: Seq<char>, p2: i32| plain(t2) implies #[trigger] watermark_of(e, t2, p2) == (if st.dom().contains(
        watermark_key(t2, p2),
    ) {
        st[watermark_key(t2, p2)]->Offset_0 as int
    } else {
        0
    }) by {
        assert(watermark_of(d, t2, p2) == watermark_of(e, t2, p2));
    }
    assert forall|t2: Seq<char>, p2: i32| !plain(t2) implies #[trigger] watermark_of(e, t2, p2) == 0 by {
        assert(watermark_of(d, t2, p2) == 0);
    }
    assert forall|g2: Seq<char>, t2: Seq<char>, p2: i32| st.dom().contains(#[trigger] committed_key(g2, t2, p2))
        == store.dom().contains(committed_key(g2, t2, p2)) by {
        assert(committed_key(g2, t2, p2)[0] == "off:"@[0]);
    }
    assert(mirrors_offsets(st, e));
    assert forall|n: Seq<char>| st.dom().contains(#[trigger] topic_key(n)) == store.dom().contains(topic_key(n)) by {
        assert(topic_key(n)[0] == "top:"@[0]);
    }
    assert forall|n: Seq<char>| st.dom().contains(#[trigger] group_key(n)) == store.dom().contains(group_key(n)) by {
        assert(group_key(n)[0] == "grp:"@[0]);
    }
    assert(mirrors_topics(st, e));
    assert(mirrors_groups(st, e));
    assert forall|k: Seq<char>| #[trigger] st.dom().contains(k) implies canonical(k, st[k]) by {
        assert(store.dom().contains(k));
    }
}

proof fn lemma_mark_is_natural(store: Map<Seq<char>, ValueView>, d: BrokerDataView, t: Seq<char>, p: i32)
    requires
        mirrors(store, d),
        plain(t),
    ensures
        watermark_of(d, t, p) >= 0,
{
    reveal(mirrors);
    let k = watermark_key(t, p);
    watermark_key_reads_back(t, p);
    if store.dom().contains(k) {
        let v = store[k];
        assert(canonical(k, v));
        if exists|t2: Seq<char>, p2: i32, o: i64| plain(t2) && k == #[trigger] message_key(t2, p2, o) {
            let (t2, p2, o) = choose|t2: Seq<char>, p2: i32, o: i64| plain(t2) && k == #[trigger] message_key(t2, p2, o);
            message_key_reads_back(t2, p2, o);
        }
        if exists|g: Seq<char>, t2: Seq<char>, p2: i32| plain(g) && plain(t2) && k == #[trigger] committed_key(g, t2, p2) {
            let (g, t2, p2) = choose|g: Seq<char>, t2: Seq<char>, p2: i32|
                plain(g) && plain(t2) && k == #[trigger] committed_key(g, t2, p2);
            committed_key_reads_back(g, t2, p2);
        }
        if exists|n: Seq<char>| k == #[trigger] topic_key(n) {
            name_keys_read_back(choose|n: Seq<char>| k == #[trigger] topic_key(n));
        }
        if exists|n: Seq<char>| k == #[trigger] group_key(n) {
            name_keys_read_back(choose|n: Seq<char>| k == #[trigger] group_key(n));
        }
        assert(v is Offset && v->Offset_0 >= 0);
    }
    assert(watermark_of(d, t, p) >= 0);
}

proof fn lemma_produce(
    store: Map<Seq<char>, ValueView>,
    d: BrokerDataView,
    t: Seq<char>,
    p: i32,
    m: MessageView,
)
    requires
        mirrors(store, d),
        plain(t),
        m.offset == next_offset(d, t, p),
        m.offset < i64::MAX,
    ensures
        mirrors(
            store.insert(message_key(t, p, m.offset), ValueView::Message(m)).insert(
                watermark_key(t, p),
                ValueView::Offset((m.offset + 1) as i64),
            ),
            produced(d, t, p, m.key, m.value, m.timestamp_ms),
        ),
{
    let log = log_of(d, t, p);
    lemma_mark_is_natural(store, d, t, p);
    assert(rising(log)) by {
        reveal(mirrors);
    }
    assert forall|i: int| 0 <= i < log.len() implies (#[trigger] log[i]).offset < m.offset by {
        assert(log.last() == log[log.len() - 1]);
    }
    assert forall|x: MessageView| #[trigger] log.push(m).contains(x) <==> x == m || log.contains(x) by {
        if log.contains(x) {
            let i = choose|i: int| 0 <= i < log.len() && log[i] == x;
            assert(log.push(m)[i] == x);
        }
        if log.push(m).contains(x) {
            let i = choose|i: int| 0 <= i < log.push(m).len() && log.push(m)[i] == x;
            if i < log.len() {
                assert(log[i] == x);
            }
        }
        assert(log.push(m)[log.len() as int] == m);
    }
    lemma_add_message(store, d, t, p, m, log.push(m));
    let s1 = store.insert(message_key(t, p, m.offset), ValueView::Message(m));
    let d1 = BrokerDataView { messages: d.messages.insert((t, p), log.push(m)), ..d };
    lemma_set_mark(s1, d1, t, p, (m.offset + 1) as i64);
}

proof fn lemma_write_one(store: Map<Seq<char>, ValueView>, w: WriteView<ValueView>)
    ensures
        written_all(store, seq![w]) == written(store, w),
        written_all(store, Seq::empty()) == store,
{
    assert(seq![w].drop_last() =~= Seq::empty());
    reveal_with_fuel(written_all, 2);
}

proof fn lemma_write_two(store: Map<Seq<char>, ValueView>, v: WriteView<ValueView>, w: WriteView<ValueView>)
    ensures
        written_all(store, seq![v, w]) == written(written(store, v), w),
{
    assert(seq![v, w].drop_last() =~= seq![v]);
    lemma_write_one(store, v);
    reveal_with_fuel(written_all, 2);
}

proof fn lemma_group_write(store: Map<Seq<char>, ValueView>, d: BrokerDataView, e: BrokerDataView, g: Seq<char>)
    requires
        mirrors(store, d),
        e.groups.dom().contains(g) ==> e == (BrokerDataView { groups: d.groups.insert(g, e.groups[g]), ..d }),
        !e.groups.dom().contains(g) ==> e == d,
    ensures
        mirrors(written_all(store, group_write(e, g)), e),
{
    if e.groups.dom().contains(g) {
        lemma_set_group(store, d, g, e.groups[g]);
        lemma_write_one(store, WriteView::Put { key: group_key(g), value: ValueView::Group(e.groups[g]) });
    } else {
        lemma_write_one(store, WriteView::DropBelow { prefix: Seq::empty(), before_offset: 0 });
    }
}

/// Every command keeps the store a mirror of the state.
pub proof fn commands_keep_the_mirror(
    store: Map<Seq<char>, ValueView>,
    d: BrokerDataView,
    cmd: BrokerCommand,
    now: i64,
)
    requires
        mirrors(store, d),
        command_fits(d, cmd, now),
        command_plain(cmd),
    ensures
        mirrors(written_all(store, changes_of(d, cmd, now)), applied(d, cmd, now)),
{
    let ws = changes_of(d, cmd, now);
    let e = applied(d, cmd, now);
    match cmd {
        BrokerCommand::Produce { topic, partition, key, value } => {
            let offset = next_offset(d, topic@, partition) as i64;
            let m = MessageView { offset, key: key.deep_view(), value: value@, timestamp_ms: now };
            lemma_produce(store, d, topic@, partition, m);
            lemma_write_two(store, ws[0], ws[1]);
            assert(ws =~= seq![ws[0], ws[1]]);
        },
        BrokerCommand::CommitOffset { group_id, topic, partition, offset } => {
            lemma_set_offset(store, d, group_id@, topic@, partition, offset);
            lemma_write_one(store, ws[0]);
            assert(ws =~= seq![ws[0]]);
        },
        BrokerCommand::CreateTopic { topic, num_partitions } => {
            lemma_set_topic(store, d, e, topic@, num_partitions);
            lemma_write_one(store, ws[0]);
            assert(ws =~= seq![ws[0]]);
        },
        BrokerCommand::TruncatePartition { topic, partition, before_offset } => {
            let w = WriteView::DropBelow { prefix: message_prefix(topic@, partition), before_offset };
            lemma_write_one(store, w);
            if d.messages.dom().contains((topic@, partition)) {
                lemma_truncate(store, d, topic@, partition, before_offset);
            }
        },
        BrokerCommand::GroupJoin { group_id, .. } => {
            lemma_group_write(store, d, e, group_id@);
        },
        BrokerCommand::GroupLeave { group_id, .. } => {
            lemma_group_write(store, d, e, group_id@);
        },
        BrokerCommand::GroupExpire { group_id, .. } => {
            lemma_group_write(store, d, e, group_id@);
        },
        BrokerCommand::GroupFinalize { group_id } => {
            lemma_group_write(store, d, e, group_id@);
        },
    }
}

/// What the store says after a sequence of commands, each with its time.
pub open spec fn said_after(cmds: Seq<(BrokerCommand, i64)>) -> Map<Seq<char>, ValueView>
    decreases cmds.len(),
{
    if cmds.len() == 0 {
        Map::empty()
    } else {
        let front = cmds.drop_last();
        written_all(said_after(front), changes_of(all_applied(empty_data(), front), cmds.last().0, cmds.last().1))
    }
}

/// What the store keeps after the writes of a sequence of commands, each with its time.
pub open spec fn stored_after(cmds: Seq<(BrokerCommand, i64)>) -> Map<Seq<char>, StoredView>
    decreases cmds.len(),
{
    if cmds.len() == 0 {
        Map::empty()
    } else {
        let front = cmds.drop_last();
        written_all(stored_after(front), writes_of(all_applied(empty_data(), front), cmds.last().0, cmds.last().1))
    }
}

/// A store with its values in the form that they are kept in.
pub open spec fn in_stored_form(store: Map<Seq<char>, ValueView>) -> Map<Seq<char>, StoredView> {
    store.map_values(|v: ValueView| stored(v))
}

proof fn lemma_write_in_stored_form(store: Map<Seq<char>, ValueView>, ws: Seq<WriteView<ValueView>>)
    ensures
        written_all(in_stored_form(store), stored_writes(ws)) == in_stored_form(written_all(store, ws)),
    decreases ws.len(),
{
    if ws.len() > 0 {
        lemma_write_in_stored_form(store, ws.drop_last());
        assert(stored_writes(ws).drop_last() =~= stored_writes(ws.drop_last()));
        assert(stored_writes(ws).last() == stored_write(ws.last()));
        let before = written_all(store, ws.drop_last());
        assert(written(in_stored_form(before), stored_write(ws.last())) =~= in_stored_form(written(before, ws.last())));
    }
}

/// What the store keeps is what it says, in the form that it keeps.
pub proof fn store_keeps_what_it_says(cmds: Seq<(BrokerCommand, i64)>)
    ensures
        stored_after(cmds) == in_stored_form(said_after(cmds)),
    decreases cmds.len(),
{
    if cmds.len() == 0 {
        assert(stored_after(cmds) =~= in_stored_form(said_after(cmds)));
    } else {
        let front = cmds.drop_last();
        store_keeps_what_it_says(front);
        lemma_write_in_stored_form(
            said_after(front),
            changes_of(all_applied(empty_data(), front), cmds.last().0, cmds.last().1),
        );
    }
}

/// The names in the partition and offset keys of all commands hold no separator, and the
/// bytes of every message can be counted.
pub open spec fn commands_storable(cmds: Seq<(BrokerCommand, i64)>) -> bool {
    forall|i: int| 0 <= i < cmds.len() ==> command_plain((#[trigger] cmds[i]).0) && command_counted(cmds[i].0)
}

/// The bytes of the message of a command can be counted.
pub open spec fn command_counted(cmd: BrokerCommand) -> bool {
    match cmd {
        BrokerCommand::Produce { key, value, .. } => message_fits(key.deep_view(), value@),
        _ => true,
    }
}

/// The bytes of every message of the store can be counted.
pub open spec fn messages_fit(store: Map<Seq<char>, ValueView>) -> bool {
    forall|k: Seq<char>| #[trigger]
        store.dom().contains(k) && store[k] is Message ==> message_fits(
            store[k]->Message_0.key,
            store[k]->Message_0.value,
        )
}

spec fn write_fits(w: WriteView<ValueView>) -> bool {
    w matches WriteView::Put { value: ValueView::Message(m), .. } ==> message_fits(m.key, m.value)
}

spec fn writes_fit(ws: Seq<WriteView<ValueView>>) -> bool {
    forall|i: int| 0 <= i < ws.len() ==> write_fits(#[trigger] ws[i])
}

proof fn lemma_changes_fit(d: BrokerDataView, cmd: BrokerCommand, now: i64)
    requires
        command_counted(cmd),
    ensures
        writes_fit(changes_of(d, cmd, now)),
{
}

proof fn lemma_writes_fit(store: Map<Seq<char>, ValueView>, ws: Seq<WriteView<ValueView>>)
    requires
        messages_fit(store),
        writes_fit(ws),
    ensures
        messages_fit(written_all(store, ws)),
    decreases ws.len(),
{
    if ws.len() > 0 {
        let front = ws.drop_last();
        assert forall|i: int| 0 <= i < front.len() implies write_fits(#[trigger] front[i]) by {
            assert(front[i] == ws[i]);
        }
        lemma_writes_fit(store, front);
        let before = written_all(store, front);
        let after = written_all(store, ws);
        assert(ws.last() == ws[ws.len() - 1]);
        assert forall|k: Seq<char>| #[trigger] after.dom().contains(k) && after[k] is Message implies message_fits(
            after[k]->Message_0.key,
            after[k]->Message_0.value,
        ) by {
            if before.dom().contains(k) {
                assert(before[k] is Message ==> message_fits(before[k]->Message_0.key, before[k]->Message_0.value));
            }
        }
    }
}

proof fn lemma_storable_prefix(cmds: Seq<(BrokerCommand, i64)>)
    requires
        commands_storable(cmds),
        cmds.len() > 0,
    ensures
        commands_storable(cmds.drop_last()),
        command_plain(cmds.last().0),
        command_counted(cmds.last().0),
{
    let front = cmds.drop_last();
    assert(cmds.last() == cmds[cmds.len() - 1]);
    assert forall|i: int| 0 <= i < front.len() implies command_plain((#[trigger] front[i]).0) && command_counted(
        front[i].0,
    ) by {
        assert(front[i] == cmds[i]);
    }
}

proof fn lemma_stored_messages_fit(cmds: Seq<(BrokerCommand, i64)>)
    requires
        commands_storable(cmds),
    ensures
        messages_fit(said_after(cmds)),
    decreases cmds.len(),
{
    if cmds.len() > 0 {
        let front = cmds.drop_last();
        lemma_storable_prefix(cmds);
        lemma_stored_messages_fit(front);
        let d = all_applied(empty_data(), front);
        lemma_changes_fit(d, cmds.last().0, cmds.last().1);
        lemma_writes_fit(said_after(front), changes_of(d, cmds.last().0, cmds.last().1));
    }
}

/// Whatever commands are applied one after the other, the store that was empty before
/// them mirrors the state after them.
pub proof fn stored_commands_are_mirrored(cmds: Seq<(BrokerCommand, i64)>)
    requires
        commands_fit(empty_data(), cmds),
        commands_storable(cmds),
    ensures
        mirrors(said_after(cmds), all_applied(empty_data(), cmds)),
    decreases cmds.len(),
{
    if cmds.len() == 0 {
        empty_store_mirrors();
    } else {
        let n = cmds.len() - 1;
        let front = cmds.drop_last();
        assert(front =~= cmds.take(n));
        lemma_commands_prefix(empty_data(), cmds, n);
        lemma_storable_prefix(cmds);
        stored_commands_are_mirrored(front);
        assert(command_fits(all_applied(empty_data(), cmds.take(n)), cmds[n].0, cmds[n].1));
        commands_keep_the_mirror(said_after(front), all_applied(empty_data(), front), cmds.last().0, cmds.last().1);
    }
}

proof fn lemma_placed(log: Seq<MessageView>, m: MessageView)
    requires
        rising(log),
        forall|i: int| 0 <= i < log.len() ==> (#[trigger] log[i]).offset != m.offset,
    ensures
        rising(placed(log, m)),
        forall|x: MessageView| #[trigger] placed(log, m).contains(x) <==> x == m || log.contains(x),
    decreases log.len(),
{
    let r = placed(log, m);
    if log.len() == 0 || log.last().offset <= m.offset {
        assert(r == log.push(m));
        assert forall|i: int| 0 <= i < log.len() implies (#[trigger] log[i]).offset < m.offset by {
            assert(log.last() == log[log.len() - 1]);
        }
        assert forall|x: MessageView| #[trigger] r.contains(x) <==> x == m || log.contains(x) by {
            assert(r[log.len() as int] == m);
            if log.contains(x) {
                let i = choose|i: int| 0 <= i < log.len() && log[i] == x;
                assert(r[i] == x);
            }
            if r.contains(x) {
                let i = choose|i: int| 0 <= i < r.len() && r[i] == x;
                if i < log.len() {
                    assert(log[i] == x);
                }
            }
        }
    } else {
        let t = log.drop_last();
        let q = placed(t, m);
        assert forall|i: int, j: int| 0 <= i < j < t.len() implies (#[trigger] t[i]).offset < (#[trigger] t[j]).offset by {
            assert(t[i] == log[i] && t[j] == log[j]);
        }
        assert forall|i: int| 0 <= i < t.len() implies (#[trigger] t[i]).offset != m.offset by {
            assert(t[i] == log[i]);
        }
        lemma_placed(t, m);
        assert(r == q.push(log.last()));
        assert forall|i: int| 0 <= i < q.len() implies (#[trigger] q[i]).offset < log.last().offset by {
            assert(q.contains(q[i]));
            if q[i] != m {
                let k = choose|k: int| 0 <= k < t.len() && t[k] == q[i];
                assert(log[k] == q[i]);
            }
        }
        assert forall|x: MessageView| #[trigger] r.contains(x) <==> x == m || log.contains(x) by {
            if r.contains(x) {
                let i = choose|i: int| 0 <= i < r.len() && r[i] == x;
                if i < q.len() {
                    assert(q[i] == x);
                    assert(q.contains(x));
                    if x != m {
                        let k = choose|k: int| 0 <= k < t.len() && t[k] == x;
                        assert(log[k] == x);
                    }
                } else {
                    assert(log[log.len() - 1] == x);
                }
            }
            if x == m || log.contains(x) {
                if x == m {
                    assert(q.contains(x));
                } else {
                    let k = choose|k: int| 0 <= k < log.len() && log[k] == x;
                    if k < t.len() {
                        assert(t[k] == x);
                        assert(t.contains(x));
                        assert(q.contains(x));
                    } else {
                        assert(r[q.len() as int] == x);
                    }
                }
                if q.contains(x) {
                    let i = choose|i: int| 0 <= i < q.len() && q[i] == x;
                    assert(r[i] == x);
                }
            }
        }
    }
}

/// Reading one more key of the store adds it to the state that was rebuilt so far.
proof fn lemma_load_one(store: Map<Seq<char>, ValueView>, d: BrokerDataView, k: Seq<char>, v: ValueView)
    requires
        mirrors(store, d),
        !store.dom().contains(k),
        canonical(k, v),
    ensures
        mirrors(store.insert(k, v), with_entry(d, key_read(k), v)),
{
    let e = with_entry(d, key_read(k), v);
    if exists|t: Seq<char>, p: i32, o: i64|
        plain(t) && k == #[trigger] message_key(t, p, o) && v is Message && v->Message_0.offset == o {
        let (t, p, o) = choose|t: Seq<char>, p: i32, o: i64|
            plain(t) && k == #[trigger] message_key(t, p, o) && v is Message && v->Message_0.offset == o;
        let m = v->Message_0;
        message_key_reads_back(t, p, o);
        let log = log_of(d, t, p);
        assert(rising(log)) by {
            reveal(mirrors);
        }
        assert forall|i: int| 0 <= i < log.len() implies (#[trigger] log[i]).offset != m.offset by {
            reveal(mirrors);
            assert(log_of(d, t, p)[i] == log[i]);
        }
        lemma_placed(log, m);
        lemma_add_message(store, d, t, p, m, placed(log, m));
    } else if exists|t: Seq<char>, p: i32|
        plain(t) && k == #[trigger] watermark_key(t, p) && v is Offset && v->Offset_0 >= 0 {
        let (t, p) = choose|t: Seq<char>, p: i32|
            plain(t) && k == #[trigger] watermark_key(t, p) && v is Offset && v->Offset_0 >= 0;
        watermark_key_reads_back(t, p);
        assert(watermark_of(d, t, p) == 0) by {
            reveal(mirrors);
        }
        lemma_set_mark(store, d, t, p, v->Offset_0);
    } else if exists|g: Seq<char>, t: Seq<char>, p: i32|
        plain(g) && plain(t) && k == #[trigger] committed_key(g, t, p) && v is Offset {
        let (g, t, p) = choose|g: Seq<char>, t: Seq<char>, p: i32|
            plain(g) && plain(t) && k == #[trigger] committed_key(g, t, p) && v is Offset;
        committed_key_reads_back(g, t, p);
        lemma_set_offset(store, d, g, t, p, v->Offset_0);
    } else if exists|t: Seq<char>| k == #[trigger] topic_key(t) && v is Count {
        let t = choose|t: Seq<char>| k == #[trigger] topic_key(t) && v is Count;
        name_keys_read_back(t);
        lemma_set_topic(store, d, e, t, v->Count_0);
    } else {
        let g = choose|g: Seq<char>| k == #[trigger] group_key(g) && v is Group;
        name_keys_read_back(g);
        lemma_set_group(store, d, g, v->Group_0);
    }
}

proof fn lemma_rising_unique(a: Seq<MessageView>, b: Seq<MessageView>)
    requires
        rising(a),
        rising(b),
        forall|x: MessageView| #[trigger] a.contains(x) <==> b.contains(x),
    ensures
        a == b,
    decreases a.len(),
{
    if a.len() == 0 {
        if b.len() > 0 {
            assert(b.contains(b[0]));
            assert(a.contains(b[0]));
        }
        assert(a =~= b);
    } else {
        let x = a.last();
        assert(a[a.len() - 1] == x);
        assert(a.contains(x));
        assert(b.contains(x));
        let y = b.last();
        assert(b[b.len() - 1] == y);
        assert(b.contains(y));
        assert(a.contains(y));
        let i = choose|i: int| 0 <= i < b.len() && b[i] == x;
        let j = choose|j: int| 0 <= j < a.len() && a[j] == y;
        assert(x == y) by {
            if i < b.len() - 1 {
                assert(b[i].offset < b[b.len() - 1].offset);
                assert(j == a.len() - 1 || a[j].offset < a[a.len() - 1].offset);
            }
        }
        let c = a.drop_last();
        let d = b.drop_last();
        assert forall|i: int, j: int| 0 <= i < j < c.len() implies (#[trigger] c[i]).offset < (#[trigger] c[j]).offset by {
            assert(c[i] == a[i] && c[j] == a[j]);
        }
        assert forall|i: int, j: int| 0 <= i < j < d.len() implies (#[trigger] d[i]).offset < (#[trigger] d[j]).offset by {
            assert(d[i] == b[i] && d[j] == b[j]);
        }
        assert forall|z: MessageView| #[trigger] c.contains(z) <==> d.contains(z) by {
            if c.contains(z) {
                let k = choose|k: int| 0 <= k < c.len() && c[k] == z;
                assert(a[k] == z && a[k].offset < a[a.len() - 1].offset);
                assert(a.contains(z));
                assert(b.contains(z));
                let l = choose|l: int| 0 <= l < b.len() && b[l] == z;
                assert(l < d.len());
                assert(d[l] == z);
            }
            if d.contains(z) {
                let k = choose|k: int| 0 <= k < d.len() && d[k] == z;
                assert(b[k] == z && b[k].offset < b[b.len() - 1].offset);
                assert(b.contains(z));
                assert(a.contains(z));
                let l = choose|l: int| 0 <= l < a.len() && a[l] == z;
                assert(l < c.len());
                assert(c[l] == z);
            }
        }
        lemma_rising_unique(c, d);
        assert(a =~= c.push(x));
        assert(b =~= d.push(y));
    }
}

/// Two states with the same mirror are the same.
proof fn lemma_one_mirror(store: Map<Seq<char>, ValueView>, a: BrokerDataView, b: BrokerDataView)
    requires
        mirrors(store, a),
        mirrors(store, b),
    ensures
        same_state(a, b),
{
    reveal(mirrors);
    assert forall|t: Seq<char>, p: i32| #[trigger] log_of(a, t, p) == log_of(b, t, p) by {
        let x = log_of(a, t, p);
        let y = log_of(b, t, p);
        assert forall|m: MessageView| #[trigger] x.contains(m) <==> y.contains(m) by {
            if x.contains(m) {
                let i = choose|i: int| 0 <= i < x.len() && x[i] == m;
                assert(log_of(a, t, p)[i] == m);
                let k = message_key(t, p, m.offset);
                assert(store.dom().contains(k) && store[k] == ValueView::Message(m));
                let j = choose|j: int| 0 <= j < log_of(b, t, p).len() && (#[trigger] log_of(b, t, p)[j]).offset == m.offset;
                assert(log_of(b, t, p)[j].offset == m.offset);
                assert(y[j] == m);
            }
            if y.contains(m) {
                let i = choose|i: int| 0 <= i < y.len() && y[i] == m;
                assert(log_of(b, t, p)[i] == m);
                let k = message_key(t, p, m.offset);
                assert(store.dom().contains(k) && store[k] == ValueView::Message(m));
                let j = choose|j: int| 0 <= j < log_of(a, t, p).len() && (#[trigger] log_of(a, t, p)[j]).offset == m.offset;
                assert(log_of(a, t, p)[j].offset == m.offset);
                assert(x[j] == m);
            }
        }
        lemma_rising_unique(x, y);
    }
    assert forall|t: Seq<char>, p: i32| #[trigger] watermark_of(a, t, p) == watermark_of(b, t, p) by {
        if plain(t) {
            assert(watermark_of(b, t, p) == (if store.dom().contains(watermark_key(t, p)) {
                store[watermark_key(t, p)]->Offset_0 as int
            } else {
                0
            }));
        }
    }
    assert(a.offsets =~= b.offsets) by {
        assert forall|k: (Seq<char>, Seq<char>, i32)| #[trigger] a.offsets.dom().contains(k) == b.offsets.dom().contains(k) by {
            assert(a.offsets.dom().contains((k.0, k.1, k.2)) == b.offsets.dom().contains((k.0, k.1, k.2)));
        }
        assert forall|k: (Seq<char>, Seq<char>, i32)| #[trigger] a.offsets.dom().contains(k) implies a.offsets[k] == b.offsets[k] by {
            assert(a.offsets.dom().contains((k.0, k.1, k.2)) && b.offsets.dom().contains((k.0, k.1, k.2)));
        }
    }
    assert forall|n: Seq<char>| #[trigger] a.topics.dom().contains(n) == b.topics.dom().contains(n) && (
    a.topics.dom().contains(n) ==> a.topics[n] == b.topics[n]) by {
        assert(b.topics.dom().contains(n) == store.dom().contains(topic_key(n)));
    }
    assert(a.topics =~= b.topics);
    assert forall|n: Seq<char>| #[trigger] a.groups.dom().contains(n) == b.groups.dom().contains(n) && (
    a.groups.dom().contains(n) ==> a.groups[n] == b.groups[n]) by {
        assert(b.groups.dom().contains(n) == store.dom().contains(group_key(n)));
    }
    assert(a.groups =~= b.groups);
}

/// What is rebuilt from what a store keeps, whatever the order in which its keys are
/// read, is the state that the store mirrors.
pub proof fn store_rebuilds_the_state(
    store: Map<Seq<char>, ValueView>,
    d: BrokerDataView,
    keys: Seq<Seq<char>>,
    entries: Seq<(Seq<u8>, StoredView)>,
)
    requires
        mirrors(store, d),
        messages_fit(store),
        keys.no_duplicates(),
        keys.to_set() == store.dom(),
        entries.len() == keys.len(),
        forall|i: int| 0 <= i < keys.len() ==> #[trigger] entries[i] == (encode_utf8(keys[i]), stored(store[keys[i]])),
    ensures
        same_state(loaded(entries), d),
{
    lemma_load_prefix(store, d, keys, entries, keys.len() as int);
    assert(entries.take(keys.len() as int) =~= entries);
    assert(keys.take(keys.len() as int) =~= keys);
    assert(store.restrict(keys.to_set()) =~= store);
    lemma_one_mirror(store, loaded(entries), d);
}

/// A state that was rebuilt is the state from before: the same committed offsets, topics
/// and groups; every log that holds messages, in the order of their offsets, and no other
/// messages; every next offset above zero.
pub open spec fn is_restored(after: BrokerDataView, before: BrokerDataView) -> bool {
    &&& after.offsets == before.offsets
    &&& after.topics == before.topics
    &&& after.groups == before.groups
    &&& forall|k: (Seq<char>, i32)|
        before.messages.dom().contains(k) && (#[trigger] before.messages[k]).len() > 0 ==> after.messages.dom().contains(k)
            && after.messages[k] == before.messages[k] && rising(before.messages[k])
    &&& forall|k: (Seq<char>, i32)|
        after.messages.dom().contains(k) && (#[trigger] after.messages[k]).len() > 0 ==> before.messages.dom().contains(k)
            && after.messages[k] == before.messages[k]
    &&& forall|k: (Seq<char>, i32)|
        before.next_offsets.dom().contains(k) && #[trigger] before.next_offsets[k] > 0
            ==> after.next_offsets.dom().contains(k) && after.next_offsets[k] == before.next_offsets[k]
    &&& forall|k: (Seq<char>, i32)|
        after.next_offsets.dom().contains(k) && #[trigger] after.next_offsets[k] > 0
            ==> before.next_offsets.dom().contains(k) && after.next_offsets[k] == before.next_offsets[k]
}

proof fn lemma_same_is_restored(after: BrokerDataView, before: BrokerDataView)
    requires
        same_state(after, before),
        forall|t: Seq<char>, p: i32| rising(#[trigger] log_of(before, t, p)),
    ensures
        is_restored(after, before),
{
    assert forall|k: (Seq<char>, i32)|
        before.messages.dom().contains(k) && (#[trigger] before.messages[k]).len() > 0 implies after.messages.dom().contains(k)
        && after.messages[k] == before.messages[k] && rising(before.messages[k]) by {
        assert(log_of(after, k.0, k.1) == log_of(before, k.0, k.1));
        assert(rising(log_of(before, k.0, k.1)));
    }
    assert forall|k: (Seq<char>, i32)|
        after.messages.dom().contains(k) && (#[trigger] after.messages[k]).len() > 0 implies before.messages.dom().contains(k)
        && after.messages[k] == before.messages[k] by {
        assert(log_of(after, k.0, k.1) == log_of(before, k.0, k.1));
    }
    assert forall|k: (Seq<char>, i32)|
        before.next_offsets.dom().contains(k) && #[trigger] before.next_offsets[k] > 0 implies after.next_offsets.dom().contains(
        k,
    ) && after.next_offsets[k] == before.next_offsets[k] by {
        assert(watermark_of(after, k.0, k.1) == watermark_of(before, k.0, k.1));
    }
    assert forall|k: (Seq<char>, i32)|
        after.next_offsets.dom().contains(k) && #[trigger] after.next_offsets[k] > 0 implies before.next_offsets.dom().contains(
        k,
    ) && after.next_offsets[k] == before.next_offsets[k] by {
        assert(watermark_of(after, k.0, k.1) == watermark_of(before, k.0, k.1));
    }
}

proof fn lemma_mirrored_logs_rise(store: Map<Seq<char>, ValueView>, d: BrokerDataView)
    requires
        mirrors(store, d),
    ensures
        forall|t: Seq<char>, p: i32| rising(#[trigger] log_of(d, t, p)),
{
    reveal(mirrors);
}

/// A broker that starts again has its state back, whatever commands were applied since
/// the store was empty, and in whatever order the keys of the store are read. Messages
/// and numbers are read from the bytes that the commands wrote.
pub proof fn commands_outlive_a_restart(
    cmds: Seq<(BrokerCommand, i64)>,
    keys: Seq<Seq<char>>,
    entries: Seq<(Seq<u8>, StoredView)>,
)
    requires
        commands_fit(empty_data(), cmds),
        commands_storable(cmds),
        keys.no_duplicates(),
        keys.to_set() == stored_after(cmds).dom(),
        entries.len() == keys.len(),
        forall|i: int|
            0 <= i < keys.len() ==> #[trigger] entries[i] == (encode_utf8(keys[i]), stored_after(cmds)[keys[i]]),
    ensures
        same_state(loaded(entries), all_applied(empty_data(), cmds)),
        is_restored(loaded(entries), all_applied(empty_data(), cmds)),
{
    let store = said_after(cmds);
    let d = all_applied(empty_data(), cmds);
    stored_commands_are_mirrored(cmds);
    lemma_stored_messages_fit(cmds);
    store_keeps_what_it_says(cmds);
    assert(stored_after(cmds).dom() =~= store.dom());
    assert forall|i: int| 0 <= i < keys.len() implies #[trigger] entries[i] == (encode_utf8(keys[i]), stored(
        store[keys[i]],
    )) by {
        assert(keys.to_set().contains(keys[i]));
    }
    store_rebuilds_the_state(store, d, keys, entries);
    lemma_mirrored_logs_rise(store, d);
    lemma_same_is_restored(loaded(entries), d);
}

/// Under a key that commands write the store says the value that it keeps.
proof fn lemma_canonical_said(k: Seq<char>, v: ValueView)
    requires
        canonical(k, v),
        v matches ValueView::Message(m) ==> message_fits(m.key, m.value),
    ensures
        key_read(k) matches Some(read) && value_said(read, stored(v)) == Some(v),
{
    if exists|t: Seq<char>, p: i32, o: i64|
        plain(t) && k == #[trigger] message_key(t, p, o) && v is Message && v->Message_0.offset == o {
        let (t, p, o) = choose|t: Seq<char>, p: i32, o: i64|
            plain(t) && k == #[trigger] message_key(t, p, o) && v is Message && v->Message_0.offset == o;
        message_key_reads_back(t, p, o);
    } else if exists|t: Seq<char>, p: i32|
        plain(t) && k == #[trigger] watermark_key(t, p) && v is Offset && v->Offset_0 >= 0 {
        let (t, p) = choose|t: Seq<char>, p: i32|
            plain(t) && k == #[trigger] watermark_key(t, p) && v is Offset && v->Offset_0 >= 0;
        watermark_key_reads_back(t, p);
    } else if exists|g: Seq<char>, t: Seq<char>, p: i32|
        plain(g) && plain(t) && k == #[trigger] committed_key(g, t, p) && v is Offset {
        let (g, t, p) = choose|g: Seq<char>, t: Seq<char>, p: i32|
            plain(g) && plain(t) && k == #[trigger] committed_key(g, t, p) && v is Offset;
        committed_key_reads_back(g, t, p);
    } else if exists|t: Seq<char>| k == #[trigger] topic_key(t) && v is Count {
        name_keys_read_back(choose|t: Seq<char>| k == #[trigger] topic_key(t) && v is Count);
    } else {
        name_keys_read_back(choose|g: Seq<char>| k == #[trigger] group_key(g) && v is Group);
    }
    stored_value_reads_back(key_read(k)->0, v);
}

proof fn lemma_load_prefix(
    store: Map<Seq<char>, ValueView>,
    d: BrokerDataView,
    keys: Seq<Seq<char>>,
    entries: Seq<(Seq<u8>, StoredView)>,
    n: int,
)
    requires
        mirrors(store, d),
        messages_fit(store),
        keys.no_duplicates(),
        keys.to_set() == store.dom(),
        entries.len() == keys.len(),
        forall|i: int| 0 <= i < keys.len() ==> #[trigger] entries[i] == (encode_utf8(keys[i]), stored(store[keys[i]])),
        0 <= n <= keys.len(),
    ensures
        mirrors(store.restrict(keys.take(n).to_set()), loaded(entries.take(n))),
    decreases n,
{
    if n == 0 {
        assert(store.restrict(keys.take(0).to_set()) =~= Map::empty());
        assert(entries.take(0) =~= Seq::empty());
        empty_store_mirrors();
    } else {
        lemma_load_prefix(store, d, keys, entries, n - 1);
        let k = keys[n - 1];
        let v = store[k];
        let before = store.restrict(keys.take(n - 1).to_set());
        assert(keys.take(n) =~= keys.take(n - 1).push(k));
        keys.take(n - 1).lemma_push_to_set_commute(k);
        assert(keys.to_set().contains(k));
        assert(!keys.take(n - 1).contains(k)) by {
            let first = keys.take(n - 1);
            if first.contains(k) {
                let i = choose|i: int| 0 <= i < first.len() && first[i] == k;
                assert(keys[i] == keys[n - 1]);
            }
        }
        assert(store.restrict(keys.take(n).to_set()) =~= before.insert(k, v));
        assert(canonical(k, v)) by {
            reveal(mirrors);
            assert(store.dom().contains(k));
        }
        lemma_load_one(before, loaded(entries.take(n - 1)), k, v);
        lemma_canonical_said(k, v);
        assert(entries.take(n).drop_last() =~= entries.take(n - 1));
        assert(entries.take(n).last() == entries[n - 1]);
        encode_utf8_valid_utf8(k);
        encode_utf8_decode_utf8(k);
        assert(bytes_read(encode_utf8(k)) == key_read(k));
    }
}

/// A put gives one key its value. Dropping removes the entries under the prefix whose key
/// ends, behind the last colon, in a number below the bound. Everything else stays.
pub proof fn writes_touch_what_they_name<V>(
    store: Map<Seq<char>, V>,
    w: WriteView<V>,
    k: Seq<char>,
    head: Seq<char>,
    n: i64,
    width: int,
)
    requires
        k == head + seq![':'] + padded(n as int, width),
    ensures
        ({
            let after = written(store, w);
            match w {
                WriteView::Put { key, value } => {
                    &&& after.dom().contains(key) && after[key] == value
                    &&& k != key ==> (after.dom().contains(k) <==> store.dom().contains(k))
                    &&& k != key && store.dom().contains(k) ==> after[k] == store[k]
                },
                WriteView::DropBelow { prefix, before_offset } => {
                    &&& after.dom().contains(k) <==> store.dom().contains(k) && !(prefix.len() <= k.len() && k.take(
                        prefix.len() as int,
                    ) == prefix && n < before_offset)
                    &&& after.dom().contains(k) ==> after[k] == store[k]
                },
            }
        }),
{
    padded_has_no_colon(n as int, width);
    padded_reads_back(n as int, width);
    last_part_joined(head, padded(n as int, width), ':');
}

} // verus!

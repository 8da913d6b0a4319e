//! How the broker state is laid out in a key-value store: the keys, what is
//! written under them, and how a key is read back.
use vstd::prelude::*;

use crate::broker::partition_log::{
    entry_layout, entry_of, message_fits, message_reads_back, serialize_entry, LogEntry,
};
use crate::broker::raft::{BrokerStoredMessage, GroupView, MessageView, ReplicatedGroupState};
use crate::maps::Dup;
use crate::text::{
    cut, cut_joined, has_prefix, number_within, pad_decimal, padded, padded_has_no_colon, padded_reads_back, parse_i32,
    splitn, strip_prefix,
};
use crate::wire::{encode_i32, encode_i64, i32_in_front, i64_in_front, le, numbers_read_back, twos32, twos64};

verus! {

/// A value as the store keeps it: messages and numbers as bytes. The bytes of a group are
/// left to who keeps the store; where they cannot be read, they stand for themselves.
pub enum StoreValue {
    Bytes(Vec<u8>),
    Group(ReplicatedGroupState),
}

/// What the store keeps of a value.
#[verifier::ext_equal]
pub enum StoredView {
    Bytes(Seq<u8>),
    Group(GroupView),
}

impl DeepView for StoreValue {
    type V = StoredView;

    open spec fn deep_view(&self) -> StoredView {
        match self {
            StoreValue::Bytes(b) => StoredView::Bytes(b@),
            StoreValue::Group(g) => StoredView::Group(g@),
        }
    }
}

/// What a value of the store says.
#[verifier::ext_equal]
pub enum ValueView {
    Message(MessageView),
    Offset(i64),
    Count(i32),
    Group(GroupView),
}

/// The form in which the store keeps a value.
pub open spec fn stored(v: ValueView) -> StoredView {
    match v {
        ValueView::Message(m) => StoredView::Bytes(entry_layout(m)),
        ValueView::Offset(o) => StoredView::Bytes(le(twos64(o), 8)),
        ValueView::Count(n) => StoredView::Bytes(le(twos32(n), 4)),
        ValueView::Group(g) => StoredView::Group(g),
    }
}

/// What the store says under a key: the key decides how bytes are read. Bytes that cannot
/// be read say nothing.
pub open spec fn value_said(key: KeyView, v: StoredView) -> Option<ValueView> {
    match (key, v) {
        (KeyView::Message { .. }, StoredView::Bytes(b)) => match entry_of(b) {
            Some(m) => Some(ValueView::Message(m)),
            None => None,
        },
        (KeyView::Watermark { .. }, StoredView::Bytes(b)) => match i64_in_front(b) {
            Some(o) => Some(ValueView::Offset(o)),
            None => None,
        },
        (KeyView::Committed { .. }, StoredView::Bytes(b)) => match i64_in_front(b) {
            Some(o) => Some(ValueView::Offset(o)),
            None => None,
        },
        (KeyView::Topic { .. }, StoredView::Bytes(b)) => match i32_in_front(b) {
            Some(n) => Some(ValueView::Count(n)),
            None => None,
        },
        (KeyView::Group { .. }, StoredView::Group(g)) => Some(ValueView::Group(g)),
        _ => None,
    }
}

/// The value is of the kind that the key is for, and its bytes can be counted.
pub open spec fn belongs(key: KeyView, v: ValueView) -> bool {
    match (key, v) {
        (KeyView::Message { .. }, ValueView::Message(m)) => message_fits(m.key, m.value),
        (KeyView::Watermark { .. }, ValueView::Offset(_)) => true,
        (KeyView::Committed { .. }, ValueView::Offset(_)) => true,
        (KeyView::Topic { .. }, ValueView::Count(_)) => true,
        (KeyView::Group { .. }, ValueView::Group(_)) => true,
        _ => false,
    }
}

/// What the store keeps under a key says the value that was kept.
pub proof fn stored_value_reads_back(key: KeyView, v: ValueView)
    requires
        belongs(key, v),
    ensures
        value_said(key, stored(v)) == Some(v),
{
    match v {
        ValueView::Message(m) => {
            message_reads_back(m);
        },
        ValueView::Offset(o) => {
            numbers_read_back(o, 0, Seq::empty());
            assert(le(twos64(o), 8) + Seq::<u8>::empty() =~= le(twos64(o), 8));
        },
        ValueView::Count(n) => {
            numbers_read_back(0, n, Seq::empty());
            assert(le(twos32(n), 4) + Seq::<u8>::empty() =~= le(twos32(n), 4));
        },
        ValueView::Group(_) => {},
    }
}

/// A message as the store keeps it.
pub fn message_value(m: BrokerStoredMessage) -> (r: StoreValue)
    ensures
        r.deep_view() == stored(ValueView::Message(m.deep_view())),
{
    let e = LogEntry { offset: m.offset, key: m.key, value: m.value, timestamp_ms: m.timestamp_ms };
    StoreValue::Bytes(serialize_entry(&e))
}

/// An offset as the store keeps it.
pub fn offset_value(o: i64) -> (r: StoreValue)
    ensures
        r.deep_view() == stored(ValueView::Offset(o)),
{
    StoreValue::Bytes(encode_i64(o))
}

/// A number of partitions as the store keeps it.
pub fn count_value(n: i32) -> (r: StoreValue)
    ensures
        r.deep_view() == stored(ValueView::Count(n)),
{
    StoreValue::Bytes(encode_i32(n))
}

/// A change to the store.
pub enum StoreWrite {
    /// Bind a key to a value.
    Put { key: String, value: StoreValue },
    /// Of the keys that start with the prefix, drop those of an offset below the bound.
    DropBelow { prefix: String, before_offset: i64 },
}

/// What a change to the store says: of what values say, or of the form they are kept in.
#[verifier::ext_equal]
pub enum WriteView<V> {
    Put { key: Seq<char>, value: V },
    DropBelow { prefix: Seq<char>, before_offset: i64 },
}

impl DeepView for StoreWrite {
    type V = WriteView<StoredView>;

    open spec fn deep_view(&self) -> WriteView<StoredView> {
        match self {
            StoreWrite::Put { key, value } => WriteView::Put { key: key@, value: value.deep_view() },
            StoreWrite::DropBelow { prefix, before_offset } => WriteView::DropBelow {
                prefix: prefix@,
                before_offset: *before_offset,
            },
        }
    }
}

/// A change with its value in the form that the store keeps.
pub open spec fn stored_write(w: WriteView<ValueView>) -> WriteView<StoredView> {
    match w {
        WriteView::Put { key, value } => WriteView::Put { key, value: stored(value) },
        WriteView::DropBelow { prefix, before_offset } => WriteView::DropBelow { prefix, before_offset },
    }
}

/// Changes with their values in the form that the store keeps.
pub open spec fn stored_writes(ws: Seq<WriteView<ValueView>>) -> Seq<WriteView<StoredView>> {
    ws.map_values(|w: WriteView<ValueView>| stored_write(w))
}

/// What the keys of one partition's messages start with.
pub open spec fn message_prefix(topic: Seq<char>, partition: i32) -> Seq<char> {
    "msg:"@ + topic + seq![':'] + padded(partition as int, 10) + seq![':']
}

/// The key of a message.
pub open spec fn message_key(topic: Seq<char>, partition: i32, offset: i64) -> Seq<char> {
    message_prefix(topic, partition) + padded(offset as int, 20)
}

/// The key of a partition's next offset.
pub open spec fn watermark_key(topic: Seq<char>, partition: i32) -> Seq<char> {
    "hwm:"@ + topic + seq![':'] + padded(partition as int, 10)
}

/// The key of a committed offset.
pub open spec fn committed_key(group: Seq<char>, topic: Seq<char>, partition: i32) -> Seq<char> {
    "off:"@ + group + seq![':'] + topic + seq![':'] + padded(partition as int, 10)
}

/// The key of a topic.
pub open spec fn topic_key(topic: Seq<char>) -> Seq<char> {
    "top:"@ + topic
}

/// The key of a consumer group.
pub open spec fn group_key(group: Seq<char>) -> Seq<char> {
    "grp:"@ + group
}

fn append(out: &mut String, part: &str)
    ensures
        final(out)@ == old(out)@ + part@,
{
    vstd::string::StringExecFns::append(out, part);
}

/// What the keys of one partition's messages start with.
pub fn make_message_prefix(topic: &String, partition: i32) -> (r: String)
    ensures
        r@ == message_prefix(topic@, partition),
{
    let mut r = "msg:".to_owned();
    append(&mut r, topic.as_str());
    r.push(':');
    let p = pad_decimal(partition as i64, 10);
    append(&mut r, p.as_str());
    r.push(':');
    assert(r@ =~= message_prefix(topic@, partition));
    r
}

/// The key of a message.
pub fn make_message_key(topic: &String, partition: i32, offset: i64) -> (r: String)
    ensures
        r@ == message_key(topic@, partition, offset),
{
    let mut r = make_message_prefix(topic, partition);
    let o = pad_decimal(offset, 20);
    append(&mut r, o.as_str());
    r
}

/// The key of a partition's next offset.
pub fn make_watermark_key(topic: &String, partition: i32) -> (r: String)
    ensures
        r@ == watermark_key(topic@, partition),
{
    let mut r = "hwm:".to_owned();
    append(&mut r, topic.as_str());
    r.push(':');
    let p = pad_decimal(partition as i64, 10);
    append(&mut r, p.as_str());
    assert(r@ =~= watermark_key(topic@, partition));
    r
}

/// The key of a committed offset.
pub fn make_committed_key(group: &String, topic: &String, partition: i32) -> (r: String)
    ensures
        r@ == committed_key(group@, topic@, partition),
{
    let mut r = "off:".to_owned();
    append(&mut r, group.as_str());
    r.push(':');
    append(&mut r, topic.as_str());
    r.push(':');
    let p = pad_decimal(partition as i64, 10);
    append(&mut r, p.as_str());
    assert(r@ =~= committed_key(group@, topic@, partition));
    r
}

/// The key of a topic.
pub fn make_topic_key(topic: &String) -> (r: String)
    ensures
        r@ == topic_key(topic@),
{
    let mut r = "top:".to_owned();
    append(&mut r, topic.as_str());
    r
}

/// The key of a consumer group.
pub fn make_group_key(group: &String) -> (r: String)
    ensures
        r@ == group_key(group@),
{
    let mut r = "grp:".to_owned();
    append(&mut r, group.as_str());
    r
}

/// What a key is the key of.
pub enum StoreKey {
    Message { topic: String, partition: i32 },
    Watermark { topic: String, partition: i32 },
    Committed { group: String, topic: String, partition: i32 },
    Topic { topic: String },
    Group { group: String },
}

/// What a key is the key of.
#[verifier::ext_equal]
pub enum KeyView {
    Message { topic: Seq<char>, partition: i32 },
    Watermark { topic: Seq<char>, partition: i32 },
    Committed { group: Seq<char>, topic: Seq<char>, partition: i32 },
    Topic { topic: Seq<char> },
    Group { group: Seq<char> },
}

impl DeepView for StoreKey {
    type V = KeyView;

    open spec fn deep_view(&self) -> KeyView {
        match self {
            StoreKey::Message { topic, partition } => KeyView::Message { topic: topic@, partition: *partition },
            StoreKey::Watermark { topic, partition } => KeyView::Watermark { topic: topic@, partition: *partition },
            StoreKey::Committed { group, topic, partition } => KeyView::Committed {
                group: group@,
                topic: topic@,
                partition: *partition,
            },
            StoreKey::Topic { topic } => KeyView::Topic { topic: topic@ },
            StoreKey::Group { group } => KeyView::Group { group: group@ },
        }
    }
}

/// The partition number that a part of a key writes.
pub open spec fn part_number(s: Seq<char>) -> Option<int> {
    number_within(s, i32::MIN as int, i32::MAX as int)
}

/// Reads a key.
pub open spec fn key_read(s: Seq<char>) -> Option<KeyView> {
    if has_prefix(s, "msg:"@) {
        let parts = cut(s, 4, ':');
        if parts.len() == 4 && part_number(parts[2]) is Some {
            Some(KeyView::Message { topic: parts[1], partition: part_number(parts[2])->0 as i32 })
        } else {
            None
        }
    } else if has_prefix(s, "off:"@) {
        let parts = cut(s, 4, ':');
        if parts.len() == 4 && part_number(parts[3]) is Some {
            Some(KeyView::Committed {
                group: parts[1],
                topic: parts[2],
                partition: part_number(parts[3])->0 as i32,
            })
        } else {
            None
        }
    } else if has_prefix(s, "top:"@) {
        Some(KeyView::Topic { topic: s.skip(4) })
    } else if has_prefix(s, "grp:"@) {
        Some(KeyView::Group { group: s.skip(4) })
    } else if has_prefix(s, "hwm:"@) {
        let parts = cut(s, 3, ':');
        if parts.len() == 3 && part_number(parts[2]) is Some {
            Some(KeyView::Watermark { topic: parts[1], partition: part_number(parts[2])->0 as i32 })
        } else {
            None
        }
    } else {
        None
    }
}

/// Reads a key.
pub fn read_key(key: &str) -> (r: Option<StoreKey>)
    ensures
        r.deep_view() == key_read(key@),
{
    proof {
        reveal_strlit("msg:");
        reveal_strlit("off:");
        reveal_strlit("top:");
        reveal_strlit("grp:");
        reveal_strlit("hwm:");
    }
    if strip_prefix(key, "msg:").is_some() {
        let parts = splitn(key, 4, ':');
        assert(parts.deep_view().len() == parts@.len());
        if parts.len() != 4 {
            return None;
        }
        assert(parts.deep_view()[1] == parts@[1]@ && parts.deep_view()[2] == parts@[2]@);
        return match parse_i32(parts[2].as_str()) {
            Some(partition) => Some(StoreKey::Message { topic: parts[1].dup(), partition }),
            None => None,
        };
    }
    if strip_prefix(key, "off:").is_some() {
        let parts = splitn(key, 4, ':');
        assert(parts.deep_view().len() == parts@.len());
        if parts.len() != 4 {
            return None;
        }
        assert(parts.deep_view()[1] == parts@[1]@ && parts.deep_view()[2] == parts@[2]@ && parts.deep_view()[3]
            == parts@[3]@);
        return match parse_i32(parts[3].as_str()) {
            Some(partition) => Some(
                StoreKey::Committed { group: parts[1].dup(), topic: parts[2].dup(), partition },
            ),
            None => None,
        };
    }
    if let Some(topic) = strip_prefix(key, "top:") {
        return Some(StoreKey::Topic { topic });
    }
    if let Some(group) = strip_prefix(key, "grp:") {
        return Some(StoreKey::Group { group });
    }
    if strip_prefix(key, "hwm:").is_some() {
        let parts = splitn(key, 3, ':');
        assert(parts.deep_view().len() == parts@.len());
        if parts.len() != 3 {
            return None;
        }
        assert(parts.deep_view()[1] == parts@[1]@ && parts.deep_view()[2] == parts@[2]@);
        return match parse_i32(parts[2].as_str()) {
            Some(partition) => Some(StoreKey::Watermark { topic: parts[1].dup(), partition }),
            None => None,
        };
    }
    None
}

/// A key of a message reads back as its partition, where the topic holds no separator.
#[verifier::spinoff_prover]
#[verifier::rlimit(50)]
pub proof fn message_key_reads_back(topic: Seq<char>, partition: i32, offset: i64)
    requires
        !topic.contains(':'),
    ensures
        key_read(message_key(topic, partition, offset)) == Some(KeyView::Message { topic, partition }),
{
    reveal_strlit("msg:");
    let s = message_key(topic, partition, offset);
    let head = seq!['m', 's', 'g'];
    let p = padded(partition as int, 10);
    let o = padded(offset as int, 20);
    assert(s =~= head + seq![':'] + (topic + seq![':'] + (p + seq![':'] + o)));
    assert(s.take(4) =~= "msg:"@);
    padded_has_no_colon(partition as int, 10);
    padded_reads_back(partition as int, 10);
    assert(!head.contains(':'));
    cut_joined(head, topic + seq![':'] + (p + seq![':'] + o), 4, ':');
    cut_joined(topic, p + seq![':'] + o, 3, ':');
    cut_joined(p, o, 2, ':');
    assert(cut(o, 1, ':') == seq![o]);
    let parts = cut(s, 4, ':');
    assert(parts =~= seq![head, topic, p, o]);
}

/// A key of a next offset reads back as its partition, where the topic holds no separator.
#[verifier::spinoff_prover]
#[verifier::rlimit(50)]
pub proof fn watermark_key_reads_back(topic: Seq<char>, partition: i32)
    requires
        !topic.contains(':'),
    ensures
        key_read(watermark_key(topic, partition)) == Some(KeyView::Watermark { topic, partition }),
{
    reveal_strlit("msg:");
    reveal_strlit("off:");
    reveal_strlit("top:");
    reveal_strlit("grp:");
    reveal_strlit("hwm:");
    let s = watermark_key(topic, partition);
    let head = seq!['h', 'w', 'm'];
    let p = padded(partition as int, 10);
    assert(s =~= head + seq![':'] + (topic + seq![':'] + p));
    assert(s.take(4) =~= "hwm:"@);
    assert(s.take(4)[0] == 'h');
    padded_reads_back(partition as int, 10);
    assert(!head.contains(':'));
    cut_joined(head, topic + seq![':'] + p, 3, ':');
    cut_joined(topic, p, 2, ':');
    assert(cut(p, 1, ':') == seq![p]);
    assert(cut(s, 3, ':') =~= seq![head, topic, p]);
}

/// A key of a committed offset reads back, where neither the group nor the topic
/// holds a separator.
#[verifier::spinoff_prover]
#[verifier::rlimit(50)]
pub proof fn committed_key_reads_back(group: Seq<char>, topic: Seq<char>, partition: i32)
    requires
        !group.contains(':'),
        !topic.contains(':'),
    ensures
        key_read(committed_key(group, topic, partition)) == Some(KeyView::Committed { group, topic, partition }),
{
    reveal_strlit("msg:");
    reveal_strlit("off:");
    let s = committed_key(group, topic, partition);
    let head = seq!['o', 'f', 'f'];
    let p = padded(partition as int, 10);
    assert(s =~= head + seq![':'] + (group + seq![':'] + (topic + seq![':'] + p)));
    assert(s.take(4) =~= "off:"@);
    assert(s.take(4)[0] == 'o');
    padded_reads_back(partition as int, 10);
    assert(!head.contains(':'));
    cut_joined(head, group + seq![':'] + (topic + seq![':'] + p), 4, ':');
    cut_joined(group, topic + seq![':'] + p, 3, ':');
    cut_joined(topic, p, 2, ':');
    assert(cut(p, 1, ':') == seq![p]);
    assert(cut(s, 4, ':') =~= seq![head, group, topic, p]);
}

/// A key of a topic and a key of a group read back, whatever their names hold.
pub proof fn name_keys_read_back(name: Seq<char>)
    ensures
        key_read(topic_key(name)) == Some(KeyView::Topic { topic: name }),
        key_read(group_key(name)) == Some(KeyView::Group { group: name }),
{
    reveal_strlit("msg:");
    reveal_strlit("off:");
    reveal_strlit("top:");
    reveal_strlit("grp:");
    assert(topic_key(name).take(4) =~= "top:"@);
    assert(topic_key(name).take(4)[0] == 't');
    assert(topic_key(name).skip(4) =~= name);
    assert(group_key(name).take(4) =~= "grp:"@);
    assert(group_key(name).take(4)[0] == 'g');
    assert(group_key(name).skip(4) =~= name);
}

/// Keys with too few parts, or with something else than a number for the partition, are
/// not read; nor is a text too short to tell what it is a key of.
#[verifier::spinoff_prover]
#[verifier::rlimit(50)]
pub proof fn broken_keys_are_not_read(a: Seq<char>, b: Seq<char>, c: Seq<char>)
    requires
        !a.contains(':'),
        !b.contains(':'),
    ensures
        key_read("msg:"@ + a) is None,
        key_read("msg:"@ + (a + seq![':'] + b)) is None,
        part_number(b) is None ==> key_read("msg:"@ + (a + seq![':'] + (b + seq![':'] + c))) is None,
        key_read("off:"@ + a) is None,
        key_read("off:"@ + (a + seq![':'] + b)) is None,
        part_number(c) is None ==> key_read("off:"@ + (a + seq![':'] + (b + seq![':'] + c))) is None,
        a.len() < 4 ==> key_read(a) is None,
{
    reveal_strlit("msg:");
    reveal_strlit("off:");
    reveal_strlit("top:");
    reveal_strlit("grp:");
    reveal_strlit("hwm:");
    assert("msg:"@ =~= seq!['m', 's', 'g'] + seq![':']);
    lemma_parts(seq!['m', 's', 'g'], "msg:"@, a, b, c);
    assert("off:"@ =~= seq!['o', 'f', 'f'] + seq![':']);
    lemma_parts(seq!['o', 'f', 'f'], "off:"@, a, b, c);
}

/// A key of a next offset without a number for the partition is not read.
#[verifier::spinoff_prover]
#[verifier::rlimit(50)]
pub proof fn broken_watermark_keys_are_not_read(a: Seq<char>, c: Seq<char>)
    requires
        !a.contains(':'),
        part_number(c) is None,
    ensures
        key_read("hwm:"@ + a) is None,
        key_read("hwm:"@ + (a + seq![':'] + c)) is None,
{
    reveal_strlit("msg:");
    reveal_strlit("off:");
    reveal_strlit("top:");
    reveal_strlit("grp:");
    reveal_strlit("hwm:");
    assert("hwm:"@ =~= seq!['h', 'w', 'm'] + seq![':']);
    lemma_parts(seq!['h', 'w', 'm'], "hwm:"@, a, a, c);
    assert(("hwm:"@ + a).take(4)[0] == 'h');
    assert(("hwm:"@ + (a + seq![':'] + c)).take(4)[0] == 'h');
}

proof fn lemma_parts(head: Seq<char>, tag: Seq<char>, a: Seq<char>, b: Seq<char>, c: Seq<char>)
    requires
        tag == head + seq![':'],
        head.len() == 3,
        !head.contains(':'),
        !a.contains(':'),
        !b.contains(':'),
    ensures
        cut(tag + a, 4, ':') == seq![head, a],
        cut(tag + a, 3, ':') == seq![head, a],
        cut(tag + (a + seq![':'] + b), 4, ':') == seq![head, a, b],
        cut(tag + (a + seq![':'] + (b + seq![':'] + c)), 4, ':') == seq![head, a, b, c],
        cut(tag + (a + seq![':'] + c), 3, ':') == seq![head, a, c],
        (tag + a).take(4) == tag,
        (tag + (a + seq![':'] + b)).take(4) == tag,
        (tag + (a + seq![':'] + (b + seq![':'] + c))).take(4) == tag,
        (tag + (a + seq![':'] + c)).take(4) == tag,
{
    let ab = a + seq![':'] + b;
    let bc = b + seq![':'] + c;
    let abc = a + seq![':'] + bc;
    let ac = a + seq![':'] + c;
    assert(tag + a =~= head + seq![':'] + a);
    assert(tag + ab =~= head + seq![':'] + ab);
    assert(tag + abc =~= head + seq![':'] + abc);
    assert(tag + ac =~= head + seq![':'] + ac);
    cut_joined(head, a, 4, ':');
    cut_joined(head, a, 3, ':');
    assert(cut(a, 3, ':') == seq![a]);
    assert(cut(a, 2, ':') == seq![a]);
    assert(cut(tag + a, 4, ':') =~= seq![head, a]);
    assert(cut(tag + a, 3, ':') =~= seq![head, a]);
    cut_joined(head, ab, 4, ':');
    cut_joined(a, b, 3, ':');
    assert(cut(b, 2, ':') == seq![b]);
    assert(cut(tag + ab, 4, ':') =~= seq![head, a, b]);
    cut_joined(head, abc, 4, ':');
    cut_joined(a, bc, 3, ':');
    cut_joined(b, c, 2, ':');
    assert(cut(c, 1, ':') == seq![c]);
    assert(cut(tag + abc, 4, ':') =~= seq![head, a, b, c]);
    cut_joined(head, ac, 3, ':');
    cut_joined(a, c, 2, ':');
    assert(cut(tag + ac, 3, ':') =~= seq![head, a, c]);
    assert((tag + a).take(4) =~= tag);
    assert((tag + ab).take(4) =~= tag);
    assert((tag + abc).take(4) =~= tag);
    assert((tag + ac).take(4) =~= tag);
}

} // verus!

//! The replicated state machine: what every committed command does to the
//! broker state, and what it writes to the store.
use vstd::prelude::*;

use crate::broker::groups::{
    expire, expired, finalize_rebalance, finalized, fresh_group, generation_never_falls, join, joined, leave, left, new_group};
use crate::broker::raft::{
    BrokerCommand, BrokerData, BrokerDataView, BrokerStoredMessage, GroupStatus, GroupView, MessageView,
    ReplicatedGroupState};
use crate::broker::store::{
    committed_key, count_value, group_key, make_committed_key, make_group_key, make_message_key, make_message_prefix,
    make_topic_key, make_watermark_key, message_key, message_prefix, message_value, offset_value, stored_writes,
    topic_key, watermark_key, StoreValue, StoreWrite, StoredView, ValueView, WriteView};
use crate::maps::Dup;
use crate::seqs::{lemma_filter_ends, lemma_filter_holds, lemma_filter_step};

verus! {

/// The messages of a partition; an unknown partition has none.
pub open spec fn log_of(d: BrokerDataView, topic: Seq<char>, partition: i32) -> Seq<MessageView> {
    if d.messages.dom().contains((topic, partition)) { d.messages[(topic, partition)] } else { Seq::empty() }
}

/// The recorded next offset of a partition; an unknown partition starts at zero.
pub open spec fn watermark_of(d: BrokerDataView, topic: Seq<char>, partition: i32) -> int {
    if d.next_offsets.dom().contains((topic, partition)) { d.next_offsets[(topic, partition)] as int } else { 0 }
}

/// The offset behind the last message of a log.
pub open spec fn log_end(log: Seq<MessageView>) -> int {
    if log.len() == 0 { 0 } else { log.last().offset + 1 }
}

/// The offset that the next message of a partition gets.
pub open spec fn next_offset(d: BrokerDataView, topic: Seq<char>, partition: i32) -> int {
    let end = log_end(log_of(d, topic, partition));
    let mark = watermark_of(d, topic, partition);
    if mark >= end { mark } else { end }
}

/// The offsets of a log rise from message to message.
pub open spec fn rising(log: Seq<MessageView>) -> bool {
    forall|i: int, j: int| 0 <= i < j < log.len() ==> (#[trigger] log[i]).offset < (#[trigger] log[j]).offset
}

/// Offsets rise along every log, and every recorded next offset lies behind its log.
pub open spec fn sound(d: BrokerDataView) -> bool {
    &&& forall|t: Seq<char>, p: i32| rising(#[trigger] log_of(d, t, p))
    &&& forall|t: Seq<char>, p: i32|
        log_end(#[trigger] log_of(d, t, p)) <= watermark_of(d, t, p) && 0 <= watermark_of(d, t, p)
}

/// A map in which the partitions `0..n` of a topic are bound, to `v` where they were not.
pub open spec fn filled<V>(m: Map<(Seq<char>, i32), V>, topic: Seq<char>, n: int, v: V) -> Map<(Seq<char>, i32), V> {
    Map::new(
        |k: (Seq<char>, i32)| m.dom().contains(k) || (k.0 == topic && 0 <= k.1 < n),
        |k: (Seq<char>, i32)| if m.dom().contains(k) { m[k] } else { v },
    )
}

/// The group of this id; where there is none, a fresh one led by `member`.
pub open spec fn group_or_fresh(
    d: BrokerDataView,
    group_id: Seq<char>,
    member: Seq<char>,
    session_timeout_ms: i64,
) -> GroupView {
    if d.groups.dom().contains(group_id) { d.groups[group_id] } else { fresh_group(member, session_timeout_ms) }
}

/// The state after a group has changed.
pub open spec fn with_group(d: BrokerDataView, group_id: Seq<char>, g: GroupView) -> BrokerDataView {
    BrokerDataView { groups: d.groups.insert(group_id, g), ..d }
}

/// A group whose rebalance is to end.
pub open spec fn settled(g: GroupView, topics: Map<Seq<char>, i32>) -> GroupView {
    if g.status == GroupStatus::PreparingRebalance { finalized(g, topics) } else { g }
}

/// The state after a message has been appended.
pub open spec fn produced(
    d: BrokerDataView,
    topic: Seq<char>,
    partition: i32,
    key: Option<Seq<u8>>,
    value: Seq<u8>,
    now: i64,
) -> BrokerDataView {
    let offset = next_offset(d, topic, partition) as i64;
    BrokerDataView {
        messages: d.messages.insert(
            (topic, partition),
            log_of(d, topic, partition).push(MessageView { offset, key, value, timestamp_ms: now }),
        ),
        next_offsets: d.next_offsets.insert((topic, partition), (offset + 1) as i64),
        ..d
    }
}

/// The messages of a log from an offset on.
pub open spec fn from_offset(log: Seq<MessageView>, before_offset: i64) -> Seq<MessageView> {
    log.filter(|m: MessageView| m.offset >= before_offset)
}

/// The state after a partition has been truncated.
pub open spec fn truncated(d: BrokerDataView, topic: Seq<char>, partition: i32, before_offset: i64) -> BrokerDataView {
    if d.messages.dom().contains((topic, partition)) {
        BrokerDataView {
            messages: d.messages.insert(
                (topic, partition),
                from_offset(d.messages[(topic, partition)], before_offset),
            ),
            ..d
        }
    } else {
        d
    }
}

/// The state after a topic has been created; what its partitions hold stays.
pub open spec fn created(d: BrokerDataView, topic: Seq<char>, n: i32) -> BrokerDataView {
    BrokerDataView {
        topics: d.topics.insert(topic, n),
        messages: filled(d.messages, topic, n as int, Seq::empty()),
        next_offsets: filled(d.next_offsets, topic, n as int, 0),
        ..d
    }
}

/// The state after a command.
pub open spec fn applied(d: BrokerDataView, cmd: BrokerCommand, now: i64) -> BrokerDataView {
    match cmd {
        BrokerCommand::Produce { topic, partition, key, value } => produced(
            d,
            topic@,
            partition,
            key.deep_view(),
            value@,
            now,
        ),
        BrokerCommand::CommitOffset { group_id, topic, partition, offset } => BrokerDataView {
            offsets: d.offsets.insert((group_id@, topic@, partition), offset),
            ..d
        },
        BrokerCommand::CreateTopic { topic, num_partitions } => created(d, topic@, num_partitions),
        BrokerCommand::TruncatePartition { topic, partition, before_offset } => truncated(
            d,
            topic@,
            partition,
            before_offset,
        ),
        BrokerCommand::GroupJoin { group_id, member_id, topic, metadata, session_timeout_ms } => with_group(
            d,
            group_id@,
            joined(
                group_or_fresh(d, group_id@, member_id@, session_timeout_ms),
                member_id@,
                Some(topic@),
                metadata@,
                d.topics,
                now,
            ),
        ),
        BrokerCommand::GroupLeave { group_id, member_id } => if d.groups.dom().contains(group_id@) {
            with_group(d, group_id@, left(d.groups[group_id@], member_id@, now))
        } else {
            d
        },
        BrokerCommand::GroupExpire { group_id, expired_ids } => if d.groups.dom().contains(group_id@) {
            with_group(d, group_id@, expired(d.groups[group_id@], expired_ids.deep_view(), now))
        } else {
            d
        },
        BrokerCommand::GroupFinalize { group_id } => if d.groups.dom().contains(group_id@) {
            with_group(d, group_id@, settled(d.groups[group_id@], d.topics))
        } else {
            d
        },
    }
}

/// What a command answers: the offset of a message, a committed offset, else zero.
pub open spec fn answer(d: BrokerDataView, cmd: BrokerCommand) -> int {
    match cmd {
        BrokerCommand::Produce { topic, partition, .. } => next_offset(d, topic@, partition),
        BrokerCommand::CommitOffset { offset, .. } => offset as int,
        _ => 0,
    }
}

/// What a command writes to the store, in the form that the store keeps.
pub open spec fn writes_of(d: BrokerDataView, cmd: BrokerCommand, now: i64) -> Seq<WriteView<StoredView>> {
    stored_writes(changes_of(d, cmd, now))
}

/// What a command changes of what the store says.
pub open spec fn changes_of(d: BrokerDataView, cmd: BrokerCommand, now: i64) -> Seq<WriteView<ValueView>> {
    let after = applied(d, cmd, now);
    match cmd {
        BrokerCommand::Produce { topic, partition, key, value } => {
            let offset = next_offset(d, topic@, partition) as i64;
            seq![
                WriteView::Put {
                    key: message_key(topic@, partition, offset),
                    value: ValueView::Message(
                        MessageView { offset, key: key.deep_view(), value: value@, timestamp_ms: now },
                    ),
                },
                WriteView::Put {
                    key: watermark_key(topic@, partition),
                    value: ValueView::Offset((offset + 1) as i64),
                },
            ]
        },
        BrokerCommand::CommitOffset { group_id, topic, partition, offset } => seq![
            WriteView::Put { key: committed_key(group_id@, topic@, partition), value: ValueView::Offset(offset) },
        ],
        BrokerCommand::CreateTopic { topic, num_partitions } => seq![
            WriteView::Put { key: topic_key(topic@), value: ValueView::Count(num_partitions) },
        ],
        BrokerCommand::TruncatePartition { topic, partition, before_offset } => if d.messages.dom().contains(
            (topic@, partition),
        ) {
            seq![WriteView::DropBelow { prefix: message_prefix(topic@, partition), before_offset }]
        } else {
            Seq::empty()
        },
        BrokerCommand::GroupJoin { group_id, .. } => group_write(after, group_id@),
        BrokerCommand::GroupLeave { group_id, .. } => group_write(after, group_id@),
        BrokerCommand::GroupExpire { group_id, .. } => group_write(after, group_id@),
        BrokerCommand::GroupFinalize { group_id } => group_write(after, group_id@),
    }
}

/// A group is written whole, where it exists.
pub open spec fn group_write(d: BrokerDataView, group_id: Seq<char>) -> Seq<WriteView<ValueView>> {
    if d.groups.dom().contains(group_id) {
        seq![WriteView::Put { key: group_key(group_id), value: ValueView::Group(d.groups[group_id]) }]
    } else {
        Seq::empty()
    }
}

/// The offsets and generations that the command counts up stay within their types.
pub open spec fn command_fits(d: BrokerDataView, cmd: BrokerCommand, now: i64) -> bool {
    match cmd {
        BrokerCommand::Produce { topic, partition, .. } => next_offset(d, topic@, partition) < i64::MAX,
        BrokerCommand::GroupJoin { group_id, .. } => applied(d, cmd, now).groups[group_id@].generation_id <= i32::MAX,
        BrokerCommand::GroupLeave { group_id, .. } => d.groups.dom().contains(group_id@) ==> applied(
            d,
            cmd,
            now,
        ).groups[group_id@].generation_id <= i32::MAX,
        BrokerCommand::GroupExpire { group_id, .. } => d.groups.dom().contains(group_id@) ==> applied(
            d,
            cmd,
            now,
        ).groups[group_id@].generation_id <= i32::MAX,
        _ => true,
    }
}

/// A group's generation has a successor, where the group exists.
pub open spec fn generation_counts(d: BrokerDataView, group_id: Seq<char>) -> bool {
    d.groups.dom().contains(group_id) ==> d.groups[group_id].generation_id < i32::MAX
}

/// The numbers that a command may count up have a successor.
pub open spec fn room_for(d: BrokerDataView, cmd: BrokerCommand) -> bool {
    match cmd {
        BrokerCommand::Produce { topic, partition, .. } => next_offset(d, topic@, partition) < i64::MAX,
        BrokerCommand::GroupJoin { group_id, .. } => generation_counts(d, group_id@),
        BrokerCommand::GroupLeave { group_id, .. } => generation_counts(d, group_id@),
        BrokerCommand::GroupExpire { group_id, .. } => generation_counts(d, group_id@),
        _ => true,
    }
}

/// Where there is room for a command, it can be applied at any time.
pub proof fn room_is_enough(d: BrokerDataView, cmd: BrokerCommand, now: i64)
    requires
        room_for(d, cmd),
    ensures
        command_fits(d, cmd, now),
{
    match cmd {
        BrokerCommand::GroupJoin { group_id, member_id, topic, metadata, session_timeout_ms } => {
            let g = group_or_fresh(d, group_id@, member_id@, session_timeout_ms);
            generation_never_falls(g, member_id@, Some(topic@), metadata@, d.topics, Seq::empty(), now);
        },
        BrokerCommand::GroupExpire { group_id, expired_ids } => {
            let gone = expired_ids.deep_view();
            generation_never_falls(d.groups[group_id@], Seq::empty(), None, Seq::empty(), d.topics, gone, now);
        },
        _ => {},
    }
}

/// Whether another message of a partition gets an offset that has a successor.
pub fn partition_has_room(data: &BrokerData, topic: &String, partition: i32) -> (b: bool)
    ensures
        b == (next_offset(data@, topic@, partition) < i64::MAX),
{
    let k = (topic.dup(), partition);
    let mark_fits = match data.next_offsets.get(&k) {
        Some(mark) => *mark < i64::MAX,
        None => true,
    };
    match data.messages.get(&k) {
        Some(log) => {
            assert(log.deep_view() == log_of(data@, topic@, partition));
            if log.len() == 0 {
                mark_fits
            } else {
                assert(log.deep_view().last() == log@.last().deep_view());
                mark_fits && log[log.len() - 1].offset < i64::MAX - 1
            }
        },
        None => mark_fits,
    }
}

/// Whether the generation of a group has a successor.
pub fn group_has_room(data: &BrokerData, group_id: &String) -> (b: bool)
    ensures
        b == generation_counts(data@, group_id@),
{
    match data.groups.get(group_id) {
        Some(group) => group.generation_id < i32::MAX,
        None => true,
    }
}

/// Whether the numbers that a command may count up have a successor.
pub fn has_room(data: &BrokerData, cmd: &BrokerCommand) -> (b: bool)
    ensures
        b == room_for(data@, *cmd),
{
    match cmd {
        BrokerCommand::Produce { topic, partition, .. } => partition_has_room(data, topic, *partition),
        BrokerCommand::GroupJoin { group_id, .. } => group_has_room(data, group_id),
        BrokerCommand::GroupLeave { group_id, .. } => group_has_room(data, group_id),
        BrokerCommand::GroupExpire { group_id, .. } => group_has_room(data, group_id),
        _ => true,
    }
}

fn append_message(
    data: &mut BrokerData,
    topic: &String,
    partition: i32,
    key: Option<Vec<u8>>,
    value: Vec<u8>,
    now: i64,
) -> (r: i64)
    requires
        next_offset(old(data)@, topic@, partition) < i64::MAX,
    ensures
        r == next_offset(old(data)@, topic@, partition),
        final(data)@ == produced(old(data)@, topic@, partition, key.deep_view(), value@, now),
{
    let k = (topic.dup(), partition);
    let mut log: Vec<BrokerStoredMessage> = match data.messages.remove(&k) {
        Some(l) => l,
        None => Vec::new(),
    };
    let ghost before = log_of(old(data)@, topic@, partition);
    assert(log.deep_view() =~= before);
    let mark: i64 = match data.next_offsets.get(&k) {
        Some(m) => *m,
        None => 0,
    };
    let mut offset: i64 = mark;
    if log.len() > 0 {
        assert(before.last() == log@.last().deep_view());
        let last: i64 = log[log.len() - 1].offset;
        if last >= offset {
            offset = last + 1;
        }
    } else if offset < 0 {
        offset = 0;
    }
    assert(offset == next_offset(old(data)@, topic@, partition));
    let ghost m = MessageView { offset, key: key.deep_view(), value: value@, timestamp_ms: now };
    assert(value.deep_view() =~= value@);
    log.push(BrokerStoredMessage { offset, key, value, timestamp_ms: now });
    assert(log.deep_view() =~= before.push(m));
    data.messages.insert(k.dup(), log);
    data.next_offsets.insert(k, offset + 1);
    proof {
        let p = produced(old(data)@, topic@, partition, m.key, m.value, now);
        assert(data@.messages =~= p.messages);
        assert(data@ =~= p);
    }
    offset
}

fn create_topic(data: &mut BrokerData, topic: &String, num_partitions: i32)
    ensures
        final(data)@ == created(old(data)@, topic@, num_partitions),
{
    data.topics.insert(topic.dup(), num_partitions);
    let mut p: i32 = 0;
    proof {
        assert(data@.messages =~= filled(old(data)@.messages, topic@, 0, Seq::empty()));
        assert(data@.next_offsets =~= filled(old(data)@.next_offsets, topic@, 0, 0));
    }
    while p < num_partitions
        invariant
            0 <= p,
            p <= num_partitions || p == 0,
            data@.messages == filled(old(data)@.messages, topic@, p as int, Seq::empty()),
            data@.next_offsets == filled(old(data)@.next_offsets, topic@, p as int, 0),
            data@.topics == old(data)@.topics.insert(topic@, num_partitions),
            data@.offsets == old(data)@.offsets,
            data@.groups == old(data)@.groups,
        decreases num_partitions - p,
    {
        let k = (topic.dup(), p);
        if !data.messages.contains_key(&k) {
            let empty: Vec<BrokerStoredMessage> = Vec::new();
            assert(empty.deep_view() =~= Seq::<MessageView>::empty());
            data.messages.insert(k.dup(), empty);
        }
        if !data.next_offsets.contains_key(&k) {
            data.next_offsets.insert(k, 0);
        }
        p += 1;
        proof {
            assert(data@.messages =~= filled(old(data)@.messages, topic@, p as int, Seq::empty()));
            assert(data@.next_offsets =~= filled(old(data)@.next_offsets, topic@, p as int, 0));
        }
    }
    proof {
        let c = created(old(data)@, topic@, num_partitions);
        assert(data@.messages =~= c.messages);
        assert(data@.next_offsets =~= c.next_offsets);
        assert(data@ =~= c);
    }
}

/// Keeps the messages from an offset on.
pub fn retain_from(log: Vec<BrokerStoredMessage>, before_offset: i64) -> (r: Vec<BrokerStoredMessage>)
    ensures
        r.deep_view() == from_offset(log.deep_view(), before_offset),
{
    let ghost s = log.deep_view();
    let ghost p = |m: MessageView| m.offset >= before_offset;
    let mut r: Vec<BrokerStoredMessage> = Vec::new();
    proof {
        lemma_filter_ends(s, p);
        assert(r.deep_view() =~= Seq::empty());
    }
    for m in it: log
        invariant
            it.seq() == log@,
            s == log.deep_view(),
            p == (|m: MessageView| m.offset >= before_offset),
            r.deep_view() == s.take(it.index()).filter(p),
    {
        let ghost before = r.deep_view();
        let ghost v = m.deep_view();
        proof {
            lemma_filter_step(s, p, it.index());
            assert(s[it.index()] == v);
        }
        if m.offset >= before_offset {
            r.push(m);
            assert(r.deep_view() =~= before.push(v));
        }
    }
    r
}

fn put(key: String, value: StoreValue) -> (r: Vec<StoreWrite>)
    ensures
        r.deep_view() == seq![WriteView::<StoredView>::Put { key: key@, value: value.deep_view() }],
{
    let mut r: Vec<StoreWrite> = Vec::new();
    let ghost w = WriteView::<StoredView>::Put { key: key@, value: value.deep_view() };
    r.push(StoreWrite::Put { key, value });
    assert(r.deep_view() =~= seq![w]);
    r
}

fn store_group(data: &mut BrokerData, group_id: String, group: ReplicatedGroupState) -> (r: Vec<StoreWrite>)
    ensures
        final(data)@ == with_group(old(data)@, group_id@, group@),
        r.deep_view() == stored_writes(group_write(final(data)@, group_id@)),
{
    let r = put(make_group_key(&group_id), StoreValue::Group(group.dup()));
    data.groups.insert(group_id, group);
    assert(data@ =~= with_group(old(data)@, group_id@, group@));
    assert(r.deep_view() =~= stored_writes(group_write(data@, group_id@)));
    r
}

/// Applies a command at the given time. Returns what it answers and what it
/// writes to the store.
pub fn apply_raft_command(data: &mut BrokerData, cmd: BrokerCommand, now: i64) -> (r: (i64, Vec<StoreWrite>))
    requires
        command_fits(old(data)@, cmd, now),
    ensures
        final(data)@ == applied(old(data)@, cmd, now),
        r.0 == answer(old(data)@, cmd),
        r.1.deep_view() == writes_of(old(data)@, cmd, now),
{
    let ghost d = data@;
    let ghost whole = cmd;
    match cmd {
        BrokerCommand::Produce { topic, partition, key, value } => {
            let stored_key = key.dup();
            let stored_value = value.dup();
            assert(stored_value.deep_view() =~= value@);
            let offset = append_message(data, &topic, partition, key, value, now);
            let mut writes = put(
                make_message_key(&topic, partition, offset),
                message_value(BrokerStoredMessage { offset, key: stored_key, value: stored_value, timestamp_ms: now }),
            );
            let ghost first = writes.deep_view();
            writes.push(
                StoreWrite::Put {
                    key: make_watermark_key(&topic, partition),
                    value: offset_value(offset + 1),
                },
            );
            assert(writes.deep_view() =~= first.push(writes@[1].deep_view()));
            assert(writes.deep_view() =~= writes_of(d, whole, now));
            (offset, writes)
        },
        BrokerCommand::CommitOffset { group_id, topic, partition, offset } => {
            let writes = put(make_committed_key(&group_id, &topic, partition), offset_value(offset));
            data.offsets.insert((group_id, topic, partition), offset);
            assert(data@ =~= applied(d, whole, now));
            assert(writes.deep_view() =~= writes_of(d, whole, now));
            (offset, writes)
        },
        BrokerCommand::CreateTopic { topic, num_partitions } => {
            let writes = put(make_topic_key(&topic), count_value(num_partitions));
            create_topic(data, &topic, num_partitions);
            assert(writes.deep_view() =~= writes_of(d, whole, now));
            (0, writes)
        },
        BrokerCommand::TruncatePartition { topic, partition, before_offset } => {
            let k = (topic.dup(), partition);
            let mut writes: Vec<StoreWrite> = Vec::new();
            match data.messages.remove(&k) {
                Some(log) => {
                    data.messages.insert(k, retain_from(log, before_offset));
                    writes.push(
                        StoreWrite::DropBelow { prefix: make_message_prefix(&topic, partition), before_offset },
                    );
                    assert(data@.messages =~= applied(d, whole, now).messages);
                },
                None => {
                    assert(data@.messages =~= d.messages);
                },
            }
            assert(data@ =~= applied(d, whole, now));
            assert(writes.deep_view() =~= writes_of(d, whole, now));
            (0, writes)
        },
        BrokerCommand::GroupJoin { group_id, member_id, topic, metadata, session_timeout_ms } => {
            let mut group = match data.groups.remove(&group_id) {
                Some(g) => g,
                None => new_group(&member_id, session_timeout_ms),
            };
            assert(group@ == group_or_fresh(d, group_id@, member_id@, session_timeout_ms));
            join(&mut group, &member_id, Some(topic), metadata, &data.topics, now);
            let writes = store_group(data, group_id, group);
            assert(data@.groups =~= applied(d, whole, now).groups);
            assert(data@ =~= applied(d, whole, now));
            (0, writes)
        },
        BrokerCommand::GroupLeave { group_id, member_id } => {
            let writes = match data.groups.remove(&group_id) {
                Some(mut group) => {
                    leave(&mut group, &member_id, now);
                    store_group(data, group_id, group)
                },
                None => Vec::new(),
            };
            assert(data@.groups =~= applied(d, whole, now).groups);
            assert(data@ =~= applied(d, whole, now));
            assert(writes.deep_view() =~= writes_of(d, whole, now));
            (0, writes)
        },
        BrokerCommand::GroupExpire { group_id, expired_ids } => {
            let writes = match data.groups.remove(&group_id) {
                Some(mut group) => {
                    expire(&mut group, &expired_ids, now);
                    store_group(data, group_id, group)
                },
                None => Vec::new(),
            };
            assert(data@.groups =~= applied(d, whole, now).groups);
            assert(data@ =~= applied(d, whole, now));
            assert(writes.deep_view() =~= writes_of(d, whole, now));
            (0, writes)
        },
        BrokerCommand::GroupFinalize { group_id } => {
            let writes = match data.groups.remove(&group_id) {
                Some(mut group) => {
                    if group.status == GroupStatus::PreparingRebalance {
                        finalize_rebalance(&mut group, &data.topics);
                    }
                    store_group(data, group_id, group)
                },
                None => Vec::new(),
            };
            assert(data@.groups =~= applied(d, whole, now).groups);
            assert(data@ =~= applied(d, whole, now));
            assert(writes.deep_view() =~= writes_of(d, whole, now));
            (0, writes)
        },
    }
}

/// Dropping the front of a log keeps its offsets rising.
pub proof fn lemma_filtered_rising(log: Seq<MessageView>, before_offset: i64)
    requires
        rising(log),
    ensures
        rising(from_offset(log, before_offset)),
        forall|x: MessageView|
            #[trigger] from_offset(log, before_offset).contains(x) <==> log.contains(x) && x.offset >= before_offset,
    decreases log.len(),
{
    let f = |m: MessageView| m.offset >= before_offset;
    let r = log.filter(f);
    assert forall|x: MessageView| #[trigger] r.contains(x) <==> log.contains(x) && x.offset >= before_offset by {
        if r.contains(x) {
            log.lemma_filter_contains_rev(f, x);
            let i = choose|i: int| 0 <= i < r.len() && r[i] == x;
            log.lemma_filter_pred(f, i);
        }
        if log.contains(x) && x.offset >= before_offset {
            let i = choose|i: int| 0 <= i < log.len() && log[i] == x;
            log.lemma_filter_contains(f, i);
        }
    }
    reveal(Seq::filter);
    if log.len() > 0 {
        let t = log.drop_last();
        assert forall|i: int, j: int| 0 <= i < j < t.len() implies (#[trigger] t[i]).offset < (#[trigger] t[j]).offset by {
            assert(t[i] == log[i] && t[j] == log[j]);
        }
        lemma_filtered_rising(t, before_offset);
        let q = t.filter(f);
        assert forall|i: int| 0 <= i < q.len() implies (#[trigger] q[i]).offset < log.last().offset by {
            assert(q.contains(q[i]));
            let k = choose|k: int| 0 <= k < t.len() && t[k] == q[i];
            assert(log[k] == q[i]);
        }
        if f(log.last()) {
            assert(r == q.push(log.last()));
        } else {
            assert(r == q);
        }
    }
}

proof fn lemma_filtered_end(log: Seq<MessageView>, before_offset: i64)
    requires
        rising(log),
    ensures
        from_offset(log, before_offset).len() > 0 ==> log_end(from_offset(log, before_offset)) == log_end(log),
{
    let r = from_offset(log, before_offset);
    lemma_filtered_rising(log, before_offset);
    if r.len() > 0 {
        assert(r.contains(r.last()));
        let k = choose|k: int| 0 <= k < log.len() && log[k] == r.last();
        assert(log.last() == log[log.len() - 1]);
        assert(log.contains(log.last()));
        assert(log.last().offset >= log[k].offset);
        assert(r.contains(log.last()));
        let j = choose|j: int| 0 <= j < r.len() && r[j] == log.last();
        assert(r[r.len() - 1] == r.last());
    }
}

/// Every command keeps the state sound.
pub proof fn commands_keep_soundness(d: BrokerDataView, cmd: BrokerCommand, now: i64)
    requires
        sound(d),
        command_fits(d, cmd, now),
    ensures
        sound(applied(d, cmd, now)),
{
    let e = applied(d, cmd, now);
    assert forall|t: Seq<char>, p: i32| rising(#[trigger] log_of(e, t, p)) && log_end(log_of(e, t, p)) <= watermark_of(
        e,
        t,
        p,
    ) && 0 <= watermark_of(e, t, p) by {
        let log = log_of(d, t, p);
        assert(rising(log) && log_end(log) <= watermark_of(d, t, p));
        match cmd {
            BrokerCommand::Produce { topic, partition, key, value } => {
                if t == topic@ && p == partition {
                    let m = log_of(e, t, p).last();
                    assert forall|i: int| 0 <= i < log.len() implies (#[trigger] log[i]).offset < m.offset by {
                        assert(log.last() == log[log.len() - 1]);
                    }
                }
            },
            BrokerCommand::TruncatePartition { topic, partition, before_offset } => {
                if t == topic@ && p == partition {
                    lemma_filtered_rising(log, before_offset);
                    lemma_filtered_end(log, before_offset);
                }
            },
            _ => {},
        }
    }
}

/// Whatever is truncated, the next message gets the same offset: no offset is given out twice.
pub proof fn truncation_keeps_next_offset(d: BrokerDataView, topic: Seq<char>, partition: i32, before_offset: i64)
    requires
        sound(d),
    ensures
        forall|t: Seq<char>, p: i32|
            next_offset(truncated(d, topic, partition, before_offset), t, p) == #[trigger] next_offset(d, t, p),
{
    let e = truncated(d, topic, partition, before_offset);
    assert forall|t: Seq<char>, p: i32| next_offset(e, t, p) == #[trigger] next_offset(d, t, p) by {
        assert(rising(log_of(d, t, p)));
        lemma_filtered_end(log_of(d, t, p), before_offset);
    }
}

/// No command lowers the offset that the next message of a partition gets, and
/// an appended message raises it by one.
pub proof fn next_offset_never_falls(d: BrokerDataView, cmd: BrokerCommand, now: i64, topic: Seq<char>, partition: i32)
    requires
        sound(d),
        command_fits(d, cmd, now),
    ensures
        next_offset(d, topic, partition) <= next_offset(applied(d, cmd, now), topic, partition),
        cmd matches BrokerCommand::Produce { topic: t, partition: p, .. } ==> (t@ == topic && p == partition ==> next_offset(
            applied(d, cmd, now),
            topic,
            partition,
        ) == next_offset(d, topic, partition) + 1),
{
    assert(rising(log_of(d, topic, partition)));
    if let BrokerCommand::TruncatePartition { topic: t, partition: p, before_offset } = cmd {
        truncation_keeps_next_offset(d, t@, p, before_offset);
    }
}

/// The state after commands, each with the time at which it was applied.
pub open spec fn all_applied(d: BrokerDataView, cmds: Seq<(BrokerCommand, i64)>) -> BrokerDataView
    decreases cmds.len(),
{
    if cmds.len() == 0 { d } else { applied(all_applied(d, cmds.drop_last()), cmds.last().0, cmds.last().1) }
}

/// No command of a sequence counts beyond its type.
pub open spec fn commands_fit(d: BrokerDataView, cmds: Seq<(BrokerCommand, i64)>) -> bool {
    forall|i: int|
        0 <= i < cmds.len() ==> command_fits(all_applied(d, cmds.take(i)), (#[trigger] cmds[i]).0, cmds[i].1)
}

proof fn lemma_recorded_step(d: BrokerDataView, cmd: BrokerCommand, now: i64, k: (Seq<char>, i32))
    requires
        command_fits(d, cmd, now),
        d.next_offsets.dom().contains(k),
    ensures
        applied(d, cmd, now).next_offsets.dom().contains(k),
        applied(d, cmd, now).next_offsets[k] >= d.next_offsets[k],
{
}

/// The first commands of a sequence fit where all of them do.
pub proof fn lemma_commands_prefix(d: BrokerDataView, cmds: Seq<(BrokerCommand, i64)>, n: int)
    requires
        commands_fit(d, cmds),
        0 <= n <= cmds.len(),
    ensures
        commands_fit(d, cmds.take(n)),
{
    let front = cmds.take(n);
    assert forall|i: int| 0 <= i < front.len() implies command_fits(
        all_applied(d, front.take(i)),
        (#[trigger] front[i]).0,
        front[i].1,
    ) by {
        assert(front.take(i) =~= cmds.take(i));
        assert(front[i] == cmds[i]);
    }
}

proof fn lemma_recorded_between(d: BrokerDataView, cmds: Seq<(BrokerCommand, i64)>, m: int, n: int, k: (Seq<char>, i32))
    requires
        commands_fit(d, cmds),
        0 <= m <= n <= cmds.len(),
        all_applied(d, cmds.take(m)).next_offsets.dom().contains(k),
    ensures
        all_applied(d, cmds.take(n)).next_offsets.dom().contains(k),
        all_applied(d, cmds.take(n)).next_offsets[k] >= all_applied(d, cmds.take(m)).next_offsets[k],
    decreases n - m,
{
    if m < n {
        lemma_recorded_between(d, cmds, m, n - 1, k);
        assert(cmds.take(n).drop_last() =~= cmds.take(n - 1));
        assert(cmds.take(n).last() == cmds[n - 1]);
        lemma_recorded_step(all_applied(d, cmds.take(n - 1)), cmds[n - 1].0, cmds[n - 1].1, k);
    }
}

/// The next offset of a partition, once it was recorded, neither disappears nor falls,
/// whatever commands follow.
pub proof fn recorded_offset_never_falls(d: BrokerDataView, cmds: Seq<(BrokerCommand, i64)>, k: (Seq<char>, i32))
    requires
        commands_fit(d, cmds),
        d.next_offsets.dom().contains(k),
    ensures
        all_applied(d, cmds).next_offsets.dom().contains(k),
        all_applied(d, cmds).next_offsets[k] >= d.next_offsets[k],
{
    assert(cmds.take(0) =~= Seq::empty());
    assert(cmds.take(cmds.len() as int) =~= cmds);
    lemma_recorded_between(d, cmds, 0, cmds.len() as int, k);
}

/// Of two messages that are appended to a partition the later one gets the larger
/// offset, whatever was truncated or created in between.
pub proof fn later_message_has_larger_offset(
    d: BrokerDataView,
    cmds: Seq<(BrokerCommand, i64)>,
    i: int,
    j: int,
    topic: Seq<char>,
    partition: i32,
)
    requires
        commands_fit(d, cmds),
        0 <= i < j < cmds.len(),
        cmds[i].0 matches BrokerCommand::Produce { topic: t, partition: p, .. } && t@ == topic && p == partition,
        cmds[j].0 matches BrokerCommand::Produce { topic: t, partition: p, .. } && t@ == topic && p == partition,
    ensures
        answer(all_applied(d, cmds.take(i)), cmds[i].0) < answer(all_applied(d, cmds.take(j)), cmds[j].0),
{
    let k = (topic, partition);
    assert(cmds.take(i + 1).drop_last() =~= cmds.take(i));
    assert(cmds.take(i + 1).last() == cmds[i]);
    lemma_recorded_between(d, cmds, i + 1, j, k);
}

/// No sequence of commands lowers the offset that the next message of a partition gets.
pub proof fn next_offset_stays_up(d: BrokerDataView, cmds: Seq<(BrokerCommand, i64)>, topic: Seq<char>, partition: i32)
    requires
        sound(d),
        commands_fit(d, cmds),
    ensures
        sound(all_applied(d, cmds)),
        next_offset(d, topic, partition) <= next_offset(all_applied(d, cmds), topic, partition),
    decreases cmds.len(),
{
    if cmds.len() > 0 {
        let n = cmds.len() - 1;
        let front = cmds.drop_last();
        assert(front =~= cmds.take(n));
        lemma_commands_prefix(d, cmds, n);
        next_offset_stays_up(d, front, topic, partition);
        assert(command_fits(all_applied(d, cmds.take(n)), cmds[n].0, cmds[n].1));
        commands_keep_soundness(all_applied(d, front), cmds.last().0, cmds.last().1);
        next_offset_never_falls(all_applied(d, front), cmds.last().0, cmds.last().1, topic, partition);
    }
}

/// A message that was appended stays where it was put until it is truncated.
pub proof fn appended_messages_stay(d: BrokerDataView, cmd: BrokerCommand, now: i64, topic: Seq<char>, partition: i32, i: int)
    requires
        0 <= i < log_of(d, topic, partition).len(),
        !(cmd is TruncatePartition),
    ensures
        i < log_of(applied(d, cmd, now), topic, partition).len(),
        log_of(applied(d, cmd, now), topic, partition)[i] == log_of(d, topic, partition)[i],
{
}

/// Creating a topic a second time changes nothing.
pub proof fn creating_twice_is_creating_once(d: BrokerDataView, topic: Seq<char>, n: i32)
    ensures
        created(created(d, topic, n), topic, n) == created(d, topic, n),
{
    let e = created(d, topic, n);
    assert(created(e, topic, n).messages =~= e.messages);
    assert(created(e, topic, n).next_offsets =~= e.next_offsets);
    assert(created(e, topic, n).topics =~= e.topics);
}

/// Where the broker state is kept between runs. The relations say what was read, and
/// what became of the place when a state was written; as they stand here, they say
/// nothing.
pub trait BrokerStateStore: Sized {
    open spec fn loads(&self, r: Result<BrokerDataView, Seq<char>>) -> bool {
        true
    }

    /// Reads the state.
    fn load(&self) -> (r: Result<BrokerData, String>)
        ensures
            self.loads(
                match r {
                    Ok(d) => Ok(d@),
                    Err(e) => Err(e@),
                },
            ),
    ;

    open spec fn saves(before: Self, data: BrokerDataView, r: Result<(), Seq<char>>, after: Self) -> bool {
        true
    }

    /// Writes the state.
    fn save(&mut self, data: &BrokerData) -> (r: Result<(), String>)
        ensures
            Self::saves(
                *old(self),
                data@,
                match r {
                    Ok(_) => Ok(()),
                    Err(e) => Err(e@),
                },
                *final(self),
            ),
    ;
}

/// A broker state together with the place where it is kept.
pub struct ReplicatedStateMachine<S: BrokerStateStore> {
    store: S,
    data: BrokerData,
}

impl<S: BrokerStateStore> ReplicatedStateMachine<S> {
    /// The state of the machine.
    pub closed spec fn view(&self) -> BrokerDataView {
        self.data@
    }

    /// The place where the state is kept.
    pub closed spec fn place(&self) -> S {
        self.store
    }

    /// Starts from the state that the store holds.
    pub fn open(store: S) -> (r: Result<Self, String>)
        ensures
            exists|a: Result<BrokerDataView, Seq<char>>| #[trigger]
                store.loads(a) && match a {
                    Ok(d) => r matches Ok(m) && m@ == d && m.place() == store,
                    Err(e) => r matches Err(x) && x@ == e,
                },
    {
        match store.load() {
            Ok(data) => {
                assert(store.loads(Ok(data@)));
                Ok(ReplicatedStateMachine { store, data })
            },
            Err(e) => {
                assert(store.loads(Err(e@)));
                Err(e)
            },
        }
    }

    /// Starts from a given state.
    pub fn with_state(store: S, data: BrokerData) -> (r: Self)
        ensures
            r@ == data@,
            r.place() == store,
    {
        ReplicatedStateMachine { store, data }
    }

    /// Applies a command and hands the new state to the store. The command takes
    /// effect whether or not the store takes the state.
    pub fn apply(&mut self, command: BrokerCommand, now: i64) -> (r: Result<i64, String>)
        requires
            command_fits(old(self)@, command, now),
        ensures
            final(self)@ == applied(old(self)@, command, now),
            exists|a: Result<(), Seq<char>>| #[trigger]
                S::saves(old(self).place(), final(self)@, a, final(self).place()) && match a {
                    Ok(_) => r matches Ok(v) && v == answer(old(self)@, command),
                    Err(e) => r matches Err(x) && x@ == e,
                },
    {
        let (result, _) = apply_raft_command(&mut self.data, command, now);
        match self.store.save(&self.data) {
            Ok(_) => {
                assert(S::saves(old(self).place(), self@, Ok(()), self.place()));
                Ok(result)
            },
            Err(e) => {
                assert(S::saves(old(self).place(), self@, Err(e@), self.place()));
                Err(e)
            },
        }
    }

    /// The current state.
    pub fn snapshot(&self) -> (r: &BrokerData)
        ensures
            r@ == self@,
    {
        &self.data
    }
}

/// Which offset the next message gets: the recorded one, or the one behind the last
/// message where that is larger, or zero where nothing is known of the partition.
pub proof fn next_message_goes_behind_the_last(d: BrokerDataView, cmd: BrokerCommand, k: (Seq<char>, i32))
    requires
        cmd matches BrokerCommand::Produce { topic, partition, .. } && k == (topic@, partition),
    ensures
        ({
            let recorded = d.next_offsets.dom().contains(k);
            let mark = if recorded { d.next_offsets[k] as int } else { 0 };
            let filled = d.messages.dom().contains(k) && d.messages[k].len() > 0;
            let last = d.messages[k][d.messages[k].len() - 1].offset;
            &&& !recorded && !filled ==> answer(d, cmd) == 0
            &&& filled && last < mark ==> answer(d, cmd) == mark
            &&& filled && last >= mark ==> answer(d, cmd) == last + 1
            &&& !filled && mark >= 0 ==> answer(d, cmd) == mark
        }),
{
    if d.messages.dom().contains(k) && d.messages[k].len() > 0 {
        assert(d.messages[k].last() == d.messages[k][d.messages[k].len() - 1]);
    }
}

/// A message that is appended stands behind the others of its partition, under the
/// offset that is answered, with its key, its value and the time. Nothing else changes,
/// but that the next offset is counted on.
pub proof fn appending_touches_one_partition(d: BrokerDataView, cmd: BrokerCommand, now: i64, k: (Seq<char>, i32))
    requires
        cmd is Produce,
        command_fits(d, cmd, now),
    ensures
        ({
            let e = applied(d, cmd, now);
            let at = (cmd->Produce_topic@, cmd->Produce_partition);
            let before = if d.messages.dom().contains(at) { d.messages[at] } else { Seq::empty() };
            &&& e.messages.dom().contains(at)
            &&& e.messages[at].len() == before.len() + 1
            &&& e.messages[at].drop_last() == before
            &&& e.messages[at].last().offset == answer(d, cmd)
            &&& cmd->key matches Some(x) ==> e.messages[at].last().key == Some(x@)
            &&& cmd->key is None ==> e.messages[at].last().key is None
            &&& e.messages[at].last().value == cmd->value@
            &&& e.messages[at].last().timestamp_ms == now
            &&& e.next_offsets.dom().contains(at)
            &&& e.next_offsets[at] == answer(d, cmd) + 1
            &&& k != at ==> (e.messages.dom().contains(k) <==> d.messages.dom().contains(k))
            &&& k != at && d.messages.dom().contains(k) ==> e.messages[k] == d.messages[k]
            &&& k != at ==> (e.next_offsets.dom().contains(k) <==> d.next_offsets.dom().contains(k))
            &&& k != at && d.next_offsets.dom().contains(k) ==> e.next_offsets[k] == d.next_offsets[k]
            &&& e.topics == d.topics
            &&& e.offsets == d.offsets
            &&& e.groups == d.groups
        }),
{
    let e = applied(d, cmd, now);
    let at = (cmd->Produce_topic@, cmd->Produce_partition);
    assert(e.messages[at].drop_last() =~= log_of(d, at.0, at.1));
    if let Some(x) = cmd->key {
        assert(x.deep_view() =~= x@);
    }
}

/// A commit records the offset of the group for the partition, and nothing else.
pub proof fn committing_touches_one_offset(d: BrokerDataView, cmd: BrokerCommand, now: i64, k: (Seq<char>, Seq<char>, i32))
    requires
        cmd is CommitOffset,
    ensures
        ({
            let e = applied(d, cmd, now);
            let at = (cmd->CommitOffset_group_id@, cmd->CommitOffset_topic@, cmd->CommitOffset_partition);
            &&& e.offsets.dom().contains(at)
            &&& e.offsets[at] == cmd->offset
            &&& answer(d, cmd) == cmd->offset
            &&& k != at ==> (e.offsets.dom().contains(k) <==> d.offsets.dom().contains(k))
            &&& k != at && d.offsets.dom().contains(k) ==> e.offsets[k] == d.offsets[k]
            &&& e.messages == d.messages
            &&& e.next_offsets == d.next_offsets
            &&& e.topics == d.topics
            &&& e.groups == d.groups
        }),
{
}

/// Creating a topic records its number of partitions and gives it those, numbered from
/// zero and empty. Partitions that are there stay as they are, and so does everything
/// else.
pub proof fn creating_adds_missing_partitions(
    d: BrokerDataView,
    cmd: BrokerCommand,
    now: i64,
    t: Seq<char>,
    k: (Seq<char>, i32),
)
    requires
        cmd is CreateTopic,
    ensures
        ({
            let e = applied(d, cmd, now);
            let topic = cmd->CreateTopic_topic@;
            let ours = k.0 == topic && 0 <= k.1 < cmd->num_partitions;
            &&& e.topics.dom().contains(topic) && e.topics[topic] == cmd->num_partitions
            &&& t != topic ==> (e.topics.dom().contains(t) <==> d.topics.dom().contains(t))
            &&& t != topic && d.topics.dom().contains(t) ==> e.topics[t] == d.topics[t]
            &&& e.messages.dom().contains(k) <==> d.messages.dom().contains(k) || ours
            &&& d.messages.dom().contains(k) ==> e.messages[k] == d.messages[k]
            &&& ours && !d.messages.dom().contains(k) ==> e.messages[k].len() == 0
            &&& e.next_offsets.dom().contains(k) <==> d.next_offsets.dom().contains(k) || ours
            &&& d.next_offsets.dom().contains(k) ==> e.next_offsets[k] == d.next_offsets[k]
            &&& ours && !d.next_offsets.dom().contains(k) ==> e.next_offsets[k] == 0
            &&& e.offsets == d.offsets
            &&& e.groups == d.groups
        }),
{
}

/// Truncating drops exactly the messages of the partition that lie before the offset, and
/// nothing else.
pub proof fn truncating_drops_what_lies_before(
    d: BrokerDataView,
    cmd: BrokerCommand,
    now: i64,
    k: (Seq<char>, i32),
    m: MessageView,
)
    requires
        cmd is TruncatePartition,
    ensures
        ({
            let e = applied(d, cmd, now);
            let at = (cmd->TruncatePartition_topic@, cmd->TruncatePartition_partition);
            &&& e.messages.dom() == d.messages.dom()
            &&& d.messages.dom().contains(at) ==> (e.messages[at].contains(m) <==> d.messages[at].contains(m) && m.offset
                >= cmd->before_offset)
            &&& d.messages.dom().contains(at) && rising(d.messages[at]) ==> rising(e.messages[at])
            &&& k != at && d.messages.dom().contains(k) ==> e.messages[k] == d.messages[k]
            &&& e.next_offsets == d.next_offsets
            &&& e.topics == d.topics
            &&& e.offsets == d.offsets
            &&& e.groups == d.groups
        }),
{
    let e = applied(d, cmd, now);
    let at = (cmd->TruncatePartition_topic@, cmd->TruncatePartition_partition);
    assert(e.messages.dom() =~= d.messages.dom());
    if d.messages.dom().contains(at) {
        let before_offset = cmd->before_offset;
        lemma_filter_holds(d.messages[at], |x: MessageView| x.offset >= before_offset);
        if rising(d.messages[at]) {
            lemma_filtered_rising(d.messages[at], before_offset);
        }
    }
}

/// A command about a group changes that group alone. Joining makes a group that is not
/// known, led by who joins; no other command does.
pub proof fn group_commands_touch_one_group(d: BrokerDataView, cmd: BrokerCommand, now: i64, other: Seq<char>)
    requires
        cmd is GroupJoin || cmd is GroupLeave || cmd is GroupExpire || cmd is GroupFinalize,
    ensures
        ({
            let e = applied(d, cmd, now);
            let id = match cmd {
                BrokerCommand::GroupJoin { group_id, .. } => group_id@,
                BrokerCommand::GroupLeave { group_id, .. } => group_id@,
                BrokerCommand::GroupExpire { group_id, .. } => group_id@,
                BrokerCommand::GroupFinalize { group_id } => group_id@,
                _ => Seq::empty(),
            };
            &&& e.messages == d.messages
            &&& e.next_offsets == d.next_offsets
            &&& e.topics == d.topics
            &&& e.offsets == d.offsets
            &&& other != id ==> (e.groups.dom().contains(other) <==> d.groups.dom().contains(other))
            &&& other != id && d.groups.dom().contains(other) ==> e.groups[other] == d.groups[other]
            &&& e.groups.dom().contains(id) <==> d.groups.dom().contains(id) || cmd is GroupJoin
            &&& cmd matches BrokerCommand::GroupJoin { member_id, topic, metadata, session_timeout_ms, .. } ==> {
                &&& d.groups.dom().contains(id) ==> e.groups[id] == joined(
                    d.groups[id],
                    member_id@,
                    Some(topic@),
                    metadata@,
                    d.topics,
                    now,
                )
                &&& !d.groups.dom().contains(id) ==> {
                    &&& e.groups[id].leader_id == member_id@
                    &&& e.groups[id].members.len() == 1
                    &&& e.groups[id].members[0].member_id == member_id@
                    &&& e.groups[id].members[0].metadata == metadata@
                    &&& e.groups[id].subscriptions.dom().contains(member_id@)
                    &&& e.groups[id].subscriptions[member_id@] == topic@
                    &&& e.groups[id].status == GroupStatus::Stable
                    &&& e.groups[id].generation_id == 0
                    &&& e.groups[id].session_timeout_ms == session_timeout_ms
                }
            }
            &&& d.groups.dom().contains(id) ==> match cmd {
                BrokerCommand::GroupLeave { member_id, .. } => e.groups[id] == left(d.groups[id], member_id@, now),
                BrokerCommand::GroupExpire { expired_ids, .. } => e.groups[id] == expired(
                    d.groups[id],
                    expired_ids.deep_view(),
                    now,
                ),
                BrokerCommand::GroupFinalize { .. } => if d.groups[id].status == GroupStatus::PreparingRebalance {
                    e.groups[id] == finalized(d.groups[id], d.topics)
                } else {
                    e.groups[id] == d.groups[id]
                },
                _ => true,
            }
        }),
{
}

} // verus!

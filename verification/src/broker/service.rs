//! What a broker asks of its storage, whichever storage it has.
use vstd::prelude::*;

use crate::broker::groups::{is_member, left};
use crate::broker::raft::{GroupStatus, MemberView, MessageView};
use crate::broker::reading::{is_fetched, reading_starts_at_the_message};
use crate::broker::state_machine::rising;
use crate::broker::storage::{
    assigned_to, group_joined, has_partition, message_appended, messages_of, topic_created, InMemoryStorage, JoinAnswer,
    StorageView, StoredMessage,
};
use crate::wire::i32_list;

verus! {

/// A result, with what was found and the message of an error shown.
pub open spec fn shown<T: DeepView>(r: Result<T, String>) -> Result<T::V, Seq<char>> {
    match r {
        Ok(v) => Ok(v.deep_view()),
        Err(e) => Err(e@),
    }
}

/// What a member that joins is told: the generation, the leader, its own name, and all
/// members.
pub type JoinView = (i32, Seq<char>, Seq<char>, Seq<MemberView>);

/// What a member that joins is told.
pub open spec fn join_shown(r: Result<JoinAnswer, String>) -> Result<JoinView, Seq<char>> {
    match r {
        Ok(a) => Ok((a.0, a.1@, a.2@, a.3.deep_view())),
        Err(e) => Err(e@),
    }
}

/// The storage of a broker. Every operation comes with the relation between the storage
/// before it, what was asked, what was answered, and the storage after it. A storage that
/// has nothing to say of an operation leaves its relation as it is here, and anything may
/// come of it.
pub trait BrokerStorage: Sized {
    open spec fn creates(before: Self, topic: Seq<char>, num_partitions: i32, r: Result<(), Seq<char>>, after: Self) -> bool {
        true
    }

    /// Creates a topic.
    fn create_topic(&mut self, topic: &String, num_partitions: i32) -> (r: Result<(), String>)
        ensures
            Self::creates(*old(self), topic@, num_partitions, shown(r), *final(self)),
    ;

    open spec fn lists(&self, topics: Seq<Seq<char>>) -> bool {
        true
    }

    /// The names of the topics.
    fn get_topics(&self) -> (r: Vec<String>)
        ensures
            self.lists(r.deep_view()),
    ;

    open spec fn divides(&self, topic: Seq<char>, partitions: Option<Seq<i32>>) -> bool {
        true
    }

    /// The partitions of a topic.
    fn get_topic_partitions(&self, topic: &String) -> (r: Option<Vec<i32>>)
        ensures
            self.divides(topic@, r.deep_view()),
    ;

    open spec fn produces(
        before: Self,
        topic: Seq<char>,
        partition: i32,
        key: Option<Seq<u8>>,
        value: Seq<u8>,
        now: i64,
        r: Result<i64, Seq<char>>,
        after: Self,
    ) -> bool {
        true
    }

    /// Appends a message and tells its offset.
    fn produce_message(
        &mut self,
        topic: &String,
        partition: i32,
        key: Option<Vec<u8>>,
        value: Vec<u8>,
        now: i64,
    ) -> (r: Result<i64, String>)
        ensures
            Self::produces(
                *old(self),
                topic@,
                partition,
                key.deep_view(),
                value.deep_view(),
                now,
                shown(r),
                *final(self),
            ),
    ;

    open spec fn fetches(
        &self,
        topic: Seq<char>,
        partition: i32,
        offset: i64,
        max_bytes: i32,
        r: Result<Seq<MessageView>, Seq<char>>,
    ) -> bool {
        true
    }

    /// Reads messages from an offset on.
    fn fetch_messages(&self, topic: &String, partition: i32, offset: i64, max_bytes: i32) -> (r: Result<
        Vec<StoredMessage>,
        String,
    >)
        ensures
            self.fetches(topic@, partition, offset, max_bytes, shown(r)),
    ;

    open spec fn dates(&self, topic: Seq<char>, partition: i32, time: i64, r: Result<Seq<i64>, Seq<char>>) -> bool {
        true
    }

    /// The offsets that a time means.
    fn get_partition_offset(&self, topic: &String, partition: i32, time: i64) -> (r: Result<Vec<i64>, String>)
        ensures
            self.dates(topic@, partition, time, shown(r)),
    ;

    open spec fn commits(
        before: Self,
        group: Seq<char>,
        topic: Seq<char>,
        partition: i32,
        offset: i64,
        metadata: Seq<char>,
        r: Result<(), Seq<char>>,
        after: Self,
    ) -> bool {
        true
    }

    /// Records how far a group has read.
    fn commit_offset(
        &mut self,
        group: &String,
        topic: &String,
        partition: i32,
        offset: i64,
        metadata: String,
    ) -> (r: Result<(), String>)
        ensures
            Self::commits(*old(self), group@, topic@, partition, offset, metadata@, shown(r), *final(self)),
    ;

    open spec fn recalls(
        &self,
        group: Seq<char>,
        topic: Seq<char>,
        partition: i32,
        r: Result<(i64, Seq<char>), Seq<char>>,
    ) -> bool {
        true
    }

    /// How far a group has read.
    fn fetch_offset(&self, group: &String, topic: &String, partition: i32) -> (r: Result<(i64, String), String>)
        ensures
            self.recalls(group@, topic@, partition, shown(r)),
    ;

    open spec fn located(&self, r: (i32, Seq<char>, i32)) -> bool {
        true
    }

    /// The number, the host and the port of the broker.
    fn get_coordinator_info(&self) -> (r: (i32, String, i32))
        ensures
            self.located((r.0, r.1@, r.2)),
    ;

    /// The generation of the group can still be counted when the member joins.
    open spec fn can_join(
        &self,
        group: Seq<char>,
        member: Seq<char>,
        metadata: Seq<u8>,
        session_timeout_ms: i64,
        now: i64,
    ) -> bool {
        true
    }

    open spec fn joins(
        before: Self,
        group: Seq<char>,
        member: Seq<char>,
        protocol_type: Seq<char>,
        metadata: Seq<u8>,
        session_timeout_ms: i64,
        now: i64,
        r: Result<JoinView, Seq<char>>,
        after: Self,
    ) -> bool {
        true
    }

    /// A member joins a group.
    fn join_group(
        &mut self,
        group_id: &String,
        member_id: &String,
        protocol_type: &String,
        protocol_metadata: &Vec<u8>,
        session_timeout_ms: i64,
        now: i64,
    ) -> (r: Result<JoinAnswer, String>)
        requires
            old(self).can_join(group_id@, member_id@, protocol_metadata@, session_timeout_ms, now),
        ensures
            Self::joins(
                *old(self),
                group_id@,
                member_id@,
                protocol_type@,
                protocol_metadata@,
                session_timeout_ms,
                now,
                join_shown(r),
                *final(self),
            ),
    ;

    open spec fn syncs(
        &self,
        group: Seq<char>,
        generation_id: i32,
        member: Seq<char>,
        r: Result<Seq<u8>, Seq<char>>,
    ) -> bool {
        true
    }

    /// The partitions of a member, in binary form.
    fn sync_group(&self, group_id: &String, generation_id: i32, member_id: &String) -> (r: Result<Vec<u8>, String>)
        ensures
            self.syncs(group_id@, generation_id, member_id@, shown(r)),
    ;

    open spec fn beats(
        before: Self,
        group: Seq<char>,
        generation_id: i32,
        member: Seq<char>,
        now: i64,
        r: Result<(), Seq<char>>,
        after: Self,
    ) -> bool {
        true
    }

    /// A member reports that it is alive.
    fn heartbeat(&mut self, group_id: &String, generation_id: i32, member_id: &String, now: i64) -> (r: Result<
        (),
        String,
    >)
        ensures
            Self::beats(*old(self), group_id@, generation_id, member_id@, now, shown(r), *final(self)),
    ;

    /// The generation of the group can still be counted when the member leaves.
    open spec fn can_leave(&self, group: Seq<char>, member: Seq<char>, now: i64) -> bool {
        true
    }

    open spec fn leaves(
        before: Self,
        group: Seq<char>,
        member: Seq<char>,
        now: i64,
        r: Result<(), Seq<char>>,
        after: Self,
    ) -> bool {
        true
    }

    /// A member leaves its group.
    fn leave_group(&mut self, group_id: &String, member_id: &String, now: i64) -> (r: Result<(), String>)
        requires
            old(self).can_leave(group_id@, member_id@, now),
        ensures
            Self::leaves(*old(self), group_id@, member_id@, now, shown(r), *final(self)),
    ;

    open spec fn admits(
        before: Self,
        node_id: u64,
        api_addr: Seq<char>,
        rpc_addr: Seq<char>,
        r: Result<(), Seq<char>>,
        after: Self,
    ) -> bool {
        true
    }

    /// Lets a broker into the cluster.
    fn add_node(&mut self, node_id: u64, api_addr: &String, rpc_addr: &String) -> (r: Result<(), String>)
        ensures
            Self::admits(*old(self), node_id, api_addr@, rpc_addr@, shown(r), *final(self)),
    ;

    open spec fn dismisses(before: Self, node_id: u64, r: Result<(), Seq<char>>, after: Self) -> bool {
        true
    }

    /// Takes a broker out of the cluster.
    fn remove_node(&mut self, node_id: u64) -> (r: Result<(), String>)
        ensures
            Self::dismisses(*old(self), node_id, shown(r), *final(self)),
    ;
}

/// The storage keeps something else, at the same address.
pub open spec fn moved_on(before: InMemoryStorage, s: StorageView, after: InMemoryStorage) -> bool {
    after@ == s && after.address() == before.address()
}

/// Nothing has changed.
pub open spec fn unmoved(before: InMemoryStorage, after: InMemoryStorage) -> bool {
    moved_on(before, before@, after)
}

/// What a broker on its own says to a change of the cluster.
pub open spec fn no_cluster() -> Seq<char> {
    "a broker on its own has no cluster"@
}

impl BrokerStorage for InMemoryStorage {
    open spec fn creates(before: Self, topic: Seq<char>, num_partitions: i32, r: Result<(), Seq<char>>, after: Self) -> bool {
        if num_partitions > 0 {
            r is Ok && moved_on(before, topic_created(before@, topic, num_partitions), after)
        } else {
            r == Err::<(), Seq<char>>("num_partitions must be > 0"@) && unmoved(before, after)
        }
    }

    fn create_topic(&mut self, topic: &String, num_partitions: i32) -> (r: Result<(), String>) {
        InMemoryStorage::create_topic(self, topic, num_partitions)
    }

    open spec fn lists(&self, topics: Seq<Seq<char>>) -> bool {
        topics.no_duplicates() && topics.to_set() == self@.messages.dom()
    }

    fn get_topics(&self) -> (r: Vec<String>) {
        InMemoryStorage::get_topics(self)
    }

    open spec fn divides(&self, topic: Seq<char>, partitions: Option<Seq<i32>>) -> bool {
        &&& partitions is Some == self@.messages.dom().contains(topic)
        &&& partitions matches Some(v) ==> v.no_duplicates() && v.to_set() == self@.messages[topic].dom()
    }

    fn get_topic_partitions(&self, topic: &String) -> (r: Option<Vec<i32>>) {
        let r = InMemoryStorage::get_topic_partitions(self, topic);
        proof {
            if r is Some {
                assert(r->0.deep_view() =~= r->0@);
            }
        }
        r
    }

    open spec fn produces(
        before: Self,
        topic: Seq<char>,
        partition: i32,
        key: Option<Seq<u8>>,
        value: Seq<u8>,
        now: i64,
        r: Result<i64, Seq<char>>,
        after: Self,
    ) -> bool {
        &&& r == Ok::<i64, Seq<char>>(messages_of(before@, topic, partition).len() as i64)
        &&& moved_on(before, message_appended(before@, topic, partition, key, value, now), after)
    }

    fn produce_message(
        &mut self,
        topic: &String,
        partition: i32,
        key: Option<Vec<u8>>,
        value: Vec<u8>,
        now: i64,
    ) -> (r: Result<i64, String>) {
        assert(value.deep_view() =~= value@);
        InMemoryStorage::produce_message(self, topic, partition, key, value, now)
    }

    open spec fn fetches(
        &self,
        topic: Seq<char>,
        partition: i32,
        offset: i64,
        max_bytes: i32,
        r: Result<Seq<MessageView>, Seq<char>>,
    ) -> bool {
        r matches Ok(v) && is_fetched(messages_of(self@, topic, partition), offset, max_bytes, v)
    }

    fn fetch_messages(&self, topic: &String, partition: i32, offset: i64, max_bytes: i32) -> (r: Result<
        Vec<StoredMessage>,
        String,
    >) {
        InMemoryStorage::fetch_messages(self, topic, partition, offset, max_bytes)
    }

    open spec fn dates(&self, topic: Seq<char>, partition: i32, time: i64, r: Result<Seq<i64>, Seq<char>>) -> bool {
        let log = messages_of(self@, topic, partition);
        r == Ok::<Seq<i64>, Seq<char>>(
            if !has_partition(self@, topic, partition) {
                seq![0i64]
            } else if time == -2 {
                seq![(if log.len() == 0 { 0i64 } else { log[0].offset })]
            } else {
                seq![log.len() as i64]
            },
        )
    }

    fn get_partition_offset(&self, topic: &String, partition: i32, time: i64) -> (r: Result<Vec<i64>, String>) {
        let r = InMemoryStorage::get_partition_offset(self, topic, partition, time);
        proof {
            if r is Ok {
                assert(r->Ok_0.deep_view() =~= r->Ok_0@);
            }
        }
        r
    }

    open spec fn commits(
        before: Self,
        group: Seq<char>,
        topic: Seq<char>,
        partition: i32,
        offset: i64,
        metadata: Seq<char>,
        r: Result<(), Seq<char>>,
        after: Self,
    ) -> bool {
        &&& r is Ok
        &&& moved_on(
            before,
            StorageView {
                offsets: before@.offsets.insert((group, topic, partition), (offset, metadata)),
                ..before@
            },
            after,
        )
    }

    fn commit_offset(
        &mut self,
        group: &String,
        topic: &String,
        partition: i32,
        offset: i64,
        metadata: String,
    ) -> (r: Result<(), String>) {
        InMemoryStorage::commit_offset(self, group, topic, partition, offset, metadata)
    }

    open spec fn recalls(
        &self,
        group: Seq<char>,
        topic: Seq<char>,
        partition: i32,
        r: Result<(i64, Seq<char>), Seq<char>>,
    ) -> bool {
        r == Ok::<(i64, Seq<char>), Seq<char>>(
            if self@.offsets.dom().contains((group, topic, partition)) {
                self@.offsets[(group, topic, partition)]
            } else {
                (-1i64, Seq::<char>::empty())
            },
        )
    }

    fn fetch_offset(&self, group: &String, topic: &String, partition: i32) -> (r: Result<(i64, String), String>) {
        InMemoryStorage::fetch_offset(self, group, topic, partition)
    }

    open spec fn located(&self, r: (i32, Seq<char>, i32)) -> bool {
        r == self.address()
    }

    fn get_coordinator_info(&self) -> (r: (i32, String, i32)) {
        InMemoryStorage::get_coordinator_info(self)
    }

    open spec fn can_join(
        &self,
        group: Seq<char>,
        member: Seq<char>,
        metadata: Seq<u8>,
        session_timeout_ms: i64,
        now: i64,
    ) -> bool {
        group_joined(self@, group, member, metadata, session_timeout_ms, now).generation_id <= i32::MAX
    }

    open spec fn joins(
        before: Self,
        group: Seq<char>,
        member: Seq<char>,
        protocol_type: Seq<char>,
        metadata: Seq<u8>,
        session_timeout_ms: i64,
        now: i64,
        r: Result<JoinView, Seq<char>>,
        after: Self,
    ) -> bool {
        let g = group_joined(before@, group, member, metadata, session_timeout_ms, now);
        &&& r matches Ok(a) && a.0 == g.generation_id && a.1 == g.leader_id && a.2 == member && a.3 == g.members
        &&& moved_on(
            before,
            StorageView {
                groups: before@.groups.insert(group, g),
                heard: before@.heard.insert((group, member), now),
                ..before@
            },
            after,
        )
    }

    fn join_group(
        &mut self,
        group_id: &String,
        member_id: &String,
        protocol_type: &String,
        protocol_metadata: &Vec<u8>,
        session_timeout_ms: i64,
        now: i64,
    ) -> (r: Result<JoinAnswer, String>) {
        InMemoryStorage::join_group(self, group_id, member_id, protocol_metadata.as_slice(), session_timeout_ms, now)
    }

    open spec fn syncs(
        &self,
        group: Seq<char>,
        generation_id: i32,
        member: Seq<char>,
        r: Result<Seq<u8>, Seq<char>>,
    ) -> bool {
        r == (if !self@.groups.dom().contains(group) {
            Err::<Seq<u8>, Seq<char>>("Group not found"@)
        } else if self@.groups[group].status == GroupStatus::PreparingRebalance {
            Err("REBALANCE_IN_PROGRESS"@)
        } else {
            Ok(i32_list(assigned_to(self@.groups[group], member)))
        })
    }

    fn sync_group(&self, group_id: &String, generation_id: i32, member_id: &String) -> (r: Result<Vec<u8>, String>) {
        let r = InMemoryStorage::sync_group(self, group_id, member_id);
        proof {
            if r is Ok {
                assert(r->Ok_0.deep_view() =~= r->Ok_0@);
            }
        }
        r
    }

    open spec fn beats(
        before: Self,
        group: Seq<char>,
        generation_id: i32,
        member: Seq<char>,
        now: i64,
        r: Result<(), Seq<char>>,
        after: Self,
    ) -> bool {
        if before@.groups.dom().contains(group) && is_member(before@.groups[group], member) {
            &&& moved_on(
                before,
                StorageView { heard: before@.heard.insert((group, member), now), ..before@ },
                after,
            )
            &&& r == (if before@.groups[group].status == GroupStatus::PreparingRebalance {
                Err::<(), Seq<char>>("REBALANCE_IN_PROGRESS"@)
            } else {
                Ok(())
            })
        } else {
            r == Err::<(), Seq<char>>("Unknown member"@) && unmoved(before, after)
        }
    }

    fn heartbeat(&mut self, group_id: &String, generation_id: i32, member_id: &String, now: i64) -> (r: Result<
        (),
        String,
    >) {
        InMemoryStorage::heartbeat(self, group_id, member_id, now)
    }

    open spec fn can_leave(&self, group: Seq<char>, member: Seq<char>, now: i64) -> bool {
        self@.groups.dom().contains(group) ==> left(self@.groups[group], member, now).generation_id <= i32::MAX
    }

    open spec fn leaves(
        before: Self,
        group: Seq<char>,
        member: Seq<char>,
        now: i64,
        r: Result<(), Seq<char>>,
        after: Self,
    ) -> bool {
        if before@.groups.dom().contains(group) {
            &&& r is Ok
            &&& moved_on(
                before,
                StorageView {
                    groups: before@.groups.insert(group, left(before@.groups[group], member, now)),
                    heard: before@.heard.remove((group, member)),
                    ..before@
                },
                after,
            )
        } else {
            r == Err::<(), Seq<char>>("Group not found"@) && unmoved(before, after)
        }
    }

    fn leave_group(&mut self, group_id: &String, member_id: &String, now: i64) -> (r: Result<(), String>) {
        InMemoryStorage::leave_group(self, group_id, member_id, now)
    }

    open spec fn admits(
        before: Self,
        node_id: u64,
        api_addr: Seq<char>,
        rpc_addr: Seq<char>,
        r: Result<(), Seq<char>>,
        after: Self,
    ) -> bool {
        r == Err::<(), Seq<char>>(no_cluster()) && unmoved(before, after)
    }

    fn add_node(&mut self, node_id: u64, api_addr: &String, rpc_addr: &String) -> (r: Result<(), String>) {
        Err("a broker on its own has no cluster".to_owned())
    }

    open spec fn dismisses(before: Self, node_id: u64, r: Result<(), Seq<char>>, after: Self) -> bool {
        r == Err::<(), Seq<char>>(no_cluster()) && unmoved(before, after)
    }

    fn remove_node(&mut self, node_id: u64) -> (r: Result<(), String>) {
        Err("a broker on its own has no cluster".to_owned())
    }
}

/// Who reads a partition from the offset that a message was given gets that message
/// first, as long as the offsets of the partition rise.
pub proof fn produced_message_is_read(
    before: InMemoryStorage,
    topic: Seq<char>,
    partition: i32,
    m: MessageView,
    after: InMemoryStorage,
    max_bytes: i32,
    read: Seq<MessageView>,
)
    requires
        InMemoryStorage::produces(before, topic, partition, m.key, m.value, m.timestamp_ms, Ok(m.offset), after),
        rising(messages_of(after@, topic, partition)),
        after.fetches(topic, partition, m.offset, max_bytes, Ok(read)),
    ensures
        read.len() > 0,
        read[0] == m,
{
    let log = messages_of(after@, topic, partition);
    assert(log.last() == m);
    reading_starts_at_the_message(log, log.len() - 1, max_bytes, read);
}

/// Every message has its place as its offset; so it is as long as nothing was dropped.
pub open spec fn unbroken(log: Seq<MessageView>) -> bool {
    forall|i: int| 0 <= i < log.len() ==> (#[trigger] log[i]).offset == i
}

/// Storing messages keeps every message at its place, in every partition, so that the
/// offsets of a partition rise.
pub proof fn offsets_count_messages(
    before: InMemoryStorage,
    topic: Seq<char>,
    partition: i32,
    m: MessageView,
    after: InMemoryStorage,
    t: Seq<char>,
    p: i32,
)
    requires
        InMemoryStorage::produces(before, topic, partition, m.key, m.value, m.timestamp_ms, Ok(m.offset), after),
        unbroken(messages_of(before@, t, p)),
        messages_of(before@, t, p).len() < i64::MAX,
    ensures
        unbroken(messages_of(after@, t, p)),
        rising(messages_of(after@, t, p)),
{
    produced_messages_stay(before, topic, partition, m, after, t, p);
}

/// A message stays where it is while others are appended, to any partition.
pub proof fn produced_messages_stay(
    before: InMemoryStorage,
    topic: Seq<char>,
    partition: i32,
    m: MessageView,
    after: InMemoryStorage,
    t: Seq<char>,
    p: i32,
)
    requires
        InMemoryStorage::produces(before, topic, partition, m.key, m.value, m.timestamp_ms, Ok(m.offset), after),
    ensures
        messages_of(before@, t, p).is_prefix_of(messages_of(after@, t, p)),
        (t, p) != (topic, partition) ==> messages_of(after@, t, p) == messages_of(before@, t, p),
{
    if t == topic && p == partition {
        let log = messages_of(before@, t, p);
        assert(log.push(m).take(log.len() as int) =~= log);
    } else {
        assert(messages_of(after@, t, p) == messages_of(before@, t, p));
        let log = messages_of(before@, t, p);
        assert(log.take(log.len() as int) =~= log);
    }
}

/// A group that asks how far it has read is told what it committed last, and no other
/// group is told anything else than before.
pub proof fn committed_offset_is_recalled(
    before: InMemoryStorage,
    group: Seq<char>,
    topic: Seq<char>,
    partition: i32,
    offset: i64,
    metadata: Seq<char>,
    after: InMemoryStorage,
    g: Seq<char>,
    t: Seq<char>,
    p: i32,
)
    requires
        InMemoryStorage::commits(before, group, topic, partition, offset, metadata, Ok(()), after),
    ensures
        after.recalls(group, topic, partition, Ok((offset, metadata))),
        (g, t, p) != (group, topic, partition) ==> forall|r: Result<(i64, Seq<char>), Seq<char>>|
            #![trigger after.recalls(g, t, p, r)]
            after.recalls(g, t, p, r) == before.recalls(g, t, p, r),
{
}

/// Where a time lies in memory: minus two means the first message that is there, anything
/// else the number of messages; an unknown partition has neither.
pub proof fn times_in_memory(s: InMemoryStorage, topic: Seq<char>, partition: i32, time: i64, r: Result<Seq<i64>, Seq<char>>)
    requires
        s.dates(topic, partition, time, r),
    ensures
        ({
            let known = s@.messages.dom().contains(topic) && s@.messages[topic].dom().contains(partition);
            let log = s@.messages[topic][partition];
            &&& r is Ok
            &&& r->Ok_0.len() == 1
            &&& !known ==> r->Ok_0[0] == 0
            &&& known && time == -2 && log.len() > 0 ==> r->Ok_0[0] == log[0].offset
            &&& known && time == -2 && log.len() == 0 ==> r->Ok_0[0] == 0
            &&& known && time != -2 ==> r->Ok_0[0] == log.len() as i64
        }),
{
}

/// What happens to groups in memory. A member that is known is noted as heard of now, and
/// told whether a rebalance is going on; anybody else changes nothing. Who leaves a known
/// group is heard of no longer. Partitions are told outside of rebalances.
pub proof fn groups_in_memory(
    before: InMemoryStorage,
    group: Seq<char>,
    generation_id: i32,
    member: Seq<char>,
    now: i64,
    r: Result<(), Seq<char>>,
    sync: Result<Seq<u8>, Seq<char>>,
    after: InMemoryStorage,
)
    ensures
        ({
            let known = before@.groups.dom().contains(group);
            let ours = known && exists|i: int|
                0 <= i < before@.groups[group].members.len() && (#[trigger] before@.groups[group].members[i]).member_id
                    == member;
            let moving = before@.groups[group].status == GroupStatus::PreparingRebalance;
            &&& InMemoryStorage::beats(before, group, generation_id, member, now, r, after) ==> {
                &&& r is Ok <==> ours && !moving
                &&& ours && moving ==> r == Err::<(), Seq<char>>("REBALANCE_IN_PROGRESS"@)
                &&& ours ==> after@.heard == before@.heard.insert((group, member), now)
                &&& !ours ==> after@ == before@
                &&& after@.groups == before@.groups
                &&& after@.messages == before@.messages
                &&& after@.offsets == before@.offsets
                &&& after.address() == before.address()
            }
            &&& InMemoryStorage::leaves(before, group, member, now, r, after) ==> {
                &&& r is Ok <==> known
                &&& known ==> after@.groups == before@.groups.insert(group, left(before@.groups[group], member, now))
                &&& known ==> after@.heard == before@.heard.remove((group, member))
                &&& !known ==> after@ == before@
                &&& after@.messages == before@.messages
                &&& after@.offsets == before@.offsets
            }
            &&& before.syncs(group, generation_id, member, sync) ==> {
                &&& sync is Ok <==> known && !moving
                &&& known && moving ==> sync == Err::<Seq<u8>, Seq<char>>("REBALANCE_IN_PROGRESS"@)
                &&& known && !moving && before@.groups[group].assignments.dom().contains(member) ==> sync->Ok_0 == i32_list(
                    before@.groups[group].assignments[member],
                )
                &&& known && !moving && !before@.groups[group].assignments.dom().contains(member) ==> sync->Ok_0 == i32_list(
                    Seq::empty(),
                )
            }
        }),
{
}

/// Every topic and every partition in memory is listed, once, and nothing else is.
pub proof fn everything_in_memory_is_listed(
    s: InMemoryStorage,
    topics: Seq<Seq<char>>,
    t: Seq<char>,
    partitions: Option<Seq<i32>>,
    p: i32,
)
    requires
        s.lists(topics),
        s.divides(t, partitions),
    ensures
        topics.contains(t) <==> s@.messages.dom().contains(t),
        forall|i: int, j: int| 0 <= i < j < topics.len() ==> #[trigger] topics[i] != #[trigger] topics[j],
        partitions is Some <==> topics.contains(t),
        partitions matches Some(v) ==> (v.contains(p) <==> s@.messages[t].dom().contains(p)),
        partitions matches Some(v) ==> forall|i: int, j: int| 0 <= i < j < v.len() ==> #[trigger] v[i] != #[trigger] v[j],
{
    assert(topics.to_set().contains(t) <==> topics.contains(t));
    if let Some(v) = partitions {
        assert(v.to_set().contains(p) <==> v.contains(p));
    }
}

/// A topic in memory is created where it has partitions, numbered from zero, and what its
/// partitions hold already stays. Without partitions nothing is created.
pub proof fn created_topic_is_in_memory(
    before: InMemoryStorage,
    topic: Seq<char>,
    n: i32,
    r: Result<(), Seq<char>>,
    after: InMemoryStorage,
    t: Seq<char>,
    p: i32,
)
    requires
        InMemoryStorage::creates(before, topic, n, r, after),
    ensures
        r is Ok <==> n > 0,
        r is Ok && 0 <= p < n ==> after@.messages.dom().contains(topic) && after@.messages[topic].dom().contains(p),
        messages_of(after@, t, p) == messages_of(before@, t, p),
        after@.offsets == before@.offsets,
        after@.groups == before@.groups,
        r is Ok ==> after@.topics == before@.topics.insert(topic, n),
        r is Err ==> after@ == before@,
        r matches Err(e) ==> e == "num_partitions must be > 0"@,
{
    if n > 0 && t == topic {
        assert(messages_of(after@, t, p) =~= messages_of(before@, t, p));
    }
}

} // verus!

//! The storage of a broker on its own: everything is held in memory.
use vstd::prelude::*;
use vstd::utf8::*;

use crate::broker::config::{RetentionConfig, DEFAULT_REBALANCE_TIMEOUT_MS};
use crate::broker::groups::{fresh_group, has_member, is_member, join, joined, leave, left, new_group};
use crate::broker::liveness::{all_checked, check_groups, checked};
use crate::broker::raft::{
    BrokerStoredMessage, GroupStatus, GroupView, MemberView, MessageView, ReplicatedGroupMember, ReplicatedGroupState,
};
use crate::broker::reading::{fetch_from, is_fetched, span};
use crate::maps::{Dup, VecMap};
use crate::seqs::{lemma_filter_ends, lemma_filter_places, lemma_filter_step};
use crate::text::utf8_text;
use crate::wire::{encode_i32_list, i32_list};

verus! {

/// A message as a reader gets it.
#[derive(Debug)]
pub struct StoredMessage {
    pub offset: i64,
    pub key: Option<Vec<u8>>,
    pub value: Vec<u8>,
    pub timestamp_ms: i64,
}

impl DeepView for StoredMessage {
    type V = MessageView;

    open spec fn deep_view(&self) -> MessageView {
        MessageView {
            offset: self.offset,
            key: self.key.deep_view(),
            value: self.value.deep_view(),
            timestamp_ms: self.timestamp_ms,
        }
    }
}

/// A member of a group as a client gets to see it.
#[derive(Debug)]
pub struct GroupMember {
    pub member_id: String,
    pub metadata: Vec<u8>,
}

impl DeepView for GroupMember {
    type V = MemberView;

    open spec fn deep_view(&self) -> MemberView {
        MemberView { member_id: self.member_id@, metadata: self.metadata.deep_view() }
    }
}

impl Dup for GroupMember {
    fn dup(&self) -> (r: Self) {
        GroupMember { member_id: self.member_id.dup(), metadata: self.metadata.dup() }
    }
}

/// What a join answers: the generation, the leader, the id of the member, all members.
pub type JoinAnswer = (i32, String, String, Vec<GroupMember>);

/// Hands messages to a reader.
pub fn to_stored(log: Vec<BrokerStoredMessage>) -> (r: Vec<StoredMessage>)
    ensures
        r.deep_view() == log.deep_view(),
{
    let mut r: Vec<StoredMessage> = Vec::new();
    for m in it: log
        invariant
            it.seq() == log@,
            r@.len() == it.index(),
            forall|i: int| 0 <= i < r@.len() ==> (#[trigger] r@[i]).deep_view() == log@[i].deep_view(),
    {
        r.push(StoredMessage { offset: m.offset, key: m.key, value: m.value, timestamp_ms: m.timestamp_ms });
    }
    assert(r.deep_view() =~= log.deep_view());
    r
}

/// Shows the members of a group.
pub fn to_group_members(members: &Vec<ReplicatedGroupMember>) -> (r: Vec<GroupMember>)
    ensures
        r.deep_view() == members.deep_view(),
{
    let mut r: Vec<GroupMember> = Vec::new();
    let mut i: usize = 0;
    while i < members.len()
        invariant
            i <= members@.len(),
            r@.len() == i,
            forall|j: int| 0 <= j < i ==> (#[trigger] r@[j]).deep_view() == members@[j].deep_view(),
        decreases members@.len() - i,
    {
        r.push(GroupMember { member_id: members[i].member_id.dup(), metadata: members[i].metadata.dup() });
        i += 1;
    }
    assert(r.deep_view() =~= members.deep_view());
    r
}

/// The topic that the metadata of a joining member names; malformed text names none.
pub open spec fn subscribed_topic(metadata: Seq<u8>) -> Seq<char> {
    if valid_utf8(metadata) { decode_utf8(metadata) } else { Seq::empty() }
}

/// Reads the topic from the metadata of a joining member.
pub fn read_topic(metadata: &[u8]) -> (r: String)
    ensures
        r@ == subscribed_topic(metadata@),
{
    match utf8_text(metadata) {
        Some(t) => t,
        None => String::new(),
    }
}

/// What a member that has joined is told.
pub open spec fn is_join_answer(g: GroupView, member: Seq<char>, r: JoinAnswer) -> bool {
    r.0 == g.generation_id && r.1@ == g.leader_id && r.2@ == member && r.3.deep_view() == g.members
}

/// What a member that has joined is told.
pub fn join_answer(group: &ReplicatedGroupState, member_id: &String) -> (r: JoinAnswer)
    ensures
        is_join_answer(group@, member_id@, r),
{
    (group.generation_id, group.leader_id.dup(), member_id.dup(), to_group_members(&group.members))
}

/// The partitions assigned to a member; nobody else has any.
pub open spec fn assigned_to(g: GroupView, member: Seq<char>) -> Seq<i32> {
    if g.assignments.dom().contains(member) { g.assignments[member] } else { Seq::empty() }
}

/// The partitions assigned to a member, in binary form.
pub fn encoded_assignment(group: &ReplicatedGroupState, member_id: &String) -> (r: Vec<u8>)
    ensures
        r@ == i32_list(assigned_to(group@, member_id@)),
{
    match group.assignments.get(member_id) {
        Some(v) => {
            assert(v.deep_view() =~= v@);
            encode_i32_list(v)
        },
        None => {
            let none: Vec<i32> = Vec::new();
            encode_i32_list(&none)
        },
    }
}

/// What the storage keeps.
pub struct InnerStorage {
    /// The messages by topic and partition.
    pub messages: VecMap<String, VecMap<i32, Vec<BrokerStoredMessage>>>,
    /// The number of partitions of every topic.
    pub topics: VecMap<String, i32>,
    /// What groups have committed, with their remarks.
    pub offsets: VecMap<(String, String, i32), (i64, String)>,
    pub groups: VecMap<String, ReplicatedGroupState>,
    /// When every member of a group was last heard of.
    pub heard: VecMap<(String, String), i64>,
}

/// What the storage keeps.
#[verifier::ext_equal]
pub struct StorageView {
    pub messages: Map<Seq<char>, Map<i32, Seq<MessageView>>>,
    pub topics: Map<Seq<char>, i32>,
    pub offsets: Map<(Seq<char>, Seq<char>, i32), (i64, Seq<char>)>,
    pub groups: Map<Seq<char>, GroupView>,
    pub heard: Map<(Seq<char>, Seq<char>), i64>,
}

impl InnerStorage {
    pub open spec fn view(&self) -> StorageView {
        StorageView {
            messages: self.messages@,
            topics: self.topics@,
            offsets: self.offsets@,
            groups: self.groups@,
            heard: self.heard@,
        }
    }

    /// A storage that holds nothing.
    pub fn new() -> (r: Self)
        ensures
            r@ == empty_storage(),
    {
        InnerStorage {
            messages: VecMap::new(),
            topics: VecMap::new(),
            offsets: VecMap::new(),
            groups: VecMap::new(),
            heard: VecMap::new(),
        }
    }
}

/// A storage that holds nothing.
pub open spec fn empty_storage() -> StorageView {
    StorageView {
        messages: Map::empty(),
        topics: Map::empty(),
        offsets: Map::empty(),
        groups: Map::empty(),
        heard: Map::empty(),
    }
}

/// The partitions of a topic; an unknown topic has none.
pub open spec fn partitions_of(s: StorageView, topic: Seq<char>) -> Map<i32, Seq<MessageView>> {
    if s.messages.dom().contains(topic) { s.messages[topic] } else { Map::empty() }
}

/// The messages of a partition; an unknown one has none.
pub open spec fn messages_of(s: StorageView, topic: Seq<char>, partition: i32) -> Seq<MessageView> {
    if partitions_of(s, topic).dom().contains(partition) {
        partitions_of(s, topic)[partition]
    } else {
        Seq::empty()
    }
}

/// The partition is known.
pub open spec fn has_partition(s: StorageView, topic: Seq<char>, partition: i32) -> bool {
    s.messages.dom().contains(topic) && s.messages[topic].dom().contains(partition)
}

/// A topic's partitions with those numbered `0..n` added where they are missing.
pub open spec fn widened(parts: Map<i32, Seq<MessageView>>, n: int) -> Map<i32, Seq<MessageView>> {
    Map::new(
        |p: i32| parts.dom().contains(p) || 0 <= p < n,
        |p: i32| if parts.dom().contains(p) { parts[p] } else { Seq::empty() },
    )
}

/// The storage after a topic has been created.
pub open spec fn topic_created(s: StorageView, topic: Seq<char>, n: i32) -> StorageView {
    StorageView {
        topics: s.topics.insert(topic, n),
        messages: s.messages.insert(topic, widened(partitions_of(s, topic), n as int)),
        ..s
    }
}

/// The storage after a message has been appended; its offset is the number of
/// messages before it.
pub open spec fn message_appended(
    s: StorageView,
    topic: Seq<char>,
    partition: i32,
    key: Option<Seq<u8>>,
    value: Seq<u8>,
    now: i64,
) -> StorageView {
    let log = messages_of(s, topic, partition);
    let m = MessageView { offset: log.len() as i64, key, value, timestamp_ms: now };
    StorageView {
        messages: s.messages.insert(topic, partitions_of(s, topic).insert(partition, log.push(m))),
        ..s
    }
}

/// The group that a member finds when it joins.
pub open spec fn group_to_join(s: StorageView, group: Seq<char>, member: Seq<char>, timeout: i64) -> GroupView {
    if s.groups.dom().contains(group) { s.groups[group] } else { fresh_group(member, timeout) }
}

/// The group after a member has joined; one without a topic subscribes to nothing.
pub open spec fn group_joined(
    s: StorageView,
    group: Seq<char>,
    member: Seq<char>,
    metadata: Seq<u8>,
    timeout: i64,
    now: i64,
) -> GroupView {
    let topic = subscribed_topic(metadata);
    joined(
        group_to_join(s, group, member, timeout),
        member,
        if topic.len() == 0 { None } else { Some(topic) },
        metadata,
        s.topics,
        now,
    )
}

/// A storage in memory, and where its broker is found.
pub struct InMemoryStorage {
    inner: InnerStorage,
    broker_id: i32,
    broker_host: String,
    broker_port: i32,
}

impl InMemoryStorage {
    /// What the storage keeps.
    pub closed spec fn view(&self) -> StorageView {
        self.inner@
    }

    /// Where the broker is found.
    pub closed spec fn address(&self) -> (i32, Seq<char>, i32) {
        (self.broker_id, self.broker_host@, self.broker_port)
    }

    /// An empty storage.
    pub fn new(broker_id: i32, broker_host: String, broker_port: i32) -> (r: Self)
        ensures
            r@ == empty_storage(),
            r.address() == (broker_id, broker_host@, broker_port),
    {
        InMemoryStorage { inner: InnerStorage::new(), broker_id, broker_host, broker_port }
    }

    /// Creates a topic, or gives it more partitions.
    pub fn create_topic(&mut self, topic: &String, num_partitions: i32) -> (r: Result<(), String>)
        ensures
            r is Ok == (num_partitions > 0),
            r is Ok ==> final(self)@ == topic_created(old(self)@, topic@, num_partitions),
            r matches Err(e) ==> e@ == "num_partitions must be > 0"@ && final(self)@ == old(self)@,
            final(self).address() == old(self).address(),
    {
        if num_partitions <= 0 {
            return Err("num_partitions must be > 0".to_owned());
        }
        self.inner.topics.insert(topic.dup(), num_partitions);
        let mut parts: VecMap<i32, Vec<BrokerStoredMessage>> = match self.inner.messages.remove(topic) {
            Some(p) => p,
            None => VecMap::new(),
        };
        let ghost before = partitions_of(old(self)@, topic@);
        assert(parts@ =~= before);
        let mut p: i32 = 0;
        assert(parts@ =~= widened(before, 0));
        while p < num_partitions
            invariant
                0 <= p <= num_partitions,
                parts@ == widened(before, p as int),
            decreases num_partitions - p,
        {
            if !parts.contains_key(&p) {
                let none: Vec<BrokerStoredMessage> = Vec::new();
                assert(none.deep_view() =~= Seq::<MessageView>::empty());
                parts.insert(p, none);
            }
            p += 1;
            assert(parts@ =~= widened(before, p as int));
        }
        self.inner.messages.insert(topic.dup(), parts);
        assert(self@.messages =~= topic_created(old(self)@, topic@, num_partitions).messages);
        assert(self@ =~= topic_created(old(self)@, topic@, num_partitions));
        Ok(())
    }

    /// The names of all topics, in any order.
    pub fn get_topics(&self) -> (r: Vec<String>)
        ensures
            r.deep_view().no_duplicates(),
            r.deep_view().to_set() == self@.messages.dom(),
    {
        self.inner.messages.keys()
    }

    /// The partitions of a topic, in any order.
    pub fn get_topic_partitions(&self, topic: &String) -> (r: Option<Vec<i32>>)
        ensures
            r is Some == self@.messages.dom().contains(topic@),
            r matches Some(v) ==> v@.no_duplicates() && v@.to_set() == self@.messages[topic@].dom(),
    {
        match self.inner.messages.get(topic) {
            Some(parts) => {
                let v = parts.keys();
                assert(v.deep_view() =~= v@);
                Some(v)
            },
            None => None,
        }
    }

    /// Appends a message; an unknown topic or partition comes into being.
    pub fn produce_message(
        &mut self,
        topic: &String,
        partition: i32,
        key: Option<Vec<u8>>,
        value: Vec<u8>,
        now: i64,
    ) -> (r: Result<i64, String>)
        ensures
            r matches Ok(o) && o == messages_of(old(self)@, topic@, partition).len() as i64,
            final(self)@ == message_appended(old(self)@, topic@, partition, key.deep_view(), value@, now),
            final(self).address() == old(self).address(),
    {
        let mut parts: VecMap<i32, Vec<BrokerStoredMessage>> = match self.inner.messages.remove(topic) {
            Some(p) => p,
            None => VecMap::new(),
        };
        assert(parts@ =~= partitions_of(old(self)@, topic@));
        let mut log: Vec<BrokerStoredMessage> = match parts.remove(&partition) {
            Some(l) => l,
            None => Vec::new(),
        };
        let ghost before = messages_of(old(self)@, topic@, partition);
        assert(log.deep_view() =~= before);
        let offset: i64 = log.len() as i64;
        let ghost m = MessageView { offset, key: key.deep_view(), value: value@, timestamp_ms: now };
        assert(value.deep_view() =~= value@);
        log.push(BrokerStoredMessage { offset, key, value, timestamp_ms: now });
        assert(log.deep_view() =~= before.push(m));
        parts.insert(partition, log);
        assert(parts@ =~= partitions_of(old(self)@, topic@).insert(partition, before.push(m)));
        self.inner.messages.insert(topic.dup(), parts);
        proof {
            let want = message_appended(old(self)@, topic@, partition, m.key, m.value, now);
            assert(self@.messages =~= want.messages);
            assert(self@ =~= want);
        }
        Ok(offset)
    }

    /// Reads the messages of a partition from an offset on, as far as they fit.
    pub fn fetch_messages(&self, topic: &String, partition: i32, offset: i64, max_bytes: i32) -> (r: Result<
        Vec<StoredMessage>,
        String,
    >)
        ensures
            r matches Ok(v) && is_fetched(messages_of(self@, topic@, partition), offset, max_bytes, v.deep_view()),
    {
        if let Some(parts) = self.inner.messages.get(topic) {
            if let Some(log) = parts.get(&partition) {
                return Ok(to_stored(fetch_from(log, offset, max_bytes)));
            }
        }
        let none: Vec<BrokerStoredMessage> = Vec::new();
        assert(none.deep_view() =~= Seq::<MessageView>::empty());
        Ok(to_stored(fetch_from(&none, offset, max_bytes)))
    }

    /// The offset that a request by time means: minus two the first message, any
    /// other time the end.
    pub fn get_partition_offset(&self, topic: &String, partition: i32, time: i64) -> (r: Result<Vec<i64>, String>)
        ensures
            r matches Ok(v) && v@ == (if !has_partition(self@, topic@, partition) {
                seq![0i64]
            } else if time == -2 {
                seq![
                    (if messages_of(self@, topic@, partition).len() == 0 {
                        0i64
                    } else {
                        messages_of(self@, topic@, partition)[0].offset
                    }),
                ]
            } else {
                seq![messages_of(self@, topic@, partition).len() as i64]
            }),
    {
        if let Some(parts) = self.inner.messages.get(topic) {
            if let Some(log) = parts.get(&partition) {
                if time == -2 {
                    if log.len() == 0 {
                        return Ok(vec![0i64]);
                    }
                    assert(log.deep_view()[0] == log@[0].deep_view());
                    return Ok(vec![log[0].offset]);
                }
                return Ok(vec![log.len() as i64]);
            }
        }
        Ok(vec![0i64])
    }

    /// Records how far a group has read, with a remark.
    pub fn commit_offset(
        &mut self,
        group: &String,
        topic: &String,
        partition: i32,
        offset: i64,
        metadata: String,
    ) -> (r: Result<(), String>)
        ensures
            r is Ok,
            final(self)@ == (StorageView {
                offsets: old(self)@.offsets.insert((group@, topic@, partition), (offset, metadata@)),
                ..old(self)@
            }),
            final(self).address() == old(self).address(),
    {
        self.inner.offsets.insert((group.dup(), topic.dup(), partition), (offset, metadata));
        Ok(())
    }

    /// How far a group has read; minus one where it has committed nothing.
    pub fn fetch_offset(&self, group: &String, topic: &String, partition: i32) -> (r: Result<(i64, String), String>)
        ensures
            r matches Ok(v) && (v.0, v.1@) == (if self@.offsets.dom().contains((group@, topic@, partition)) {
                self@.offsets[(group@, topic@, partition)]
            } else {
                (-1i64, Seq::<char>::empty())
            }),
    {
        let k = (group.dup(), topic.dup(), partition);
        match self.inner.offsets.get(&k) {
            Some(v) => Ok((v.0, v.1.dup())),
            None => {
                let none = String::new();
                assert(none@ =~= Seq::<char>::empty());
                Ok((-1, none))
            },
        }
    }

    /// Where the broker is found.
    pub fn get_coordinator_info(&self) -> (r: (i32, String, i32))
        ensures
            (r.0, r.1@, r.2) == self.address(),
    {
        (self.broker_id, self.broker_host.dup(), self.broker_port)
    }

    /// A member joins a group, which comes into being where it is unknown.
    pub fn join_group(
        &mut self,
        group_id: &String,
        member_id: &String,
        protocol_metadata: &[u8],
        session_timeout_ms: i64,
        now: i64,
    ) -> (r: Result<JoinAnswer, String>)
        requires
            group_joined(old(self)@, group_id@, member_id@, protocol_metadata@, session_timeout_ms, now).generation_id
                <= i32::MAX,
        ensures
            final(self)@ == (StorageView {
                groups: old(self)@.groups.insert(
                    group_id@,
                    group_joined(old(self)@, group_id@, member_id@, protocol_metadata@, session_timeout_ms, now),
                ),
                heard: old(self)@.heard.insert((group_id@, member_id@), now),
                ..old(self)@
            }),
            r matches Ok(a) && is_join_answer(final(self)@.groups[group_id@], member_id@, a),
            final(self).address() == old(self).address(),
    {
        let topic = read_topic(protocol_metadata);
        let subscription = if topic.as_str().is_empty() { None } else { Some(topic) };
        self.inner.heard.insert((group_id.dup(), member_id.dup()), now);
        let mut group = match self.inner.groups.remove(group_id) {
            Some(g) => g,
            None => new_group(member_id, session_timeout_ms),
        };
        assert(group@ == group_to_join(old(self)@, group_id@, member_id@, session_timeout_ms));
        let metadata = vstd::slice::slice_to_vec(protocol_metadata);
        join(&mut group, member_id, subscription, metadata, &self.inner.topics, now);
        let answer = join_answer(&group, member_id);
        self.inner.groups.insert(group_id.dup(), group);
        proof {
            let g = group_joined(old(self)@, group_id@, member_id@, protocol_metadata@, session_timeout_ms, now);
            assert(self@.groups =~= old(self)@.groups.insert(group_id@, g));
        }
        Ok(answer)
    }

    /// The partitions of a member, once no rebalance is going on.
    pub fn sync_group(&self, group_id: &String, member_id: &String) -> (r: Result<Vec<u8>, String>)
        ensures
            !self@.groups.dom().contains(group_id@) ==> (r matches Err(e) && e@ == "Group not found"@),
            self@.groups.dom().contains(group_id@) && self@.groups[group_id@].status == GroupStatus::PreparingRebalance
                ==> (r matches Err(e) && e@ == "REBALANCE_IN_PROGRESS"@),
            self@.groups.dom().contains(group_id@) && self@.groups[group_id@].status != GroupStatus::PreparingRebalance
                ==> (r matches Ok(b) && b@ == i32_list(assigned_to(self@.groups[group_id@], member_id@))),
    {
        match self.inner.groups.get(group_id) {
            None => Err("Group not found".to_owned()),
            Some(group) => {
                if group.status == GroupStatus::PreparingRebalance {
                    return Err("REBALANCE_IN_PROGRESS".to_owned());
                }
                Ok(encoded_assignment(group, member_id))
            },
        }
    }

    /// A member reports that it is alive. During a rebalance it is told so.
    pub fn heartbeat(&mut self, group_id: &String, member_id: &String, now: i64) -> (r: Result<(), String>)
        ensures
            ({
                let known = old(self)@.groups.dom().contains(group_id@) && is_member(
                    old(self)@.groups[group_id@],
                    member_id@,
                );
                &&& !known ==> (r matches Err(e) && e@ == "Unknown member"@) && final(self)@ == old(self)@
                &&& known ==> final(self)@ == (StorageView {
                    heard: old(self)@.heard.insert((group_id@, member_id@), now),
                    ..old(self)@
                })
                &&& known && old(self)@.groups[group_id@].status == GroupStatus::PreparingRebalance ==> (r matches Err(e)
                    && e@ == "REBALANCE_IN_PROGRESS"@)
                &&& known && old(self)@.groups[group_id@].status != GroupStatus::PreparingRebalance ==> r is Ok
            }),
            final(self).address() == old(self).address(),
    {
        let status = match self.inner.groups.get(group_id) {
            None => {
                return Err("Unknown member".to_owned());
            },
            Some(group) => {
                if !has_member(group, member_id) {
                    return Err("Unknown member".to_owned());
                }
                group.status
            },
        };
        self.inner.heard.insert((group_id.dup(), member_id.dup()), now);
        if status == GroupStatus::PreparingRebalance {
            return Err("REBALANCE_IN_PROGRESS".to_owned());
        }
        Ok(())
    }

    /// A member leaves its group.
    pub fn leave_group(&mut self, group_id: &String, member_id: &String, now: i64) -> (r: Result<(), String>)
        requires
            old(self)@.groups.dom().contains(group_id@) ==> left(
                old(self)@.groups[group_id@],
                member_id@,
                now,
            ).generation_id <= i32::MAX,
        ensures
            !old(self)@.groups.dom().contains(group_id@) ==> (r matches Err(e) && e@ == "Group not found"@)
                && final(self)@ == old(self)@,
            old(self)@.groups.dom().contains(group_id@) ==> r is Ok && final(self)@ == (StorageView {
                groups: old(self)@.groups.insert(group_id@, left(old(self)@.groups[group_id@], member_id@, now)),
                heard: old(self)@.heard.remove((group_id@, member_id@)),
                ..old(self)@
            }),
            final(self).address() == old(self).address(),
    {
        match self.inner.groups.remove(group_id) {
            None => {
                assert(self@.groups =~= old(self)@.groups);
                Err("Group not found".to_owned())
            },
            Some(mut group) => {
                leave(&mut group, member_id, now);
                self.inner.groups.insert(group_id.dup(), group);
                let k = (group_id.dup(), member_id.dup());
                let _ = self.inner.heard.remove(&k);
                proof {
                    let g = left(old(self)@.groups[group_id@], member_id@, now);
                    assert(self@.groups =~= old(self)@.groups.insert(group_id@, g));
                }
                Ok(())
            },
        }
    }

    /// Strikes off silent members and ends rebalances that last too long.
    pub fn check_liveness(&mut self, now: i64)
        requires
            forall|g: Seq<char>|
                #[trigger] old(self)@.groups.dom().contains(g) ==> checked(
                    old(self)@.groups[g],
                    old(self)@.heard,
                    g,
                    old(self)@.topics,
                    now,
                    DEFAULT_REBALANCE_TIMEOUT_MS,
                ).generation_id <= i32::MAX,
        ensures
            final(self)@ == (StorageView {
                groups: all_checked(
                    old(self)@.groups,
                    old(self)@.heard,
                    old(self)@.topics,
                    now,
                    DEFAULT_REBALANCE_TIMEOUT_MS,
                ),
                ..old(self)@
            }),
            final(self).address() == old(self).address(),
    {
        proof {
            assert forall|g: Seq<char>| #[trigger] self.inner.groups@.dom().contains(g) implies checked(
                self.inner.groups@[g],
                self.inner.heard@,
                g,
                self.inner.topics@,
                now,
                DEFAULT_REBALANCE_TIMEOUT_MS,
            ).generation_id <= i32::MAX by {
                assert(old(self)@.groups.dom().contains(g));
            }
        }
        check_groups(&mut self.inner.groups, &self.inner.heard, &self.inner.topics, now, DEFAULT_REBALANCE_TIMEOUT_MS);
    }

    /// Drops the messages that retention does not keep.
    pub fn apply_retention(&mut self, retention: &RetentionConfig, now: i64)
        ensures
            final(self)@ == (StorageView {
                messages: all_retained(old(self)@.messages, *retention, now),
                ..old(self)@
            }),
            final(self).address() == old(self).address(),
    {
        let ghost before = self@.messages;
        let ids = self.inner.messages.keys();
        let ghost order = ids.deep_view();
        let mut i: usize = 0;
        while i < ids.len()
            invariant
                i <= ids@.len(),
                order == ids.deep_view(),
                order.no_duplicates(),
                order.to_set() == before.dom(),
                before == old(self)@.messages,
                self@.messages.dom() == before.dom(),
                self@ == (StorageView { messages: self@.messages, ..old(self)@ }),
                self.address() == old(self).address(),
                forall|j: int|
                    0 <= j < i ==> self@.messages[#[trigger] order[j]] == topic_retained(before[order[j]], *retention, now),
                forall|j: int| i <= j < order.len() ==> self@.messages[#[trigger] order[j]] == before[order[j]],
            decreases ids@.len() - i,
        {
            let id = &ids[i];
            proof {
                assert(order[i as int] == id@);
                assert(order.to_set().contains(order[i as int]));
            }
            match self.inner.messages.remove(id) {
                Some(mut parts) => {
                    retain_topic(&mut parts, retention, now);
                    self.inner.messages.insert(id.dup(), parts);
                },
                None => {},
            }
            assert(self@.messages.dom() =~= before.dom());
            i += 1;
        }
        proof {
            let want = all_retained(before, *retention, now);
            assert forall|t: Seq<char>| #[trigger] self@.messages.dom().contains(t) implies self@.messages[t] == want[t] by {
                assert(order.to_set().contains(t));
                let j = choose|j: int| 0 <= j < order.len() && order[j] == t;
                assert(self@.messages[order[j]] == topic_retained(before[order[j]], *retention, now));
            }
            assert(self@.messages =~= want);
        }
    }
}

/// The message is younger than a span.
pub open spec fn younger(now: i64, ms: u64) -> spec_fn(MessageView) -> bool {
    |m: MessageView| now - m.timestamp_ms < span(ms)
}

/// What retention keeps of a log: the young messages, and of those the last.
pub open spec fn retained(log: Seq<MessageView>, retention: RetentionConfig, now: i64) -> Seq<MessageView> {
    let young = match retention.retention_ms {
        Some(ms) => log.filter(younger(now, ms)),
        None => log,
    };
    match retention.max_messages_per_partition {
        Some(n) => if young.len() > n { young.skip(young.len() - n) } else { young },
        None => young,
    }
}

/// What retention keeps of a topic.
pub open spec fn topic_retained(
    parts: Map<i32, Seq<MessageView>>,
    retention: RetentionConfig,
    now: i64,
) -> Map<i32, Seq<MessageView>> {
    Map::new(|p: i32| parts.dom().contains(p), |p: i32| retained(parts[p], retention, now))
}

/// What retention keeps of all topics.
pub open spec fn all_retained(
    messages: Map<Seq<char>, Map<i32, Seq<MessageView>>>,
    retention: RetentionConfig,
    now: i64,
) -> Map<Seq<char>, Map<i32, Seq<MessageView>>> {
    Map::new(
        |t: Seq<char>| messages.dom().contains(t),
        |t: Seq<char>| topic_retained(messages[t], retention, now),
    )
}

fn keep_young(log: Vec<BrokerStoredMessage>, now: i64, ms: u64) -> (r: Vec<BrokerStoredMessage>)
    ensures
        r.deep_view() == log.deep_view().filter(younger(now, ms)),
{
    let ghost s = log.deep_view();
    let ghost p = younger(now, ms);
    let span_ms: i128 = if ms <= 0x7fff_ffff_ffff_ffff { ms as i128 } else { ms as i128 - 0x1_0000_0000_0000_0000i128 };
    let mut r: Vec<BrokerStoredMessage> = Vec::new();
    proof {
        lemma_filter_ends(s, p);
        assert(r.deep_view() =~= Seq::empty());
    }
    for m in it: log
        invariant
            it.seq() == log@,
            s == log.deep_view(),
            p == younger(now, ms),
            span_ms == span(ms),
            r.deep_view() == s.take(it.index()).filter(p),
    {
        let ghost before = r.deep_view();
        let ghost v = m.deep_view();
        proof {
            lemma_filter_step(s, p, it.index());
            assert(s[it.index()] == v);
        }
        if (now as i128) - (m.timestamp_ms as i128) < span_ms {
            r.push(m);
            assert(r.deep_view() =~= before.push(v));
        }
    }
    r
}

fn keep_last(log: Vec<BrokerStoredMessage>, n: usize) -> (r: Vec<BrokerStoredMessage>)
    ensures
        r.deep_view() == (if log@.len() > n {
            log.deep_view().skip(log@.len() - n)
        } else {
            log.deep_view()
        }),
{
    let mut all = log;
    if all.len() > n {
        let len = all.len();
        let ghost s = all.deep_view();
        let r = all.split_off(len - n);
        assert(r.deep_view() =~= s.skip(len - n));
        r
    } else {
        all
    }
}

fn retain_log(log: Vec<BrokerStoredMessage>, retention: &RetentionConfig, now: i64) -> (r: Vec<BrokerStoredMessage>)
    ensures
        r.deep_view() == retained(log.deep_view(), *retention, now),
{
    let young = match retention.retention_ms {
        Some(ms) => keep_young(log, now, ms),
        None => log,
    };
    match retention.max_messages_per_partition {
        Some(n) => keep_last(young, n),
        None => young,
    }
}

fn retain_topic(parts: &mut VecMap<i32, Vec<BrokerStoredMessage>>, retention: &RetentionConfig, now: i64)
    ensures
        final(parts)@ == topic_retained(old(parts)@, *retention, now),
{
    let ghost before = parts@;
    let ids = parts.keys();
    let ghost order = ids.deep_view();
    let mut i: usize = 0;
    while i < ids.len()
        invariant
            i <= ids@.len(),
            order == ids.deep_view(),
            order.no_duplicates(),
            order.to_set() == before.dom(),
            parts@.dom() == before.dom(),
            forall|j: int| 0 <= j < i ==> parts@[#[trigger] order[j]] == retained(before[order[j]], *retention, now),
            forall|j: int| i <= j < order.len() ==> parts@[#[trigger] order[j]] == before[order[j]],
        decreases ids@.len() - i,
    {
        let id = ids[i];
        proof {
            assert(order[i as int] == id);
            assert(order.to_set().contains(order[i as int]));
        }
        match parts.remove(&id) {
            Some(log) => {
                parts.insert(id, retain_log(log, retention, now));
            },
            None => {},
        }
        assert(parts@.dom() =~= before.dom());
        i += 1;
    }
    proof {
        let want = topic_retained(before, *retention, now);
        assert forall|p: i32| #[trigger] parts@.dom().contains(p) implies parts@[p] == want[p] by {
            assert(order.to_set().contains(p));
            let j = choose|j: int| 0 <= j < order.len() && order[j] == p;
            assert(parts@[order[j]] == retained(before[order[j]], *retention, now));
        }
        assert(parts@ =~= want);
    }
}

/// Creating a topic gives it its partitions, numbered from zero and empty. Messages that
/// are there stay, and other topics are not touched.
pub proof fn created_topic_has_its_partitions(s: StorageView, topic: Seq<char>, n: i32, t: Seq<char>, p: i32)
    ensures
        ({
            let after = topic_created(s, topic, n);
            let there = s.messages.dom().contains(t) && s.messages[t].dom().contains(p);
            &&& after.topics.dom().contains(topic) && after.topics[topic] == n
            &&& t != topic ==> (after.topics.dom().contains(t) <==> s.topics.dom().contains(t))
            &&& t != topic && s.topics.dom().contains(t) ==> after.topics[t] == s.topics[t]
            &&& after.messages.dom().contains(t) <==> s.messages.dom().contains(t) || t == topic
            &&& after.messages.dom().contains(t) ==> (after.messages[t].dom().contains(p) <==> there || (t == topic && 0 <= p
                < n))
            &&& there ==> after.messages[t][p] == s.messages[t][p]
            &&& t == topic && 0 <= p < n && !there ==> after.messages[t][p].len() == 0
            &&& after.offsets == s.offsets
            &&& after.groups == s.groups
            &&& after.heard == s.heard
        }),
{
}

/// A message that is stored stands behind the others of its partition, with its key, its
/// value and the time, and its offset is the number of messages before it. No other
/// partition, and nothing else, is touched.
pub proof fn stored_message_stands_last(
    s: StorageView,
    topic: Seq<char>,
    partition: i32,
    key: Option<Seq<u8>>,
    value: Seq<u8>,
    now: i64,
    t: Seq<char>,
    p: i32,
)
    ensures
        ({
            let after = message_appended(s, topic, partition, key, value, now);
            let there = s.messages.dom().contains(t) && s.messages[t].dom().contains(p);
            let ours = t == topic && p == partition;
            &&& after.messages.dom().contains(t) && after.messages[t].dom().contains(p) <==> there || ours
            &&& there && !ours ==> after.messages[t][p] == s.messages[t][p]
            &&& ours ==> {
                let log = after.messages[t][p];
                let n = if there { s.messages[t][p].len() } else { 0 };
                &&& log.len() == n + 1
                &&& there ==> log.drop_last() == s.messages[t][p]
                &&& log.last().offset == n as i64
                &&& log.last().key == key
                &&& log.last().value == value
                &&& log.last().timestamp_ms == now
            }
            &&& after.topics == s.topics
            &&& after.offsets == s.offsets
            &&& after.groups == s.groups
            &&& after.heard == s.heard
        }),
{
    if s.messages.dom().contains(topic) && s.messages[topic].dom().contains(partition) {
        let log = s.messages[topic][partition];
        let after = message_appended(s, topic, partition, key, value, now).messages[topic][partition];
        assert(after.drop_last() =~= log);
    }
}

/// What retention keeps of a log: messages that are young enough, in their order, as many
/// as may stay at most, and of the young ones always the last. Where fewer are kept than
/// may stay all young ones are.
pub proof fn retention_keeps_the_last_young(log: Seq<MessageView>, retention: RetentionConfig, now: i64) -> (at: Seq<int>)
    requires
        retention.retention_ms matches Some(ms) ==> ms <= i64::MAX,
    ensures
        ({
            let r = retained(log, retention, now);
            let young = |m: MessageView| retention.retention_ms matches Some(ms) ==> now - m.timestamp_ms < ms;
            &&& at.len() == r.len()
            &&& forall|i: int| 0 <= i < at.len() ==> 0 <= #[trigger] at[i] < log.len() && log[at[i]] == r[i] && young(log[at[i]])
            &&& forall|i: int, j: int| 0 <= i < j < at.len() ==> #[trigger] at[i] < #[trigger] at[j]
            &&& retention.max_messages_per_partition matches Some(n) ==> r.len() <= n
            &&& forall|k: int|
                0 <= k < log.len() && young(#[trigger] log[k]) && (retention.max_messages_per_partition is None || r.len()
                    < retention.max_messages_per_partition->0 || (at.len() > 0 && at[0] <= k)) ==> at.contains(k)
        }),
{
    let all: Seq<int> = match retention.retention_ms {
        Some(ms) => lemma_filter_places(log, younger(now, ms)),
        None => Seq::new(log.len(), |i: int| i),
    };
    assert(forall|k: int|
        0 <= k < log.len() && (retention.retention_ms matches Some(ms) ==> now - (#[trigger] log[k]).timestamp_ms < ms)
            ==> all.contains(k)) by {
        match retention.retention_ms {
            Some(ms) => {
                assert forall|k: int| 0 <= k < log.len() && now - (#[trigger] log[k]).timestamp_ms < ms implies all.contains(
                    k,
                ) by {
                    assert(younger(now, ms)(log[k]));
                }
            },
            None => {
                assert forall|k: int| 0 <= k < log.len() implies #[trigger] all.contains(k) by {
                    assert(all[k] == k);
                }
            },
        }
    }
    let keep: int = match retention.max_messages_per_partition {
        Some(n) => if all.len() > n { all.len() - n } else { 0 },
        None => 0,
    };
    let at = all.skip(keep);
    assert forall|k: int| all.contains(k) && (keep == 0 || (at.len() > 0 && at[0] <= k)) implies #[trigger] at.contains(k) by {
        let x = choose|x: int| 0 <= x < all.len() && all[x] == k;
        if keep > 0 && x < keep {
            assert(all[x] < all[keep]);
        }
        assert(at[x - keep] == k);
    }
    at
}

/// Retention goes through every partition of every topic; none comes or goes.
pub proof fn retention_goes_through_everything(
    messages: Map<Seq<char>, Map<i32, Seq<MessageView>>>,
    retention: RetentionConfig,
    now: i64,
    t: Seq<char>,
    p: i32,
)
    ensures
        ({
            let after = all_retained(messages, retention, now);
            &&& after.dom().contains(t) <==> messages.dom().contains(t)
            &&& messages.dom().contains(t) ==> (after[t].dom().contains(p) <==> messages[t].dom().contains(p))
            &&& messages.dom().contains(t) && messages[t].dom().contains(p) ==> after[t][p] == retained(
                messages[t][p],
                retention,
                now,
            )
        }),
{
}

/// A member that joins is told the generation, the leader and all members of the group,
/// and its own name.
pub proof fn joiner_is_told_who_is_there(g: GroupView, member: Seq<char>, r: JoinAnswer, i: int)
    requires
        is_join_answer(g, member, r),
    ensures
        r.0 == g.generation_id,
        r.1@ == g.leader_id,
        r.2@ == member,
        r.3@.len() == g.members.len(),
        0 <= i < g.members.len() ==> r.3@[i].member_id@ == g.members[i].member_id && r.3@[i].metadata@ == g.members[i].metadata,
{
    assert(r.3.deep_view().len() == r.3@.len());
    if 0 <= i < g.members.len() {
        assert(r.3.deep_view()[i] == r.3@[i].deep_view());
        assert(r.3@[i].metadata.deep_view() =~= r.3@[i].metadata@);
    }
}

/// The metadata of a joining member is the name of the topic that it reads.
pub proof fn metadata_names_the_topic(topic: Seq<char>)
    ensures
        subscribed_topic(encode_utf8(topic)) == topic,
{
    encode_utf8_valid_utf8(topic);
    encode_utf8_decode_utf8(topic);
}

/// A member is told its own partitions, and who has none is told none.
pub proof fn member_is_told_its_own_partitions(g: GroupView, member: Seq<char>)
    ensures
        g.assignments.dom().contains(member) ==> assigned_to(g, member) == g.assignments[member],
        !g.assignments.dom().contains(member) ==> assigned_to(g, member).len() == 0,
{
}

/// Who joins an unknown group is its first member and its leader, and the group keeps to
/// the session timeout that was asked for. Who names a topic has subscribed to it.
pub proof fn first_to_join_leads(
    s: StorageView,
    group: Seq<char>,
    member: Seq<char>,
    metadata: Seq<u8>,
    timeout: i64,
    now: i64,
)
    requires
        !s.groups.dom().contains(group),
    ensures
        ({
            let g = group_joined(s, group, member, metadata, timeout, now);
            &&& g.members == seq![MemberView { member_id: member, metadata }]
            &&& g.leader_id == member
            &&& g.generation_id == 0
            &&& g.session_timeout_ms == timeout
            &&& g.status == GroupStatus::Stable
            &&& subscribed_topic(metadata).len() > 0 ==> g.subscriptions == Map::<Seq<char>, Seq<char>>::empty().insert(
                member,
                subscribed_topic(metadata),
            )
            &&& subscribed_topic(metadata).len() == 0 ==> g.subscriptions == Map::<Seq<char>, Seq<char>>::empty()
        }),
{
    let g = group_joined(s, group, member, metadata, timeout, now);
    assert(g.members =~= seq![MemberView { member_id: member, metadata }]);
}

/// Who joins a known group joins that group, with the topic that its metadata names, if
/// it names one.
pub proof fn later_ones_join_the_group(
    s: StorageView,
    group: Seq<char>,
    member: Seq<char>,
    metadata: Seq<u8>,
    timeout: i64,
    now: i64,
)
    requires
        s.groups.dom().contains(group),
    ensures
        subscribed_topic(metadata).len() > 0 ==> group_joined(s, group, member, metadata, timeout, now) == joined(
            s.groups[group],
            member,
            Some(subscribed_topic(metadata)),
            metadata,
            s.topics,
            now,
        ),
        subscribed_topic(metadata).len() == 0 ==> group_joined(s, group, member, metadata, timeout, now) == joined(
            s.groups[group],
            member,
            None,
            metadata,
            s.topics,
            now,
        ),
{
}

} // verus!

//! What committed requests do to the replicated state.
use vstd::prelude::*;

use crate::broker::raft_types::{
    empty_state, BrokerNode, BrokerRequest, BrokerResponse, BrokerStateMachineData, ConsumerGroupState, ConsumerGroupView,
    GroupMember, GroupMemberView, NodeView, ResponseView, StateView, TopicConfig, TopicMessages, TopicOffsets,
};
use crate::maps::{Dup, VecMap};
use crate::seqs::{lemma_filter_ends, lemma_filter_holds, lemma_filter_step, lemma_next_element};
use crate::text::{decimal_text, decimal_u64};

verus! {

/// The messages of a topic; an unknown one has none.
pub open spec fn topic_messages(s: StateView, topic: Seq<char>) -> Map<i32, Seq<(i64, Seq<u8>)>> {
    if s.messages.dom().contains(topic) { s.messages[topic] } else { Map::empty() }
}

/// The messages of a partition; an unknown one has none.
pub open spec fn partition_messages(s: StateView, topic: Seq<char>, partition: i32) -> Seq<(i64, Seq<u8>)> {
    let t = topic_messages(s, topic);
    if t.dom().contains(partition) { t[partition] } else { Seq::empty() }
}

/// What a group has committed; an unknown one nothing.
pub open spec fn group_offsets(s: StateView, group: Seq<char>) -> Map<Seq<char>, Map<i32, (i64, Seq<char>)>> {
    if s.offsets.dom().contains(group) { s.offsets[group] } else { Map::empty() }
}

/// What a group has committed for a topic; nothing where it has not.
pub open spec fn topic_offsets(s: StateView, group: Seq<char>, topic: Seq<char>) -> Map<i32, (i64, Seq<char>)> {
    let g = group_offsets(s, group);
    if g.dom().contains(topic) { g[topic] } else { Map::empty() }
}

/// The partitions of a topic with empty ones added where they are missing.
pub open spec fn partitions_filled(t: Map<i32, Seq<(i64, Seq<u8>)>>, n: int) -> Map<i32, Seq<(i64, Seq<u8>)>> {
    Map::new(
        |p: i32| t.dom().contains(p) || 0 <= p < n,
        |p: i32| if t.dom().contains(p) { t[p] } else { Seq::empty() },
    )
}

/// Somebody among the members has this id.
pub open spec fn has_member_id(members: Seq<GroupMemberView>, member: Seq<char>) -> bool {
    exists|i: int| 0 <= i < members.len() && (#[trigger] members[i]).member_id == member
}

/// The group has the member.
pub open spec fn has_group_member(g: ConsumerGroupView, member: Seq<char>) -> bool {
    has_member_id(g.members, member)
}

/// The group that a member joins; a new one is led by it.
pub open spec fn group_of(s: StateView, group: Seq<char>, member: Seq<char>, protocol: Seq<char>) -> ConsumerGroupView {
    if s.groups.dom().contains(group) {
        s.groups[group]
    } else {
        ConsumerGroupView { generation_id: 0, leader_id: member, protocol, members: Seq::empty() }
    }
}

/// A group after a member has joined; only a new member begins a new generation.
pub open spec fn group_with(g: ConsumerGroupView, member: Seq<char>) -> ConsumerGroupView {
    if has_group_member(g, member) {
        g
    } else {
        ConsumerGroupView {
            generation_id: g.generation_id + 1,
            members: g.members.push(GroupMemberView { member_id: member, metadata: Seq::empty() }),
            ..g
        }
    }
}

/// The members but one.
pub open spec fn other_than(member: Seq<char>) -> spec_fn(GroupMemberView) -> bool {
    |m: GroupMemberView| m.member_id != member
}

/// The groups after a member has left one; a group without members is gone.
pub open spec fn groups_without(
    groups: Map<Seq<char>, ConsumerGroupView>,
    group: Seq<char>,
    member: Seq<char>,
) -> Map<Seq<char>, ConsumerGroupView> {
    if !groups.dom().contains(group) {
        groups
    } else {
        let g = groups[group];
        let rest = g.members.filter(other_than(member));
        if rest.len() == 0 {
            groups.remove(group)
        } else {
            groups.insert(
                group,
                ConsumerGroupView { generation_id: g.generation_id + 1, members: rest, ..g },
            )
        }
    }
}

/// The committed offsets of all groups without those of a topic.
pub open spec fn offsets_without(
    offsets: Map<Seq<char>, Map<Seq<char>, Map<i32, (i64, Seq<char>)>>>,
    topic: Seq<char>,
) -> Map<Seq<char>, Map<Seq<char>, Map<i32, (i64, Seq<char>)>>> {
    Map::new(|g: Seq<char>| offsets.dom().contains(g), |g: Seq<char>| offsets[g].remove(topic))
}

/// The state after a request.
pub open spec fn requested(s: StateView, request: BrokerRequest) -> StateView {
    match request {
        BrokerRequest::Produce { topic, partition, message } => {
            let log = partition_messages(s, topic@, partition);
            StateView {
                messages: s.messages.insert(
                    topic@,
                    topic_messages(s, topic@).insert(partition, log.push((log.len() as i64, message.deep_view()))),
                ),
                ..s
            }
        },
        BrokerRequest::CommitOffset { group, topic, partition, offset, metadata } => StateView {
            offsets: s.offsets.insert(
                group@,
                group_offsets(s, group@).insert(
                    topic@,
                    topic_offsets(s, group@, topic@).insert(partition, (offset, metadata@)),
                ),
            ),
            ..s
        },
        BrokerRequest::JoinGroup { group_id, member_id, protocol_type } => StateView {
            groups: s.groups.insert(
                group_id@,
                group_with(group_of(s, group_id@, member_id@, protocol_type@), member_id@),
            ),
            ..s
        },
        BrokerRequest::LeaveGroup { group_id, member_id } => StateView {
            groups: groups_without(s.groups, group_id@, member_id@),
            ..s
        },
        BrokerRequest::CreateTopic { topic, partitions, replication_factor } => StateView {
            topics: s.topics.insert(topic@, TopicConfig { partitions, replication_factor }),
            messages: s.messages.insert(topic@, partitions_filled(topic_messages(s, topic@), partitions as int)),
            ..s
        },
        BrokerRequest::DeleteTopic { topic } => StateView {
            topics: s.topics.remove(topic@),
            messages: s.messages.remove(topic@),
            offsets: offsets_without(s.offsets, topic@),
            ..s
        },
        BrokerRequest::GroupHeartbeat { .. } => s,
    }
}

/// What a request is answered.
pub open spec fn response_to(s: StateView, request: BrokerRequest) -> ResponseView {
    match request {
        BrokerRequest::Produce { topic, partition, message } => ResponseView::Produce {
            offset: partition_messages(s, topic@, partition).len() as i64,
        },
        BrokerRequest::CommitOffset { .. } => ResponseView::CommitOffset,
        BrokerRequest::JoinGroup { group_id, member_id, protocol_type } => {
            let g = group_with(group_of(s, group_id@, member_id@, protocol_type@), member_id@);
            ResponseView::JoinGroup {
                generation_id: g.generation_id,
                leader_id: g.leader_id,
                member_id: member_id@,
            }
        },
        BrokerRequest::LeaveGroup { .. } => ResponseView::LeaveGroup,
        BrokerRequest::CreateTopic { .. } => ResponseView::CreateTopic,
        BrokerRequest::DeleteTopic { .. } => ResponseView::DeleteTopic,
        BrokerRequest::GroupHeartbeat { group_id, generation_id, member_id } => {
            if !s.groups.dom().contains(group_id@) {
                ResponseView::Error("Unknown group"@)
            } else if s.groups[group_id@].generation_id == generation_id && has_group_member(
                s.groups[group_id@],
                member_id@,
            ) {
                ResponseView::GroupHeartbeat
            } else {
                ResponseView::Error("Invalid generation or unknown member"@)
            }
        },
    }
}

/// No generation outgrows its type.
pub open spec fn request_fits(s: StateView, request: BrokerRequest) -> bool {
    match request {
        BrokerRequest::JoinGroup { group_id, member_id, .. } => s.groups.dom().contains(group_id@) && !has_group_member(
            s.groups[group_id@],
            member_id@,
        ) ==> s.groups[group_id@].generation_id < i32::MAX,
        BrokerRequest::LeaveGroup { group_id, member_id } => s.groups.dom().contains(group_id@)
            && s.groups[group_id@].members.filter(other_than(member_id@)).len() > 0 ==> s.groups[group_id@].generation_id
            < i32::MAX,
        _ => true,
    }
}

fn find_member(members: &Vec<GroupMember>, member_id: &String) -> (b: bool)
    ensures
        b == has_member_id(members.deep_view(), member_id@),
{
    let mut i: usize = 0;
    while i < members.len()
        invariant
            i <= members@.len(),
            forall|j: int| 0 <= j < i ==> (#[trigger] members.deep_view()[j]).member_id != member_id@,
        decreases members@.len() - i,
    {
        if members[i].member_id == *member_id {
            assert(members.deep_view()[i as int].member_id == member_id@);
            return true;
        }
        i += 1;
    }
    false
}

fn members_without(members: &Vec<GroupMember>, member_id: &String) -> (r: Vec<GroupMember>)
    ensures
        r.deep_view() == members.deep_view().filter(other_than(member_id@)),
{
    let ghost all = members.deep_view();
    let ghost p = other_than(member_id@);
    let mut r: Vec<GroupMember> = Vec::new();
    let mut i: usize = 0;
    proof {
        lemma_filter_ends(all, p);
        assert(r.deep_view() =~= Seq::empty());
    }
    while i < members.len()
        invariant
            i <= members@.len(),
            all == members.deep_view(),
            p == other_than(member_id@),
            r.deep_view() == all.take(i as int).filter(p),
        decreases members@.len() - i,
    {
        let ghost before = r.deep_view();
        proof {
            lemma_filter_step(all, p, i as int);
        }
        if members[i].member_id != *member_id {
            r.push(members[i].dup());
            assert(r.deep_view() =~= before.push(all[i as int]));
        }
        i += 1;
    }
    assert(all.take(i as int) =~= all);
    r
}

fn produce(data: &mut BrokerStateMachineData, topic: &String, partition: i32, message: &Vec<u8>) -> (offset: i64)
    ensures
        offset == partition_messages(old(data)@, topic@, partition).len() as i64,
        ({
            let log = partition_messages(old(data)@, topic@, partition);
            final(data)@ == (StateView {
                messages: old(data)@.messages.insert(
                    topic@,
                    topic_messages(old(data)@, topic@).insert(
                        partition,
                        log.push((log.len() as i64, message.deep_view())),
                    ),
                ),
                ..old(data)@
            })
        }),
{
    let mut parts: TopicMessages = match data.messages.remove(topic) {
        Some(t) => t,
        None => VecMap::new(),
    };
    assert(parts@ == topic_messages(old(data)@, topic@));
    let mut log: Vec<(i64, Vec<u8>)> = match parts.remove(&partition) {
        Some(l) => l,
        None => Vec::new(),
    };
    let ghost before = log.deep_view();
    assert(before =~= partition_messages(old(data)@, topic@, partition));
    let offset = #[verifier::truncate] (log.len() as i64);
    log.push((offset, message.dup()));
    assert(log.deep_view() =~= before.push((offset, message.deep_view())));
    parts.insert(partition, log);
    assert(parts@ =~= topic_messages(old(data)@, topic@).insert(partition, log.deep_view()));
    data.messages.insert(topic.dup(), parts);
    assert(data@.messages =~= old(data)@.messages.insert(topic@, parts@));
    offset
}

fn commit(data: &mut BrokerStateMachineData, group: &String, topic: &String, partition: i32, offset: i64, metadata: &String)
    ensures
        final(data)@ == (StateView {
            offsets: old(data)@.offsets.insert(
                group@,
                group_offsets(old(data)@, group@).insert(
                    topic@,
                    topic_offsets(old(data)@, group@, topic@).insert(partition, (offset, metadata@)),
                ),
            ),
            ..old(data)@
        }),
{
    let mut topics: VecMap<String, TopicOffsets> = match data.offsets.remove(group) {
        Some(t) => t,
        None => VecMap::new(),
    };
    assert(topics@ == group_offsets(old(data)@, group@));
    let mut parts: TopicOffsets = match topics.remove(topic) {
        Some(p) => p,
        None => VecMap::new(),
    };
    assert(parts@ =~= topic_offsets(old(data)@, group@, topic@));
    parts.insert(partition, (offset, metadata.dup()));
    topics.insert(topic.dup(), parts);
    assert(topics@ =~= group_offsets(old(data)@, group@).insert(topic@, parts@));
    data.offsets.insert(group.dup(), topics);
    assert(data@.offsets =~= old(data)@.offsets.insert(group@, topics@));
}

fn fill_partitions(parts: &mut TopicMessages, n: i32)
    ensures
        final(parts)@ == partitions_filled(old(parts)@, n as int),
{
    let mut p: i32 = 0;
    assert(parts@ =~= partitions_filled(old(parts)@, 0));
    while p < n
        invariant
            0 <= p,
            p <= n || p == 0,
            parts@ == partitions_filled(old(parts)@, p as int),
        decreases n - p,
    {
        if !parts.contains_key(&p) {
            let none: Vec<(i64, Vec<u8>)> = Vec::new();
            assert(none.deep_view() =~= Seq::empty());
            parts.insert(p, none);
        }
        assert(parts@ =~= partitions_filled(old(parts)@, p + 1));
        p += 1;
    }
    assert(partitions_filled(old(parts)@, n as int) =~= partitions_filled(old(parts)@, p as int));
}

/// The committed offsets of all groups, without those of a topic in some of them.
spec fn offsets_without_in(
    offsets: Map<Seq<char>, Map<Seq<char>, Map<i32, (i64, Seq<char>)>>>,
    topic: Seq<char>,
    seen: Set<Seq<char>>,
) -> Map<Seq<char>, Map<Seq<char>, Map<i32, (i64, Seq<char>)>>> {
    Map::new(
        |g: Seq<char>| offsets.dom().contains(g),
        |g: Seq<char>| if seen.contains(g) { offsets[g].remove(topic) } else { offsets[g] },
    )
}

fn forget_topic(offsets: &mut VecMap<String, VecMap<String, TopicOffsets>>, topic: &String)
    ensures
        final(offsets)@ == offsets_without(old(offsets)@, topic@),
{
    let groups = offsets.keys();
    let ghost order = groups.deep_view();
    let ghost start = offsets@;
    let mut i: usize = 0;
    proof {
        assert(order.take(0).to_set() =~= Set::empty());
        assert(offsets@ =~= offsets_without_in(start, topic@, order.take(0).to_set()));
    }
    while i < groups.len()
        invariant
            i <= groups@.len(),
            order == groups.deep_view(),
            order.to_set() == start.dom(),
            order.no_duplicates(),
            offsets@ == offsets_without_in(start, topic@, order.take(i as int).to_set()),
        decreases groups@.len() - i,
    {
        let ghost seen = order.take(i as int).to_set();
        let ghost g = order[i as int];
        proof {
            assert(groups@[i as int].deep_view() == g);
            lemma_next_element(order, i as int);
        }
        if let Some(topics) = offsets.remove(&groups[i]) {
            let mut topics = topics;
            let _ = topics.remove(topic);
            offsets.insert(groups[i].dup(), topics);
        }
        assert(offsets@ =~= offsets_without_in(start, topic@, seen.insert(g)));
        i += 1;
    }
    assert(order.take(i as int) =~= order);
    assert(offsets@ =~= offsets_without(start, topic@));
}

/// Applies a request and answers it.
pub fn apply_request(data: &mut BrokerStateMachineData, request: &BrokerRequest) -> (r: BrokerResponse)
    requires
        request_fits(old(data)@, *request),
    ensures
        final(data)@ == requested(old(data)@, *request),
        r.deep_view() == response_to(old(data)@, *request),
{
    match request {
        BrokerRequest::Produce { topic, partition, message } => {
            let offset = produce(data, topic, *partition, message);
            BrokerResponse::Produce { offset }
        },
        BrokerRequest::CommitOffset { group, topic, partition, offset, metadata } => {
            commit(data, group, topic, *partition, *offset, metadata);
            BrokerResponse::CommitOffset
        },
        BrokerRequest::JoinGroup { group_id, member_id, protocol_type } => {
            let mut group = match data.groups.remove(group_id) {
                Some(g) => g,
                None => ConsumerGroupState {
                    generation_id: 0,
                    leader_id: member_id.dup(),
                    protocol: protocol_type.dup(),
                    members: Vec::new(),
                },
            };
            let ghost g = group_of(old(data)@, group_id@, member_id@, protocol_type@);
            assert(group.deep_view() =~= g);
            if !find_member(&group.members, member_id) {
                assert(!has_group_member(g, member_id@));
                let ghost before = group.members.deep_view();
                let metadata: Vec<u8> = Vec::new();
                assert(metadata.deep_view() =~= Seq::empty());
                group.members.push(GroupMember { member_id: member_id.dup(), metadata });
                assert(group.members.deep_view() =~= before.push(
                    GroupMemberView { member_id: member_id@, metadata: Seq::empty() },
                ));
                group.generation_id = group.generation_id + 1;
            } else {
                assert(has_group_member(g, member_id@));
            }
            assert(group.deep_view() =~= group_with(g, member_id@));
            let r = BrokerResponse::JoinGroup {
                generation_id: group.generation_id,
                leader_id: group.leader_id.dup(),
                member_id: member_id.dup(),
            };
            data.groups.insert(group_id.dup(), group);
            assert(data@.groups =~= old(data)@.groups.insert(group_id@, group_with(g, member_id@)));
            r
        },
        BrokerRequest::LeaveGroup { group_id, member_id } => {
            if let Some(group) = data.groups.remove(group_id) {
                let mut group = group;
                let rest = members_without(&group.members, member_id);
                assert(rest.deep_view().len() == rest@.len());
                if rest.len() > 0 {
                    group.members = rest;
                    group.generation_id = group.generation_id + 1;
                    data.groups.insert(group_id.dup(), group);
                }
            }
            assert(data@.groups =~= groups_without(old(data)@.groups, group_id@, member_id@));
            BrokerResponse::LeaveGroup
        },
        BrokerRequest::CreateTopic { topic, partitions, replication_factor } => {
            data.topics.insert(
                topic.dup(),
                TopicConfig { partitions: *partitions, replication_factor: *replication_factor },
            );
            let mut parts: TopicMessages = match data.messages.remove(topic) {
                Some(t) => t,
                None => VecMap::new(),
            };
            fill_partitions(&mut parts, *partitions);
            data.messages.insert(topic.dup(), parts);
            assert(data@.messages =~= old(data)@.messages.insert(
                topic@,
                partitions_filled(topic_messages(old(data)@, topic@), *partitions as int),
            ));
            BrokerResponse::CreateTopic
        },
        BrokerRequest::DeleteTopic { topic } => {
            let _ = data.topics.remove(topic);
            let _ = data.messages.remove(topic);
            forget_topic(&mut data.offsets, topic);
            BrokerResponse::DeleteTopic
        },
        BrokerRequest::GroupHeartbeat { group_id, generation_id, member_id } => {
            match data.groups.get(group_id) {
                None => BrokerResponse::Error("Unknown group".to_owned()),
                Some(group) => {
                    let known = find_member(&group.members, member_id);
                    assert(known == has_group_member(group.deep_view(), member_id@));
                    if group.generation_id == *generation_id && known {
                        BrokerResponse::GroupHeartbeat
                    } else {
                        BrokerResponse::Error("Invalid generation or unknown member".to_owned())
                    }
                },
            }
        },
    }
}

/// Deleting a topic leaves nothing of it: neither its messages nor what groups have
/// committed for it.
pub proof fn deleted_topic_is_gone(s: StateView, topic: String, group: Seq<char>, partition: i32)
    ensures
        ({
            let after = requested(s, BrokerRequest::DeleteTopic { topic });
            &&& !after.topics.dom().contains(topic@)
            &&& partition_messages(after, topic@, partition).len() == 0
            &&& !topic_offsets(after, group, topic@).dom().contains(partition)
        }),
{
}

/// A message gets the number of messages before it as its offset, and those stay.
pub proof fn produced_message_is_last(s: StateView, topic: String, partition: i32, message: Vec<u8>)
    ensures
        ({
            let after = requested(s, BrokerRequest::Produce { topic, partition, message });
            let log = partition_messages(s, topic@, partition);
            partition_messages(after, topic@, partition) == log.push((log.len() as i64, message.deep_view()))
        }),
{
}

/// A member that has joined is accepted when it reports to be alive in its generation.
pub proof fn joined_member_is_alive(s: StateView, group_id: String, member_id: String, protocol_type: String, generation_id: i32)
    requires
        response_to(s, BrokerRequest::JoinGroup { group_id, member_id, protocol_type }) matches ResponseView::JoinGroup {
            generation_id: g,
            ..
        } && g == generation_id,
    ensures
        ({
            let after = requested(s, BrokerRequest::JoinGroup { group_id, member_id, protocol_type });
            response_to(after, BrokerRequest::GroupHeartbeat { group_id, generation_id, member_id })
                == ResponseView::GroupHeartbeat
        }),
{
    let g = group_of(s, group_id@, member_id@, protocol_type@);
    let h = group_with(g, member_id@);
    if !has_group_member(g, member_id@) {
        assert(h.members[g.members.len() as int].member_id == member_id@);
    }
    assert(has_group_member(h, member_id@));
}

/// Joining twice is joining once.
pub proof fn joining_twice_is_joining_once(s: StateView, group_id: String, member_id: String, protocol_type: String)
    ensures
        ({
            let join = BrokerRequest::JoinGroup { group_id, member_id, protocol_type };
            requested(requested(s, join), join) == requested(s, join)
        }),
{
    let join = BrokerRequest::JoinGroup { group_id, member_id, protocol_type };
    let g = group_of(s, group_id@, member_id@, protocol_type@);
    let h = group_with(g, member_id@);
    if !has_group_member(g, member_id@) {
        assert(h.members[g.members.len() as int].member_id == member_id@);
    }
    assert(has_group_member(h, member_id@));
    assert(requested(requested(s, join), join).groups =~= requested(s, join).groups);
}

/// The position of an entry in the replicated log, with the leader that wrote it.
#[derive(Debug, Clone, Copy, PartialEq, Eq, Structural)]
pub struct LogId {
    pub term: u64,
    pub node_id: u64,
    pub index: u64,
}

/// Who takes part: the sets of voters whose majorities are asked, and all nodes.
#[derive(Debug)]
pub struct Membership {
    pub configs: Vec<Vec<u64>>,
    pub nodes: Vec<(u64, BrokerNode)>,
}

/// Who takes part.
#[verifier::ext_equal]
pub struct MembershipView {
    pub configs: Seq<Seq<u64>>,
    pub nodes: Seq<(u64, NodeView)>,
}

impl DeepView for Membership {
    type V = MembershipView;

    open spec fn deep_view(&self) -> MembershipView {
        MembershipView { configs: self.configs.deep_view(), nodes: self.nodes.deep_view() }
    }
}

impl Dup for Membership {
    fn dup(&self) -> (r: Self) {
        Membership { configs: self.configs.dup(), nodes: self.nodes.dup() }
    }
}

/// What an entry of the replicated log carries.
pub enum EntryPayload {
    Blank,
    Normal(BrokerRequest),
    /// The nodes that take part from now on.
    Membership(Membership),
}

/// An entry of the replicated log.
pub struct Entry {
    pub log_id: LogId,
    pub payload: EntryPayload,
}

/// The state machine: the state, and how far it has come.
pub struct BrokerStateMachine {
    pub data: BrokerStateMachineData,
    last_applied_log: Option<LogId>,
    last_membership: (Option<LogId>, Membership),
    snapshot_idx: u64,
}

/// What the state machine holds.
#[verifier::ext_equal]
pub struct MachineView {
    pub data: StateView,
    pub last_applied: Option<LogId>,
    pub membership: (Option<LogId>, MembershipView),
    pub snapshot_idx: u64,
}

/// The state machine after an entry.
pub open spec fn entered(m: MachineView, e: Entry) -> MachineView {
    let m = MachineView { last_applied: Some(e.log_id), ..m };
    match e.payload {
        EntryPayload::Blank => m,
        EntryPayload::Normal(req) => MachineView { data: requested(m.data, req), ..m },
        EntryPayload::Membership(nodes) => MachineView { membership: (Some(e.log_id), nodes.deep_view()), ..m },
    }
}

/// The state machine after several entries.
pub open spec fn all_entered(m: MachineView, entries: Seq<Entry>) -> MachineView
    decreases entries.len(),
{
    if entries.len() == 0 { m } else { entered(all_entered(m, entries.drop_last()), entries.last()) }
}

/// What the requests among several entries are answered.
pub open spec fn all_responses(m: MachineView, entries: Seq<Entry>) -> Seq<ResponseView>
    decreases entries.len(),
{
    if entries.len() == 0 {
        Seq::empty()
    } else {
        let before = all_responses(m, entries.drop_last());
        match entries.last().payload {
            EntryPayload::Normal(req) => before.push(response_to(all_entered(m, entries.drop_last()).data, req)),
            _ => before,
        }
    }
}

/// No generation outgrows its type on the way.
pub open spec fn entries_fit(m: MachineView, entries: Seq<Entry>) -> bool {
    forall|i: int|
        0 <= i < entries.len() ==> ((#[trigger] entries[i]).payload matches EntryPayload::Normal(req) ==> request_fits(
            all_entered(m, entries.take(i)).data,
            req,
        ))
}

/// What is known of a snapshot.
pub struct SnapshotInfo {
    pub last_log_id: Option<LogId>,
    pub last_membership: (Option<LogId>, Membership),
    pub snapshot_id: String,
}

impl BrokerStateMachine {
    /// What the state machine holds.
    pub closed spec fn view(&self) -> MachineView {
        MachineView {
            data: self.data@,
            last_applied: self.last_applied_log,
            membership: (self.last_membership.0, self.last_membership.1.deep_view()),
            snapshot_idx: self.snapshot_idx,
        }
    }

    /// A state machine to which nothing has been applied.
    pub fn new() -> (r: Self)
        ensures
            r@ == (MachineView {
                data: empty_state(),
                last_applied: None,
                membership: (None, MembershipView { configs: Seq::empty(), nodes: Seq::empty() }),
                snapshot_idx: 0,
            }),
    {
        let nobody = Membership { configs: Vec::new(), nodes: Vec::new() };
        assert(nobody.deep_view() =~= MembershipView { configs: Seq::empty(), nodes: Seq::empty() });
        BrokerStateMachine {
            data: BrokerStateMachineData::default(),
            last_applied_log: None,
            last_membership: (None, nobody),
            snapshot_idx: 0,
        }
    }

    /// How far the state machine has come, and who takes part.
    pub fn applied_state(&self) -> (r: (Option<LogId>, (Option<LogId>, &Membership)))
        ensures
            r.0 == self@.last_applied,
            r.1.0 == self@.membership.0,
            r.1.1.deep_view() == self@.membership.1,
    {
        (self.last_applied_log, (self.last_membership.0, &self.last_membership.1))
    }

    /// Applies committed entries in their order and answers the requests among them.
    pub fn apply(&mut self, entries: Vec<Entry>) -> (r: Vec<BrokerResponse>)
        requires
            entries_fit(old(self)@, entries@),
        ensures
            final(self)@ == all_entered(old(self)@, entries@),
            r.deep_view() == all_responses(old(self)@, entries@),
    {
        let ghost start = self@;
        let ghost all = entries@;
        let n = entries.len();
        let mut responses: Vec<BrokerResponse> = Vec::new();
        let mut i: usize = 0;
        proof {
            assert(all.take(0) =~= Seq::empty());
            assert(responses.deep_view() =~= Seq::empty());
        }
        for entry in it: entries
            invariant
                it.seq() == all,
                i == it.index(),
                i <= n,
                n == all.len(),
                entries_fit(start, all),
                self@ == all_entered(start, all.take(i as int)),
                responses.deep_view() == all_responses(start, all.take(i as int)),
        {
            let ghost before = responses.deep_view();
            proof {
                assert(entry == all[i as int]);
                assert(all.take(i + 1).drop_last() =~= all.take(i as int));
                assert(all.take(i + 1).last() == entry);
            }
            self.last_applied_log = Some(entry.log_id);
            match entry.payload {
                EntryPayload::Blank => {},
                EntryPayload::Normal(req) => {
                    let response = apply_request(&mut self.data, &req);
                    let ghost shown = response.deep_view();
                    responses.push(response);
                    assert(responses.deep_view() =~= before.push(shown));
                },
                EntryPayload::Membership(nodes) => {
                    self.last_membership = (Some(entry.log_id), nodes);
                },
            }
            i += 1;
        }
        assert(all.take(i as int) =~= all);
        responses
    }

    /// Takes over the state of a snapshot.
    pub fn install_snapshot(&mut self, info: SnapshotInfo, data: BrokerStateMachineData)
        ensures
            final(self)@ == (MachineView {
                data: data@,
                last_applied: Some(
                    match info.last_log_id {
                        Some(id) => id,
                        None => LogId { term: 0, node_id: 0, index: 0 },
                    },
                ),
                membership: (info.last_membership.0, info.last_membership.1.deep_view()),
                ..old(self)@
            }),
    {
        self.data = data;
        self.last_applied_log = Some(
            match info.last_log_id {
                Some(id) => id,
                None => LogId { term: 0, node_id: 0, index: 0 },
            },
        );
        self.last_membership = info.last_membership;
    }

    /// Begins a snapshot of the state: snapshots are numbered.
    pub fn build_snapshot(&mut self) -> (r: SnapshotInfo)
        requires
            old(self)@.snapshot_idx < u64::MAX,
        ensures
            final(self)@ == (MachineView { snapshot_idx: (old(self)@.snapshot_idx + 1) as u64, ..old(self)@ }),
            r.last_log_id == old(self)@.last_applied,
            (r.last_membership.0, r.last_membership.1.deep_view()) == old(self)@.membership,
            r.snapshot_id@ == decimal_text(old(self)@.snapshot_idx + 1),
    {
        self.snapshot_idx = self.snapshot_idx + 1;
        SnapshotInfo {
            last_log_id: self.last_applied_log,
            last_membership: (self.last_membership.0, self.last_membership.1.dup()),
            snapshot_id: decimal_u64(self.snapshot_idx),
        }
    }
}

/// What requests do to messages and committed offsets. A message is appended to its
/// partition, a commit recorded for the group, a topic created with its partitions or
/// deleted; no other partition, topic or group is touched.
pub proof fn requests_touch_one_topic(
    s: StateView,
    request: BrokerRequest,
    t: Seq<char>,
    p: i32,
    g: Seq<char>,
)
    ensures
        ({
            let e = requested(s, request);
            match request {
                BrokerRequest::Produce { topic, partition, .. } => {
                    &&& (t, p) != (topic@, partition) ==> partition_messages(e, t, p) == partition_messages(s, t, p)
                    &&& e.topics == s.topics && e.offsets == s.offsets && e.groups == s.groups
                },
                BrokerRequest::CommitOffset { group, topic, partition, offset, metadata } => {
                    &&& e.offsets.dom().contains(group@)
                    &&& e.offsets[group@].dom().contains(topic@)
                    &&& e.offsets[group@][topic@].dom().contains(partition)
                    &&& e.offsets[group@][topic@][partition] == (offset, metadata@)
                    &&& (g, t, p) != (group@, topic@, partition) ==> (topic_offsets(e, g, t).dom().contains(p)
                        <==> topic_offsets(s, g, t).dom().contains(p))
                    &&& (g, t, p) != (group@, topic@, partition) && topic_offsets(s, g, t).dom().contains(p) ==> topic_offsets(
                        e,
                        g,
                        t,
                    )[p] == topic_offsets(s, g, t)[p]
                    &&& e.topics == s.topics && e.messages == s.messages && e.groups == s.groups
                },
                BrokerRequest::CreateTopic { topic, partitions, replication_factor } => {
                    &&& e.topics.dom().contains(topic@)
                    &&& e.topics[topic@].partitions == partitions
                    &&& e.topics[topic@].replication_factor == replication_factor
                    &&& t != topic@ ==> (e.topics.dom().contains(t) <==> s.topics.dom().contains(t))
                    &&& t != topic@ && s.topics.dom().contains(t) ==> e.topics[t] == s.topics[t]
                    &&& e.messages.dom().contains(topic@)
                    &&& 0 <= p < partitions ==> e.messages[topic@].dom().contains(p)
                    &&& partition_messages(e, t, p) == partition_messages(s, t, p)
                    &&& e.offsets == s.offsets && e.groups == s.groups
                },
                BrokerRequest::DeleteTopic { topic } => {
                    &&& t != topic@ ==> (e.topics.dom().contains(t) <==> s.topics.dom().contains(t))
                    &&& t != topic@ && s.topics.dom().contains(t) ==> e.topics[t] == s.topics[t]
                    &&& t != topic@ ==> partition_messages(e, t, p) == partition_messages(s, t, p)
                    &&& t != topic@ ==> (topic_offsets(e, g, t).dom().contains(p) <==> topic_offsets(s, g, t).dom().contains(p))
                    &&& t != topic@ && topic_offsets(s, g, t).dom().contains(p) ==> topic_offsets(e, g, t)[p] == topic_offsets(
                        s,
                        g,
                        t,
                    )[p]
                    &&& e.groups == s.groups
                },
                BrokerRequest::GroupHeartbeat { .. } => e == s,
                _ => e.topics == s.topics && e.messages == s.messages && e.offsets == s.offsets,
            }
        }),
{
    if let BrokerRequest::CreateTopic { topic, .. } = request {
        if t == topic@ {
            assert(partition_messages(requested(s, request), t, p) =~= partition_messages(s, t, p));
        }
    }
}

/// What requests do to groups. Who joins an unknown group leads it. Who is new is put on
/// the list, behind the others, and begins a new generation; who is there already changes
/// nothing. Who leaves goes from the list and begins a new generation; with the last
/// member the group goes. No other group is touched.
pub proof fn requests_touch_one_group(s: StateView, request: BrokerRequest, g: Seq<char>, m: GroupMemberView)
    requires
        request is JoinGroup || request is LeaveGroup,
    ensures
        ({
            let e = requested(s, request);
            match request {
                BrokerRequest::JoinGroup { group_id, member_id, protocol_type } => {
                    let id = group_id@;
                    let before = if s.groups.dom().contains(id) { s.groups[id].members } else { Seq::empty() };
                    let there = s.groups.dom().contains(id) && exists|i: int|
                        0 <= i < s.groups[id].members.len() && (#[trigger] s.groups[id].members[i]).member_id == member_id@;
                    &&& e.groups.dom().contains(id)
                    &&& there ==> e.groups[id] == s.groups[id]
                    &&& !there ==> e.groups[id].members.len() == before.len() + 1 && e.groups[id].members.drop_last() == before
                        && e.groups[id].members.last().member_id == member_id@
                    &&& !there && s.groups.dom().contains(id) ==> e.groups[id].generation_id == s.groups[id].generation_id + 1
                        && e.groups[id].leader_id == s.groups[id].leader_id && e.groups[id].protocol == s.groups[id].protocol
                    &&& !s.groups.dom().contains(id) ==> e.groups[id].generation_id == 1 && e.groups[id].leader_id
                        == member_id@ && e.groups[id].protocol == protocol_type@
                    &&& g != id ==> (e.groups.dom().contains(g) <==> s.groups.dom().contains(g))
                    &&& g != id && s.groups.dom().contains(g) ==> e.groups[g] == s.groups[g]
                    &&& response_to(s, request) == (ResponseView::JoinGroup {
                        generation_id: e.groups[id].generation_id,
                        leader_id: e.groups[id].leader_id,
                        member_id: member_id@,
                    })
                },
                BrokerRequest::LeaveGroup { group_id, member_id } => {
                    let id = group_id@;
                    &&& g != id ==> (e.groups.dom().contains(g) <==> s.groups.dom().contains(g))
                    &&& g != id && s.groups.dom().contains(g) ==> e.groups[g] == s.groups[g]
                    &&& !s.groups.dom().contains(id) ==> e.groups == s.groups
                    &&& s.groups.dom().contains(id) && s.groups[id].members.contains(m) && m.member_id != member_id@
                        ==> e.groups.dom().contains(id)
                    &&& s.groups.dom().contains(id) && e.groups.dom().contains(id) ==> (e.groups[id].members.contains(m)
                        <==> s.groups[id].members.contains(m) && m.member_id != member_id@)
                    &&& s.groups.dom().contains(id) && e.groups.dom().contains(id) ==> e.groups[id].generation_id
                        == s.groups[id].generation_id + 1 && e.groups[id].leader_id == s.groups[id].leader_id
                        && e.groups[id].members.len() > 0
                    &&& response_to(s, request) is LeaveGroup
                },
                _ => true,
            }
        }),
{
    match request {
        BrokerRequest::JoinGroup { group_id, member_id, protocol_type } => {
            let old_group = group_of(s, group_id@, member_id@, protocol_type@);
            let e = requested(s, request);
            if s.groups.dom().contains(group_id@) {
                assert(old_group == s.groups[group_id@]);
            } else {
                assert(!has_group_member(old_group, member_id@));
            }
            if !has_group_member(old_group, member_id@) {
                assert(e.groups[group_id@].members.drop_last() =~= old_group.members);
            }
        },
        BrokerRequest::LeaveGroup { group_id, member_id } => {
            if s.groups.dom().contains(group_id@) {
                let members = s.groups[group_id@].members;
                lemma_filter_holds(members, other_than(member_id@));
                if members.contains(m) && m.member_id != member_id@ {
                    assert(members.filter(other_than(member_id@)).contains(m));
                }
            }
        },
        _ => {},
    }
}

/// A member is alive exactly where its group is known, it is a member, and it names the
/// generation of the group.
pub proof fn heartbeats_name_the_generation(s: StateView, request: BrokerRequest)
    requires
        request is GroupHeartbeat,
    ensures
        request matches BrokerRequest::GroupHeartbeat { group_id, generation_id, member_id } && (response_to(
            s,
            request,
        ) is GroupHeartbeat <==> s.groups.dom().contains(group_id@) && s.groups[group_id@].generation_id == generation_id
            && exists|i: int|
            0 <= i < s.groups[group_id@].members.len() && (#[trigger] s.groups[group_id@].members[i]).member_id == member_id@),
        !(response_to(s, request) is GroupHeartbeat) ==> response_to(s, request) is Error,
{
}

/// Entries are applied one after the other, and the machine has come as far as the last of
/// them. One that carries nothing changes nothing else, and one that names the nodes
/// changes only who takes part.
pub proof fn entries_are_entered_one_by_one(m: MachineView, a: Seq<Entry>, b: Seq<Entry>, e: Entry)
    ensures
        all_entered(m, a + b) == all_entered(all_entered(m, a), b),
        all_responses(m, a + b) == all_responses(m, a) + all_responses(all_entered(m, a), b),
        ({
            let after = all_entered(m, seq![e]);
            &&& after.last_applied == Some(e.log_id)
            &&& after.snapshot_idx == m.snapshot_idx
            &&& e.payload is Blank ==> after.data == m.data && after.membership == m.membership
            &&& e.payload matches EntryPayload::Normal(req) ==> after.data == requested(m.data, req) && after.membership
                == m.membership && all_responses(m, seq![e]) == seq![response_to(m.data, req)]
            &&& e.payload matches EntryPayload::Membership(nodes) ==> after.data == m.data && after.membership == (
                Some(e.log_id),
                nodes.deep_view(),
            )
            &&& !(e.payload is Normal) ==> all_responses(m, seq![e]).len() == 0
        }),
    decreases b.len(),
{
    reveal_with_fuel(all_entered, 2);
    reveal_with_fuel(all_responses, 2);
    assert(seq![e].drop_last() =~= Seq::empty());
    assert(seq![e].last() == e);
    if let EntryPayload::Normal(req) = e.payload {
        assert(all_responses(m, seq![e]) =~= seq![response_to(m.data, req)]);
    }
    if b.len() == 0 {
        assert(a + b =~= a);
        assert(all_responses(m, a) + all_responses(all_entered(m, a), b) =~= all_responses(m, a));
    } else {
        assert((a + b).drop_last() =~= a + b.drop_last());
        assert((a + b).last() == b.last());
        entries_are_entered_one_by_one(m, a, b.drop_last(), e);
        assert(all_responses(m, a + b) =~= all_responses(m, a) + all_responses(all_entered(m, a), b));
    }
}

} // verus!

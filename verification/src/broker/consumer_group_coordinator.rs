//! A consumer group coordinator that keeps its groups to itself.
use vstd::prelude::*;

use crate::broker::config::DEFAULT_REBALANCE_TIMEOUT_MS;
use crate::broker::error::{BrokerError, BrokerResult, ErrorView};
use crate::broker::groups::{fresh_group, has_member, is_member, join, joined, leave, left, new_group};
use crate::broker::liveness::{all_checked, check_groups, checked};
use crate::broker::raft::{GroupStatus, GroupView, ReplicatedGroupState};
use crate::broker::storage::{
    assigned_to, encoded_assignment, is_join_answer, join_answer, read_topic, subscribed_topic, JoinAnswer,
};
use crate::maps::{Dup, VecMap};
use crate::wire::i32_list;

verus! {

/// The coordinator. The number of partitions of every topic has to be kept up to
/// date for the assignments to be right.
pub struct ConsumerGroupCoordinator {
    groups: VecMap<String, ReplicatedGroupState>,
    topics: VecMap<String, i32>,
    heard: VecMap<(String, String), i64>,
    rebalance_timeout_ms: i64,
}

/// What the coordinator holds.
#[verifier::ext_equal]
pub struct CoordinatorView {
    pub groups: Map<Seq<char>, GroupView>,
    pub topics: Map<Seq<char>, i32>,
    /// When every member was last heard of.
    pub heard: Map<(Seq<char>, Seq<char>), i64>,
    pub rebalance_timeout_ms: i64,
}

/// The group after a member has joined; one without a topic subscribes to nothing.
pub open spec fn group_joined(
    s: CoordinatorView,
    group: Seq<char>,
    member: Seq<char>,
    metadata: Seq<u8>,
    timeout: i64,
    now: i64,
) -> GroupView {
    let topic = subscribed_topic(metadata);
    joined(
        if s.groups.dom().contains(group) { s.groups[group] } else { fresh_group(member, timeout) },
        member,
        if topic.len() == 0 { None } else { Some(topic) },
        metadata,
        s.topics,
        now,
    )
}

/// The complaint about a group that does not exist.
pub open spec fn unknown_group_text(group: Seq<char>) -> Seq<char> {
    "Unknown group: "@ + group
}

/// The complaint about a member that a group does not have.
pub open spec fn unknown_member_text(member: Seq<char>, group: Seq<char>) -> Seq<char> {
    "Unknown member '"@ + member + "' in group '"@ + group + "'"@
}

/// The complaint about a group that does not exist.
pub fn unknown_group(group_id: &String) -> (e: BrokerError)
    ensures
        e.deep_view() == ErrorView::NotFound(unknown_group_text(group_id@)),
{
    let mut m = "Unknown group: ".to_owned();
    vstd::string::StringExecFns::append(&mut m, group_id.as_str());
    BrokerError::NotFound(m)
}

/// The complaint about a member that a group does not have.
pub fn unknown_member(member_id: &String, group_id: &String) -> (e: BrokerError)
    ensures
        e.deep_view() == ErrorView::NotFound(unknown_member_text(member_id@, group_id@)),
{
    let mut m = "Unknown member '".to_owned();
    vstd::string::StringExecFns::append(&mut m, member_id.as_str());
    vstd::string::StringExecFns::append(&mut m, "' in group '");
    vstd::string::StringExecFns::append(&mut m, group_id.as_str());
    vstd::string::StringExecFns::append(&mut m, "'");
    BrokerError::NotFound(m)
}

/// What a member is told that asks for its partitions.
pub open spec fn is_sync_answer(
    groups: Map<Seq<char>, GroupView>,
    group: Seq<char>,
    member: Seq<char>,
    r: BrokerResult<Vec<u8>>,
) -> bool {
    if !groups.dom().contains(group) {
        r matches Err(e) && e.deep_view() == ErrorView::NotFound("Group not found"@)
    } else if groups[group].status == GroupStatus::PreparingRebalance {
        r matches Err(e) && e.deep_view() == ErrorView::RebalanceInProgress
    } else {
        r matches Ok(b) && b@ == i32_list(assigned_to(groups[group], member))
    }
}

/// What a member is told that asks for its partitions.
pub fn sync_answer(groups: &VecMap<String, ReplicatedGroupState>, group_id: &String, member_id: &String) -> (r:
    BrokerResult<Vec<u8>>)
    ensures
        is_sync_answer(groups@, group_id@, member_id@, r),
{
    match groups.get(group_id) {
        None => Err(BrokerError::NotFound("Group not found".to_owned())),
        Some(group) => {
            if group.status == GroupStatus::PreparingRebalance {
                return Err(BrokerError::RebalanceInProgress);
            }
            Ok(encoded_assignment(group, member_id))
        },
    }
}

/// What a member is told that reports to be alive.
pub open spec fn is_heartbeat_answer(
    groups: Map<Seq<char>, GroupView>,
    group: Seq<char>,
    member: Seq<char>,
    r: BrokerResult<()>,
) -> bool {
    if !groups.dom().contains(group) {
        r matches Err(e) && e.deep_view() == ErrorView::NotFound(unknown_group_text(group))
    } else if !is_member(groups[group], member) {
        r matches Err(e) && e.deep_view() == ErrorView::NotFound(unknown_member_text(member, group))
    } else if groups[group].status == GroupStatus::PreparingRebalance {
        r matches Err(e) && e.deep_view() == ErrorView::RebalanceInProgress
    } else {
        r is Ok
    }
}

/// What a member is told that reports to be alive.
pub fn heartbeat_answer(groups: &VecMap<String, ReplicatedGroupState>, group_id: &String, member_id: &String) -> (r:
    BrokerResult<()>)
    ensures
        is_heartbeat_answer(groups@, group_id@, member_id@, r),
{
    match groups.get(group_id) {
        None => Err(unknown_group(group_id)),
        Some(group) => {
            if !has_member(group, member_id) {
                return Err(unknown_member(member_id, group_id));
            }
            if group.status == GroupStatus::PreparingRebalance {
                return Err(BrokerError::RebalanceInProgress);
            }
            Ok(())
        },
    }
}

/// A member that the groups know.
pub open spec fn knows_member(groups: Map<Seq<char>, GroupView>, group: Seq<char>, member: Seq<char>) -> bool {
    groups.dom().contains(group) && is_member(groups[group], member)
}

impl ConsumerGroupCoordinator {
    pub closed spec fn view(&self) -> CoordinatorView {
        CoordinatorView {
            groups: self.groups@,
            topics: self.topics@,
            heard: self.heard@,
            rebalance_timeout_ms: self.rebalance_timeout_ms,
        }
    }

    /// A coordinator without groups.
    pub fn new() -> (r: Self)
        ensures
            r@ == (CoordinatorView {
                groups: Map::empty(),
                topics: Map::empty(),
                heard: Map::empty(),
                rebalance_timeout_ms: DEFAULT_REBALANCE_TIMEOUT_MS,
            }),
    {
        Self::with_rebalance_timeout(DEFAULT_REBALANCE_TIMEOUT_MS)
    }

    /// A coordinator without groups that lets a rebalance last for the given time.
    pub fn with_rebalance_timeout(rebalance_timeout_ms: i64) -> (r: Self)
        ensures
            r@ == (CoordinatorView {
                groups: Map::empty(),
                topics: Map::empty(),
                heard: Map::empty(),
                rebalance_timeout_ms,
            }),
    {
        ConsumerGroupCoordinator {
            groups: VecMap::new(),
            topics: VecMap::new(),
            heard: VecMap::new(),
            rebalance_timeout_ms,
        }
    }

    /// A topic exists with this number of partitions.
    pub fn update_topic(&mut self, topic: String, num_partitions: i32)
        ensures
            final(self)@ == (CoordinatorView {
                topics: old(self)@.topics.insert(topic@, num_partitions),
                ..old(self)@
            }),
    {
        self.topics.insert(topic, num_partitions);
    }

    /// A topic exists no longer.
    pub fn remove_topic(&mut self, topic: &String)
        ensures
            final(self)@ == (CoordinatorView { topics: old(self)@.topics.remove(topic@), ..old(self)@ }),
    {
        let _ = self.topics.remove(topic);
    }

    /// A member joins a group, which comes into being where it is unknown.
    pub fn join_group(
        &mut self,
        group_id: &String,
        member_id: &String,
        protocol_metadata: &[u8],
        session_timeout_ms: i64,
        now: i64,
    ) -> (r: BrokerResult<JoinAnswer>)
        requires
            group_joined(old(self)@, group_id@, member_id@, protocol_metadata@, session_timeout_ms, now).generation_id
                <= i32::MAX,
        ensures
            final(self)@ == (CoordinatorView {
                groups: old(self)@.groups.insert(
                    group_id@,
                    group_joined(old(self)@, group_id@, member_id@, protocol_metadata@, session_timeout_ms, now),
                ),
                heard: old(self)@.heard.insert((group_id@, member_id@), now),
                ..old(self)@
            }),
            r matches Ok(a) && is_join_answer(final(self)@.groups[group_id@], member_id@, a),
    {
        let topic = read_topic(protocol_metadata);
        let subscription = if topic.as_str().is_empty() { None } else { Some(topic) };
        self.heard.insert((group_id.dup(), member_id.dup()), now);
        let mut group = match self.groups.remove(group_id) {
            Some(g) => g,
            None => new_group(member_id, session_timeout_ms),
        };
        let metadata = vstd::slice::slice_to_vec(protocol_metadata);
        join(&mut group, member_id, subscription, metadata, &self.topics, now);
        let answer = join_answer(&group, member_id);
        self.groups.insert(group_id.dup(), group);
        proof {
            let g = group_joined(old(self)@, group_id@, member_id@, protocol_metadata@, session_timeout_ms, now);
            assert(self@.groups =~= old(self)@.groups.insert(group_id@, g));
        }
        Ok(answer)
    }

    /// The partitions of a member, once no rebalance is going on.
    pub fn sync_group(&self, group_id: &String, member_id: &String) -> (r: BrokerResult<Vec<u8>>)
        ensures
            is_sync_answer(self@.groups, group_id@, member_id@, r),
    {
        sync_answer(&self.groups, group_id, member_id)
    }

    /// A member reports that it is alive. During a rebalance it is told so.
    pub fn heartbeat(&mut self, group_id: &String, member_id: &String, now: i64) -> (r: BrokerResult<()>)
        ensures
            is_heartbeat_answer(old(self)@.groups, group_id@, member_id@, r),
            final(self)@ == (if knows_member(old(self)@.groups, group_id@, member_id@) {
                CoordinatorView { heard: old(self)@.heard.insert((group_id@, member_id@), now), ..old(self)@ }
            } else {
                old(self)@
            }),
    {
        let known = match self.groups.get(group_id) {
            Some(group) => has_member(group, member_id),
            None => false,
        };
        if known {
            self.heard.insert((group_id.dup(), member_id.dup()), now);
        }
        heartbeat_answer(&self.groups, group_id, member_id)
    }

    /// A member leaves its group.
    pub fn leave_group(&mut self, group_id: &String, member_id: &String, now: i64) -> (r: BrokerResult<()>)
        requires
            old(self)@.groups.dom().contains(group_id@) ==> left(
                old(self)@.groups[group_id@],
                member_id@,
                now,
            ).generation_id <= i32::MAX,
        ensures
            !old(self)@.groups.dom().contains(group_id@) ==> (r matches Err(e) && e.deep_view() == ErrorView::NotFound(
                "Group not found"@,
            )) && final(self)@ == old(self)@,
            old(self)@.groups.dom().contains(group_id@) ==> r is Ok && final(self)@ == (CoordinatorView {
                groups: old(self)@.groups.insert(group_id@, left(old(self)@.groups[group_id@], member_id@, now)),
                heard: old(self)@.heard.remove((group_id@, member_id@)),
                ..old(self)@
            }),
    {
        match self.groups.remove(group_id) {
            None => {
                assert(self@.groups =~= old(self)@.groups);
                Err(BrokerError::NotFound("Group not found".to_owned()))
            },
            Some(mut group) => {
                leave(&mut group, member_id, now);
                self.groups.insert(group_id.dup(), group);
                let k = (group_id.dup(), member_id.dup());
                let _ = self.heard.remove(&k);
                proof {
                    let g = left(old(self)@.groups[group_id@], member_id@, now);
                    assert(self@.groups =~= old(self)@.groups.insert(group_id@, g));
                }
                Ok(())
            },
        }
    }

    /// Strikes off silent members and ends rebalances that last too long.
    pub fn check_liveness(&mut self, now: i64)
        requires
            forall|g: Seq<char>|
                #[trigger] old(self)@.groups.dom().contains(g) ==> checked(
                    old(self)@.groups[g],
                    old(self)@.heard,
                    g,
                    old(self)@.topics,
                    now,
                    old(self)@.rebalance_timeout_ms,
                ).generation_id <= i32::MAX,
        ensures
            final(self)@ == (CoordinatorView {
                groups: all_checked(
                    old(self)@.groups,
                    old(self)@.heard,
                    old(self)@.topics,
                    now,
                    old(self)@.rebalance_timeout_ms,
                ),
                ..old(self)@
            }),
    {
        proof {
            assert forall|g: Seq<char>| #[trigger] self.groups@.dom().contains(g) implies checked(
                self.groups@[g],
                self.heard@,
                g,
                self.topics@,
                now,
                self.rebalance_timeout_ms,
            ).generation_id <= i32::MAX by {
                assert(old(self)@.groups.dom().contains(g));
            }
        }
        check_groups(&mut self.groups, &self.heard, &self.topics, now, self.rebalance_timeout_ms);
    }
}

/// A member is given its partitions once its group is known and does not rebalance.
pub proof fn partitions_are_given_outside_rebalances(
    groups: Map<Seq<char>, GroupView>,
    group: Seq<char>,
    member: Seq<char>,
    r: BrokerResult<Vec<u8>>,
)
    requires
        is_sync_answer(groups, group, member, r),
    ensures
        r is Ok <==> groups.dom().contains(group) && groups[group].status != GroupStatus::PreparingRebalance,
        r is Ok && groups[group].assignments.dom().contains(member) ==> r->Ok_0@ == i32_list(groups[group].assignments[member]),
        r is Ok && !groups[group].assignments.dom().contains(member) ==> r->Ok_0@ == i32_list(Seq::empty()),
        groups.dom().contains(group) && groups[group].status == GroupStatus::PreparingRebalance ==> (r matches Err(e)
            && e.deep_view() == ErrorView::RebalanceInProgress),
        !groups.dom().contains(group) ==> (r matches Err(e) && e.deep_view() is NotFound),
{
}

/// A heartbeat is confirmed exactly where the member belongs to the group and the group
/// does not rebalance. A member of a group that rebalances is told so; whoever else
/// reports is not known.
pub proof fn heartbeats_of_members_count(
    groups: Map<Seq<char>, GroupView>,
    group: Seq<char>,
    member: Seq<char>,
    r: BrokerResult<()>,
)
    requires
        is_heartbeat_answer(groups, group, member, r),
    ensures
        ({
            let ours = groups.dom().contains(group) && exists|i: int|
                0 <= i < groups[group].members.len() && (#[trigger] groups[group].members[i]).member_id == member;
            &&& knows_member(groups, group, member) <==> ours
            &&& r is Ok <==> ours && groups[group].status != GroupStatus::PreparingRebalance
            &&& ours && groups[group].status == GroupStatus::PreparingRebalance ==> (r matches Err(e) && e.deep_view()
                == ErrorView::RebalanceInProgress)
            &&& !ours ==> (r matches Err(e) && e.deep_view() is NotFound)
        }),
{
}

/// Who joins an unknown group is its first member and its leader, and the group keeps to
/// the session timeout that was asked for. Who joins a known one joins that group. Who
/// names a topic subscribes to it.
pub proof fn joining_finds_or_makes_the_group(
    s: CoordinatorView,
    group: Seq<char>,
    member: Seq<char>,
    metadata: Seq<u8>,
    timeout: i64,
    now: i64,
)
    ensures
        ({
            let g = group_joined(s, group, member, metadata, timeout, now);
            let topic = subscribed_topic(metadata);
            &&& !s.groups.dom().contains(group) ==> {
                &&& g.members.len() == 1
                &&& g.members[0].member_id == member
                &&& g.members[0].metadata == metadata
                &&& g.leader_id == member
                &&& g.generation_id == 0
                &&& g.session_timeout_ms == timeout
                &&& g.status == GroupStatus::Stable
                &&& g.subscriptions.dom().contains(member) <==> topic.len() > 0
                &&& topic.len() > 0 ==> g.subscriptions[member] == topic
            }
            &&& s.groups.dom().contains(group) && topic.len() > 0 ==> g == joined(
                s.groups[group],
                member,
                Some(topic),
                metadata,
                s.topics,
                now,
            )
            &&& s.groups.dom().contains(group) && topic.len() == 0 ==> g == joined(
                s.groups[group],
                member,
                None,
                metadata,
                s.topics,
                now,
            )
        }),
{
}

} // verus!

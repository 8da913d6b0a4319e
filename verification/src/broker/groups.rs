//! The life of a consumer group: joining, leaving, expiring, rebalancing.
use vstd::prelude::*;

use crate::broker::assignments::{assignment, compute_assignments, every_partition_has_one_reader, peers};
use crate::broker::raft::{GroupStatus, GroupView, MemberView, ReplicatedGroupMember, ReplicatedGroupState};
use crate::maps::{Dup, VecMap, VecSet};
use crate::seqs::{lemma_filter_ends, lemma_filter_holds, lemma_filter_step};

verus! {

/// Somebody with this id is a member.
pub open spec fn is_member(g: GroupView, member: Seq<char>) -> bool {
    exists|i: int| 0 <= i < g.members.len() && (#[trigger] g.members[i]).member_id == member
}

/// No id occurs twice among the members.
pub open spec fn distinct_members(g: GroupView) -> bool {
    forall|i: int, j: int|
        0 <= i < g.members.len() && 0 <= j < g.members.len() && i != j
            ==> (#[trigger] g.members[i]).member_id != (#[trigger] g.members[j]).member_id
}

/// The group before anybody joined; the first to come leads it.
pub open spec fn fresh_group(leader: Seq<char>, session_timeout_ms: i64) -> GroupView {
    GroupView {
        generation_id: 0,
        leader_id: leader,
        members: Seq::empty(),
        subscriptions: Map::empty(),
        assignments: Map::empty(),
        status: GroupStatus::Empty,
        rejoined: Set::empty(),
        session_timeout_ms,
        rebalance_started_ms: 0,
    }
}

/// A rebalance begins: a new generation, in which so far nobody has come back but
/// these.
pub open spec fn begun(g: GroupView, rejoined: Set<Seq<char>>, now: i64) -> GroupView {
    GroupView {
        status: GroupStatus::PreparingRebalance,
        rejoined,
        generation_id: g.generation_id + 1,
        rebalance_started_ms: now,
        ..g
    }
}

/// A rebalance begins because this member has joined, which counts as coming back.
pub open spec fn triggered(g: GroupView, member: Seq<char>, now: i64) -> GroupView {
    begun(g, Set::empty().insert(member), now)
}

/// A rebalance ends: who has not come back is dropped, the others get partitions.
pub open spec fn finalized(g: GroupView, topics: Map<Seq<char>, i32>) -> GroupView {
    let members = g.members.filter(|m: MemberView| g.rejoined.contains(m.member_id));
    let subscriptions = g.subscriptions.restrict(g.rejoined);
    GroupView {
        members,
        subscriptions,
        assignments: if members.len() == 0 { g.assignments } else { assignment(subscriptions, topics) },
        status: if members.len() == 0 { GroupStatus::Empty } else { GroupStatus::Stable },
        rejoined: Set::empty(),
        rebalance_started_ms: 0,
        ..g
    }
}

/// A member comes back during a rebalance; the last one to do so ends it.
pub open spec fn came_back(g: GroupView, member: Seq<char>, topics: Map<Seq<char>, i32>) -> GroupView {
    let h = GroupView { rejoined: g.rejoined.insert(member), ..g };
    if h.rejoined.len() >= h.members.len() { finalized(h, topics) } else { h }
}

/// A member joins or joins again. `topic` is what it subscribes to, if anything.
pub open spec fn joined(
    g: GroupView,
    member: Seq<char>,
    topic: Option<Seq<char>>,
    metadata: Seq<u8>,
    topics: Map<Seq<char>, i32>,
    now: i64,
) -> GroupView {
    if is_member(g, member) {
        if g.status == GroupStatus::PreparingRebalance { came_back(g, member, topics) } else { g }
    } else {
        let h = GroupView {
            members: g.members.push(MemberView { member_id: member, metadata }),
            subscriptions: match topic {
                Some(t) => g.subscriptions.insert(member, t),
                None => g.subscriptions,
            },
            ..g
        };
        if g.members.len() == 0 || g.status == GroupStatus::Empty {
            GroupView { assignments: assignment(h.subscriptions, topics), status: GroupStatus::Stable, ..h }
        } else if g.status == GroupStatus::Stable {
            triggered(h, member, now)
        } else {
            came_back(h, member, topics)
        }
    }
}

/// A member is struck off every list.
pub open spec fn removed(g: GroupView, member: Seq<char>) -> GroupView {
    GroupView {
        members: g.members.filter(|m: MemberView| m.member_id != member),
        subscriptions: g.subscriptions.remove(member),
        assignments: g.assignments.remove(member),
        rejoined: g.rejoined.remove(member),
        ..g
    }
}

/// Several members are struck off, one after the other.
pub open spec fn removed_all(g: GroupView, members: Seq<Seq<char>>) -> GroupView
    decreases members.len(),
{
    if members.len() == 0 {
        g
    } else {
        removed(removed_all(g, members.drop_last()), members.last())
    }
}

/// After members went: an empty group rests, others rebalance, and everybody who is
/// left has to come back.
pub open spec fn shrunk(g: GroupView, now: i64) -> GroupView {
    if g.members.len() == 0 {
        GroupView { status: GroupStatus::Empty, ..g }
    } else {
        begun(g, Set::empty(), now)
    }
}

/// A member leaves.
pub open spec fn left(g: GroupView, member: Seq<char>, now: i64) -> GroupView {
    shrunk(removed(g, member), now)
}

/// Members that have not been heard of are struck off.
pub open spec fn expired(g: GroupView, members: Seq<Seq<char>>, now: i64) -> GroupView {
    shrunk(removed_all(g, members), now)
}

/// A rebalance has lasted longer than it may.
pub open spec fn overdue(g: GroupView, now: int, limit: int) -> bool {
    g.status == GroupStatus::PreparingRebalance && g.rebalance_started_ms > 0 && now - g.rebalance_started_ms > limit
}

/// A new group, led by the first to come.
pub fn new_group(leader: &String, session_timeout_ms: i64) -> (g: ReplicatedGroupState)
    ensures
        g@ == fresh_group(leader@, session_timeout_ms),
{
    let g = ReplicatedGroupState {
        generation_id: 0,
        leader_id: leader.dup(),
        members: Vec::new(),
        subscriptions: VecMap::new(),
        assignments: VecMap::new(),
        status: GroupStatus::Empty,
        rejoined: VecSet::new(),
        session_timeout_ms,
        rebalance_started_ms: 0,
    };
    assert(g@ =~= fresh_group(leader@, session_timeout_ms));
    g
}

/// Whether somebody with this id is a member.
pub fn has_member(group: &ReplicatedGroupState, member_id: &String) -> (b: bool)
    ensures
        b == is_member(group@, member_id@),
{
    let mut i: usize = 0;
    while i < group.members.len()
        invariant
            i <= group.members@.len(),
            forall|j: int| 0 <= j < i ==> (#[trigger] group@.members[j]).member_id != member_id@,
        decreases group.members@.len() - i,
    {
        if group.members[i].member_id == *member_id {
            assert(group@.members[i as int].member_id == member_id@);
            return true;
        }
        i += 1;
    }
    false
}

/// Begins a rebalance because a member has come.
pub fn trigger_rebalance(group: &mut ReplicatedGroupState, joining_member_id: &String, now: i64)
    requires
        old(group).generation_id < i32::MAX,
    ensures
        final(group)@ == triggered(old(group)@, joining_member_id@, now),
{
    group.status = GroupStatus::PreparingRebalance;
    group.rejoined = VecSet::single(joining_member_id.dup());
    group.generation_id += 1;
    group.rebalance_started_ms = now;
    assert(group@ =~= triggered(old(group)@, joining_member_id@, now));
}

fn keep_members(members: Vec<ReplicatedGroupMember>, keep: &VecSet<String>) -> (r: Vec<ReplicatedGroupMember>)
    ensures
        r.deep_view() == members.deep_view().filter(|m: MemberView| keep@.contains(m.member_id)),
{
    let ghost s = members.deep_view();
    let ghost p = |m: MemberView| keep@.contains(m.member_id);
    let mut r: Vec<ReplicatedGroupMember> = Vec::new();
    proof {
        lemma_filter_ends(s, p);
        assert(r.deep_view() =~= Seq::empty());
    }
    for m in it: members
        invariant
            it.seq() == members@,
            s == members.deep_view(),
            p == (|m: MemberView| keep@.contains(m.member_id)),
            r.deep_view() == s.take(it.index()).filter(p),
    {
        let ghost before = r.deep_view();
        let ghost v = m.deep_view();
        proof {
            lemma_filter_step(s, p, it.index());
            assert(s[it.index()] == v);
        }
        if keep.contains(&m.member_id) {
            r.push(m);
            assert(r.deep_view() =~= before.push(v));
        }
    }
    r
}

fn drop_member(members: Vec<ReplicatedGroupMember>, gone: &String) -> (r: Vec<ReplicatedGroupMember>)
    ensures
        r.deep_view() == members.deep_view().filter(|m: MemberView| m.member_id != gone@),
{
    let ghost s = members.deep_view();
    let ghost p = |m: MemberView| m.member_id != gone@;
    let mut r: Vec<ReplicatedGroupMember> = Vec::new();
    proof {
        lemma_filter_ends(s, p);
        assert(r.deep_view() =~= Seq::empty());
    }
    for m in it: members
        invariant
            it.seq() == members@,
            s == members.deep_view(),
            p == (|m: MemberView| m.member_id != gone@),
            r.deep_view() == s.take(it.index()).filter(p),
    {
        let ghost before = r.deep_view();
        let ghost v = m.deep_view();
        proof {
            lemma_filter_step(s, p, it.index());
            assert(s[it.index()] == v);
        }
        if m.member_id != *gone {
            r.push(m);
            assert(r.deep_view() =~= before.push(v));
        }
    }
    r
}

/// Gives every subscribed member its partitions.
pub fn compute_and_store_assignments(group: &mut ReplicatedGroupState, topics: &VecMap<String, i32>)
    ensures
        final(group)@ == (GroupView { assignments: assignment(old(group)@.subscriptions, topics@), ..old(group)@ }),
{
    group.assignments = compute_assignments(&group.subscriptions, topics);
}

/// Ends a rebalance.
pub fn finalize_rebalance(group: &mut ReplicatedGroupState, topics: &VecMap<String, i32>)
    ensures
        final(group)@ == finalized(old(group)@, topics@),
{
    let mut members: Vec<ReplicatedGroupMember> = Vec::new();
    core::mem::swap(&mut members, &mut group.members);
    group.members = keep_members(members, &group.rejoined);
    group.subscriptions.retain_keys(&group.rejoined);
    if group.members.len() == 0 {
        group.status = GroupStatus::Empty;
    } else {
        compute_and_store_assignments(group, topics);
        group.status = GroupStatus::Stable;
    }
    group.rejoined = VecSet::new();
    group.rebalance_started_ms = 0;
    assert(group@ =~= finalized(old(group)@, topics@));
}

/// Strikes a member off every list.
pub fn remove_member(group: &mut ReplicatedGroupState, member_id: &String)
    ensures
        final(group)@ == removed(old(group)@, member_id@),
{
    let mut members: Vec<ReplicatedGroupMember> = Vec::new();
    core::mem::swap(&mut members, &mut group.members);
    group.members = drop_member(members, member_id);
    let _ = group.subscriptions.remove(member_id);
    let _ = group.assignments.remove(member_id);
    group.rejoined.remove(member_id);
    assert(group@ =~= removed(old(group)@, member_id@));
}

fn come_back(group: &mut ReplicatedGroupState, member_id: &String, topics: &VecMap<String, i32>)
    ensures
        final(group)@ == came_back(old(group)@, member_id@, topics@),
{
    group.rejoined.insert(member_id.dup());
    if group.rejoined.len() >= group.members.len() {
        finalize_rebalance(group, topics);
    }
}

/// A member joins or joins again.
pub fn join(
    group: &mut ReplicatedGroupState,
    member_id: &String,
    topic: Option<String>,
    metadata: Vec<u8>,
    topics: &VecMap<String, i32>,
    now: i64,
)
    requires
        joined(old(group)@, member_id@, topic.deep_view(), metadata@, topics@, now).generation_id <= i32::MAX,
    ensures
        final(group)@ == joined(old(group)@, member_id@, topic.deep_view(), metadata@, topics@, now),
{
    let ghost g = group@;
    if has_member(group, member_id) {
        if group.status == GroupStatus::PreparingRebalance {
            come_back(group, member_id, topics);
        }
    } else {
        let first = group.members.len() == 0;
        let ghost mv = MemberView { member_id: member_id@, metadata: metadata@ };
        assert(metadata.deep_view() =~= metadata@);
        group.members.push(ReplicatedGroupMember { member_id: member_id.dup(), metadata });
        assert(group.members.deep_view() =~= g.members.push(mv));
        match topic {
            Some(t) => {
                group.subscriptions.insert(member_id.dup(), t);
            },
            None => {},
        }
        if first || group.status == GroupStatus::Empty {
            compute_and_store_assignments(group, topics);
            group.status = GroupStatus::Stable;
        } else if group.status == GroupStatus::Stable {
            trigger_rebalance(group, member_id, now);
        } else {
            come_back(group, member_id, topics);
        }
    }
}

fn shrink(group: &mut ReplicatedGroupState, now: i64)
    requires
        shrunk(old(group)@, now).generation_id <= i32::MAX,
    ensures
        final(group)@ == shrunk(old(group)@, now),
{
    if group.members.len() == 0 {
        group.status = GroupStatus::Empty;
    } else {
        group.status = GroupStatus::PreparingRebalance;
        group.rejoined = VecSet::new();
        group.generation_id += 1;
        group.rebalance_started_ms = now;
        assert(group@ =~= shrunk(old(group)@, now));
    }
}

/// A member leaves.
pub fn leave(group: &mut ReplicatedGroupState, member_id: &String, now: i64)
    requires
        left(old(group)@, member_id@, now).generation_id <= i32::MAX,
    ensures
        final(group)@ == left(old(group)@, member_id@, now),
{
    remove_member(group, member_id);
    shrink(group, now);
}

/// Members that have not been heard of are struck off.
pub fn expire(group: &mut ReplicatedGroupState, expired_ids: &Vec<String>, now: i64)
    requires
        expired(old(group)@, expired_ids.deep_view(), now).generation_id <= i32::MAX,
    ensures
        final(group)@ == expired(old(group)@, expired_ids.deep_view(), now),
{
    let ghost ids = expired_ids.deep_view();
    let mut i: usize = 0;
    assert(ids.take(0) =~= Seq::empty());
    while i < expired_ids.len()
        invariant
            i <= expired_ids@.len(),
            ids == expired_ids.deep_view(),
            group@ == removed_all(old(group)@, ids.take(i as int)),
        decreases expired_ids@.len() - i,
    {
        remove_member(group, &expired_ids[i]);
        proof {
            assert(ids.take(i + 1).drop_last() =~= ids.take(i as int));
            assert(ids.take(i + 1).last() == expired_ids@[i as int].deep_view());
        }
        i += 1;
    }
    assert(ids.take(i as int) =~= ids);
    shrink(group, now);
}

proof fn lemma_filter_distinct(s: Seq<MemberView>, p: spec_fn(MemberView) -> bool)
    requires
        forall|i: int, j: int|
            0 <= i < s.len() && 0 <= j < s.len() && i != j ==> (#[trigger] s[i]).member_id != (#[trigger] s[j]).member_id,
    ensures
        forall|i: int, j: int|
            0 <= i < s.filter(p).len() && 0 <= j < s.filter(p).len() && i != j ==> (#[trigger] s.filter(p)[i]).member_id
                != (#[trigger] s.filter(p)[j]).member_id,
    decreases s.len(),
{
    reveal(Seq::filter);
    if s.len() > 0 {
        let t = s.drop_last();
        assert forall|i: int, j: int| 0 <= i < t.len() && 0 <= j < t.len() && i != j implies (#[trigger] t[i]).member_id
            != (#[trigger] t[j]).member_id by {
            assert(t[i] == s[i] && t[j] == s[j]);
        }
        lemma_filter_distinct(t, p);
        let f = t.filter(p);
        assert forall|i: int| 0 <= i < f.len() implies (#[trigger] f[i]).member_id != s.last().member_id by {
            assert(f.contains(f[i]));
            t.lemma_filter_contains_rev(p, f[i]);
            let k = choose|k: int| 0 <= k < t.len() && t[k] == f[i];
            assert(s[k] == f[i]);
        }
        assert forall|i: int, j: int| 0 <= i < s.filter(p).len() && 0 <= j < s.filter(p).len() && i != j implies (
        #[trigger] s.filter(p)[i]).member_id != (#[trigger] s.filter(p)[j]).member_id by {
            if p(s.last()) {
                assert(s.filter(p) == f.push(s.last()));
            } else {
                assert(s.filter(p) == f);
            }
        }
    }
}

proof fn lemma_removed_all_distinct(g: GroupView, members: Seq<Seq<char>>)
    requires
        distinct_members(g),
    ensures
        distinct_members(removed_all(g, members)),
    decreases members.len(),
{
    if members.len() > 0 {
        lemma_removed_all_distinct(g, members.drop_last());
        let h = removed_all(g, members.drop_last());
        lemma_filter_distinct(h.members, |m: MemberView| m.member_id != members.last());
    }
}

/// No operation puts the same id on the list of members twice.
pub proof fn members_stay_distinct(
    g: GroupView,
    member: Seq<char>,
    topic: Option<Seq<char>>,
    metadata: Seq<u8>,
    topics: Map<Seq<char>, i32>,
    gone: Seq<Seq<char>>,
    now: i64,
)
    requires
        distinct_members(g),
    ensures
        distinct_members(joined(g, member, topic, metadata, topics, now)),
        distinct_members(left(g, member, now)),
        distinct_members(expired(g, gone, now)),
        distinct_members(finalized(g, topics)),
{
    let back = GroupView { rejoined: g.rejoined.insert(member), ..g };
    lemma_filter_distinct(back.members, |m: MemberView| back.rejoined.contains(m.member_id));
    lemma_filter_distinct(g.members, |m: MemberView| g.rejoined.contains(m.member_id));
    lemma_filter_distinct(g.members, |m: MemberView| m.member_id != member);
    lemma_removed_all_distinct(g, gone);
    if !is_member(g, member) {
        let h = GroupView {
            members: g.members.push(MemberView { member_id: member, metadata }),
            subscriptions: match topic {
                Some(t) => g.subscriptions.insert(member, t),
                None => g.subscriptions,
            },
            ..g
        };
        assert(distinct_members(h));
        let b = GroupView { rejoined: h.rejoined.insert(member), ..h };
        lemma_filter_distinct(b.members, |m: MemberView| b.rejoined.contains(m.member_id));
    }
}

proof fn lemma_removing_keeps_generation(g: GroupView, members: Seq<Seq<char>>)
    ensures
        removed_all(g, members).generation_id == g.generation_id,
    decreases members.len(),
{
    if members.len() > 0 {
        lemma_removing_keeps_generation(g, members.drop_last());
    }
}

/// The generation never falls; it rises by one when a rebalance begins.
pub proof fn generation_never_falls(
    g: GroupView,
    member: Seq<char>,
    topic: Option<Seq<char>>,
    metadata: Seq<u8>,
    topics: Map<Seq<char>, i32>,
    gone: Seq<Seq<char>>,
    now: i64,
)
    ensures
        g.generation_id <= joined(g, member, topic, metadata, topics, now).generation_id <= g.generation_id + 1,
        g.generation_id <= left(g, member, now).generation_id <= g.generation_id + 1,
        g.generation_id <= expired(g, gone, now).generation_id <= g.generation_id + 1,
        finalized(g, topics).generation_id == g.generation_id,
{
    lemma_removing_keeps_generation(g, gone);
}

proof fn lemma_kept(g: GroupView, member: Seq<char>, topics: Map<Seq<char>, i32>)
    requires
        is_member(g, member),
        g.rejoined.contains(member),
    ensures
        is_member(finalized(g, topics), member),
{
    let p = |m: MemberView| g.rejoined.contains(m.member_id);
    let i = choose|i: int| 0 <= i < g.members.len() && (#[trigger] g.members[i]).member_id == member;
    g.members.lemma_filter_contains(p, i);
    let f = g.members.filter(p);
    let k = choose|k: int| 0 <= k < f.len() && f[k] == g.members[i];
    assert(f[k].member_id == member);
    assert(finalized(g, topics).members[k].member_id == member);
}

/// Who joins is a member afterwards.
pub proof fn joiner_is_member(
    g: GroupView,
    member: Seq<char>,
    topic: Option<Seq<char>>,
    metadata: Seq<u8>,
    topics: Map<Seq<char>, i32>,
    now: i64,
)
    ensures
        is_member(joined(g, member, topic, metadata, topics, now), member),
{
    let r = joined(g, member, topic, metadata, topics, now);
    if is_member(g, member) {
        let i = choose|i: int| 0 <= i < g.members.len() && (#[trigger] g.members[i]).member_id == member;
        let h = GroupView { rejoined: g.rejoined.insert(member), ..g };
        assert(h.members[i].member_id == member);
        lemma_kept(h, member, topics);
    } else {
        let h = GroupView {
            members: g.members.push(MemberView { member_id: member, metadata }),
            subscriptions: match topic {
                Some(t) => g.subscriptions.insert(member, t),
                None => g.subscriptions,
            },
            ..g
        };
        assert(h.members[g.members.len() as int].member_id == member);
        let b = GroupView { rejoined: h.rejoined.insert(member), ..h };
        assert(b.members[g.members.len() as int].member_id == member);
        lemma_kept(b, member, topics);
        if g.members.len() == 0 || g.status == GroupStatus::Empty || g.status == GroupStatus::Stable {
            assert(r.members == h.members);
            assert(r.members[g.members.len() as int].member_id == member);
        }
    }
}

/// Who leaves is no member afterwards, and keeps no subscription and no partition.
pub proof fn leaver_is_gone(g: GroupView, member: Seq<char>, now: i64)
    ensures
        !is_member(left(g, member, now), member),
        !left(g, member, now).subscriptions.dom().contains(member),
        !left(g, member, now).assignments.dom().contains(member),
{
    let p = |m: MemberView| m.member_id != member;
    let f = g.members.filter(p);
    let r = left(g, member, now);
    assert(r.members == f);
    if is_member(r, member) {
        let i = choose|i: int| 0 <= i < r.members.len() && (#[trigger] r.members[i]).member_id == member;
        g.members.lemma_filter_pred(p, i);
    }
}

/// Who counts as having come back is a member, and no id occurs twice among the
/// members.
pub open spec fn members_counted(g: GroupView) -> bool {
    &&& distinct_members(g)
    &&& g.rejoined.finite()
    &&& forall|m: Seq<char>| #[trigger] g.rejoined.contains(m) ==> is_member(g, m)
}

proof fn lemma_removed_counted(g: GroupView, member: Seq<char>)
    requires
        members_counted(g),
    ensures
        members_counted(removed(g, member)),
{
    let p = |m: MemberView| m.member_id != member;
    let h = removed(g, member);
    lemma_filter_distinct(g.members, p);
    assert forall|m: Seq<char>| #[trigger] h.rejoined.contains(m) implies is_member(h, m) by {
        assert(g.rejoined.contains(m));
        let i = choose|i: int| 0 <= i < g.members.len() && (#[trigger] g.members[i]).member_id == m;
        g.members.lemma_filter_contains(p, i);
        let f = g.members.filter(p);
        let k = choose|k: int| 0 <= k < f.len() && f[k] == g.members[i];
        assert(h.members[k].member_id == m);
    }
}

proof fn lemma_removed_all_counted(g: GroupView, members: Seq<Seq<char>>)
    requires
        members_counted(g),
    ensures
        members_counted(removed_all(g, members)),
    decreases members.len(),
{
    if members.len() > 0 {
        lemma_removed_all_counted(g, members.drop_last());
        lemma_removed_counted(removed_all(g, members.drop_last()), members.last());
    }
}

proof fn lemma_all_back(g: GroupView)
    requires
        members_counted(g),
        g.rejoined.len() >= g.members.len(),
    ensures
        forall|m: Seq<char>| is_member(g, m) ==> #[trigger] g.rejoined.contains(m),
{
    let ids = Seq::new(g.members.len(), |i: int| g.members[i].member_id);
    assert(ids.no_duplicates());
    ids.unique_seq_to_set();
    assert forall|m: Seq<char>| g.rejoined.contains(m) implies ids.to_set().contains(m) by {
        let i = choose|i: int| 0 <= i < g.members.len() && (#[trigger] g.members[i]).member_id == m;
        assert(ids[i] == m);
    }
    assert(g.rejoined.subset_of(ids.to_set()));
    vstd::set_lib::lemma_len_subset(g.rejoined, ids.to_set());
    vstd::set_lib::lemma_subset_equality(g.rejoined, ids.to_set());
    assert forall|m: Seq<char>| is_member(g, m) implies #[trigger] g.rejoined.contains(m) by {
        let i = choose|i: int| 0 <= i < g.members.len() && (#[trigger] g.members[i]).member_id == m;
        assert(ids[i] == m);
        assert(ids.to_set().contains(m));
    }
}

/// The group with a member that joins on its list.
pub open spec fn with_joiner(g: GroupView, member: Seq<char>, topic: Option<Seq<char>>, metadata: Seq<u8>) -> GroupView {
    if is_member(g, member) {
        g
    } else {
        GroupView {
            members: g.members.push(MemberView { member_id: member, metadata }),
            subscriptions: match topic {
                Some(t) => g.subscriptions.insert(member, t),
                None => g.subscriptions,
            },
            ..g
        }
    }
}

proof fn lemma_joiner_counted(g: GroupView, member: Seq<char>, topic: Option<Seq<char>>, metadata: Seq<u8>)
    requires
        members_counted(g),
    ensures
        members_counted(with_joiner(g, member, topic, metadata)),
        is_member(with_joiner(g, member, topic, metadata), member),
        members_counted(
            GroupView { rejoined: g.rejoined.insert(member), ..with_joiner(g, member, topic, metadata) },
        ),
{
    let h = with_joiner(g, member, topic, metadata);
    let b = GroupView { rejoined: g.rejoined.insert(member), ..h };
    if !is_member(g, member) {
        assert(h.members[g.members.len() as int].member_id == member);
    }
    assert forall|m: Seq<char>| is_member(g, m) implies #[trigger] is_member(h, m) by {
        let i = choose|i: int| 0 <= i < g.members.len() && (#[trigger] g.members[i]).member_id == m;
        assert(h.members[i].member_id == m);
    }
    assert forall|m: Seq<char>| #[trigger] b.rejoined.contains(m) implies is_member(b, m) by {
        assert(is_member(h, m));
        let i = choose|i: int| 0 <= i < h.members.len() && (#[trigger] h.members[i]).member_id == m;
        assert(b.members[i].member_id == m);
    }
}

/// Every operation keeps it so that who counts as having come back is a member.
pub proof fn who_came_back_is_member(
    g: GroupView,
    member: Seq<char>,
    topic: Option<Seq<char>>,
    metadata: Seq<u8>,
    topics: Map<Seq<char>, i32>,
    gone: Seq<Seq<char>>,
    now: i64,
)
    requires
        members_counted(g),
    ensures
        members_counted(joined(g, member, topic, metadata, topics, now)),
        members_counted(left(g, member, now)),
        members_counted(expired(g, gone, now)),
        members_counted(finalized(g, topics)),
{
    members_stay_distinct(g, member, topic, metadata, topics, gone, now);
    lemma_removed_counted(g, member);
    lemma_removed_all_counted(g, gone);
    lemma_joiner_counted(g, member, topic, metadata);
    let r = joined(g, member, topic, metadata, topics, now);
    let h = with_joiner(g, member, topic, metadata);
    let b = GroupView { rejoined: g.rejoined.insert(member), ..h };
    assert forall|m: Seq<char>| #[trigger] r.rejoined.contains(m) implies is_member(r, m) by {
        assert(r.members == h.members);
        assert(m == member || g.rejoined.contains(m));
        assert(is_member(h, m)) by {
            if m != member {
                assert(h.rejoined.contains(m));
            }
        }
        let i = choose|i: int| 0 <= i < h.members.len() && (#[trigger] h.members[i]).member_id == m;
        assert(r.members[i].member_id == m);
    }
    let l = removed(g, member);
    assert(forall|m: Seq<char>| #[trigger] left(g, member, now).rejoined.contains(m) ==> l.rejoined.contains(m));
    assert forall|m: Seq<char>| #[trigger] left(g, member, now).rejoined.contains(m) implies is_member(
        left(g, member, now),
        m,
    ) by {
        let i = choose|i: int| 0 <= i < l.members.len() && (#[trigger] l.members[i]).member_id == m;
        assert(left(g, member, now).members[i].member_id == m);
    }
    let e = removed_all(g, gone);
    assert forall|m: Seq<char>| #[trigger] expired(g, gone, now).rejoined.contains(m) implies is_member(
        expired(g, gone, now),
        m,
    ) by {
        assert(e.rejoined.contains(m));
        let i = choose|i: int| 0 <= i < e.members.len() && (#[trigger] e.members[i]).member_id == m;
        assert(expired(g, gone, now).members[i].member_id == m);
    }
}

/// Before its time is over a rebalance ends only once every member has come back, and
/// then nobody is dropped.
pub proof fn rebalance_waits_for_all(
    g: GroupView,
    member: Seq<char>,
    topic: Option<Seq<char>>,
    metadata: Seq<u8>,
    topics: Map<Seq<char>, i32>,
    gone: Seq<Seq<char>>,
    now: i64,
    m: Seq<char>,
)
    requires
        members_counted(g),
        g.status == GroupStatus::PreparingRebalance,
        g.members.len() > 0,
    ensures
        joined(g, member, topic, metadata, topics, now).status != GroupStatus::PreparingRebalance && is_member(g, m)
            ==> m == member || g.rejoined.contains(m),
        is_member(g, m) ==> is_member(joined(g, member, topic, metadata, topics, now), m),
        left(g, member, now).status == GroupStatus::PreparingRebalance || left(g, member, now).members.len() == 0,
        expired(g, gone, now).status == GroupStatus::PreparingRebalance || expired(g, gone, now).members.len() == 0,
{
    lemma_joiner_counted(g, member, topic, metadata);
    let h = with_joiner(g, member, topic, metadata);
    let b = GroupView { rejoined: g.rejoined.insert(member), ..h };
    let r = joined(g, member, topic, metadata, topics, now);
    assert(r == came_back(h, member, topics));
    if is_member(g, m) {
        let i = choose|i: int| 0 <= i < g.members.len() && (#[trigger] g.members[i]).member_id == m;
        assert(b.members[i].member_id == m);
        assert(is_member(b, m));
        if b.rejoined.len() >= b.members.len() {
            lemma_all_back(b);
            assert(b.rejoined.contains(m));
            lemma_kept(b, m, topics);
        } else {
            assert(r.members[i].member_id == m);
        }
    }
}

/// Who is left when somebody leaves or is struck off has to come back: none of them
/// counts as having done so.
pub proof fn everybody_left_has_to_come_back(g: GroupView, member: Seq<char>, gone: Seq<Seq<char>>, now: i64)
    ensures
        left(g, member, now).members.len() > 0 ==> left(g, member, now).rejoined.len() == 0,
        expired(g, gone, now).members.len() > 0 ==> expired(g, gone, now).rejoined.len() == 0,
{
}

/// Once the last member has come back the group is stable, and its partitions
/// are dealt by the subscriptions that are left.
pub proof fn finished_rebalance_is_stable(g: GroupView, member: Seq<char>, topics: Map<Seq<char>, i32>)
    requires
        is_member(g, member),
        g.rejoined.insert(member).len() >= g.members.len(),
    ensures
        came_back(g, member, topics).status == GroupStatus::Stable,
        came_back(g, member, topics).assignments == assignment(came_back(g, member, topics).subscriptions, topics),
{
    let h = GroupView { rejoined: g.rejoined.insert(member), ..g };
    let i = choose|i: int| 0 <= i < g.members.len() && (#[trigger] g.members[i]).member_id == member;
    assert(h.members[i].member_id == member);
    lemma_kept(h, member, topics);
}

/// Subscriptions belong to members, and so do partitions as long as there are members.
pub open spec fn only_members_read(g: GroupView) -> bool {
    &&& forall|m: Seq<char>| #[trigger]
        g.subscriptions.dom().contains(m) ==> exists|i: int|
            0 <= i < g.members.len() && (#[trigger] g.members[i]).member_id == m
    &&& g.members.len() > 0 ==> forall|m: Seq<char>| #[trigger]
        g.assignments.dom().contains(m) ==> exists|i: int|
            0 <= i < g.members.len() && (#[trigger] g.members[i]).member_id == m
}

/// A member that has subscribed to the topic reads the partition.
pub open spec fn reads(g: GroupView, member: Seq<char>, topic: Seq<char>, p: i32) -> bool {
    &&& exists|i: int| 0 <= i < g.members.len() && (#[trigger] g.members[i]).member_id == member
    &&& g.subscriptions.dom().contains(member)
    &&& g.subscriptions[member] == topic
    &&& g.assignments.dom().contains(member)
    &&& g.assignments[member].contains(p)
}

/// Exactly one member reads the partition.
pub open spec fn has_one_reader(g: GroupView, topic: Seq<char>, p: i32) -> bool {
    exists|m: Seq<char>| #[trigger] reads(g, m, topic, p) && forall|o: Seq<char>| #[trigger] reads(g, o, topic, p) ==> o == m
}

proof fn lemma_subscribers_finite(g: GroupView)
    requires
        only_members_read(g),
    ensures
        g.subscriptions.dom().finite(),
{
    let ids = Seq::new(g.members.len(), |i: int| g.members[i].member_id);
    assert forall|m: Seq<char>| g.subscriptions.dom().contains(m) implies ids.to_set().contains(m) by {
        let i = choose|i: int| 0 <= i < g.members.len() && (#[trigger] g.members[i]).member_id == m;
        assert(ids[i] == m);
    }
    assert(ids.to_set().finite()) by {
        vstd::seq_lib::seq_to_set_is_finite(ids);
    }
    vstd::set_lib::lemma_set_subset_finite(ids.to_set(), g.subscriptions.dom());
}

proof fn lemma_dealt(g: GroupView, topics: Map<Seq<char>, i32>, subscriber: Seq<char>, p: i32)
    requires
        only_members_read(g),
        g.assignments == assignment(g.subscriptions, topics),
        g.subscriptions.dom().contains(subscriber),
        0 <= p < (if topics.dom().contains(g.subscriptions[subscriber]) { topics[g.subscriptions[subscriber]] } else { 1 }),
    ensures
        has_one_reader(g, g.subscriptions[subscriber], p),
{
    let topic = g.subscriptions[subscriber];
    let x = peers(g.subscriptions, topic);
    lemma_subscribers_finite(g);
    vstd::set_lib::lemma_set_subset_finite(g.subscriptions.dom(), x);
    assert(x.contains(subscriber));
    assert(x.len() > 0) by {
        if x.len() == 0 {
            vstd::set_lib::lemma_set_empty_equivalency_len(x);
        }
    }
    every_partition_has_one_reader(g.subscriptions, topics, topic, p);
    let m = choose|m: Seq<char>| x.contains(m) && #[trigger] assignment(g.subscriptions, topics)[m].contains(p);
    assert(g.subscriptions.dom().contains(m));
    assert(reads(g, m, topic, p));
    assert forall|o: Seq<char>| #[trigger] reads(g, o, topic, p) implies o == m by {
        assert(x.contains(o));
        assert(assignment(g.subscriptions, topics)[o].contains(p));
    }
}

proof fn lemma_finalized_members(g: GroupView, topics: Map<Seq<char>, i32>)
    ensures
        ({
            let r = finalized(g, topics);
            &&& forall|m: MemberView| #[trigger]
                r.members.contains(m) <==> g.members.contains(m) && g.rejoined.contains(m.member_id)
            &&& forall|m: Seq<char>|
                is_member(g, m) && g.rejoined.contains(m) ==> exists|i: int|
                    0 <= i < r.members.len() && (#[trigger] r.members[i]).member_id == m
        }),
{
    let r = finalized(g, topics);
    let p = |m: MemberView| g.rejoined.contains(m.member_id);
    lemma_filter_holds(g.members, p);
    assert forall|m: Seq<char>| is_member(g, m) && g.rejoined.contains(m) implies exists|i: int|
        0 <= i < r.members.len() && (#[trigger] r.members[i]).member_id == m by {
        lemma_kept(g, m, topics);
    }
}

/// What the end of a rebalance leaves. Exactly those members stay who have come back,
/// with the subscriptions that they had. Every subscription, and every share of the
/// partitions, belongs to a member that is present. Each partition of a topic that
/// somebody subscribes to is read by exactly one of them.
pub proof fn ended_rebalance_leaves_who_came_back(
    g: GroupView,
    topics: Map<Seq<char>, i32>,
    member: MemberView,
    subscriber: Seq<char>,
    p: i32,
)
    requires
        members_counted(g),
    ensures
        ({
            let r = finalized(g, topics);
            &&& r.members.contains(member) <==> g.members.contains(member) && g.rejoined.contains(member.member_id)
            &&& r.subscriptions.dom().contains(subscriber) <==> g.subscriptions.dom().contains(subscriber)
                && g.rejoined.contains(subscriber)
            &&& r.subscriptions.dom().contains(subscriber) ==> r.subscriptions[subscriber] == g.subscriptions[subscriber]
            &&& only_members_read(r)
            &&& r.members.len() == 0 ==> r.status == GroupStatus::Empty
            &&& r.members.len() > 0 ==> r.status == GroupStatus::Stable && r.assignments.dom() == r.subscriptions.dom()
            &&& r.members.len() > 0 && r.subscriptions.dom().contains(subscriber) && 0 <= p < (if topics.dom().contains(
                r.subscriptions[subscriber],
            ) { topics[r.subscriptions[subscriber]] } else { 1 }) ==> has_one_reader(r, r.subscriptions[subscriber], p)
            &&& r.rejoined.len() == 0
            &&& r.rebalance_started_ms == 0
            &&& r.generation_id == g.generation_id
            &&& r.leader_id == g.leader_id
            &&& r.session_timeout_ms == g.session_timeout_ms
        }),
{
    let r = finalized(g, topics);
    lemma_finalized_members(g, topics);
    assert forall|m: Seq<char>| #[trigger] r.subscriptions.dom().contains(m) implies exists|i: int|
        0 <= i < r.members.len() && (#[trigger] r.members[i]).member_id == m by {
        assert(g.rejoined.contains(m));
    }
    if r.members.len() > 0 {
        assert(r.assignments.dom() =~= r.subscriptions.dom());
        assert forall|m: Seq<char>| #[trigger] r.assignments.dom().contains(m) implies exists|i: int|
            0 <= i < r.members.len() && (#[trigger] r.members[i]).member_id == m by {
            assert(r.subscriptions.dom().contains(m));
        }
        if r.subscriptions.dom().contains(subscriber) && 0 <= p < (if topics.dom().contains(r.subscriptions[subscriber]) {
            topics[r.subscriptions[subscriber]]
        } else {
            1
        }) {
            lemma_dealt(r, topics, subscriber, p);
        }
    }
}

proof fn lemma_removed_exact(g: GroupView, gone: Seq<Seq<char>>)
    ensures
        ({
            let r = removed_all(g, gone);
            &&& forall|m: MemberView| #[trigger] r.members.contains(m) <==> g.members.contains(m) && !gone.contains(m.member_id)
            &&& forall|m: Seq<char>| #[trigger]
                r.subscriptions.dom().contains(m) <==> g.subscriptions.dom().contains(m) && !gone.contains(m)
            &&& forall|m: Seq<char>| #[trigger]
                r.subscriptions.dom().contains(m) ==> r.subscriptions[m] == g.subscriptions[m]
            &&& forall|m: Seq<char>| #[trigger]
                r.assignments.dom().contains(m) <==> g.assignments.dom().contains(m) && !gone.contains(m)
            &&& forall|m: Seq<char>| #[trigger] r.assignments.dom().contains(m) ==> r.assignments[m] == g.assignments[m]
            &&& r.generation_id == g.generation_id
            &&& r.leader_id == g.leader_id
            &&& r.session_timeout_ms == g.session_timeout_ms
        }),
    decreases gone.len(),
{
    if gone.len() > 0 {
        let front = gone.drop_last();
        let last = gone.last();
        lemma_removed_exact(g, front);
        let h = removed_all(g, front);
        lemma_filter_holds(h.members, |m: MemberView| m.member_id != last);
        assert forall|m: Seq<char>| #[trigger] gone.contains(m) <==> front.contains(m) || m == last by {
            assert(gone =~= front.push(last));
            if front.contains(m) {
                let i = choose|i: int| 0 <= i < front.len() && front[i] == m;
                assert(gone[i] == m);
            }
            if m == last {
                assert(gone[gone.len() - 1] == m);
            }
            if gone.contains(m) && m != last {
                let i = choose|i: int| 0 <= i < gone.len() && gone[i] == m;
                assert(front[i] == m);
            }
        }
    }
}

/// Who is struck off goes from the list of members and loses subscription and
/// partitions; nobody else loses anything. Where nobody is left the group is empty.
/// Otherwise a rebalance of the next generation begins now, and nobody has come back
/// yet.
pub proof fn striking_off_hits_nobody_else(
    g: GroupView,
    gone: Seq<Seq<char>>,
    now: i64,
    member: MemberView,
    m: Seq<char>,
)
    ensures
        ({
            let r = expired(g, gone, now);
            &&& r.members.contains(member) <==> g.members.contains(member) && !gone.contains(member.member_id)
            &&& r.subscriptions.dom().contains(m) <==> g.subscriptions.dom().contains(m) && !gone.contains(m)
            &&& r.subscriptions.dom().contains(m) ==> r.subscriptions[m] == g.subscriptions[m]
            &&& r.assignments.dom().contains(m) <==> g.assignments.dom().contains(m) && !gone.contains(m)
            &&& r.assignments.dom().contains(m) ==> r.assignments[m] == g.assignments[m]
            &&& r.members.len() == 0 ==> r.status == GroupStatus::Empty && r.generation_id == g.generation_id
            &&& r.members.len() > 0 ==> r.status == GroupStatus::PreparingRebalance && r.generation_id == g.generation_id + 1
                && r.rebalance_started_ms == now && !r.rejoined.contains(m)
            &&& r.leader_id == g.leader_id
            &&& r.session_timeout_ms == g.session_timeout_ms
        }),
{
    lemma_removed_exact(g, gone);
}

/// Leaving is being struck off alone.
pub proof fn leaving_is_being_struck_off(g: GroupView, member: Seq<char>, now: i64)
    ensures
        left(g, member, now) == expired(g, seq![member], now),
{
    assert(seq![member].drop_last() =~= Seq::empty());
    reveal_with_fuel(removed_all, 2);
}

/// Who joins again outside of a rebalance changes nothing.
pub proof fn known_member_disturbs_nobody(
    g: GroupView,
    member: MemberView,
    topic: Option<Seq<char>>,
    metadata: Seq<u8>,
    topics: Map<Seq<char>, i32>,
    now: i64,
)
    requires
        g.members.contains(member),
        g.status != GroupStatus::PreparingRebalance,
    ensures
        joined(g, member.member_id, topic, metadata, topics, now) == g,
{
    let i = choose|i: int| 0 <= i < g.members.len() && g.members[i] == member;
    assert(g.members[i].member_id == member.member_id);
}

/// Who is new goes on the list of members, behind the others, with its metadata, and its
/// subscription is recorded. A member of an empty group gets every partition at once. In
/// a stable group a rebalance of the next generation begins now, in which so far only
/// the new member has come back; until it ends everybody keeps their partitions.
pub proof fn newcomer_is_recorded(
    g: GroupView,
    member: Seq<char>,
    topic: Option<Seq<char>>,
    metadata: Seq<u8>,
    topics: Map<Seq<char>, i32>,
    now: i64,
    p: i32,
)
    requires
        only_members_read(g),
        forall|i: int| 0 <= i < g.members.len() ==> (#[trigger] g.members[i]).member_id != member,
        g.members.len() == 0 || g.status == GroupStatus::Stable,
    ensures
        ({
            let r = joined(g, member, topic, metadata, topics, now);
            &&& r.members == g.members.push(MemberView { member_id: member, metadata })
            &&& topic matches Some(t) ==> r.subscriptions == g.subscriptions.insert(member, t)
            &&& topic is None ==> r.subscriptions == g.subscriptions
            &&& r.leader_id == g.leader_id
            &&& r.session_timeout_ms == g.session_timeout_ms
            &&& g.members.len() == 0 ==> r.status == GroupStatus::Stable && r.generation_id == g.generation_id
            &&& g.members.len() == 0 ==> (topic matches Some(t) ==> (0 <= p < (if topics.dom().contains(t) { topics[t] } else {
                1
            }) ==> has_one_reader(r, t, p)))
            &&& g.members.len() > 0 ==> r.status == GroupStatus::PreparingRebalance && r.generation_id == g.generation_id + 1
                && r.rebalance_started_ms == now && r.rejoined == set![member] && r.assignments == g.assignments
        }),
{
    let r = joined(g, member, topic, metadata, topics, now);
    assert(!is_member(g, member));
    if g.members.len() == 0 {
        assert(r.members[0].member_id == member);
        assert forall|m: Seq<char>| #[trigger] r.subscriptions.dom().contains(m) implies exists|i: int|
            0 <= i < r.members.len() && (#[trigger] r.members[i]).member_id == m by {
            assert(m == member || g.subscriptions.dom().contains(m));
        }
        assert(r.assignments.dom() =~= r.subscriptions.dom());
        assert(only_members_read(r)) by {
            assert forall|m: Seq<char>| #[trigger] r.assignments.dom().contains(m) implies exists|i: int|
                0 <= i < r.members.len() && (#[trigger] r.members[i]).member_id == m by {
                assert(r.subscriptions.dom().contains(m));
            }
        }
        if let Some(t) = topic {
            if 0 <= p < (if topics.dom().contains(t) { topics[t] } else { 1 }) {
                lemma_dealt(r, topics, member, p);
            }
        }
    }
}

proof fn lemma_enough_back(g: GroupView)
    requires
        distinct_members(g),
        g.rejoined.finite(),
        forall|i: int| 0 <= i < g.members.len() ==> g.rejoined.contains((#[trigger] g.members[i]).member_id),
    ensures
        g.rejoined.len() >= g.members.len(),
{
    let ids = Seq::new(g.members.len(), |i: int| g.members[i].member_id);
    assert(ids.no_duplicates());
    ids.unique_seq_to_set();
    assert forall|m: Seq<char>| ids.to_set().contains(m) implies g.rejoined.contains(m) by {
        let i = choose|i: int| 0 <= i < ids.len() && ids[i] == m;
        assert(g.members[i].member_id == m);
    }
    assert(ids.to_set().subset_of(g.rejoined));
    vstd::set_lib::lemma_len_subset(ids.to_set(), g.rejoined);
}

/// What joining does during a rebalance. Who joins counts as having come back, and is
/// recorded if new. The rebalance ends at once where all the others have come back
/// already, and otherwise goes on as it was.
pub proof fn rebalance_ends_with_the_last_to_come_back(
    g: GroupView,
    member: Seq<char>,
    topic: Option<Seq<char>>,
    metadata: Seq<u8>,
    topics: Map<Seq<char>, i32>,
    now: i64,
)
    requires
        members_counted(g),
        g.status == GroupStatus::PreparingRebalance,
        g.members.len() > 0,
    ensures
        ({
            let r = joined(g, member, topic, metadata, topics, now);
            let all_back = forall|i: int|
                0 <= i < g.members.len() ==> (#[trigger] g.members[i]).member_id == member || g.rejoined.contains(
                    g.members[i].member_id,
                );
            let new = forall|i: int| 0 <= i < g.members.len() ==> (#[trigger] g.members[i]).member_id != member;
            &&& all_back <==> r.status == GroupStatus::Stable
            &&& !all_back ==> r.status == GroupStatus::PreparingRebalance && r.rejoined == g.rejoined.insert(member)
                && r.rebalance_started_ms == g.rebalance_started_ms && r.assignments == g.assignments
            &&& new && !all_back ==> r.members == g.members.push(MemberView { member_id: member, metadata })
            &&& !new && !all_back ==> r.members == g.members && r.subscriptions == g.subscriptions
            &&& new && !all_back ==> (topic matches Some(t) ==> r.subscriptions == g.subscriptions.insert(member, t))
            &&& new && !all_back && topic is None ==> r.subscriptions == g.subscriptions
            &&& r.generation_id == g.generation_id
            &&& r.leader_id == g.leader_id
            &&& r.session_timeout_ms == g.session_timeout_ms
        }),
{
    lemma_joiner_counted(g, member, topic, metadata);
    let h = with_joiner(g, member, topic, metadata);
    let b = GroupView { rejoined: g.rejoined.insert(member), ..h };
    let r = joined(g, member, topic, metadata, topics, now);
    assert(r == came_back(h, member, topics));
    let all_back = forall|i: int|
        0 <= i < g.members.len() ==> (#[trigger] g.members[i]).member_id == member || g.rejoined.contains(
            g.members[i].member_id,
        );
    if all_back {
        assert forall|i: int| 0 <= i < b.members.len() implies b.rejoined.contains((#[trigger] b.members[i]).member_id) by {
            if i < g.members.len() {
                assert(b.members[i] == g.members[i]);
            }
        }
        lemma_enough_back(b);
        finished_rebalance_is_stable(h, member, topics);
    } else if b.rejoined.len() >= b.members.len() {
        lemma_all_back(b);
        assert forall|i: int| 0 <= i < g.members.len() implies (#[trigger] g.members[i]).member_id == member
            || g.rejoined.contains(g.members[i].member_id) by {
            assert(b.members[i] == g.members[i]);
            assert(is_member(b, g.members[i].member_id));
            assert(b.rejoined.contains(g.members[i].member_id));
        }
    }
}

/// The rebalance that a joining member ends is an end like any other: of the group with
/// the member on its list and counted as having come back.
pub proof fn last_to_come_back_ends_the_rebalance(
    g: GroupView,
    member: Seq<char>,
    topic: Option<Seq<char>>,
    metadata: Seq<u8>,
    topics: Map<Seq<char>, i32>,
    now: i64,
)
    requires
        g.status == GroupStatus::PreparingRebalance,
        g.members.len() > 0,
        joined(g, member, topic, metadata, topics, now).status != GroupStatus::PreparingRebalance,
    ensures
        joined(g, member, topic, metadata, topics, now) == finalized(
            GroupView { rejoined: g.rejoined.insert(member), ..with_joiner(g, member, topic, metadata) },
            topics,
        ),
{
}

proof fn lemma_read_kept(g: GroupView, gone: Seq<Seq<char>>, now: i64)
    requires
        only_members_read(g),
    ensures
        only_members_read(expired(g, gone, now)),
{
    let r = expired(g, gone, now);
    lemma_removed_exact(g, gone);
    assert forall|m: Seq<char>|
        !#[trigger] gone.contains(m) && (exists|i: int| 0 <= i < g.members.len() && (#[trigger] g.members[i]).member_id
            == m) implies exists|i: int| 0 <= i < r.members.len() && (#[trigger] r.members[i]).member_id == m by {
        let i = choose|i: int| 0 <= i < g.members.len() && (#[trigger] g.members[i]).member_id == m;
        assert(g.members.contains(g.members[i]));
        assert(r.members.contains(g.members[i]));
        let k = choose|k: int| 0 <= k < r.members.len() && r.members[k] == g.members[i];
        assert(r.members[k].member_id == m);
    }
    if r.members.len() > 0 {
        let k: int = 0;
        assert(r.members.contains(r.members[k]));
        assert(g.members.contains(r.members[k]));
    }
}

/// Whatever happens to a group, subscriptions and partitions stay with its members.
pub proof fn only_members_ever_read(
    g: GroupView,
    member: Seq<char>,
    topic: Option<Seq<char>>,
    metadata: Seq<u8>,
    topics: Map<Seq<char>, i32>,
    gone: Seq<Seq<char>>,
    now: i64,
    leader: Seq<char>,
    session_timeout_ms: i64,
)
    requires
        members_counted(g),
        only_members_read(g),
    ensures
        only_members_read(fresh_group(leader, session_timeout_ms)),
        only_members_read(joined(g, member, topic, metadata, topics, now)),
        only_members_read(left(g, member, now)),
        only_members_read(expired(g, gone, now)),
        only_members_read(finalized(g, topics)),
{
    let none = MemberView { member_id: member, metadata };
    lemma_read_kept(g, gone, now);
    lemma_read_kept(g, seq![member], now);
    leaving_is_being_struck_off(g, member, now);
    ended_rebalance_leaves_who_came_back(g, topics, none, member, 0);
    lemma_joiner_counted(g, member, topic, metadata);
    let h = with_joiner(g, member, topic, metadata);
    let b = GroupView { rejoined: g.rejoined.insert(member), ..h };
    ended_rebalance_leaves_who_came_back(b, topics, none, member, 0);
    let r = joined(g, member, topic, metadata, topics, now);
    assert forall|m: Seq<char>| m == member || is_member(g, m) implies #[trigger] is_member(h, m) by {
        if m != member {
            let i = choose|i: int| 0 <= i < g.members.len() && (#[trigger] g.members[i]).member_id == m;
            assert(h.members[i].member_id == m);
        }
    }
    if r != finalized(b, topics) {
        assert(r.members == h.members);
        assert forall|m: Seq<char>| #[trigger] r.subscriptions.dom().contains(m) implies exists|i: int|
            0 <= i < r.members.len() && (#[trigger] r.members[i]).member_id == m by {
            assert(m == member || g.subscriptions.dom().contains(m));
            assert(m == member || is_member(g, m));
            assert(is_member(h, m));
        }
        assert forall|m: Seq<char>| #[trigger] r.assignments.dom().contains(m) implies exists|i: int|
            0 <= i < r.members.len() && (#[trigger] r.members[i]).member_id == m by {
            if g.members.len() > 0 && !(g.status == GroupStatus::Empty && !is_member(g, member)) {
                assert(r.assignments == g.assignments);
                assert(is_member(g, m));
                assert(is_member(h, m));
            } else {
                assert(r.subscriptions.dom().contains(m));
            }
        }
    }
}

/// When a rebalance has lasted too long: it has begun, and longer ago than allowed.
pub proof fn overdue_is_past_the_limit(g: GroupView, now: int, limit: int)
    requires
        g.rebalance_started_ms > 0,
        g.status == GroupStatus::PreparingRebalance,
    ensures
        overdue(g, now, limit) <==> g.rebalance_started_ms + limit < now,
{
}

/// A group that is not rebalancing, or does not know since when, is never overdue.
pub proof fn only_rebalances_are_overdue(g: GroupView, now: int, limit: int)
    requires
        overdue(g, now, limit),
    ensures
        g.status == GroupStatus::PreparingRebalance,
        g.rebalance_started_ms > 0,
{
}

} // verus!

//! Who has not been heard of, which rebalances have lasted too long, and what
//! follows from it.
use vstd::prelude::*;

use crate::broker::groups::{
    expire, expired, finalize_rebalance, finalized, overdue, striking_off_hits_nobody_else,
};
use crate::broker::raft::{BrokerCommand, GroupStatus, GroupView, MemberView, ReplicatedGroupState};
use crate::maps::{Dup, VecMap};
use crate::seqs::{lemma_filter_ends, lemma_filter_holds, lemma_filter_step};

verus! {

/// When a member was last heard of; zero where it never was.
pub open spec fn last_heard(heard: Map<(Seq<char>, Seq<char>), i64>, group: Seq<char>, member: Seq<char>) -> int {
    if heard.dom().contains((group, member)) { heard[(group, member)] as int } else { 0 }
}

/// A member has been silent for longer than its group allows. With `grace`, one
/// that was never heard of does not count as silent.
pub open spec fn is_silent(
    heard: Map<(Seq<char>, Seq<char>), i64>,
    group: Seq<char>,
    timeout: i64,
    now: i64,
    grace: bool,
) -> spec_fn(MemberView) -> bool {
    |m: MemberView|
        (!grace || last_heard(heard, group, m.member_id) > 0) && now - last_heard(heard, group, m.member_id) > timeout
}

/// The ids of a row of members.
pub open spec fn ids_of(members: Seq<MemberView>) -> Seq<Seq<char>> {
    Seq::new(members.len(), |i: int| members[i].member_id)
}

/// The members that have been silent for too long.
pub open spec fn silent_ids(
    g: GroupView,
    heard: Map<(Seq<char>, Seq<char>), i64>,
    group: Seq<char>,
    now: i64,
    grace: bool,
) -> Seq<Seq<char>> {
    ids_of(g.members.filter(is_silent(heard, group, g.session_timeout_ms, now, grace)))
}

/// Finds the members that have been silent for too long.
pub fn silent_members(
    group_id: &String,
    group: &ReplicatedGroupState,
    heard: &VecMap<(String, String), i64>,
    now: i64,
    grace: bool,
) -> (r: Vec<String>)
    ensures
        r.deep_view() == silent_ids(group@, heard@, group_id@, now, grace),
{
    let ghost s = group.members.deep_view();
    let ghost p = is_silent(heard@, group_id@, group.session_timeout_ms, now, grace);
    let mut r: Vec<String> = Vec::new();
    proof {
        lemma_filter_ends(s, p);
        assert(r.deep_view() =~= ids_of(s.take(0).filter(p)));
    }
    let mut i: usize = 0;
    while i < group.members.len()
        invariant
            i <= group.members@.len(),
            s == group.members.deep_view(),
            p == is_silent(heard@, group_id@, group.session_timeout_ms, now, grace),
            r.deep_view() == ids_of(s.take(i as int).filter(p)),
        decreases group.members@.len() - i,
    {
        let m = &group.members[i];
        let ghost before = r.deep_view();
        proof {
            lemma_filter_step(s, p, i as int);
            assert(s[i as int] == m.deep_view());
        }
        let k = (group_id.dup(), m.member_id.dup());
        let last: i64 = match heard.get(&k) {
            Some(t) => *t,
            None => 0,
        };
        if (!grace || last > 0) && now as i128 - last as i128 > group.session_timeout_ms as i128 {
            r.push(m.member_id.dup());
            assert(r.deep_view() =~= before.push(m.member_id@));
            assert(r.deep_view() =~= ids_of(s.take(i + 1).filter(p)));
        }
        i += 1;
    }
    assert(s.take(i as int) =~= s);
    r
}

/// A group after its silent members have been struck off and a rebalance that
/// lasted too long has been ended.
pub open spec fn checked(
    g: GroupView,
    heard: Map<(Seq<char>, Seq<char>), i64>,
    group: Seq<char>,
    topics: Map<Seq<char>, i32>,
    now: i64,
    limit: i64,
) -> GroupView {
    let gone = silent_ids(g, heard, group, now, false);
    let h = if gone.len() > 0 { expired(g, gone, now) } else { g };
    if overdue(h, now as int, limit as int) { finalized(h, topics) } else { h }
}

/// Whether a rebalance has lasted longer than it may.
pub fn is_overdue(group: &ReplicatedGroupState, now: i64, limit: i64) -> (b: bool)
    ensures
        b == overdue(group@, now as int, limit as int),
{
    group.status == GroupStatus::PreparingRebalance && group.rebalance_started_ms > 0 && now as i128
        - group.rebalance_started_ms as i128 > limit as i128
}

fn check_group(
    group: &mut ReplicatedGroupState,
    heard: &VecMap<(String, String), i64>,
    group_id: &String,
    topics: &VecMap<String, i32>,
    now: i64,
    limit: i64,
)
    requires
        checked(old(group)@, heard@, group_id@, topics@, now, limit).generation_id <= i32::MAX,
    ensures
        final(group)@ == checked(old(group)@, heard@, group_id@, topics@, now, limit),
{
    let gone = silent_members(group_id, group, heard, now, false);
    assert(gone.deep_view().len() == gone@.len());
    if gone.len() > 0 {
        expire(group, &gone, now);
    }
    if is_overdue(group, now, limit) {
        finalize_rebalance(group, topics);
    }
}

/// All groups after their check.
pub open spec fn all_checked(
    groups: Map<Seq<char>, GroupView>,
    heard: Map<(Seq<char>, Seq<char>), i64>,
    topics: Map<Seq<char>, i32>,
    now: i64,
    limit: i64,
) -> Map<Seq<char>, GroupView> {
    Map::new(
        |g: Seq<char>| groups.dom().contains(g),
        |g: Seq<char>| checked(groups[g], heard, g, topics, now, limit),
    )
}

/// Checks every group.
pub fn check_groups(
    groups: &mut VecMap<String, ReplicatedGroupState>,
    heard: &VecMap<(String, String), i64>,
    topics: &VecMap<String, i32>,
    now: i64,
    limit: i64,
)
    requires
        forall|g: Seq<char>|
            #[trigger] old(groups)@.dom().contains(g) ==> checked(old(groups)@[g], heard@, g, topics@, now, limit).generation_id
                <= i32::MAX,
    ensures
        final(groups)@ == all_checked(old(groups)@, heard@, topics@, now, limit),
{
    let ghost before = groups@;
    let ids = groups.keys();
    let ghost order = ids.deep_view();
    let mut i: usize = 0;
    while i < ids.len()
        invariant
            i <= ids@.len(),
            order == ids.deep_view(),
            order.no_duplicates(),
            order.to_set() == before.dom(),
            groups@.dom() == before.dom(),
            forall|g: Seq<char>|
                #[trigger] before.dom().contains(g) ==> checked(before[g], heard@, g, topics@, now, limit).generation_id
                    <= i32::MAX,
            forall|j: int|
                0 <= j < i ==> groups@[#[trigger] order[j]] == checked(before[order[j]], heard@, order[j], topics@, now, limit),
            forall|j: int| i <= j < order.len() ==> groups@[#[trigger] order[j]] == before[order[j]],
        decreases ids@.len() - i,
    {
        let id = &ids[i];
        proof {
            assert(order[i as int] == id@);
            assert(order.to_set().contains(order[i as int]));
        }
        match groups.remove(id) {
            Some(mut group) => {
                check_group(&mut group, heard, id, topics, now, limit);
                groups.insert(id.dup(), group);
            },
            None => {},
        }
        assert(groups@.dom() =~= before.dom());
        i += 1;
    }
    proof {
        let want = all_checked(before, heard@, topics@, now, limit);
        assert forall|g: Seq<char>| #[trigger] groups@.dom().contains(g) implies groups@[g] == want[g] by {
            assert(order.to_set().contains(g));
            let j = choose|j: int| 0 <= j < order.len() && order[j] == g;
            assert(groups@[order[j]] == checked(before[order[j]], heard@, order[j], topics@, now, limit));
        }
        assert(groups@ =~= want);
    }
}

/// What is to be done about silent members and overdue rebalances where the state
/// is replicated: first the members to strike off, by group, then the groups whose
/// rebalance is to be ended.
pub fn liveness_commands(
    groups: &VecMap<String, ReplicatedGroupState>,
    heard: &VecMap<(String, String), i64>,
    now: i64,
    limit: i64,
) -> (r: Vec<BrokerCommand>)
    ensures
        is_liveness(groups@, groups.order(), heard@, now, limit, r@),
{
    let n = groups.len();
    let ghost order = groups.order();
    let mut r: Vec<BrokerCommand> = Vec::new();
    let mut i: usize = 0;
    assert(expiries(groups@, order.take(0), heard@, now) =~= Seq::empty());
    while i < n
        invariant
            i <= n,
            n == order.len(),
            order == groups.order(),
            commands_view(r@) == expiries(groups@, order.take(i as int), heard@, now),
        decreases n - i,
    {
        let id = groups.key_at(i);
        let group = groups.value_at(i);
        let gone = silent_members(id, group, heard, now, true);
        let ghost before = r@;
        proof {
            assert(order.take(i + 1).drop_last() =~= order.take(i as int));
            assert(order.take(i + 1).last() == order[i as int]);
            assert(gone.deep_view().len() == gone@.len());
        }
        if gone.len() > 0 {
            let ghost c = CommandView::Expire { group: id@, gone: gone.deep_view() };
            r.push(BrokerCommand::GroupExpire { group_id: id.dup(), expired_ids: gone });
            assert(commands_view(r@) =~= commands_view(before).push(c));
        }
        i += 1;
    }
    let ghost first = commands_view(r@);
    let mut k: usize = 0;
    assert(order.take(n as int) =~= order);
    assert(endings(groups@, order.take(0), now, limit) =~= Seq::empty());
    assert(first + Seq::empty() =~= first);
    while k < n
        invariant
            k <= n,
            n == order.len(),
            order == groups.order(),
            commands_view(r@) == first + endings(groups@, order.take(k as int), now, limit),
        decreases n - k,
    {
        let id = groups.key_at(k);
        let group = groups.value_at(k);
        let ghost before = r@;
        proof {
            assert(order.take(k + 1).drop_last() =~= order.take(k as int));
            assert(order.take(k + 1).last() == order[k as int]);
        }
        if is_overdue(group, now, limit) {
            let ghost c = CommandView::End { group: id@ };
            r.push(BrokerCommand::GroupFinalize { group_id: id.dup() });
            assert(commands_view(r@) =~= commands_view(before).push(c));
            assert(first + endings(groups@, order.take(k as int), now, limit).push(c) =~= (first + endings(
                groups@,
                order.take(k as int),
                now,
                limit,
            )).push(c));
        }
        k += 1;
    }
    r
}

/// A command about the liveness of a group.
pub enum CommandView {
    Expire { group: Seq<char>, gone: Seq<Seq<char>> },
    End { group: Seq<char> },
    Other,
}

/// What a command says about the liveness of a group.
pub open spec fn command_view(c: BrokerCommand) -> CommandView {
    match c {
        BrokerCommand::GroupExpire { group_id, expired_ids } => CommandView::Expire {
            group: group_id@,
            gone: expired_ids.deep_view(),
        },
        BrokerCommand::GroupFinalize { group_id } => CommandView::End { group: group_id@ },
        _ => CommandView::Other,
    }
}

/// What a row of commands says.
pub open spec fn commands_view(s: Seq<BrokerCommand>) -> Seq<CommandView> {
    Seq::new(s.len(), |i: int| command_view(s[i]))
}

/// For every group with silent members, in the given order, the members to strike off.
pub open spec fn expiries(
    groups: Map<Seq<char>, GroupView>,
    order: Seq<Seq<char>>,
    heard: Map<(Seq<char>, Seq<char>), i64>,
    now: i64,
) -> Seq<CommandView>
    decreases order.len(),
{
    if order.len() == 0 {
        Seq::empty()
    } else {
        let rest = expiries(groups, order.drop_last(), heard, now);
        let g = order.last();
        let gone = silent_ids(groups[g], heard, g, now, true);
        if gone.len() > 0 { rest.push(CommandView::Expire { group: g, gone }) } else { rest }
    }
}

/// The groups, in the given order, whose rebalance has lasted too long.
pub open spec fn endings(groups: Map<Seq<char>, GroupView>, order: Seq<Seq<char>>, now: i64, limit: i64) -> Seq<CommandView>
    decreases order.len(),
{
    if order.len() == 0 {
        Seq::empty()
    } else {
        let rest = endings(groups, order.drop_last(), now, limit);
        let g = order.last();
        if overdue(groups[g], now as int, limit as int) { rest.push(CommandView::End { group: g }) } else { rest }
    }
}

/// The commands name every group's silent members and every overdue rebalance.
pub open spec fn is_liveness(
    groups: Map<Seq<char>, GroupView>,
    order: Seq<Seq<char>>,
    heard: Map<(Seq<char>, Seq<char>), i64>,
    now: i64,
    limit: i64,
    r: Seq<BrokerCommand>,
) -> bool {
    commands_view(r) == expiries(groups, order, heard, now) + endings(groups, order, now, limit)
}

/// A member has been silent past the session timeout of its group. A member that was
/// never heard of counts as heard of at time zero.
pub open spec fn past_its_timeout(
    g: GroupView,
    heard: Map<(Seq<char>, Seq<char>), i64>,
    group: Seq<char>,
    now: i64,
    m: MemberView,
) -> bool {
    if heard.dom().contains((group, m.member_id)) {
        heard[(group, m.member_id)] + g.session_timeout_ms < now
    } else {
        g.session_timeout_ms < now
    }
}

/// Exactly those members count as silent that have not been heard of for longer than the
/// session timeout of their group. Where grace is given, those that were never heard of
/// are left out.
pub proof fn silence_is_past_the_timeout(
    g: GroupView,
    heard: Map<(Seq<char>, Seq<char>), i64>,
    group: Seq<char>,
    now: i64,
    grace: bool,
    id: Seq<char>,
)
    ensures
        silent_ids(g, heard, group, now, grace).contains(id) <==> exists|i: int|
            0 <= i < g.members.len() && (#[trigger] g.members[i]).member_id == id && past_its_timeout(
                g,
                heard,
                group,
                now,
                g.members[i],
            ) && (grace ==> heard.dom().contains((group, id)) && heard[(group, id)] > 0),
        silent_ids(g, heard, group, now, grace).len() == 0 <==> forall|m: MemberView| #[trigger]
            g.members.contains(m) ==> !(past_its_timeout(g, heard, group, now, m) && (grace ==> heard.dom().contains(
                (group, m.member_id),
            ) && heard[(group, m.member_id)] > 0)),
{
    let p = is_silent(heard, group, g.session_timeout_ms, now, grace);
    let f = g.members.filter(p);
    let r = silent_ids(g, heard, group, now, grace);
    lemma_filter_holds(g.members, p);
    if r.contains(id) {
        let k = choose|k: int| 0 <= k < r.len() && r[k] == id;
        assert(f.contains(f[k]));
        let i = choose|i: int| 0 <= i < g.members.len() && g.members[i] == f[k];
        assert(g.members[i].member_id == id);
        assert(p(g.members[i]));
    }
    if exists|i: int|
        0 <= i < g.members.len() && (#[trigger] g.members[i]).member_id == id && past_its_timeout(
            g,
            heard,
            group,
            now,
            g.members[i],
        ) && (grace ==> heard.dom().contains((group, id)) && heard[(group, id)] > 0) {
        let i = choose|i: int|
            0 <= i < g.members.len() && (#[trigger] g.members[i]).member_id == id && past_its_timeout(
                g,
                heard,
                group,
                now,
                g.members[i],
            ) && (grace ==> heard.dom().contains((group, id)) && heard[(group, id)] > 0);
        assert(p(g.members[i]));
        assert(g.members.contains(g.members[i]));
        assert(f.contains(g.members[i]));
        let k = choose|k: int| 0 <= k < f.len() && f[k] == g.members[i];
        assert(r[k] == id);
    }
    if r.len() > 0 {
        assert(f.contains(f[0]));
        assert(g.members.contains(f[0]) && p(f[0]));
    } else {
        assert forall|m: MemberView| #[trigger] g.members.contains(m) implies !(past_its_timeout(g, heard, group, now, m) && (
        grace ==> heard.dom().contains((group, m.member_id)) && heard[(group, m.member_id)] > 0)) by {
            if p(m) {
                assert(f.contains(m));
                assert(f.len() > 0);
            }
        }
    }
}

/// What a check does to a group. Where members are silent, they go and nobody else does,
/// and a rebalance begins. Where nobody is silent and the rebalance is
/// overdue, it ends, and exactly those stay who have come back. Otherwise nothing
/// changes.
pub proof fn check_strikes_off_the_silent(
    g: GroupView,
    heard: Map<(Seq<char>, Seq<char>), i64>,
    group: Seq<char>,
    topics: Map<Seq<char>, i32>,
    now: i64,
    limit: i64,
    m: MemberView,
)
    requires
        limit >= 0,
        forall|i: int, j: int|
            0 <= i < g.members.len() && 0 <= j < g.members.len() && i != j ==> (#[trigger] g.members[i]).member_id != (
            #[trigger] g.members[j]).member_id,
    ensures
        ({
            let r = checked(g, heard, group, topics, now, limit);
            let silent = exists|x: MemberView| #[trigger] g.members.contains(x) && past_its_timeout(g, heard, group, now, x);
            let late = g.status == GroupStatus::PreparingRebalance && 0 < g.rebalance_started_ms
                && g.rebalance_started_ms + limit < now;
            &&& silent ==> (r.members.contains(m) <==> g.members.contains(m) && !past_its_timeout(g, heard, group, now, m))
            &&& silent && r.members.len() > 0 ==> r.status == GroupStatus::PreparingRebalance && r.generation_id
                == g.generation_id + 1 && r.rebalance_started_ms == now
            &&& silent && r.members.len() == 0 ==> r.status == GroupStatus::Empty || late
            &&& !silent && late ==> (r.members.contains(m) <==> g.members.contains(m) && g.rejoined.contains(m.member_id))
            &&& !silent && late && r.members.len() > 0 ==> r.status == GroupStatus::Stable
            &&& !silent && !late ==> r == g
        }),
{
    let gone = silent_ids(g, heard, group, now, false);
    silence_is_past_the_timeout(g, heard, group, now, false, m.member_id);
    let silent = exists|x: MemberView| #[trigger] g.members.contains(x) && past_its_timeout(g, heard, group, now, x);
    let h = expired(g, gone, now);
    if silent {
        let x = choose|x: MemberView| #[trigger] g.members.contains(x) && past_its_timeout(g, heard, group, now, x);
        assert(gone.len() > 0);
        striking_off_hits_nobody_else(g, gone, now, m, m.member_id);
        if g.members.contains(m) {
            let a = choose|a: int| 0 <= a < g.members.len() && g.members[a] == m;
            assert(g.members[a].member_id == m.member_id);
            if gone.contains(m.member_id) {
                let i = choose|i: int|
                    0 <= i < g.members.len() && (#[trigger] g.members[i]).member_id == m.member_id && past_its_timeout(
                        g,
                        heard,
                        group,
                        now,
                        g.members[i],
                    );
                assert(i == a);
            }
        }
        if h.members.len() == 0 {
            assert(!overdue(h, now as int, limit as int));
        }
    } else {
        assert(gone.len() == 0);
        lemma_filter_holds(g.members, |x: MemberView| g.rejoined.contains(x.member_id));
    }
}

/// Every group is checked, each by itself, and none comes or goes.
pub proof fn every_group_is_checked(
    groups: Map<Seq<char>, GroupView>,
    heard: Map<(Seq<char>, Seq<char>), i64>,
    topics: Map<Seq<char>, i32>,
    now: i64,
    limit: i64,
    id: Seq<char>,
)
    ensures
        all_checked(groups, heard, topics, now, limit).dom().contains(id) <==> groups.dom().contains(id),
        groups.dom().contains(id) ==> all_checked(groups, heard, topics, now, limit)[id] == checked(
            groups[id],
            heard,
            id,
            topics,
            now,
            limit,
        ),
{
}

proof fn lemma_expiry_listed(
    groups: Map<Seq<char>, GroupView>,
    order: Seq<Seq<char>>,
    heard: Map<(Seq<char>, Seq<char>), i64>,
    now: i64,
)
    ensures
        forall|c: CommandView| #[trigger]
            expiries(groups, order, heard, now).contains(c) <==> exists|k: int|
                0 <= k < order.len() && silent_ids(groups[#[trigger] order[k]], heard, order[k], now, true).len() > 0 && c == (
                CommandView::Expire { group: order[k], gone: silent_ids(groups[order[k]], heard, order[k], now, true) }),
    decreases order.len(),
{
    let all = expiries(groups, order, heard, now);
    if order.len() > 0 {
        let front = order.drop_last();
        let g = order.last();
        let gone = silent_ids(groups[g], heard, g, now, true);
        let rest = expiries(groups, front, heard, now);
        lemma_expiry_listed(groups, front, heard, now);
        assert forall|c: CommandView| #[trigger] all.contains(c) <==> exists|k: int|
            0 <= k < order.len() && silent_ids(groups[#[trigger] order[k]], heard, order[k], now, true).len() > 0 && c == (
            CommandView::Expire { group: order[k], gone: silent_ids(groups[order[k]], heard, order[k], now, true) }) by {
            if all.contains(c) {
                let x = choose|x: int| 0 <= x < all.len() && all[x] == c;
                if x < rest.len() {
                    assert(rest[x] == c);
                    assert(rest.contains(c));
                    let k = choose|k: int|
                        0 <= k < front.len() && silent_ids(groups[#[trigger] front[k]], heard, front[k], now, true).len() > 0
                            && c == (CommandView::Expire {
                            group: front[k],
                            gone: silent_ids(groups[front[k]], heard, front[k], now, true),
                        });
                    assert(order[k] == front[k]);
                } else {
                    assert(order[order.len() - 1] == g);
                }
            }
            if exists|k: int|
                0 <= k < order.len() && silent_ids(groups[#[trigger] order[k]], heard, order[k], now, true).len() > 0 && c == (
                CommandView::Expire { group: order[k], gone: silent_ids(groups[order[k]], heard, order[k], now, true) }) {
                let k = choose|k: int|
                    0 <= k < order.len() && silent_ids(groups[#[trigger] order[k]], heard, order[k], now, true).len() > 0 && c
                        == (CommandView::Expire {
                        group: order[k],
                        gone: silent_ids(groups[order[k]], heard, order[k], now, true),
                    });
                if k < front.len() {
                    assert(front[k] == order[k]);
                    assert(rest.contains(c));
                    let x = choose|x: int| 0 <= x < rest.len() && rest[x] == c;
                    assert(all[x] == c);
                } else {
                    assert(all[rest.len() as int] == c);
                }
            }
        }
    }
}

proof fn lemma_ending_listed(groups: Map<Seq<char>, GroupView>, order: Seq<Seq<char>>, now: i64, limit: i64)
    ensures
        forall|c: CommandView| #[trigger]
            endings(groups, order, now, limit).contains(c) <==> exists|k: int|
                0 <= k < order.len() && overdue(groups[#[trigger] order[k]], now as int, limit as int) && c == (
                CommandView::End { group: order[k] }),
    decreases order.len(),
{
    let all = endings(groups, order, now, limit);
    if order.len() > 0 {
        let front = order.drop_last();
        let g = order.last();
        let rest = endings(groups, front, now, limit);
        lemma_ending_listed(groups, front, now, limit);
        assert forall|c: CommandView| #[trigger] all.contains(c) <==> exists|k: int|
            0 <= k < order.len() && overdue(groups[#[trigger] order[k]], now as int, limit as int) && c == (CommandView::End {
                group: order[k],
            }) by {
            if all.contains(c) {
                let x = choose|x: int| 0 <= x < all.len() && all[x] == c;
                if x < rest.len() {
                    assert(rest[x] == c);
                    assert(rest.contains(c));
                    let k = choose|k: int|
                        0 <= k < front.len() && overdue(groups[#[trigger] front[k]], now as int, limit as int) && c == (
                        CommandView::End { group: front[k] });
                    assert(order[k] == front[k]);
                } else {
                    assert(order[order.len() - 1] == g);
                }
            }
            if exists|k: int|
                0 <= k < order.len() && overdue(groups[#[trigger] order[k]], now as int, limit as int) && c == (
                CommandView::End { group: order[k] }) {
                let k = choose|k: int|
                    0 <= k < order.len() && overdue(groups[#[trigger] order[k]], now as int, limit as int) && c == (
                    CommandView::End { group: order[k] });
                if k < front.len() {
                    assert(front[k] == order[k]);
                    assert(rest.contains(c));
                    let x = choose|x: int| 0 <= x < rest.len() && rest[x] == c;
                    assert(all[x] == c);
                } else {
                    assert(all[rest.len() as int] == c);
                }
            }
        }
    }
}

/// What is proposed where the state is replicated. A group has members to strike off
/// exactly where members that have been heard of are silent past its timeout, and then
/// those are named. A rebalance is to be ended exactly where it is overdue. Nothing else
/// is proposed.
pub proof fn proposals_name_the_silent_and_the_overdue(
    groups: Map<Seq<char>, GroupView>,
    order: Seq<Seq<char>>,
    heard: Map<(Seq<char>, Seq<char>), i64>,
    now: i64,
    limit: i64,
    r: Seq<BrokerCommand>,
    id: Seq<char>,
    i: int,
)
    requires
        is_liveness(groups, order, heard, now, limit, r),
        order.to_set() == groups.dom(),
    ensures
        0 <= i < r.len() ==> (r[i] is GroupExpire || r[i] is GroupFinalize),
        0 <= i < r.len() ==> (r[i] matches BrokerCommand::GroupExpire { group_id, expired_ids } ==> groups.dom().contains(
            group_id@,
        ) && expired_ids.deep_view() == silent_ids(groups[group_id@], heard, group_id@, now, true)
            && expired_ids.deep_view().len() > 0),
        0 <= i < r.len() ==> (r[i] matches BrokerCommand::GroupFinalize { group_id } ==> groups.dom().contains(group_id@)
            && groups[group_id@].status == GroupStatus::PreparingRebalance && groups[group_id@].rebalance_started_ms > 0
            && groups[group_id@].rebalance_started_ms + limit < now),
        groups.dom().contains(id) && silent_ids(groups[id], heard, id, now, true).len() > 0 ==> exists|k: int|
            0 <= k < r.len() && (#[trigger] r[k] matches BrokerCommand::GroupExpire { group_id, .. } && group_id@ == id),
        groups.dom().contains(id) && groups[id].status == GroupStatus::PreparingRebalance && groups[id].rebalance_started_ms > 0
            && groups[id].rebalance_started_ms + limit < now ==> exists|k: int|
            0 <= k < r.len() && (#[trigger] r[k] matches BrokerCommand::GroupFinalize { group_id } && group_id@ == id),
{
    let a = expiries(groups, order, heard, now);
    let b = endings(groups, order, now, limit);
    let v = commands_view(r);
    lemma_expiry_listed(groups, order, heard, now);
    lemma_ending_listed(groups, order, now, limit);
    assert(v == a + b);
    assert(v.len() == a.len() + b.len());
    assert(v.len() == r.len());
    if 0 <= i < r.len() {
        assert(v[i] == command_view(r[i]));
        if i < a.len() {
            assert(a[i] == v[i]);
            assert(a.contains(v[i]));
            let k = choose|k: int|
                0 <= k < order.len() && silent_ids(groups[#[trigger] order[k]], heard, order[k], now, true).len() > 0 && v[i]
                    == (CommandView::Expire {
                    group: order[k],
                    gone: silent_ids(groups[order[k]], heard, order[k], now, true),
                });
            assert(order.to_set().contains(order[k]));
        } else {
            assert(b[i - a.len()] == v[i]);
            assert(b.contains(v[i]));
            let k = choose|k: int|
                0 <= k < order.len() && overdue(groups[#[trigger] order[k]], now as int, limit as int) && v[i] == (
                CommandView::End { group: order[k] });
            assert(order.to_set().contains(order[k]));
        }
    }
    if groups.dom().contains(id) {
        assert(order.to_set().contains(id));
        let k = choose|k: int| 0 <= k < order.len() && order[k] == id;
        if silent_ids(groups[id], heard, id, now, true).len() > 0 {
            let c = CommandView::Expire { group: id, gone: silent_ids(groups[id], heard, id, now, true) };
            assert(silent_ids(groups[order[k]], heard, order[k], now, true).len() > 0);
            assert(a.contains(c));
            let x = choose|x: int| 0 <= x < a.len() && a[x] == c;
            assert(v[x] == c);
            assert(command_view(r[x]) == c);
        }
        if overdue(groups[id], now as int, limit as int) {
            let c = CommandView::End { group: id };
            assert(overdue(groups[order[k]], now as int, limit as int));
            assert(b.contains(c));
            let x = choose|x: int| 0 <= x < b.len() && b[x] == c;
            assert(v[a.len() + x] == c);
            assert(command_view(r[a.len() + x]) == c);
        }
    }
}

} // verus!

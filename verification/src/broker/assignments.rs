//! Which member of a consumer group reads which partitions.
//!
//! Every topic deals its partitions round robin to the members subscribed to
//! it, in the order of their ids.
use vstd::prelude::*;
use vstd::set_lib::*;

use crate::maps::{Dup, VecMap};
use crate::order::{comes_before, text_before, text_order_irreflexive, text_order_total, text_order_transitive};
use crate::seqs::{lemma_filter_ends, lemma_filter_places, lemma_filter_step, range, up_to};

verus! {

/// The members subscribed to a topic.
pub open spec fn peers(subscriptions: Map<Seq<char>, Seq<char>>, topic: Seq<char>) -> Set<Seq<char>> {
    subscriptions.dom().filter(|m: Seq<char>| subscriptions[m] == topic)
}

/// The members of the same topic that come before the member.
pub open spec fn ahead(subscriptions: Map<Seq<char>, Seq<char>>, member: Seq<char>) -> Set<Seq<char>> {
    peers(subscriptions, subscriptions[member]).filter(|x: Seq<char>| text_before(x, member))
}

/// The number of partitions of a topic; an unknown topic counts as one partition.
pub open spec fn partition_count(topics: Map<Seq<char>, i32>, topic: Seq<char>) -> int {
    if topics.dom().contains(topic) { topics[topic] as int } else { 1 }
}

/// What the reader at place `rank` of `count` gets of the partitions `0..n`.
pub open spec fn share(n: int, count: int, rank: int) -> Seq<i32> {
    up_to(n).filter(|p: i32| p as int % count == rank)
}

/// The partitions of every subscribed member.
pub open spec fn assignment(
    subscriptions: Map<Seq<char>, Seq<char>>,
    topics: Map<Seq<char>, i32>,
) -> Map<Seq<char>, Seq<i32>> {
    Map::new(
        |m: Seq<char>| subscriptions.dom().contains(m),
        |m: Seq<char>|
            share(
                partition_count(topics, subscriptions[m]),
                peers(subscriptions, subscriptions[m]).len() as int,
                ahead(subscriptions, m).len() as int,
            ),
    )
}

/// The part of a set of keys that has been walked.
spec fn walked(order: Seq<Seq<char>>, j: int, p: spec_fn(Seq<char>) -> bool) -> Set<Seq<char>> {
    order.take(j).to_set().filter(p)
}

proof fn lemma_walk_step(order: Seq<Seq<char>>, j: int, p: spec_fn(Seq<char>) -> bool)
    requires
        order.no_duplicates(),
        0 <= j < order.len(),
    ensures
        walked(order, j, p).finite(),
        walked(order, j, p).len() <= j,
        walked(order, j + 1, p).len() == walked(order, j, p).len() + (if p(order[j]) { 1int } else { 0 }),
{
    let a = order.take(j);
    let b = order.take(j + 1);
    vstd::seq_lib::seq_to_set_is_finite(a);
    assert(b =~= a.push(order[j]));
    assert(b.to_set() =~= a.to_set().insert(order[j])) by {
        assert forall|x: Seq<char>| b.to_set().contains(x) == a.to_set().insert(order[j]).contains(x) by {
            if b.contains(x) {
                let k = choose|k: int| 0 <= k < b.len() && b[k] == x;
                if k < j {
                    assert(a[k] == x);
                }
            }
            if a.contains(x) {
                let k = choose|k: int| 0 <= k < a.len() && a[k] == x;
                assert(b[k] == x);
            }
            assert(b[j] == order[j]);
        }
    }
    assert(!a.to_set().contains(order[j])) by {
        if a.contains(order[j]) {
            let k = choose|k: int| 0 <= k < a.len() && a[k] == order[j];
            assert(order[k] == order[j]);
        }
    }
    if p(order[j]) {
        assert(b.to_set().filter(p) =~= a.to_set().filter(p).insert(order[j]));
    } else {
        assert(b.to_set().filter(p) =~= a.to_set().filter(p));
    }
    lemma_len_subset(a.to_set().filter(p), a.to_set());
    a.unique_seq_to_set();
}

fn deal(n: i32, count: usize, rank: usize) -> (r: Vec<i32>)
    requires
        0 < count,
    ensures
        r@ == share(n as int, count as int, rank as int),
{
    let all = range(n);
    let mut r: Vec<i32> = Vec::new();
    let ghost p = |p: i32| p as int % count as int == rank as int;
    proof {
        lemma_filter_ends(all@, p);
    }
    let mut i: usize = 0;
    while i < all.len()
        invariant
            i <= all@.len(),
            all@ == up_to(n as int),
            0 < count,
            p == (|p: i32| p as int % count as int == rank as int),
            r@ == all@.take(i as int).filter(p),
        decreases all@.len() - i,
    {
        proof {
            lemma_filter_step(all@, p, i as int);
        }
        if i % count == rank {
            assert(all@[i as int] == i);
            r.push(all[i]);
        } else {
            assert(all@[i as int] == i);
        }
        i += 1;
    }
    assert(all@.take(i as int) =~= all@);
    r
}

/// Deals the partitions of every topic to the members subscribed to it.
pub fn compute_assignments(subscriptions: &VecMap<String, String>, topics: &VecMap<String, i32>) -> (r: VecMap<
    String,
    Vec<i32>,
>)
    ensures
        r@ == assignment(subscriptions@, topics@),
{
    let mut r: VecMap<String, Vec<i32>> = VecMap::new();
    let n = subscriptions.len();
    let ghost order = subscriptions.order();
    let ghost subs = subscriptions@;
    let mut i: usize = 0;
    assert(r@ =~= assignment(subs, topics@).restrict(order.take(0).to_set()));
    while i < n
        invariant
            i <= n,
            n == order.len(),
            subs == subscriptions@,
            order == subscriptions.order(),
            order.no_duplicates(),
            order.to_set() == subs.dom(),
            subs.dom().finite(),
            r@ == assignment(subs, topics@).restrict(order.take(i as int).to_set()),
        decreases n - i,
    {
        let member = subscriptions.key_at(i);
        let topic = subscriptions.value_at(i);
        let ghost peer = |m: Seq<char>| subs[m] == topic@;
        let ghost before = |m: Seq<char>| subs[m] == topic@ && text_before(m, member@);
        let mut count: usize = 0;
        let mut rank: usize = 0;
        let mut j: usize = 0;
        assert(walked(order, 0, peer) =~= Set::empty());
        assert(walked(order, 0, before) =~= Set::empty());
        while j < n
            invariant
                j <= n,
                n == order.len(),
                subs == subscriptions@,
                order == subscriptions.order(),
                order.no_duplicates(),
                peer == (|m: Seq<char>| subs[m] == topic@),
                before == (|m: Seq<char>| subs[m] == topic@ && text_before(m, member@)),
                count == walked(order, j as int, peer).len(),
                rank == walked(order, j as int, before).len(),
                count <= j,
                rank <= j,
            decreases n - j,
        {
            proof {
                lemma_walk_step(order, j as int, peer);
                lemma_walk_step(order, j as int, before);
            }
            if *subscriptions.value_at(j) == *topic {
                count += 1;
                if comes_before(subscriptions.key_at(j).as_str(), member.as_str()) {
                    rank += 1;
                }
            }
            j += 1;
        }
        proof {
            assert(order.take(n as int) =~= order);
            assert(walked(order, n as int, peer) =~= peers(subs, topic@));
            assert(walked(order, n as int, before) =~= ahead(subs, member@));
            assert(peers(subs, topic@).contains(member@));
            lemma_set_empty_equivalency_len(peers(subs, topic@));
            lemma_set_subset_finite(subs.dom(), peers(subs, topic@));
        }
        let parts: i32 = match topics.get(topic) {
            Some(k) => *k,
            None => 1,
        };
        let dealt = deal(parts, count, rank);
        let ghost old_r = r@;
        r.insert(member.dup(), dealt);
        proof {
            let full = assignment(subs, topics@);
            let a = order.take(i as int).to_set();
            let b = order.take(i + 1).to_set();
            assert(order.take(i + 1) =~= order.take(i as int).push(member@));
            assert(b =~= a.insert(member@)) by {
                order.take(i as int).lemma_push_to_set_commute(member@);
            }
            assert(dealt.deep_view() =~= dealt@);
            assert(full.dom().contains(member@));
            assert(r@ =~= full.restrict(b));
        }
        i += 1;
    }
    proof {
        assert(order.take(n as int) =~= order);
        assert(assignment(subs, topics@).restrict(subs.dom()) =~= assignment(subs, topics@));
    }
    r
}

proof fn lemma_rank(subscriptions: Map<Seq<char>, Seq<char>>, a: Seq<char>, b: Seq<char>)
    requires
        subscriptions.dom().finite(),
        subscriptions.dom().contains(a),
        subscriptions.dom().contains(b),
        subscriptions[a] == subscriptions[b],
        text_before(a, b),
    ensures
        ahead(subscriptions, a).len() < ahead(subscriptions, b).len(),
{
    let x = ahead(subscriptions, a);
    let y = ahead(subscriptions, b);
    assert(y.contains(a));
    text_order_irreflexive(a);
    assert(!x.contains(a));
    assert forall|m: Seq<char>| x.contains(m) implies y.contains(m) by {
        text_order_transitive(m, a, b);
    }
    lemma_set_subset_finite(subscriptions.dom(), y);
    x.lemma_subset_not_in_lt(y, a);
}

proof fn lemma_rank_bound(subscriptions: Map<Seq<char>, Seq<char>>, m: Seq<char>)
    requires
        subscriptions.dom().finite(),
        subscriptions.dom().contains(m),
    ensures
        peers(subscriptions, subscriptions[m]).finite(),
        ahead(subscriptions, m).len() < peers(subscriptions, subscriptions[m]).len(),
{
    let x = ahead(subscriptions, m);
    let y = peers(subscriptions, subscriptions[m]);
    text_order_irreflexive(m);
    assert(y.contains(m) && !x.contains(m));
    lemma_set_subset_finite(subscriptions.dom(), y);
    x.lemma_subset_not_in_lt(y, m);
}

proof fn lemma_share_holds(n: int, count: int, rank: int, p: i32)
    requires
        0 <= n <= i32::MAX,
    ensures
        share(n, count, rank).contains(p) == (0 <= p < n && p as int % count == rank),
{
    let f = |q: i32| q as int % count == rank;
    let s = up_to(n);
    let r = s.filter(f);
    if r.contains(p) {
        s.lemma_filter_contains_rev(f, p);
        let i = choose|i: int| 0 <= i < r.len() && r[i] == p;
        s.lemma_filter_pred(f, i);
        let k = choose|k: int| 0 <= k < s.len() && s[k] == p;
        assert(s[k] == k);
    }
    if 0 <= p < n && p as int % count == rank {
        assert(s[p as int] == p);
        s.lemma_filter_contains(f, p as int);
    }
}

proof fn lemma_share_len(n: int, count: int, rank: int)
    requires
        0 <= n <= i32::MAX,
        0 <= rank < count,
    ensures
        share(n, count, rank).len() == (n + count - 1 - rank) / count,
    decreases n,
{
    let f = |q: i32| q as int % count == rank;
    reveal(Seq::filter);
    if n == 0 {
        assert((count - 1 - rank) / count == 0) by (nonlinear_arith)
            requires
                0 <= rank < count,
        ;
    } else {
        assert(up_to(n).drop_last() =~= up_to(n - 1));
        assert(up_to(n).last() == n - 1);
        lemma_share_len(n - 1, count, rank);
        let a = n - 1 + count - 1 - rank;
        // a + 1 starts a new multiple of count exactly where n - 1 leaves the remainder rank.
        let q = (n - 1) / count;
        let r = (n - 1) % count;
        vstd::arithmetic::div_mod::lemma_fundamental_div_mod(n - 1, count);
        vstd::arithmetic::div_mod::lemma_mod_bound(n - 1, count);
        if r < rank {
            assert(a / count == q && (a + 1) / count == q) by (nonlinear_arith)
                requires
                    a == n - 1 + count - 1 - rank,
                    n - 1 == count * q + r,
                    0 <= r < rank,
                    rank < count,
            ;
        } else if r == rank {
            assert(a / count == q && (a + 1) / count == q + 1) by (nonlinear_arith)
                requires
                    a == n - 1 + count - 1 - rank,
                    n - 1 == count * q + r,
                    r == rank,
                    0 <= rank < count,
            ;
        } else {
            assert(a / count == q + 1 && (a + 1) / count == q + 1) by (nonlinear_arith)
                requires
                    a == n - 1 + count - 1 - rank,
                    n - 1 == count * q + r,
                    rank < r < count,
                    0 <= rank < count,
            ;
        }
    }
}

/// Every partition of a topic that has subscribers is read by exactly one of them.
pub proof fn every_partition_has_one_reader(
    subscriptions: Map<Seq<char>, Seq<char>>,
    topics: Map<Seq<char>, i32>,
    topic: Seq<char>,
    p: i32,
)
    requires
        subscriptions.dom().finite(),
        peers(subscriptions, topic).len() > 0,
        0 <= p < partition_count(topics, topic),
    ensures
        exists|m: Seq<char>|
            peers(subscriptions, topic).contains(m) && #[trigger] assignment(subscriptions, topics)[m].contains(p),
        forall|a: Seq<char>, b: Seq<char>|
            peers(subscriptions, topic).contains(a) && peers(subscriptions, topic).contains(b)
                && #[trigger] assignment(subscriptions, topics)[a].contains(p)
                && #[trigger] assignment(subscriptions, topics)[b].contains(p) ==> a == b,
{
    let x = peers(subscriptions, topic);
    lemma_set_subset_finite(subscriptions.dom(), x);
    let n = partition_count(topics, topic);
    let count = x.len() as int;
    let f = |m: Seq<char>| ahead(subscriptions, m).len() as int;
    let y = x.map(f);
    assert forall|a: Seq<char>, b: Seq<char>| x.contains(a) && x.contains(b) && #[trigger] f(a) == #[trigger] f(b) implies a == b by {
        text_order_total(a, b);
        if text_before(a, b) {
            lemma_rank(subscriptions, a, b);
        }
        if text_before(b, a) {
            lemma_rank(subscriptions, b, a);
        }
    }
    lemma_map_size(x, y, f);
    x.lemma_map_finite(f);
    lemma_int_range(0, count);
    let all = set_int_range(0, count);
    assert forall|r: int| y.contains(r) implies all.contains(r) by {
        let m = choose|m: Seq<char>| x.contains(m) && f(m) == r;
        lemma_rank_bound(subscriptions, m);
    }
    lemma_subset_equality(y, all);
    let r = p as int % count;
    vstd::arithmetic::div_mod::lemma_mod_bound(p as int, count);
    assert(y.contains(r));
    let m = choose|m: Seq<char>| x.contains(m) && f(m) == r;
    lemma_share_holds(n, count, r, p);
    assert(assignment(subscriptions, topics)[m].contains(p));
    assert forall|a: Seq<char>, b: Seq<char>|
        x.contains(a) && x.contains(b) && #[trigger] assignment(subscriptions, topics)[a].contains(p)
            && #[trigger] assignment(subscriptions, topics)[b].contains(p) implies a == b by {
        lemma_share_holds(n, count, f(a), p);
        lemma_share_holds(n, count, f(b), p);
        assert(f(a) == f(b));
    }
}

/// A member reads only partitions that its topic has.
pub proof fn readers_get_existing_partitions(
    subscriptions: Map<Seq<char>, Seq<char>>,
    topics: Map<Seq<char>, i32>,
    m: Seq<char>,
    p: i32,
)
    requires
        subscriptions.dom().contains(m),
        assignment(subscriptions, topics)[m].contains(p),
    ensures
        0 <= p < partition_count(topics, subscriptions[m]),
{
    let n = partition_count(topics, subscriptions[m]);
    let count = peers(subscriptions, subscriptions[m]).len() as int;
    let rank = ahead(subscriptions, m).len() as int;
    if n >= 0 {
        lemma_share_holds(n, count, rank, p);
    } else {
        assert(up_to(n) =~= up_to(0));
        lemma_share_holds(0, count, rank, p);
    }
}

/// The members of a topic get equal shares, give or take one partition.
pub proof fn shares_are_balanced(
    subscriptions: Map<Seq<char>, Seq<char>>,
    topics: Map<Seq<char>, i32>,
    a: Seq<char>,
    b: Seq<char>,
)
    requires
        subscriptions.dom().finite(),
        subscriptions.dom().contains(a),
        subscriptions.dom().contains(b),
        subscriptions[a] == subscriptions[b],
    ensures
        assignment(subscriptions, topics)[a].len() <= assignment(subscriptions, topics)[b].len() + 1,
{
    let n0 = partition_count(topics, subscriptions[a]);
    let n = if n0 > 0 { n0 } else { 0 };
    assert(up_to(n0) =~= up_to(n));
    let count = peers(subscriptions, subscriptions[a]).len() as int;
    let ra = ahead(subscriptions, a).len() as int;
    let rb = ahead(subscriptions, b).len() as int;
    lemma_rank_bound(subscriptions, a);
    lemma_rank_bound(subscriptions, b);
    lemma_share_len(n, count, ra);
    lemma_share_len(n, count, rb);
    assert((n + count - 1 - ra) / count <= (n + count - 1 - rb) / count + 1) by (nonlinear_arith)
        requires
            0 <= ra < count,
            0 <= rb < count,
            0 <= n,
    ;
}

/// The partitions of a topic are dealt in turn: with `c` subscribers, the one with `r`
/// subscribers of the same topic before it gets the partitions whose number leaves `r`
/// when divided by `c`, from the lowest up. A topic that nobody has created counts as one
/// partition. Who has not subscribed gets nothing.
pub proof fn partitions_are_dealt_in_turn(
    subscriptions: Map<Seq<char>, Seq<char>>,
    topics: Map<Seq<char>, i32>,
    m: Seq<char>,
    p: i32,
    others: Set<Seq<char>>,
    before: Set<Seq<char>>,
)
    requires
        forall|x: Seq<char>|
            #[trigger] others.contains(x) <==> subscriptions.dom().contains(x) && subscriptions[x] == subscriptions[m],
        forall|x: Seq<char>| #[trigger] before.contains(x) <==> others.contains(x) && text_before(x, m),
    ensures
        ({
            let given = assignment(subscriptions, topics);
            let topic = subscriptions[m];
            &&& given.dom().contains(m) <==> subscriptions.dom().contains(m)
            &&& given.dom().contains(m) ==> (given[m].contains(p) <==> 0 <= p && (if topics.dom().contains(topic) {
                p < topics[topic]
            } else {
                p == 0
            }) && p as int % others.len() as int == before.len())
            &&& given.dom().contains(m) ==> forall|i: int, j: int|
                0 <= i < j < given[m].len() ==> #[trigger] given[m][i] < #[trigger] given[m][j]
        }),
{
    if subscriptions.dom().contains(m) {
        let topic = subscriptions[m];
        assert(others =~= peers(subscriptions, topic));
        assert(before =~= ahead(subscriptions, m));
        let n0 = partition_count(topics, topic);
        let n = if n0 > 0 { n0 } else { 0 };
        assert(up_to(n0) =~= up_to(n));
        let count = others.len() as int;
        let rank = before.len() as int;
        lemma_share_holds(n, count, rank, p);
        let f = |q: i32| q as int % count == rank;
        let given = assignment(subscriptions, topics)[m];
        assert(given == up_to(n).filter(f));
        let at = lemma_filter_places(up_to(n), f);
        assert forall|i: int, j: int| 0 <= i < j < given.len() implies #[trigger] given[i] < #[trigger] given[j] by {
            assert(at[i] < at[j]);
            assert(given[i] == up_to(n)[at[i]]);
            assert(given[j] == up_to(n)[at[j]]);
        }
    }
}

} // verus!

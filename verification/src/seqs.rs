//! Facts about sequences.
use vstd::prelude::*;

verus! {

/// One step of filtering a sequence from the front.
pub proof fn lemma_filter_step<A>(s: Seq<A>, p: spec_fn(A) -> bool, i: int)
    requires
        0 <= i < s.len(),
    ensures
        s.take(i + 1).filter(p) == (if p(s[i]) { s.take(i).filter(p).push(s[i]) } else { s.take(i).filter(p) }),
{
    reveal(Seq::filter);
    assert(s.take(i + 1).drop_last() =~= s.take(i));
    assert(s.take(i + 1).last() == s[i]);
}

/// Filtering nothing and filtering everything.
pub proof fn lemma_filter_ends<A>(s: Seq<A>, p: spec_fn(A) -> bool)
    ensures
        s.take(0).filter(p) == Seq::<A>::empty(),
        s.take(s.len() as int) == s,
{
    reveal(Seq::filter);
    assert(s.take(0).filter(p) =~= Seq::<A>::empty());
    assert(s.take(s.len() as int) =~= s);
}

/// One more element of a sequence without repetition.
pub proof fn lemma_next_element<A>(order: Seq<A>, i: int)
    requires
        0 <= i < order.len(),
        order.no_duplicates(),
    ensures
        order.take(i + 1).to_set() == order.take(i).to_set().insert(order[i]),
        !order.take(i).to_set().contains(order[i]),
        order.to_set().contains(order[i]),
{
    let a = order.take(i);
    let b = order.take(i + 1);
    assert(b =~= a.push(order[i]));
    assert forall|k: A| b.to_set().contains(k) == a.to_set().insert(order[i]).contains(k) by {
        if a.contains(k) {
            let x = choose|x: int| 0 <= x < a.len() && a[x] == k;
            assert(b[x] == k);
        }
        assert(b[i] == order[i]);
    }
    assert(b.to_set() =~= a.to_set().insert(order[i]));
    if a.contains(order[i]) {
        let x = choose|x: int| 0 <= x < a.len() && a[x] == order[i];
        assert(order[x] == order[i]);
    }
    assert(order.contains(order[i]));
}

/// The numbers `0..n` in ascending order.
pub open spec fn up_to(n: int) -> Seq<i32> {
    Seq::new(if n > 0 { n as nat } else { 0 }, |i: int| i as i32)
}

/// The numbers `0..n` in ascending order.
pub fn range(n: i32) -> (r: Vec<i32>)
    ensures
        r@ == up_to(n as int),
{
    let mut r: Vec<i32> = Vec::new();
    let mut i: i32 = 0;
    while i < n
        invariant
            0 <= i,
            i <= n || i == 0,
            r@ == up_to(i as int),
        decreases n - i,
    {
        r.push(i);
        i += 1;
        assert(r@ =~= up_to(i as int));
    }
    assert(up_to(n as int) =~= up_to(i as int));
    r
}

/// Filtering picks out places of a sequence: exactly those whose element satisfies the
/// condition, from the front to the back.
pub proof fn lemma_filter_places<A>(s: Seq<A>, p: spec_fn(A) -> bool) -> (at: Seq<int>)
    ensures
        at.len() == s.filter(p).len(),
        forall|i: int| 0 <= i < at.len() ==> 0 <= #[trigger] at[i] < s.len() && s[at[i]] == s.filter(p)[i] && p(s[at[i]]),
        forall|i: int, j: int| 0 <= i < j < at.len() ==> #[trigger] at[i] < #[trigger] at[j],
        forall|k: int| 0 <= k < s.len() && p(#[trigger] s[k]) ==> at.contains(k),
    decreases s.len(),
{
    reveal(Seq::filter);
    if s.len() == 0 {
        Seq::empty()
    } else {
        let t = s.drop_last();
        let front = lemma_filter_places(t, p);
        if p(s.last()) {
            let at = front.push(s.len() - 1);
            assert forall|k: int| 0 <= k < s.len() && p(#[trigger] s[k]) implies at.contains(k) by {
                if k < t.len() {
                    assert(t[k] == s[k]);
                    let x = choose|x: int| 0 <= x < front.len() && front[x] == k;
                    assert(at[x] == k);
                } else {
                    assert(at[front.len() as int] == k);
                }
            }
            at
        } else {
            assert forall|k: int| 0 <= k < s.len() && p(#[trigger] s[k]) implies front.contains(k) by {
                assert(t[k] == s[k]);
            }
            front
        }
    }
}

/// A filtered sequence holds what satisfies the condition, and repeats nothing that the
/// sequence did not repeat.
pub proof fn lemma_filter_holds<A>(s: Seq<A>, p: spec_fn(A) -> bool)
    ensures
        forall|x: A| #[trigger] s.filter(p).contains(x) <==> s.contains(x) && p(x),
        s.no_duplicates() ==> s.filter(p).no_duplicates(),
{
    let f = s.filter(p);
    let at = lemma_filter_places(s, p);
    assert forall|x: A| #[trigger] f.contains(x) <==> s.contains(x) && p(x) by {
        if f.contains(x) {
            let i = choose|i: int| 0 <= i < f.len() && f[i] == x;
            assert(s[at[i]] == x);
        }
        if s.contains(x) && p(x) {
            let k = choose|k: int| 0 <= k < s.len() && s[k] == x;
            assert(at.contains(k));
            let i = choose|i: int| 0 <= i < at.len() && at[i] == k;
            assert(f[i] == x);
        }
    }
    if s.no_duplicates() {
        assert forall|i: int, j: int| 0 <= i < f.len() && 0 <= j < f.len() && i != j implies f[i] != f[j] by {
            assert(at[i] != at[j]);
        }
    }
}

/// The partitions of a topic are numbered from zero up, each once.
pub proof fn partitions_are_numbered(n: i32, p: i32)
    ensures
        up_to(n as int).contains(p) <==> 0 <= p < n,
        n >= 0 ==> up_to(n as int).len() == n,
        n < 0 ==> up_to(n as int).len() == 0,
        forall|i: int, j: int| 0 <= i < j < up_to(n as int).len() ==> #[trigger] up_to(n as int)[i] < #[trigger] up_to(n as int)[j],
{
    if 0 <= p < n {
        assert(up_to(n as int)[p as int] == p);
    }
}

} // verus!

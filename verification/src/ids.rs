//! Broker ids in ascending order.
use vstd::prelude::*;
use vstd::relations::{sorted_by, total_ordering};
use vstd::seq_lib::lemma_sorted_unique;

verus! {

/// The order of broker ids.
pub open spec fn id_order() -> spec_fn(u64, u64) -> bool {
    |a: u64, b: u64| a <= b
}

/// Broker ids in ascending order.
pub open spec fn ascending(s: Seq<u64>) -> Seq<u64> {
    s.sort_by(id_order())
}

/// Sorting keeps every id and puts them in order.
pub proof fn ascending_is_sorted(s: Seq<u64>)
    ensures
        ascending(s).to_multiset() == s.to_multiset(),
        sorted_by(ascending(s), id_order()),
{
    assert(total_ordering(id_order()));
    s.lemma_sort_by_ensures(id_order());
}

/// Sorting neither adds nor loses an id.
pub proof fn ascending_same_ids(s: Seq<u64>, id: u64)
    ensures
        ascending(s).contains(id) <==> s.contains(id),
        ascending(s).len() == s.len(),
{
    broadcast use vstd::seq_lib::group_to_multiset_ensures;

    ascending_is_sorted(s);
    assert(s.to_multiset().len() == s.len());
    assert(ascending(s).to_multiset().len() == ascending(s).len());
    assert(s.contains(id) <==> s.to_multiset().count(id) > 0);
    assert(ascending(s).contains(id) <==> ascending(s).to_multiset().count(id) > 0);
}

/// Different ids rise once they are sorted.
pub proof fn different_ids_rise(s: Seq<u64>)
    requires
        s.no_duplicates(),
    ensures
        forall|i: int, j: int| 0 <= i < j < ascending(s).len() ==> #[trigger] ascending(s)[i] < #[trigger] ascending(s)[j],
{
    broadcast use vstd::seq_lib::group_to_multiset_ensures;

    let t = ascending(s);
    ascending_is_sorted(s);
    s.lemma_multiset_has_no_duplicates();
    t.lemma_multiset_has_no_duplicates_conv();
    assert forall|i: int, j: int| 0 <= i < j < t.len() implies #[trigger] t[i] < #[trigger] t[j] by {
        assert(id_order()(t[i], t[j]));
    }
}

/// Sorts broker ids.
pub fn sort_ids(v: &Vec<u64>) -> (r: Vec<u64>)
    ensures
        r@ == ascending(v@),
{
    broadcast use vstd::seq_lib::group_to_multiset_ensures;

    let mut r: Vec<u64> = Vec::new();
    let mut i: usize = 0;
    assert(v@.take(0).to_multiset() =~= r@.to_multiset()) by {
        assert(v@.take(0) =~= r@);
    }
    while i < v.len()
        invariant
            i <= v@.len(),
            r@.len() == i,
            sorted_by(r@, id_order()),
            r@.to_multiset() == v@.take(i as int).to_multiset(),
        decreases v@.len() - i,
    {
        broadcast use vstd::seq_lib::group_to_multiset_ensures;

        let x = v[i];
        let mut j: usize = r.len();
        while j > 0 && r[j - 1] > x
            invariant
                j <= r@.len(),
                forall|k: int| j <= k < r@.len() ==> #[trigger] r@[k] > x,
            decreases j,
        {
            j -= 1;
        }
        let ghost before = r@;
        r.insert(j, x);
        proof {
            assert(v@.take(i + 1) =~= v@.take(i as int).push(x));
            assert(r@ =~= before.insert(j as int, x));
            assert(r@.to_multiset() =~= before.to_multiset().insert(x));
            assert(v@.take(i + 1).to_multiset() =~= v@.take(i as int).to_multiset().insert(x));
            assert forall|a: int, b: int| 0 <= a < b < r@.len() implies #[trigger] id_order()(r@[a], r@[b]) by {
                let a0 = if a < j { a } else { a - 1 };
                let b0 = if b < j { b } else { b - 1 };
                if a != j && b != j {
                    assert(id_order()(before[a0], before[b0]));
                } else if b == j {
                    if j > 0 {
                        if a < j - 1 {
                            assert(id_order()(before[a], before[j - 1]));
                        }
                    }
                }
            }
        }
        i += 1;
    }
    proof {
        assert(v@.take(i as int) =~= v@);
        ascending_is_sorted(v@);
        assert(total_ordering(id_order()));
        lemma_sorted_unique(r@, ascending(v@), id_order());
    }
    r
}

} // verus!

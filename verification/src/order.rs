//! The order of byte rows, first difference first, and of texts: by their UTF-8 bytes.
use vstd::prelude::*;
use vstd::utf8::*;

use crate::seqs::lemma_next_element;

verus! {

/// `a` comes before `b`: at the first difference it has the smaller byte, or it ends there.
pub open spec fn bytes_before(a: Seq<u8>, b: Seq<u8>) -> bool
    decreases a.len(),
{
    if b.len() == 0 {
        false
    } else if a.len() == 0 {
        true
    } else {
        a[0] < b[0] || (a[0] == b[0] && bytes_before(a.skip(1), b.skip(1)))
    }
}

/// The order of texts.
pub open spec fn text_before(a: Seq<char>, b: Seq<char>) -> bool {
    bytes_before(encode_utf8(a), encode_utf8(b))
}

proof fn lemma_bytes_irreflexive(a: Seq<u8>)
    ensures
        !bytes_before(a, a),
    decreases a.len(),
{
    if a.len() > 0 {
        lemma_bytes_irreflexive(a.skip(1));
    }
}

proof fn lemma_bytes_transitive(a: Seq<u8>, b: Seq<u8>, c: Seq<u8>)
    requires
        bytes_before(a, b),
        bytes_before(b, c),
    ensures
        bytes_before(a, c),
    decreases a.len(),
{
    if a.len() > 0 && a[0] == b[0] && b[0] == c[0] {
        lemma_bytes_transitive(a.skip(1), b.skip(1), c.skip(1));
    }
}

proof fn lemma_bytes_total(a: Seq<u8>, b: Seq<u8>)
    ensures
        bytes_before(a, b) || a == b || bytes_before(b, a),
    decreases a.len(),
{
    if a.len() > 0 && b.len() > 0 && a[0] == b[0] {
        lemma_bytes_total(a.skip(1), b.skip(1));
        if a.skip(1) == b.skip(1) {
            assert(a =~= seq![a[0]] + a.skip(1));
            assert(b =~= seq![b[0]] + b.skip(1));
        }
    } else if a.len() == 0 && b.len() == 0 {
        assert(a =~= b);
    }
}

/// No row of bytes comes before one that comes before it, nor before itself.
pub proof fn byte_order_is_strict(a: Seq<u8>, b: Seq<u8>)
    requires
        bytes_before(a, b),
    ensures
        !bytes_before(b, a),
        a != b,
{
    lemma_bytes_irreflexive(a);
    if bytes_before(b, a) {
        lemma_bytes_transitive(a, b, a);
    }
}

/// What follows two rows of one length does not change their order.
pub proof fn longer_rows_keep_order(a: Seq<u8>, b: Seq<u8>, x: u8, y: u8)
    requires
        a.len() == b.len(),
    ensures
        bytes_before(a, b) ==> bytes_before(a.push(x), b.push(y)),
        a == b && x < y ==> bytes_before(a.push(x), b.push(y)),
    decreases a.len(),
{
    if a.len() > 0 {
        longer_rows_keep_order(a.skip(1), b.skip(1), x, y);
        assert(a.push(x).skip(1) =~= a.skip(1).push(x));
        assert(b.push(y).skip(1) =~= b.skip(1).push(y));
    }
}

/// No text comes before itself.
pub proof fn text_order_irreflexive(a: Seq<char>)
    ensures
        !text_before(a, a),
{
    lemma_bytes_irreflexive(encode_utf8(a));
}

/// The order of texts is transitive.
pub proof fn text_order_transitive(a: Seq<char>, b: Seq<char>, c: Seq<char>)
    requires
        text_before(a, b),
        text_before(b, c),
    ensures
        text_before(a, c),
{
    lemma_bytes_transitive(encode_utf8(a), encode_utf8(b), encode_utf8(c));
}

/// Of two different texts one comes before the other.
pub proof fn text_order_total(a: Seq<char>, b: Seq<char>)
    ensures
        text_before(a, b) || a == b || text_before(b, a),
{
    lemma_bytes_total(encode_utf8(a), encode_utf8(b));
    encode_utf8_decode_utf8(a);
    encode_utf8_decode_utf8(b);
}

/// Whether the first text comes before the second.
pub fn comes_before(a: &str, b: &str) -> (r: bool)
    ensures
        r == text_before(a@, b@),
{
    let x: &[u8] = a.as_bytes();
    let y: &[u8] = b.as_bytes();
    let mut i: usize = 0;
    assert(x@.skip(0) =~= x@);
    assert(y@.skip(0) =~= y@);
    while i < x.len() && i < y.len()
        invariant
            i <= x@.len(),
            i <= y@.len(),
            x@ == encode_utf8(a@),
            y@ == encode_utf8(b@),
            bytes_before(x@, y@) == bytes_before(x@.skip(i as int), y@.skip(i as int)),
        decreases x@.len() - i,
    {
        if x[i] < y[i] {
            return true;
        }
        if y[i] < x[i] {
            return false;
        }
        assert(x@.skip(i as int).skip(1) =~= x@.skip(i + 1));
        assert(y@.skip(i as int).skip(1) =~= y@.skip(i + 1));
        i += 1;
    }
    i < y.len()
}

/// The texts stand in their order, none of them twice.
pub open spec fn texts_rise(s: Seq<Seq<char>>) -> bool {
    forall|i: int, j: int| 0 <= i < j < s.len() ==> text_before(#[trigger] s[i], #[trigger] s[j])
}

/// Puts different texts in their order.
pub fn in_order(texts: Vec<String>) -> (r: Vec<String>)
    requires
        texts.deep_view().no_duplicates(),
    ensures
        texts_rise(r.deep_view()),
        r.deep_view().to_set() == texts.deep_view().to_set(),
{
    let ghost all = texts.deep_view();
    let n = texts.len();
    let mut r: Vec<String> = Vec::new();
    let mut i: usize = 0;
    assert(r.deep_view().to_set() =~= all.take(0).to_set());
    for x in it: texts
        invariant
            it.seq() == texts@,
            all == texts.deep_view(),
            all.no_duplicates(),
            n == all.len(),
            i == it.index(),
            i <= n,
            texts_rise(r.deep_view()),
            r.deep_view().to_set() == all.take(i as int).to_set(),
    {
        let ghost before = r.deep_view();
        proof {
            assert(x@ == all[i as int]);
            lemma_next_element(all, i as int);
        }
        let mut j: usize = r.len();
        while j > 0 && comes_before(x.as_str(), r[j - 1].as_str())
            invariant
                j <= r@.len(),
                before == r.deep_view(),
                forall|k: int| j <= k < before.len() ==> text_before(x@, #[trigger] before[k]),
            decreases j,
        {
            assert(before[j - 1] == r@[j - 1]@);
            j -= 1;
        }
        r.insert(j, x);
        proof {
            let after = r.deep_view();
            assert(after =~= before.insert(j as int, x@));
            assert forall|k: int| 0 <= k < j implies text_before(#[trigger] before[k], x@) by {
                assert(before.to_set().contains(before[k]));
                text_order_total(before[j - 1], x@);
                assert(before.to_set().contains(before[j - 1]));
                if k < j - 1 {
                    text_order_transitive(before[k], before[j - 1], x@);
                }
            }
            assert forall|a: int, b: int| 0 <= a < b < after.len() implies text_before(#[trigger] after[a], #[trigger] after[b]) by {
                let a0 = if a < j { a } else { a - 1 };
                let b0 = if b < j { b } else { b - 1 };
                if a != j && b != j {
                    assert(text_before(before[a0], before[b0]));
                }
            }
            assert(after.to_set() =~= before.to_set().insert(x@)) by {
                assert forall|t: Seq<char>| after.contains(t) <==> before.contains(t) || t == x@ by {
                    if before.contains(t) {
                        let k = before.index_of(t);
                        assert(after[if k < j { k } else { k + 1 }] == t);
                    }
                    if t == x@ {
                        assert(after[j as int] == t);
                    }
                    if after.contains(t) {
                        let k = after.index_of(t);
                        if k != j {
                            assert(before[if k < j { k } else { k - 1 }] == t);
                        }
                    }
                }
            }
        }
        i += 1;
    }
    assert(all.take(i as int) =~= all);
    r
}

/// The first place at which two rows differ decides: the smaller byte comes first, and so
/// does the row that ends there.
pub proof fn first_difference_decides(a: Seq<u8>, b: Seq<u8>, i: int)
    requires
        0 <= i <= a.len(),
        0 <= i <= b.len(),
        forall|j: int| 0 <= j < i ==> #[trigger] a[j] == b[j],
    ensures
        i < a.len() && i < b.len() && a[i] < b[i] ==> bytes_before(a, b) && !bytes_before(b, a),
        i == a.len() && i < b.len() ==> bytes_before(a, b) && !bytes_before(b, a),
    decreases i,
{
    if i > 0 {
        assert(a[0] == b[0]);
        assert forall|j: int| 0 <= j < i - 1 implies #[trigger] a.skip(1)[j] == b.skip(1)[j] by {
            assert(a[j + 1] == b[j + 1]);
        }
        first_difference_decides(a.skip(1), b.skip(1), i - 1);
    }
}

} // verus!

//! Keyed collections: a finite map and a finite set, both held as lists in
//! which nothing occurs twice.
use vstd::prelude::*;

verus! {

/// A value that can be copied out; the copy stands for the same mathematical value.
pub trait Dup: DeepView + Sized {
    fn dup(&self) -> (r: Self)
        ensures
            r.deep_view() == self.deep_view(),
    ;
}

/// A value that can be looked up; two values are the same key exactly when they
/// stand for the same mathematical value.
pub trait Key: Dup {
    fn same(&self, other: &Self) -> (b: bool)
        ensures
            b == (self.deep_view() == other.deep_view()),
    ;
}

impl Dup for bool {
    fn dup(&self) -> (r: Self) {
        *self
    }
}

impl Dup for u8 {
    fn dup(&self) -> (r: Self) {
        *self
    }
}

impl Dup for u64 {
    fn dup(&self) -> (r: Self) {
        *self
    }
}

impl Key for u64 {
    fn same(&self, other: &Self) -> (b: bool) {
        *self == *other
    }
}

impl Dup for i32 {
    fn dup(&self) -> (r: Self) {
        *self
    }
}

impl Key for i32 {
    fn same(&self, other: &Self) -> (b: bool) {
        *self == *other
    }
}

impl Dup for i64 {
    fn dup(&self) -> (r: Self) {
        *self
    }
}

impl Key for i64 {
    fn same(&self, other: &Self) -> (b: bool) {
        *self == *other
    }
}

impl Dup for String {
    fn dup(&self) -> (r: Self) {
        self.clone()
    }
}

impl Key for String {
    fn same(&self, other: &Self) -> (b: bool) {
        *self == *other
    }
}

impl<A: Dup, B: Dup> Dup for (A, B) {
    fn dup(&self) -> (r: Self) {
        (self.0.dup(), self.1.dup())
    }
}

impl<A: Key, B: Key> Key for (A, B) {
    fn same(&self, other: &Self) -> (b: bool) {
        self.0.same(&other.0) && self.1.same(&other.1)
    }
}

impl<A: Dup, B: Dup, C: Dup> Dup for (A, B, C) {
    fn dup(&self) -> (r: Self) {
        (self.0.dup(), self.1.dup(), self.2.dup())
    }
}

impl<A: Key, B: Key, C: Key> Key for (A, B, C) {
    fn same(&self, other: &Self) -> (b: bool) {
        self.0.same(&other.0) && self.1.same(&other.1) && self.2.same(&other.2)
    }
}

impl<A: Dup> Dup for Option<A> {
    fn dup(&self) -> (r: Self) {
        match self {
            Some(a) => Some(a.dup()),
            None => None,
        }
    }
}

impl<A: Dup> Dup for Vec<A> {
    fn dup(&self) -> (r: Self) {
        let mut out: Vec<A> = Vec::new();
        let mut i: usize = 0;
        while i < self.len()
            invariant
                i <= self@.len(),
                out@.len() == i,
                forall|j: int| 0 <= j < i ==> #[trigger] out@[j].deep_view() == self@[j].deep_view(),
            decreases self@.len() - i,
        {
            out.push(self[i].dup());
            i += 1;
        }
        assert(out.deep_view() =~= self.deep_view());
        out
    }
}

/// A finite map; no key occurs twice among its entries.
pub struct VecMap<K: Key, V: DeepView> {
    entries: Vec<(K, V)>,
}

/// No key occurs twice.
spec fn distinct_keys<K: Key, V: DeepView>(s: Seq<(K, V)>) -> bool {
    forall|i: int, j: int|
        0 <= i < s.len() && 0 <= j < s.len() && i != j
            ==> #[trigger] s[i].0.deep_view() != #[trigger] s[j].0.deep_view()
}

/// Entry `i` holds the key.
spec fn holds_at<K: Key, V: DeepView>(s: Seq<(K, V)>, k: K::V, i: int) -> bool {
    0 <= i < s.len() && s[i].0.deep_view() == k
}

spec fn as_map<K: Key, V: DeepView>(s: Seq<(K, V)>) -> Map<K::V, V::V> {
    Map::new(
        |k: K::V| exists|i: int| holds_at(s, k, i),
        |k: K::V| s[choose|i: int| holds_at(s, k, i)].1.deep_view(),
    )
}

proof fn lemma_entry<K: Key, V: DeepView>(s: Seq<(K, V)>, i: int)
    requires
        distinct_keys(s),
        0 <= i < s.len(),
    ensures
        as_map(s).dom().contains(s[i].0.deep_view()),
        as_map(s)[s[i].0.deep_view()] == s[i].1.deep_view(),
{
    let k = s[i].0.deep_view();
    assert(holds_at(s, k, i));
    let j = choose|j: int| holds_at(s, k, j);
    assert(holds_at(s, k, j));
    assert(i == j);
}

proof fn lemma_absent<K: Key, V: DeepView>(s: Seq<(K, V)>, k: K::V)
    requires
        forall|i: int| 0 <= i < s.len() ==> #[trigger] s[i].0.deep_view() != k,
    ensures
        !as_map(s).dom().contains(k),
{
    assert forall|i: int| !holds_at(s, k, i) by {
        if 0 <= i < s.len() {
            assert(s[i].0.deep_view() != k);
        }
    }
}

proof fn lemma_map_eq<K: Key, V: DeepView>(s: Seq<(K, V)>, m: Map<K::V, V::V>)
    requires
        distinct_keys(s),
        forall|i: int| 0 <= i < s.len() ==> m.dom().contains(#[trigger] s[i].0.deep_view()),
        forall|i: int| 0 <= i < s.len() ==> m[#[trigger] s[i].0.deep_view()] == s[i].1.deep_view(),
        forall|k: K::V| #[trigger] m.dom().contains(k) ==> exists|i: int| holds_at(s, k, i),
    ensures
        as_map(s) == m,
{
    assert forall|k: K::V| as_map(s).dom().contains(k) == #[trigger] m.dom().contains(k) by {
        if as_map(s).dom().contains(k) {
            let i = choose|i: int| holds_at(s, k, i);
            assert(holds_at(s, k, i));
            assert(s[i].0.deep_view() == k);
        }
    }
    assert forall|k: K::V| #[trigger] m.dom().contains(k) implies as_map(s)[k] == m[k] by {
        let i = choose|i: int| holds_at(s, k, i);
        assert(holds_at(s, k, i));
        lemma_entry(s, i);
    }
    assert(as_map(s) =~= m);
}

spec fn key_order<K: Key, V: DeepView>(s: Seq<(K, V)>) -> Seq<K::V> {
    Seq::new(s.len(), |i: int| s[i].0.deep_view())
}

proof fn lemma_order<K: Key, V: DeepView>(s: Seq<(K, V)>)
    requires
        distinct_keys(s),
    ensures
        key_order(s).no_duplicates(),
        key_order(s).to_set() == as_map(s).dom(),
        as_map(s).dom().finite(),
        as_map(s).dom().len() == s.len(),
{
    let order = key_order(s);
    assert forall|i: int, j: int| 0 <= i < order.len() && 0 <= j < order.len() && i != j implies order[i] != order[j] by {
        assert(order[i] == s[i].0.deep_view());
        assert(order[j] == s[j].0.deep_view());
    }
    assert forall|k: K::V| order.to_set().contains(k) == as_map(s).dom().contains(k) by {
        if order.to_set().contains(k) {
            let i = choose|i: int| 0 <= i < order.len() && order[i] == k;
            lemma_entry(s, i);
        }
        if as_map(s).dom().contains(k) {
            let i = choose|i: int| holds_at(s, k, i);
            assert(holds_at(s, k, i));
            assert(order[i] == k);
        }
    }
    assert(order.to_set() =~= as_map(s).dom());
    order.unique_seq_to_set();
}

impl<K: Key, V: DeepView> View for VecMap<K, V> {
    type V = Map<K::V, V::V>;

    closed spec fn view(&self) -> Map<K::V, V::V> {
        as_map(self.entries@)
    }
}

impl<K: Key, V: DeepView> DeepView for VecMap<K, V> {
    type V = Map<K::V, V::V>;

    open spec fn deep_view(&self) -> Map<K::V, V::V> {
        self@
    }
}

impl<K: Key, V: DeepView> VecMap<K, V> {
    #[verifier::type_invariant]
    spec fn distinct(&self) -> bool {
        distinct_keys(self.entries@)
    }

    /// The keys in the order in which the entries are walked.
    pub closed spec fn order(&self) -> Seq<K::V> {
        key_order(self.entries@)
    }

    fn find(&self, k: &K) -> (r: Option<usize>)
        ensures
            match r {
                Some(i) => i < self.entries@.len() && self.entries@[i as int].0.deep_view() == k.deep_view(),
                None => forall|i: int|
                    0 <= i < self.entries@.len() ==> #[trigger] self.entries@[i].0.deep_view() != k.deep_view(),
            },
    {
        let mut i: usize = 0;
        while i < self.entries.len()
            invariant
                i <= self.entries@.len(),
                forall|j: int| 0 <= j < i ==> #[trigger] self.entries@[j].0.deep_view() != k.deep_view(),
            decreases self.entries@.len() - i,
        {
            if self.entries[i].0.same(k) {
                return Some(i);
            }
            i += 1;
        }
        None
    }

    /// The empty map.
    pub fn new() -> (r: Self)
        ensures
            r@ == Map::<K::V, V::V>::empty(),
    {
        let entries: Vec<(K, V)> = Vec::new();
        proof {
            lemma_map_eq(entries@, Map::<K::V, V::V>::empty());
        }
        VecMap { entries }
    }

    /// The number of entries. The keys in walking order are the keys of the map,
    /// each once.
    pub fn len(&self) -> (n: usize)
        ensures
            n == self@.dom().len(),
            n == self.order().len(),
            self@.dom().finite(),
            self.order().no_duplicates(),
            self.order().to_set() == self@.dom(),
    {
        proof {
            use_type_invariant(self);
            lemma_order(self.entries@);
        }
        self.entries.len()
    }

    pub fn is_empty(&self) -> (b: bool)
        ensures
            b == (self@ == Map::<K::V, V::V>::empty()),
    {
        let n = self.len();
        proof {
            if n == 0 {
                assert(self@.dom() =~= Set::empty());
                assert(self@ =~= Map::<K::V, V::V>::empty());
            }
        }
        n == 0
    }

    /// The key of entry `i` in walking order.
    pub fn key_at(&self, i: usize) -> (k: &K)
        requires
            i < self.order().len(),
        ensures
            k.deep_view() == self.order()[i as int],
            self@.dom().contains(k.deep_view()),
    {
        proof {
            use_type_invariant(self);
            lemma_entry(self.entries@, i as int);
        }
        &self.entries[i].0
    }

    /// The value of entry `i` in walking order.
    pub fn value_at(&self, i: usize) -> (v: &V)
        requires
            i < self.order().len(),
        ensures
            self@.dom().contains(self.order()[i as int]),
            v.deep_view() == self@[self.order()[i as int]],
    {
        proof {
            use_type_invariant(self);
            lemma_entry(self.entries@, i as int);
        }
        &self.entries[i].1
    }

    pub fn get(&self, k: &K) -> (r: Option<&V>)
        ensures
            r is Some == self@.dom().contains(k.deep_view()),
            r matches Some(v) ==> v.deep_view() == self@[k.deep_view()],
    {
        proof {
            use_type_invariant(self);
        }
        match self.find(k) {
            Some(i) => {
                proof {
                    lemma_entry(self.entries@, i as int);
                }
                Some(&self.entries[i].1)
            },
            None => {
                proof {
                    lemma_absent(self.entries@, k.deep_view());
                }
                None
            },
        }
    }

    pub fn contains_key(&self, k: &K) -> (b: bool)
        ensures
            b == self@.dom().contains(k.deep_view()),
    {
        self.get(k).is_some()
    }

    /// Binds the key to the value, replacing an earlier binding.
    pub fn insert(&mut self, k: K, v: V)
        ensures
            final(self)@ == old(self)@.insert(k.deep_view(), v.deep_view()),
    {
        proof {
            use_type_invariant(&*self);
        }
        let ghost s = self.entries@;
        let ghost m = self@.insert(k.deep_view(), v.deep_view());
        let found = self.find(&k);
        let mut entries: Vec<(K, V)> = Vec::new();
        core::mem::swap(&mut entries, &mut self.entries);
        proof {
            assert forall|i: int| 0 <= i < s.len() implies as_map(s).dom().contains(#[trigger] s[i].0.deep_view())
                && as_map(s)[s[i].0.deep_view()] == s[i].1.deep_view() by {
                lemma_entry(s, i);
            }
        }
        match found {
            Some(i) => {
                let ghost e = (k, v);
                entries.set(i, (k, v));
                proof {
                    let t = entries@;
                    assert forall|kk: K::V| #[trigger] m.dom().contains(kk) implies exists|x: int| holds_at(t, kk, x) by {
                        if kk == e.0.deep_view() {
                            assert(holds_at(t, kk, i as int));
                        } else {
                            let x = choose|x: int| holds_at(s, kk, x);
                            assert(holds_at(s, kk, x));
                            assert(holds_at(t, kk, x));
                        }
                    }
                    lemma_map_eq(t, m);
                }
            },
            None => {
                let ghost e = (k, v);
                entries.push((k, v));
                proof {
                    let t = entries@;
                    assert forall|kk: K::V| #[trigger] m.dom().contains(kk) implies exists|x: int| holds_at(t, kk, x) by {
                        if kk == e.0.deep_view() {
                            assert(holds_at(t, kk, s.len() as int));
                        } else {
                            let x = choose|x: int| holds_at(s, kk, x);
                            assert(holds_at(s, kk, x));
                            assert(holds_at(t, kk, x));
                        }
                    }
                    lemma_map_eq(t, m);
                }
            },
        }
        self.entries = entries;
    }

    /// Removes the binding of the key and hands out its value.
    pub fn remove(&mut self, k: &K) -> (r: Option<V>)
        ensures
            final(self)@ == old(self)@.remove(k.deep_view()),
            r is Some == old(self)@.dom().contains(k.deep_view()),
            r matches Some(v) ==> v.deep_view() == old(self)@[k.deep_view()],
    {
        proof {
            use_type_invariant(&*self);
        }
        let ghost s = self.entries@;
        let ghost m = self@.remove(k.deep_view());
        match self.find(k) {
            Some(i) => {
                let mut entries: Vec<(K, V)> = Vec::new();
                core::mem::swap(&mut entries, &mut self.entries);
                let e = entries.remove(i);
                proof {
                    lemma_entry(s, i as int);
                    let t = entries@;
                    assert(t == s.remove(i as int));
                    assert forall|x: int| 0 <= x < t.len() implies m.dom().contains(#[trigger] t[x].0.deep_view())
                        && m[t[x].0.deep_view()] == t[x].1.deep_view() by {
                        let y = if x < i { x } else { x + 1 };
                        assert(t[x] == s[y]);
                        lemma_entry(s, y);
                    }
                    assert forall|kk: K::V| #[trigger] m.dom().contains(kk) implies exists|x: int| holds_at(t, kk, x) by {
                        let x = choose|x: int| holds_at(s, kk, x);
                        assert(holds_at(s, kk, x));
                        assert(holds_at(t, kk, if x < i { x } else { x - 1 }));
                    }
                    assert forall|x: int, y: int| 0 <= x < t.len() && 0 <= y < t.len() && x != y
                        implies #[trigger] t[x].0.deep_view() != #[trigger] t[y].0.deep_view() by {
                        assert(t[x] == s[if x < i { x } else { x + 1 }]);
                        assert(t[y] == s[if y < i { y } else { y + 1 }]);
                    }
                    lemma_map_eq(t, m);
                }
                self.entries = entries;
                Some(e.1)
            },
            None => {
                proof {
                    lemma_absent(s, k.deep_view());
                    assert(m =~= self@);
                }
                None
            },
        }
    }

    /// The keys in walking order.
    pub fn keys(&self) -> (r: Vec<K>)
        ensures
            r.deep_view() == self.order(),
            r.deep_view().no_duplicates(),
            r.deep_view().to_set() == self@.dom(),
    {
        let n = self.len();
        let mut r: Vec<K> = Vec::new();
        let mut i: usize = 0;
        while i < n
            invariant
                i <= n,
                n == self.order().len(),
                r@.len() == i,
                forall|j: int| 0 <= j < i ==> #[trigger] r@[j].deep_view() == self.order()[j],
            decreases n - i,
        {
            r.push(self.key_at(i).dup());
            i += 1;
        }
        assert(r.deep_view() =~= self.order());
        r
    }
}

impl<K: Key, V: DeepView> VecMap<K, V> {
    /// Keeps the bindings of the given keys and drops the others.
    pub fn retain_keys(&mut self, keep: &VecSet<K>)
        ensures
            final(self)@ == old(self)@.restrict(keep@),
    {
        let ks = self.keys();
        let ghost m = self@;
        let ghost order = ks.deep_view();
        let mut i: usize = 0;
        assert(m =~= m.restrict(keep@.union(order.skip(0).to_set()))) by {
            assert(order.skip(0) =~= order);
        }
        while i < ks.len()
            invariant
                i <= ks@.len(),
                order == ks.deep_view(),
                order.to_set() == m.dom(),
                order.no_duplicates(),
                self@ == m.restrict(keep@.union(order.skip(i as int).to_set())),
            decreases ks@.len() - i,
        {
            let ghost a = order.skip(i as int);
            let ghost b = order.skip(i + 1);
            proof {
                assert(ks@[i as int].deep_view() == order[i as int]);
                assert(a =~= seq![order[i as int]] + b);
                assert forall|k: K::V| a.to_set().contains(k) == (b.to_set().contains(k) || k == order[i as int]) by {
                    if b.contains(k) {
                        let x = choose|x: int| 0 <= x < b.len() && b[x] == k;
                        assert(a[x + 1] == k);
                    }
                    if a.contains(k) {
                        let x = choose|x: int| 0 <= x < a.len() && a[x] == k;
                        if x > 0 {
                            assert(b[x - 1] == k);
                        }
                    }
                    assert(a[0] == order[i as int]);
                }
            }
            if !keep.contains(&ks[i]) {
                let _ = self.remove(&ks[i]);
            }
            proof {
                assert(!b.to_set().contains(order[i as int])) by {
                    if b.contains(order[i as int]) {
                        let x = choose|x: int| 0 <= x < b.len() && b[x] == order[i as int];
                        assert(order[i + 1 + x] == order[i as int]);
                    }
                }
                assert(self@ =~= m.restrict(keep@.union(b.to_set())));
            }
            i += 1;
        }
        assert(order.skip(i as int) =~= Seq::empty());
        assert(keep@.union(order.skip(i as int).to_set()) =~= keep@);
    }
}

impl<K: Key, V: Dup> Dup for VecMap<K, V> {
    fn dup(&self) -> (r: Self) {
        proof {
            use_type_invariant(self);
        }
        let entries = self.entries.dup();
        proof {
            let s = self.entries@;
            let t = entries@;
            assert(t.len() == s.len()) by {
                assert(entries.deep_view().len() == self.entries.deep_view().len());
            }
            assert forall|i: int| 0 <= i < s.len() implies #[trigger] t[i].0.deep_view() == s[i].0.deep_view()
                && t[i].1.deep_view() == s[i].1.deep_view() by {
                assert(entries.deep_view()[i] == self.entries.deep_view()[i]);
            }
            assert forall|i: int| 0 <= i < t.len() implies as_map(s).dom().contains(#[trigger] t[i].0.deep_view())
                && as_map(s)[t[i].0.deep_view()] == t[i].1.deep_view() by {
                lemma_entry(s, i);
            }
            assert forall|k: K::V| #[trigger] as_map(s).dom().contains(k) implies exists|i: int| holds_at(t, k, i) by {
                let i = choose|i: int| holds_at(s, k, i);
                assert(holds_at(s, k, i));
                assert(holds_at(t, k, i));
            }
            lemma_map_eq(t, as_map(s));
        }
        VecMap { entries }
    }
}

/// A finite set.
pub struct VecSet<K: Key> {
    members: VecMap<K, bool>,
}

impl<K: Key> View for VecSet<K> {
    type V = Set<K::V>;

    closed spec fn view(&self) -> Set<K::V> {
        self.members@.dom()
    }
}

impl<K: Key> DeepView for VecSet<K> {
    type V = Set<K::V>;

    open spec fn deep_view(&self) -> Set<K::V> {
        self@
    }
}

impl<K: Key> VecSet<K> {
    /// The empty set.
    pub fn new() -> (r: Self)
        ensures
            r@ == Set::<K::V>::empty(),
    {
        let r = VecSet { members: VecMap::new() };
        assert(r@ =~= Set::<K::V>::empty());
        r
    }

    /// The set with one element.
    pub fn single(k: K) -> (r: Self)
        ensures
            r@ == Set::<K::V>::empty().insert(k.deep_view()),
    {
        let mut r = Self::new();
        r.insert(k);
        r
    }

    pub fn len(&self) -> (n: usize)
        ensures
            n == self@.len(),
            self@.finite(),
    {
        self.members.len()
    }

    pub fn contains(&self, k: &K) -> (b: bool)
        ensures
            b == self@.contains(k.deep_view()),
    {
        self.members.contains_key(k)
    }

    pub fn insert(&mut self, k: K)
        ensures
            final(self)@ == old(self)@.insert(k.deep_view()),
    {
        self.members.insert(k, true);
        assert(self@ =~= old(self)@.insert(k.deep_view()));
    }

    pub fn remove(&mut self, k: &K)
        ensures
            final(self)@ == old(self)@.remove(k.deep_view()),
    {
        let _ = self.members.remove(k);
        assert(self@ =~= old(self)@.remove(k.deep_view()));
    }

    /// The elements, each once.
    pub fn elements(&self) -> (r: Vec<K>)
        ensures
            r.deep_view().no_duplicates(),
            r.deep_view().to_set() == self@,
    {
        self.members.keys()
    }
}

impl<K: Key> Dup for VecSet<K> {
    fn dup(&self) -> (r: Self) {
        VecSet { members: self.members.dup() }
    }
}

} // verus!

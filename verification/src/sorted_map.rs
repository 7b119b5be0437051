//! A map from strings to values that keeps its keys in ascending order,
//! the way a `BTreeMap<String, V>` does.

use vstd::prelude::*;

use crate::text::{
    lemma_lt_asymmetric, lemma_lt_irreflexive, lemma_lt_total, lemma_lt_transitive, seq_lt, str_eq,
    str_lt,
};

verus! {

/// The keys stand in strictly ascending order (so none occurs twice).
pub open spec fn sorted_strict(ks: Seq<Seq<char>>) -> bool {
    forall|i: int, j: int| 0 <= i < j < ks.len() ==> seq_lt(#[trigger] ks[i], #[trigger] ks[j])
}

/// Two strictly ascending lists that hold the same strings are the same list.
proof fn lemma_sorted_unique(a: Seq<Seq<char>>, b: Seq<Seq<char>>)
    requires
        sorted_strict(a),
        sorted_strict(b),
        a.to_set() == b.to_set(),
    ensures
        a == b,
    decreases a.len(),
{
    if a.len() == 0 || b.len() == 0 {
        if b.len() > 0 {
            assert(b.to_set().contains(b[0]));
        }
        if a.len() > 0 {
            assert(a.to_set().contains(a[0]));
        }
        assert(a =~= b);
    } else {
        assert(b.to_set().contains(a[0]));
        assert(a.to_set().contains(b[0]));
        let j = choose|j: int| 0 <= j < b.len() && b[j] == a[0];
        let i = choose|i: int| 0 <= i < a.len() && a[i] == b[0];
        lemma_lt_total(a[0], b[0]);
        if a[0] != b[0] {
            if seq_lt(a[0], b[0]) {
                assert(j > 0);
                assert(seq_lt(b[0], b[j]));
                lemma_lt_asymmetric(a[0], b[0]);
            } else {
                assert(i > 0);
                assert(seq_lt(a[0], a[i]));
                lemma_lt_asymmetric(a[0], b[0]);
            }
        }
        let a1 = a.drop_first();
        let b1 = b.drop_first();
        assert forall|x: Seq<char>| a1.to_set().contains(x) == b1.to_set().contains(x) by {
            if a1.to_set().contains(x) {
                let p = choose|p: int| 0 <= p < a1.len() && a1[p] == x;
                assert(a[p + 1] == x);
                assert(seq_lt(a[0], a[p + 1]));
                lemma_lt_irreflexive(x);
                assert(a.to_set().contains(x));
                let q = choose|q: int| 0 <= q < b.len() && b[q] == x;
                assert(q != 0);
                assert(b1[q - 1] == x);
            }
            if b1.to_set().contains(x) {
                let p = choose|p: int| 0 <= p < b1.len() && b1[p] == x;
                assert(b[p + 1] == x);
                assert(seq_lt(b[0], b[p + 1]));
                lemma_lt_irreflexive(x);
                assert(b.to_set().contains(x));
                let q = choose|q: int| 0 <= q < a.len() && a[q] == x;
                assert(q != 0);
                assert(a1[q - 1] == x);
            }
        }
        assert(a1.to_set() =~= b1.to_set());
        assert forall|p: int, q: int| 0 <= p < q < a1.len() implies seq_lt(#[trigger] a1[p], #[trigger] a1[q]) by {
            assert(seq_lt(a[p + 1], a[q + 1]));
        }
        assert forall|p: int, q: int| 0 <= p < q < b1.len() implies seq_lt(#[trigger] b1[p], #[trigger] b1[q]) by {
            assert(seq_lt(b[p + 1], b[q + 1]));
        }
        lemma_sorted_unique(a1, b1);
        assert(a =~= seq![a[0]] + a1);
        assert(b =~= seq![b[0]] + b1);
    }
}

/// A map keyed by strings, walked in ascending key order.
pub struct SortedMap<V> {
    keys: Vec<String>,
    vals: Vec<V>,
}

impl<V> SortedMap<V> {
    /// The keys, in ascending order.
    pub closed spec fn key_seq(&self) -> Seq<Seq<char>> {
        self.keys@.map_values(|k: String| k@)
    }

    /// The values, in the order of their keys.
    pub closed spec fn val_seq(&self) -> Seq<V> {
        self.vals@
    }

    /// Well-formedness: one value per key, keys strictly ascending.
    pub open spec fn wf(&self) -> bool {
        &&& self.key_seq().len() == self.val_seq().len()
        &&& sorted_strict(self.key_seq())
    }

    /// The position of key `k`.
    pub open spec fn index_of(&self, k: Seq<char>) -> int {
        choose|i: int| 0 <= i < self.key_seq().len() && self.key_seq()[i] == k
    }

    /// The value stored under `k`.
    pub open spec fn spec_value(&self, k: Seq<char>) -> V {
        self.val_seq()[self.index_of(k)]
    }
}

impl<V: View> View for SortedMap<V> {
    type V = Map<Seq<char>, V::V>;

    open spec fn view(&self) -> Map<Seq<char>, V::V> {
        Map::new(|k: Seq<char>| self.key_seq().contains(k), |k: Seq<char>| self.spec_value(k)@)
    }
}

impl<V: View> SortedMap<V> {
    /// What the view says at each position, and that nothing else is in it.
    pub proof fn lemma_view(&self)
        requires
            self.wf(),
        ensures
            forall|i: int|
                0 <= i < self.key_seq().len() ==> #[trigger] self.index_of(self.key_seq()[i]) == i,
            forall|i: int|
                0 <= i < self.key_seq().len() ==> self@.contains_key(#[trigger] self.key_seq()[i])
                    && self@[self.key_seq()[i]] == self.val_seq()[i]@,
            forall|k: Seq<char>|
                #[trigger] self@.contains_key(k) ==> self.key_seq().contains(k),
            self@.dom() == self.key_seq().to_set(),
    {
        let ks = self.key_seq();
        assert forall|i: int| 0 <= i < ks.len() implies #[trigger] self.index_of(ks[i]) == i by {
            assert(ks.contains(ks[i]));
            let j = self.index_of(ks[i]);
            assert(0 <= j < ks.len() && ks[j] == ks[i]);
            if j < i {
                lemma_lt_irreflexive(ks[i]);
            } else if i < j {
                lemma_lt_irreflexive(ks[i]);
            }
        }
        assert forall|i: int| 0 <= i < ks.len() implies self@.contains_key(#[trigger] ks[i])
            && self@[ks[i]] == self.val_seq()[i]@ by {
            assert(ks.contains(ks[i]));
        }
        assert(self@.dom() =~= ks.to_set());
    }

    /// Two maps with the same keys hold them in the same order.
    pub proof fn lemma_same_keys(&self, other: &Self)
        requires
            self.wf(),
            other.wf(),
            self@.dom() == other@.dom(),
        ensures
            self.key_seq() == other.key_seq(),
    {
        self.lemma_view();
        other.lemma_view();
        lemma_sorted_unique(self.key_seq(), other.key_seq());
    }

    /// The first `j` entries, as a map.
    pub open spec fn view_prefix(&self, j: int) -> Map<Seq<char>, V::V> {
        Map::new(
            |k: Seq<char>| self.key_seq().take(j).contains(k),
            |k: Seq<char>| self.spec_value(k)@,
        )
    }

    /// The first `j + 1` entries are the first `j` and entry `j`; all the
    /// entries are the map.
    pub proof fn lemma_view_prefix(&self, j: int)
        requires
            self.wf(),
            0 <= j < self.key_seq().len(),
        ensures
            self.view_prefix(j + 1) == self.view_prefix(j).insert(
                self.key_seq()[j],
                self.val_seq()[j]@,
            ),
            !self.view_prefix(j).contains_key(self.key_seq()[j]),
            self.view_prefix(0) == Map::<Seq<char>, V::V>::empty(),
            self.view_prefix(self.key_seq().len() as int) == self@,
    {
        self.lemma_view();
        let ks = self.key_seq();
        assert(ks.take(j + 1) =~= ks.take(j).push(ks[j]));
        if ks.take(j).contains(ks[j]) {
            let i = choose|i: int| 0 <= i < ks.take(j).len() && #[trigger] ks.take(j)[i] == ks[j];
            assert(ks[i] == ks[j]);
            lemma_lt_irreflexive(ks[j]);
        }
        assert(self.index_of(ks[j]) == j);
        assert forall|k: Seq<char>| #[trigger] ks.take(j + 1).contains(k) == (ks.take(j).contains(k) || k == ks[j]) by {
            if ks.take(j + 1).contains(k) {
                let i = choose|i: int| 0 <= i < ks.take(j + 1).len() && #[trigger] ks.take(j + 1)[i] == k;
                if i < j {
                    assert(ks.take(j)[i] == k);
                }
            }
            if ks.take(j).contains(k) {
                let i = choose|i: int| 0 <= i < ks.take(j).len() && #[trigger] ks.take(j)[i] == k;
                assert(ks.take(j + 1)[i] == k);
            }
            if k == ks[j] {
                assert(ks.take(j + 1)[j] == k);
            }
        }
        assert(self.view_prefix(j + 1) =~= self.view_prefix(j).insert(ks[j], self.val_seq()[j]@));
        assert(self.view_prefix(0) =~= Map::<Seq<char>, V::V>::empty());
        assert(ks.take(ks.len() as int) =~= ks);
        assert(self.view_prefix(ks.len() as int) =~= self@);
    }

    /// An empty map.
    pub fn new() -> (m: Self)
        ensures
            m.wf(),
            m.key_seq() == Seq::<Seq<char>>::empty(),
            m@ == Map::<Seq<char>, V::V>::empty(),
    {
        let m = SortedMap { keys: Vec::new(), vals: Vec::new() };
        assert(m.key_seq() =~= Seq::<Seq<char>>::empty());
        assert(m@ =~= Map::<Seq<char>, V::V>::empty());
        m
    }

    /// The number of entries.
    pub fn len(&self) -> (n: usize)
        requires
            self.wf(),
        ensures
            n == self.key_seq().len(),
            n == self@.len(),
    {
        proof {
            self.lemma_view();
            self.lemma_no_duplicates();
            self.key_seq().unique_seq_to_set();
        }
        self.keys.len()
    }

    /// Whether the map is empty.
    pub fn is_empty(&self) -> (b: bool)
        requires
            self.wf(),
        ensures
            b == (self.key_seq().len() == 0),
            b == (self@ == Map::<Seq<char>, V::V>::empty()),
    {
        proof {
            self.lemma_view();
            if self.key_seq().len() > 0 {
                assert(self@.contains_key(self.key_seq()[0]));
            } else {
                assert(self@ =~= Map::<Seq<char>, V::V>::empty());
            }
        }
        self.keys.len() == 0
    }

    /// The `i`-th key in ascending order.
    pub fn key_at(&self, i: usize) -> (k: &String)
        requires
            self.wf(),
            i < self.key_seq().len(),
        ensures
            k@ == self.key_seq()[i as int],
    {
        &self.keys[i]
    }

    /// The value of the `i`-th key in ascending order.
    pub fn value_at(&self, i: usize) -> (v: &V)
        requires
            self.wf(),
            i < self.key_seq().len(),
        ensures
            *v == self.val_seq()[i as int],
    {
        &self.vals[i]
    }

    proof fn lemma_no_duplicates(&self)
        requires
            self.wf(),
        ensures
            self.key_seq().no_duplicates(),
    {
        assert forall|i: int, j: int|
            0 <= i < self.key_seq().len() && 0 <= j < self.key_seq().len() && i != j implies
            self.key_seq()[i] != self.key_seq()[j] by {
            lemma_lt_irreflexive(self.key_seq()[i]);
        }
    }

    /// Binary search: the position where `k` stands or would stand.
    fn search(&self, k: &str) -> (r: (usize, bool))
        requires
            self.wf(),
        ensures
            r.0 <= self.key_seq().len(),
            forall|i: int| 0 <= i < r.0 ==> seq_lt(#[trigger] self.key_seq()[i], k@),
            forall|i: int| r.0 <= i < self.key_seq().len() ==> !seq_lt(#[trigger] self.key_seq()[i], k@),
            r.1 == (r.0 < self.key_seq().len() && self.key_seq()[r.0 as int] == k@),
            !r.1 ==> !self.key_seq().contains(k@),
    {
        let mut lo: usize = 0;
        let mut hi: usize = self.keys.len();
        while lo < hi
            invariant
                self.wf(),
                lo <= hi <= self.key_seq().len(),
                forall|i: int| 0 <= i < lo ==> seq_lt(#[trigger] self.key_seq()[i], k@),
                forall|i: int| hi <= i < self.key_seq().len() ==> !seq_lt(#[trigger] self.key_seq()[i], k@),
            decreases hi - lo,
        {
            let mid = lo + (hi - lo) / 2;
            if str_lt(self.keys[mid].as_str(), k) {
                assert forall|i: int| 0 <= i < mid + 1 implies seq_lt(#[trigger] self.key_seq()[i], k@) by {
                    if i < mid {
                        lemma_lt_transitive(self.key_seq()[i], self.key_seq()[mid as int], k@);
                    }
                }
                lo = mid + 1;
            } else {
                assert forall|i: int| mid <= i < self.key_seq().len() implies !seq_lt(#[trigger] self.key_seq()[i], k@) by {
                    if i > mid && seq_lt(self.key_seq()[i], k@) {
                        lemma_lt_transitive(self.key_seq()[mid as int], self.key_seq()[i], k@);
                    }
                }
                hi = mid;
            }
        }
        let found = lo < self.keys.len() && str_eq(self.keys[lo].as_str(), k);
        proof {
            if !found {
                if self.key_seq().contains(k@) {
                    let j = choose|j: int| 0 <= j < self.key_seq().len() && self.key_seq()[j] == k@;
                    lemma_lt_irreflexive(k@);
                    if j > lo {
                        lemma_lt_total(self.key_seq()[lo as int], k@);
                        lemma_lt_asymmetric(self.key_seq()[lo as int], self.key_seq()[j]);
                    }
                }
            }
        }
        (lo, found)
    }

    /// Whether `k` is a key.
    pub fn contains_key(&self, k: &str) -> (b: bool)
        requires
            self.wf(),
        ensures
            b == self@.contains_key(k@),
    {
        let (_, found) = self.search(k);
        found
    }

    /// The value stored under `k`, if any.
    pub fn get(&self, k: &str) -> (r: Option<&V>)
        requires
            self.wf(),
        ensures
            r is Some == self@.contains_key(k@),
            r matches Some(v) ==> *v == self.spec_value(k@) && v@ == self@[k@],
    {
        let (p, found) = self.search(k);
        if found {
            proof {
                self.lemma_view();
            }
            Some(&self.vals[p])
        } else {
            None
        }
    }

    /// Stores `v` under `k`, replacing what was there.
    pub fn insert(&mut self, k: String, v: V)
        requires
            old(self).wf(),
        ensures
            final(self).wf(),
            final(self)@ == old(self)@.insert(k@, v@),
            forall|i: int|
                0 <= i < final(self).val_seq().len() ==> #[trigger] final(self).val_seq()[i] == v
                    || old(self).val_seq().contains(final(self).val_seq()[i]),
    {
        let (p, found) = self.search(k.as_str());
        let ghost ks = self.key_seq();
        let ghost old_map = self@;
        proof {
            self.lemma_view();
        }
        let ghost old_vals = self.val_seq();
        if found {
            self.vals.set(p, v);
            assert(self.key_seq() == ks);
            assert forall|i: int| 0 <= i < self.val_seq().len() implies #[trigger] self.val_seq()[i] == v
                || old_vals.contains(self.val_seq()[i]) by {
                if i != p {
                    assert(old_vals[i] == self.val_seq()[i]);
                }
            }
            proof {
                self.lemma_view();
                assert forall|q: Seq<char>| #[trigger] self@.contains_key(q) implies self@[q]
                    == old_map.insert(k@, v@)[q] by {
                    let i = self.index_of(q);
                    assert(self.key_seq().contains(q));
                }
                assert(self@ =~= old_map.insert(k@, v@));
            }
        } else {
            proof {
                if p < ks.len() {
                    lemma_lt_total(ks[p as int], k@);
                }
                assert forall|i: int| p < i < ks.len() implies seq_lt(k@, #[trigger] ks[i]) by {
                    lemma_lt_transitive(k@, ks[p as int], ks[i]);
                }
            }
            self.keys.insert(p, k);
            self.vals.insert(p, v);
            assert forall|i: int| 0 <= i < self.val_seq().len() implies #[trigger] self.val_seq()[i] == v
                || old_vals.contains(self.val_seq()[i]) by {
                if i < p {
                    assert(old_vals[i] == self.val_seq()[i]);
                } else if i > p {
                    assert(old_vals[i - 1] == self.val_seq()[i]);
                }
            }
            assert(self.key_seq() =~= ks.insert(p as int, k@));
            proof {
                assert(sorted_strict(self.key_seq())) by {
                    assert forall|i: int, j: int| 0 <= i < j < self.key_seq().len() implies seq_lt(
                        #[trigger] self.key_seq()[i],
                        #[trigger] self.key_seq()[j],
                    ) by {
                        if i < p && j > p {
                            lemma_lt_transitive(ks[i], k@, ks[j - 1]);
                        }
                    }
                }
                self.lemma_view();
                assert forall|q: Seq<char>| #[trigger] self@.contains_key(q) == old_map.insert(k@, v@).contains_key(q) by {
                    if old_map.contains_key(q) {
                        let i = choose|i: int| 0 <= i < ks.len() && ks[i] == q;
                        if i < p {
                            assert(self.key_seq()[i] == q);
                        } else {
                            assert(self.key_seq()[i + 1] == q);
                        }
                    }
                    if q == k@ {
                        assert(self.key_seq()[p as int] == q);
                    }
                    if self@.contains_key(q) {
                        let i = choose|i: int| 0 <= i < self.key_seq().len() && self.key_seq()[i] == q;
                        if i < p {
                            assert(ks[i] == q);
                        } else if i > p {
                            assert(ks[i - 1] == q);
                        }
                    }
                }
                assert forall|q: Seq<char>| #[trigger] self@.contains_key(q) implies self@[q]
                    == old_map.insert(k@, v@)[q] by {
                    let i = choose|i: int| 0 <= i < self.key_seq().len() && self.key_seq()[i] == q;
                    assert(self.index_of(q) == i);
                    if i < p {
                        assert(ks[i] == q);
                        assert(old_map[q] == self.vals@[i]@);
                    } else if i > p {
                        assert(ks[i - 1] == q);
                        assert(old_map[q] == self.vals@[i]@);
                    }
                }
                assert(self@ =~= old_map.insert(k@, v@));
            }
        }
    }
}

} // verus!

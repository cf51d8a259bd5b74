//! Ordered text-keyed maps and sets.
//!
//! A `StrMap` holds its entries in strictly increasing key order, so that
//! walking it by index visits the keys in the order that a `BTreeMap` keyed by
//! `String` gives. A `StrSet` does the same for a set of texts.
use vstd::prelude::*;
use crate::strings::{
    lemma_seq_lt_asymmetric, lemma_seq_lt_irreflexive, lemma_seq_lt_total, lemma_seq_lt_transitive,
    seq_lt, str_eq, str_lt,
};

verus! {

/// Every element comes strictly before every later one.
pub open spec fn sorted_strict(s: Seq<Seq<char>>) -> bool {
    forall|i: int, j: int| 0 <= i < j < s.len() ==> seq_lt(#[trigger] s[i], #[trigger] s[j])
}

/// The elements of a finite set of texts in increasing order.
pub open spec fn sorted_enum(set: Set<Seq<char>>) -> Seq<Seq<char>> {
    choose|s: Seq<Seq<char>>| sorted_strict(s) && s.to_set() == set
}

/// A strictly increasing sequence holds no element twice.
pub proof fn lemma_sorted_strict_no_duplicates(s: Seq<Seq<char>>)
    requires
        sorted_strict(s),
    ensures
        s.no_duplicates(),
{
    assert forall|i: int, j: int| 0 <= i < s.len() && 0 <= j < s.len() && i != j implies s[i]
        != s[j] by {
        if i < j {
            lemma_seq_lt_irreflexive(s[i]);
        } else {
            lemma_seq_lt_irreflexive(s[j]);
        }
    }
}

/// Two strictly increasing sequences with the same elements are equal.
pub proof fn lemma_sorted_strict_unique(s1: Seq<Seq<char>>, s2: Seq<Seq<char>>)
    requires
        sorted_strict(s1),
        sorted_strict(s2),
        s1.to_set() == s2.to_set(),
    ensures
        s1 == s2,
    decreases s1.len(),
{
    if s1.len() == 0 {
        if s2.len() > 0 {
            assert(s2.to_set().contains(s2[0]));
        }
        assert(s1 =~= s2);
    } else {
        assert(s1.to_set().contains(s1[0]));
        assert(s2.to_set().contains(s1[0]));
        let j = choose|j: int| 0 <= j < s2.len() && s2[j] == s1[0];
        assert(s2.to_set().contains(s2[0]));
        assert(s1.to_set().contains(s2[0]));
        let i = choose|i: int| 0 <= i < s1.len() && s1[i] == s2[0];
        if j > 0 {
            if i > 0 {
                lemma_seq_lt_asymmetric(s1[0], s1[i]);
            } else {
                lemma_seq_lt_irreflexive(s2[0]);
            }
        }
        assert(s1[0] == s2[0]);
        let t1 = s1.drop_first();
        let t2 = s2.drop_first();
        assert forall|x: Seq<char>| t1.to_set().contains(x) implies t2.to_set().contains(x) by {
            let k = choose|k: int| 0 <= k < t1.len() && t1[k] == x;
            assert(s1[k + 1] == x);
            assert(s1.to_set().contains(x));
            let m = choose|m: int| 0 <= m < s2.len() && s2[m] == x;
            if m == 0 {
                lemma_seq_lt_irreflexive(s1[0]);
            }
            assert(t2[m - 1] == x);
        }
        assert forall|x: Seq<char>| t2.to_set().contains(x) implies t1.to_set().contains(x) by {
            let k = choose|k: int| 0 <= k < t2.len() && t2[k] == x;
            assert(s2[k + 1] == x);
            assert(s2.to_set().contains(x));
            let m = choose|m: int| 0 <= m < s1.len() && s1[m] == x;
            if m == 0 {
                lemma_seq_lt_irreflexive(s2[0]);
            }
            assert(t1[m - 1] == x);
        }
        assert(t1.to_set() =~= t2.to_set());
        lemma_sorted_strict_unique(t1, t2);
        assert(s1 =~= s2) by {
            assert forall|k: int| 0 <= k < s1.len() implies s1[k] == s2[k] by {
                if k > 0 {
                    assert(s1[k] == t1[k - 1]);
                    assert(s2[k] == t2[k - 1]);
                }
            }
        }
    }
}

/// A strictly increasing sequence is the increasing enumeration of its elements.
pub proof fn lemma_sorted_enum(s: Seq<Seq<char>>)
    requires
        sorted_strict(s),
    ensures
        sorted_enum(s.to_set()) == s,
        sorted_strict(sorted_enum(s.to_set())),
{
    assert(sorted_strict(s) && s.to_set() == s.to_set());
    let c = sorted_enum(s.to_set());
    assert(sorted_strict(c) && c.to_set() == s.to_set());
    lemma_sorted_strict_unique(c, s);
}

/// `t` with `x` put in its place by order.
pub open spec fn sorted_insert(t: Seq<Seq<char>>, x: Seq<char>) -> Seq<Seq<char>>
    decreases t.len(),
{
    if t.len() == 0 {
        seq![x]
    } else if seq_lt(x, t[0]) {
        seq![x] + t
    } else {
        seq![t[0]] + sorted_insert(t.drop_first(), x)
    }
}

/// Putting a new element in its place keeps the order.
pub proof fn lemma_sorted_insert(t: Seq<Seq<char>>, x: Seq<char>)
    requires
        sorted_strict(t),
        !t.contains(x),
    ensures
        sorted_strict(sorted_insert(t, x)),
        sorted_insert(t, x).to_set() == t.to_set().insert(x),
    decreases t.len(),
{
    let r = sorted_insert(t, x);
    if t.len() == 0 {
        assert(r.to_set() =~= t.to_set().insert(x)) by {
            assert(r[0] == x);
        }
    } else if seq_lt(x, t[0]) {
        assert forall|i: int, j: int| 0 <= i < j < r.len() implies seq_lt(#[trigger] r[i], #[trigger] r[j]) by {
            if i == 0 {
                assert(r[j] == t[j - 1]);
                if j > 1 {
                    lemma_seq_lt_transitive(x, t[0], t[j - 1]);
                }
            } else {
                assert(r[i] == t[i - 1]);
                assert(r[j] == t[j - 1]);
            }
        }
        assert(r.to_set() =~= t.to_set().insert(x)) by {
            assert forall|y: Seq<char>| r.to_set().contains(y) implies t.to_set().insert(x).contains(y) by {
                let i = choose|i: int| 0 <= i < r.len() && r[i] == y;
                if i > 0 {
                    assert(t[i - 1] == y);
                }
            }
            assert forall|y: Seq<char>| t.to_set().insert(x).contains(y) implies r.to_set().contains(y) by {
                if y == x {
                    assert(r[0] == y);
                } else {
                    let i = choose|i: int| 0 <= i < t.len() && t[i] == y;
                    assert(r[i + 1] == y);
                }
            }
        }
    } else {
        let rest = t.drop_first();
        assert(!rest.contains(x)) by {
            if rest.contains(x) {
                let i = choose|i: int| 0 <= i < rest.len() && rest[i] == x;
                assert(t[i + 1] == x);
            }
        }
        assert(sorted_strict(rest)) by {
            assert forall|i: int, j: int| 0 <= i < j < rest.len() implies seq_lt(#[trigger] rest[i], #[trigger] rest[j]) by {
                assert(rest[i] == t[i + 1]);
                assert(rest[j] == t[j + 1]);
            }
        }
        lemma_sorted_insert(rest, x);
        let sub = sorted_insert(rest, x);
        assert(t[0] != x) by {
            assert(t[0] == t[0]);
        }
        lemma_seq_lt_total(x, t[0]);
        assert forall|y: Seq<char>| sub.contains(y) implies seq_lt(t[0], y) by {
            assert(sub.to_set().contains(y));
            if y != x {
                assert(rest.to_set().contains(y));
                let i = choose|i: int| 0 <= i < rest.len() && rest[i] == y;
                assert(t[i + 1] == y);
            }
        }
        assert forall|i: int, j: int| 0 <= i < j < r.len() implies seq_lt(#[trigger] r[i], #[trigger] r[j]) by {
            if i == 0 {
                assert(r[j] == sub[j - 1]);
                assert(sub.contains(sub[j - 1]));
            } else {
                assert(r[i] == sub[i - 1]);
                assert(r[j] == sub[j - 1]);
            }
        }
        assert(r.to_set() =~= t.to_set().insert(x)) by {
            assert forall|y: Seq<char>| r.to_set().contains(y) implies t.to_set().insert(x).contains(y) by {
                let i = choose|i: int| 0 <= i < r.len() && r[i] == y;
                if i > 0 {
                    assert(sub[i - 1] == y);
                    assert(sub.to_set().contains(y));
                    if y != x {
                        let k = choose|k: int| 0 <= k < rest.len() && rest[k] == y;
                        assert(t[k + 1] == y);
                    }
                } else {
                    assert(t[0] == y);
                }
            }
            assert forall|y: Seq<char>| t.to_set().insert(x).contains(y) implies r.to_set().contains(y) by {
                if y == t[0] {
                    assert(r[0] == y);
                } else {
                    if y != x {
                        let i = choose|i: int| 0 <= i < t.len() && t[i] == y;
                        assert(i > 0);
                        assert(rest[i - 1] == y);
                        assert(rest.to_set().contains(y));
                    }
                    assert(sub.to_set().contains(y));
                    let k = choose|k: int| 0 <= k < sub.len() && sub[k] == y;
                    assert(r[k + 1] == y);
                }
            }
        }
    }
}

/// Every finite set of texts has an increasing enumeration.
pub proof fn lemma_sorted_enum_exists(set: Set<Seq<char>>)
    requires
        set.finite(),
    ensures
        sorted_strict(sorted_enum(set)),
        sorted_enum(set).to_set() == set,
    decreases set.len(),
{
    if set.len() == 0 {
        let e = Seq::<Seq<char>>::empty();
        assert(e.to_set() =~= set);
        assert(sorted_strict(e) && e.to_set() == set);
    } else {
        let x = set.choose();
        let rest = set.remove(x);
        lemma_sorted_enum_exists(rest);
        let t = sorted_enum(rest);
        assert(!t.contains(x)) by {
            if t.contains(x) {
                assert(t.to_set().contains(x));
            }
        }
        lemma_sorted_insert(t, x);
        let w = sorted_insert(t, x);
        assert(w.to_set() =~= set);
        assert(sorted_strict(w) && w.to_set() == set);
    }
}

/// A map from texts to values, kept in increasing key order.
#[derive(Debug)]
pub struct StrMap<V> {
    entries: Vec<(String, V)>,
}

impl<V> StrMap<V> {
    /// The keys, in the order in which the map holds them.
    pub closed spec fn keys(&self) -> Seq<Seq<char>> {
        self.entries@.map_values(|e: (String, V)| e.0@)
    }

    /// What the map holds, as a mathematical map.
    pub closed spec fn map(&self) -> Map<Seq<char>, V> {
        Map::new(
            |k: Seq<char>| self.keys().contains(k),
            |k: Seq<char>| self.entries@[self.keys().index_of(k)].1,
        )
    }

    #[verifier::type_invariant]
    closed spec fn inv(&self) -> bool {
        sorted_strict(self.keys())
    }

    /// The keys come in increasing order, and they are exactly the map's keys.
    pub open spec fn ordered(&self) -> bool {
        &&& sorted_strict(self.keys())
        &&& self.keys().to_set() == self.map().dom()
        &&& self.keys() == sorted_enum(self.map().dom())
    }

    proof fn lemma_inv_facts(&self)
        requires
            self.inv(),
        ensures
            self.ordered(),
            forall|i: int|
                0 <= i < self.keys().len() ==> self.map()[#[trigger] self.keys()[i]]
                    == self.entries@[i].1,
    {
        lemma_sorted_enum(self.keys());
        assert(self.keys().to_set() =~= self.map().dom());
        lemma_sorted_strict_no_duplicates(self.keys());
        assert forall|i: int| 0 <= i < self.keys().len() implies self.map()[#[trigger] self.keys()[i]]
            == self.entries@[i].1 by {
            let k = self.keys()[i];
            assert(self.keys().contains(k));
            let j = self.keys().index_of(k);
            assert(self.keys()[j] == k);
        }
    }

    /// The keys of the map are those that it holds in order, and there are finitely many.
    pub proof fn lemma_dom_finite(&self)
        ensures
            self.map().dom() == self.keys().to_set(),
            self.map().dom().finite(),
    {
        assert(self.map().dom() =~= self.keys().to_set());
        vstd::seq_lib::seq_to_set_is_finite(self.keys());
    }

    /// An empty map.
    pub fn new() -> (r: Self)
        ensures
            r.map() == Map::<Seq<char>, V>::empty(),
            r.keys() == Seq::<Seq<char>>::empty(),
            r.ordered(),
    {
        let r = StrMap { entries: Vec::new() };
        proof {
            assert(r.keys() =~= Seq::<Seq<char>>::empty());
            assert(r.map() =~= Map::<Seq<char>, V>::empty());
            lemma_sorted_enum(r.keys());
            assert(r.keys().to_set() =~= r.map().dom());
        }
        r
    }

    /// The number of entries.
    pub fn len(&self) -> (r: usize)
        ensures
            r == self.keys().len(),
            r == self.map().dom().len(),
            self.ordered(),
    {
        proof {
            use_type_invariant(self);
            self.lemma_inv_facts();
            lemma_sorted_strict_no_duplicates(self.keys());
            self.keys().unique_seq_to_set();
        }
        self.entries.len()
    }

    /// Whether the map is empty.
    pub fn is_empty(&self) -> (r: bool)
        ensures
            r == (self.map().dom().len() == 0),
            r == (self.keys().len() == 0),
    {
        self.len() == 0
    }

    /// The key at position `i` in key order.
    pub fn key_at(&self, i: usize) -> (r: &String)
        requires
            i < self.keys().len(),
        ensures
            r@ == self.keys()[i as int],
    {
        &self.entries[i].0
    }

    /// The value stored under the key at position `i`.
    pub fn value_at(&self, i: usize) -> (r: &V)
        requires
            i < self.keys().len(),
        ensures
            *r == self.map()[self.keys()[i as int]],
    {
        proof {
            use_type_invariant(self);
            self.lemma_inv_facts();
        }
        &self.entries[i].1
    }

    /// The first position whose key is not below `k`.
    fn lower_bound(&self, k: &str) -> (pos: usize)
        ensures
            pos <= self.keys().len(),
            forall|j: int| 0 <= j < pos ==> seq_lt(#[trigger] self.keys()[j], k@),
            pos < self.keys().len() ==> !seq_lt(self.keys()[pos as int], k@),
    {
        let n = self.entries.len();
        let mut i: usize = 0;
        while i < n
            invariant
                n == self.keys().len(),
                i <= n,
                forall|j: int| 0 <= j < i ==> seq_lt(#[trigger] self.keys()[j], k@),
            decreases n - i,
        {
            if !str_lt(self.entries[i].0.as_str(), k) {
                return i;
            }
            i = i + 1;
        }
        i
    }

    /// The position of `k`, if the map holds it.
    fn find(&self, k: &str) -> (r: Option<usize>)
        ensures
            r is Some <==> self.keys().contains(k@),
            r matches Some(i) ==> i < self.keys().len() && self.keys()[i as int] == k@,
    {
        proof {
            use_type_invariant(self);
        }
        let pos = self.lower_bound(k);
        if pos < self.entries.len() && str_eq(self.entries[pos].0.as_str(), k) {
            Some(pos)
        } else {
            proof {
                if self.keys().contains(k@) {
                    let j = choose|j: int| 0 <= j < self.keys().len() && self.keys()[j] == k@;
                    if j < pos {
                        lemma_seq_lt_irreflexive(k@);
                    } else if j > pos {
                        lemma_seq_lt_total(self.keys()[pos as int], k@);
                        lemma_seq_lt_asymmetric(self.keys()[pos as int], k@);
                    }
                }
            }
            None
        }
    }

    /// Whether the map holds the key `k`.
    pub fn contains_key(&self, k: &str) -> (r: bool)
        ensures
            r == self.map().dom().contains(k@),
    {
        self.find(k).is_some()
    }

    /// The value stored under `k`, if any.
    pub fn get(&self, k: &str) -> (r: Option<&V>)
        ensures
            r is Some <==> self.map().dom().contains(k@),
            r matches Some(v) ==> *v == self.map()[k@],
    {
        match self.find(k) {
            Some(i) => Some(self.value_at(i)),
            None => None,
        }
    }

    /// Stores `v` under `k`, replacing what was there.
    pub fn insert(&mut self, k: String, v: V)
        ensures
            final(self).map() == old(self).map().insert(k@, v),
    {
        proof {
            use_type_invariant(&*self);
            self.lemma_inv_facts();
        }
        let ghost old_keys = self.keys();
        let ghost old_map = self.map();
        let ghost old_entries = self.entries@;
        let pos = self.lower_bound(k.as_str());
        let mut entries: Vec<(String, V)> = Vec::new();
        std::mem::swap(&mut entries, &mut self.entries);
        assert(entries@.map_values(|e: (String, V)| e.0@) == old_keys);
        if pos < entries.len() && str_eq(entries[pos].0.as_str(), k.as_str()) {
            entries.set(pos, (k, v));
            let ghost nk = entries@.map_values(|e: (String, V)| e.0@);
            assert(nk =~= old_keys);
        } else {
            entries.insert(pos, (k, v));
            let ghost nk = entries@.map_values(|e: (String, V)| e.0@);
            assert(nk =~= old_keys.insert(pos as int, k@));
            assert forall|i: int, j: int| 0 <= i < j < nk.len() implies seq_lt(
                #[trigger] nk[i],
                #[trigger] nk[j],
            ) by {
                if j < pos {
                } else if i > pos {
                    assert(nk[i] == old_keys[i - 1]);
                    assert(nk[j] == old_keys[j - 1]);
                } else if i == pos {
                    assert(nk[j] == old_keys[j - 1]);
                    if j - 1 == pos {
                        lemma_seq_lt_total(old_keys[pos as int], k@);
                    } else {
                        lemma_seq_lt_total(old_keys[pos as int], k@);
                        lemma_seq_lt_transitive(k@, old_keys[pos as int], old_keys[j - 1]);
                    }
                } else {
                    assert(nk[i] == old_keys[i]);
                }
            }
        }
        let ghost new_entries = entries@;
        self.entries = entries;
        proof {
            self.lemma_inv_facts();
            let nm = self.map();
            let om = old_map.insert(k@, v);
            assert forall|q: Seq<char>| nm.dom().contains(q) <==> om.dom().contains(q) by {
                if om.dom().contains(q) && q != k@ {
                    let j = choose|j: int| 0 <= j < old_keys.len() && old_keys[j] == q;
                    if j < pos {
                        assert(self.keys()[j] == q);
                    } else if self.keys().len() == old_keys.len() {
                        assert(self.keys()[j] == q);
                    } else {
                        assert(self.keys()[j + 1] == q);
                    }
                }
                if nm.dom().contains(q) && q != k@ {
                    let j = choose|j: int| 0 <= j < self.keys().len() && self.keys()[j] == q;
                    if j < pos || self.keys().len() == old_keys.len() {
                        assert(old_keys[j] == q);
                    } else {
                        assert(old_keys[j - 1] == q);
                    }
                }
                if q == k@ {
                    assert(self.keys()[pos as int] == q);
                }
            }
            assert(nm.dom() =~= om.dom());
            assert forall|q: Seq<char>| nm.dom().contains(q) implies nm[q] == om[q] by {
                let j = choose|j: int| 0 <= j < self.keys().len() && self.keys()[j] == q;
                assert(nm[self.keys()[j]] == new_entries[j].1);
                lemma_sorted_strict_no_duplicates(self.keys());
                if q == k@ {
                    assert(self.keys()[pos as int] == k@);
                    assert(j == pos);
                    assert(new_entries[pos as int].1 == v);
                } else if j < pos || self.keys().len() == old_keys.len() {
                    assert(old_keys[j] == q);
                    assert(new_entries[j] == old_entries[j]);
                    assert(old_map[old_keys[j]] == old_entries[j].1);
                } else {
                    assert(old_keys[j - 1] == q);
                    assert(new_entries[j] == old_entries[j - 1]);
                    assert(old_map[old_keys[j - 1]] == old_entries[j - 1].1);
                }
            }
            assert(nm =~= om);
        }
    }
}

impl<V: Clone> Clone for StrMap<V> {
    /// A copy with the same keys; each value is cloned.
    fn clone(&self) -> (r: Self)
        ensures
            r.keys() == self.keys(),
            r.map().dom() == self.map().dom(),
            forall|k: Seq<char>|
                #[trigger] r.map().dom().contains(k) ==> cloned::<V>(self.map()[k], r.map()[k]),
    {
        proof {
            use_type_invariant(self);
            self.lemma_inv_facts();
        }
        let mut entries: Vec<(String, V)> = Vec::new();
        let n = self.entries.len();
        for i in 0..n
            invariant
                n == self.entries@.len(),
                entries@.len() == i,
                sorted_strict(self.keys()),
                forall|j: int| 0 <= j < i ==> (#[trigger] entries@[j]).0@ == self.entries@[j].0@,
                forall|j: int| 0 <= j < i ==> cloned::<V>(self.entries@[j].1, #[trigger] entries@[j].1),
        {
            let k = self.entries[i].0.clone();
            let v = self.entries[i].1.clone();
            entries.push((k, v));
        }
        assert(entries@.map_values(|e: (String, V)| e.0@) =~= self.keys());
        let r = StrMap { entries };
        proof {
            use_type_invariant(&r);
            r.lemma_inv_facts();
            assert(r.map().dom() =~= self.map().dom());
            assert forall|k: Seq<char>| #[trigger] r.map().dom().contains(k) implies cloned::<V>(
                self.map()[k],
                r.map()[k],
            ) by {
                let j = choose|j: int| 0 <= j < r.keys().len() && r.keys()[j] == k;
                assert(r.map()[r.keys()[j]] == r.entries@[j].1);
                assert(self.map()[self.keys()[j]] == self.entries@[j].1);
            }
        }
        r
    }
}

impl Clone for StrSet {
    /// A copy with the same elements.
    fn clone(&self) -> (r: Self)
        ensures
            r.elems() == self.elems(),
            r.set() == self.set(),
    {
        let r = StrSet { inner: self.inner.clone() };
        assert(r.set() =~= self.set());
        r
    }
}

/// A set of texts, kept in increasing order.
#[derive(Debug)]
pub struct StrSet {
    inner: StrMap<()>,
}

impl StrSet {
    /// The elements in increasing order.
    pub closed spec fn elems(&self) -> Seq<Seq<char>> {
        self.inner.keys()
    }

    /// The elements as a mathematical set.
    pub closed spec fn set(&self) -> Set<Seq<char>> {
        self.inner.map().dom()
    }

    /// The elements come in increasing order, and they are exactly the set's elements.
    pub open spec fn ordered(&self) -> bool {
        &&& sorted_strict(self.elems())
        &&& self.elems().to_set() == self.set()
        &&& self.elems() == sorted_enum(self.set())
    }

    /// The set is finite.
    pub proof fn lemma_set_finite(&self)
        ensures
            self.set().finite(),
    {
        self.inner.lemma_dom_finite();
    }

    /// An empty set.
    pub fn new() -> (r: Self)
        ensures
            r.set() == Set::<Seq<char>>::empty(),
            r.elems() == Seq::<Seq<char>>::empty(),
            r.ordered(),
    {
        StrSet { inner: StrMap::new() }
    }

    /// The number of elements.
    pub fn len(&self) -> (r: usize)
        ensures
            r == self.elems().len(),
            r == self.set().len(),
            self.ordered(),
    {
        self.inner.len()
    }

    /// Whether the set is empty.
    pub fn is_empty(&self) -> (r: bool)
        ensures
            r == (self.set().len() == 0),
            r == (self.elems().len() == 0),
    {
        self.inner.is_empty()
    }

    /// The element at position `i` in increasing order.
    pub fn get(&self, i: usize) -> (r: &String)
        requires
            i < self.elems().len(),
        ensures
            r@ == self.elems()[i as int],
    {
        self.inner.key_at(i)
    }

    /// Whether the set holds `k`.
    pub fn contains(&self, k: &str) -> (r: bool)
        ensures
            r == self.set().contains(k@),
    {
        self.inner.contains_key(k)
    }

    /// Adds `k`; the result tells whether it was not there before.
    pub fn insert(&mut self, k: String) -> (fresh: bool)
        ensures
            fresh == !old(self).set().contains(k@),
            final(self).set() == old(self).set().insert(k@),
    {
        let fresh = !self.inner.contains_key(k.as_str());
        self.inner.insert(k, ());
        fresh
    }
}

} // verus!

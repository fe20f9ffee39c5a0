//! A map from strings to values, kept as a vector of entries in strictly increasing key
//! order (the order in which a `BTreeMap<String, _>` holds and walks its entries).

use vstd::prelude::*;
use crate::text::{seq_lt, string_lt, lemma_lt_irreflexive, lemma_lt_transitive, lemma_lt_total,
    lemma_lt_asymmetric};

verus! {

/// Keys strictly increase along the entries (so no key occurs twice).
pub open spec fn keys_sorted<T>(s: Seq<(Seq<char>, T)>) -> bool {
    forall|i: int, j: int| 0 <= i < j < s.len() ==> seq_lt(#[trigger] s[i].0, #[trigger] s[j].0)
}

/// `k` is the key of some entry.
pub open spec fn has_key<T>(s: Seq<(Seq<char>, T)>, k: Seq<char>) -> bool {
    exists|i: int| 0 <= i < s.len() && #[trigger] s[i].0 == k
}

/// The position of the entry with key `k`.
pub open spec fn key_index<T>(s: Seq<(Seq<char>, T)>, k: Seq<char>) -> int {
    choose|i: int| 0 <= i < s.len() && #[trigger] s[i].0 == k
}

/// The entries as a map.
pub open spec fn map_of<T>(s: Seq<(Seq<char>, T)>) -> Map<Seq<char>, T> {
    Map::new(|k: Seq<char>| has_key(s, k), |k: Seq<char>| s[key_index(s, k)].1)
}

pub proof fn lemma_map_of_index<T>(s: Seq<(Seq<char>, T)>, i: int)
    requires
        keys_sorted(s),
        0 <= i < s.len(),
    ensures
        map_of(s).contains_key(s[i].0),
        map_of(s)[s[i].0] == s[i].1,
        key_index(s, s[i].0) == i,
{
    assert(has_key(s, s[i].0));
    let j = key_index(s, s[i].0);
    if j < i {
        assert(seq_lt(s[j].0, s[i].0));
        lemma_lt_irreflexive(s[i].0);
    } else if j > i {
        assert(seq_lt(s[i].0, s[j].0));
        lemma_lt_irreflexive(s[i].0);
    }
}

pub proof fn lemma_sorted_distinct<T>(s: Seq<(Seq<char>, T)>, a: int, b: int)
    requires
        keys_sorted(s),
        0 <= a < s.len(),
        0 <= b < s.len(),
        a != b,
    ensures
        s[a].0 != s[b].0,
{
    if a < b {
        assert(seq_lt(s[a].0, s[b].0));
    } else {
        assert(seq_lt(s[b].0, s[a].0));
    }
    lemma_lt_irreflexive(s[a].0);
}

/// Going from `a` to `b`, no key is lost and no value rises.
pub open spec fn only_lowers(a: Map<Seq<char>, i64>, b: Map<Seq<char>, i64>) -> bool {
    forall|k: Seq<char>| #[trigger] a.contains_key(k) ==> b.contains_key(k) && b[k] <= a[k]
}

/// The map of no entries is empty, and only it.
pub proof fn lemma_map_of_empty<T>(s: Seq<(Seq<char>, T)>)
    ensures
        (s.len() == 0) == (map_of(s) == Map::<Seq<char>, T>::empty()),
{
    if s.len() == 0 {
        assert(map_of(s) =~= Map::<Seq<char>, T>::empty());
    } else {
        assert(has_key(s, s[0].0));
        assert(map_of(s).contains_key(s[0].0));
        assert(!Map::<Seq<char>, T>::empty().contains_key(s[0].0));
    }
}

/// A key of `s` is the key at some index; values are read at that index.
pub proof fn lemma_map_of_sorted<T>(s: Seq<(Seq<char>, T)>)
    requires
        keys_sorted(s),
    ensures
        forall|i: int| #![trigger s[i]] 0 <= i < s.len() ==> map_of(s).contains_key(s[i].0)
            && map_of(s)[s[i].0] == s[i].1,
        forall|k: Seq<char>| #[trigger] map_of(s).contains_key(k) ==> exists|i: int|
            0 <= i < s.len() && s[i].0 == k,
{
    assert forall|i: int| #![trigger s[i]] 0 <= i < s.len() implies map_of(s).contains_key(s[i].0)
        && map_of(s)[s[i].0] == s[i].1 by {
        lemma_map_of_index(s, i);
    }
}

#[derive(Debug, PartialEq)]
pub struct KeyedMap<T> {
    entries: Vec<(String, T)>,
}

impl<T> View for KeyedMap<T> {
    type V = Seq<(Seq<char>, T)>;

    closed spec fn view(&self) -> Seq<(Seq<char>, T)> {
        self.entries@.map_values(|e: (String, T)| (e.0@, e.1))
    }
}

impl<T> KeyedMap<T> {
    #[verifier::type_invariant]
    spec fn sorted(self) -> bool {
        keys_sorted(self@)
    }

    /// The entries as a map from key to value.
    pub open spec fn to_map(&self) -> Map<Seq<char>, T> {
        map_of(self@)
    }

    pub fn new() -> (m: Self)
        ensures
            m@ == Seq::<(Seq<char>, T)>::empty(),
    {
        let m = KeyedMap { entries: Vec::new() };
        assert(m@ =~= Seq::<(Seq<char>, T)>::empty());
        m
    }

    pub fn len(&self) -> (n: usize)
        ensures
            n == self@.len(),
    {
        self.entries.len()
    }

    pub fn is_empty(&self) -> (b: bool)
        ensures
            b == (self@.len() == 0),
    {
        self.entries.len() == 0
    }

    /// The entries, in increasing key order.
    pub fn entries(&self) -> (r: &Vec<(String, T)>)
        ensures
            r@.len() == self@.len(),
            forall|i: int| 0 <= i < r@.len() ==> (#[trigger] r@[i]).0@ == self@[i].0 && r@[i].1
                == self@[i].1,
            keys_sorted(self@),
    {
        proof {
            use_type_invariant(self);
        }
        &self.entries
    }

    /// The position of the entry with key `k`.
    pub fn index_of(&self, k: &String) -> (r: Option<usize>)
        ensures
            r matches Some(i) ==> i < self@.len() && self@[i as int].0 == k@,
            r is None <==> !self.to_map().contains_key(k@),
            keys_sorted(self@),
    {
        proof {
            use_type_invariant(self);
        }
        let mut i: usize = 0;
        while i < self.entries.len()
            invariant
                0 <= i <= self.entries@.len(),
                self@.len() == self.entries@.len(),
                forall|j: int| 0 <= j < i ==> self@[j].0 != k@,
                forall|j: int| 0 <= j < self@.len() ==> (#[trigger] self@[j]).0 == self.entries@[j].0@,
                keys_sorted(self@),
            decreases self.entries.len() - i,
        {
            if self.entries[i].0 == *k {
                assert(self@[i as int].0 == k@);
                assert(has_key(self@, k@));
                return Some(i);
            }
            i = i + 1;
        }
        None
    }

    /// The value stored under `k`.
    pub fn get(&self, k: &String) -> (r: Option<&T>)
        ensures
            r matches Some(v) ==> self.to_map().contains_key(k@) && *v == self.to_map()[k@],
            r is None <==> !self.to_map().contains_key(k@),
    {
        match self.index_of(k) {
            Some(i) => {
                proof {
                    lemma_map_of_index(self@, i as int);
                }
                Some(&self.entries[i].1)
            },
            None => None,
        }
    }

    /// Removes the entry at position `i`.
    pub fn remove_at(&mut self, i: usize) -> (r: (String, T))
        requires
            i < old(self)@.len(),
        ensures
            r.0@ == old(self)@[i as int].0,
            r.1 == old(self)@[i as int].1,
            final(self)@ == old(self)@.remove(i as int),
            final(self).to_map() == old(self).to_map().remove(r.0@),
    {
        proof {
            use_type_invariant(&*self);
        }
        let ghost s = self@;
        let mut v: Vec<(String, T)> = Vec::new();
        std::mem::swap(&mut v, &mut self.entries);
        let r = v.remove(i);
        proof {
            let t = v@.map_values(|e: (String, T)| (e.0@, e.1));
            assert(t =~= s.remove(i as int));
            assert(keys_sorted(t)) by {
                assert forall|a: int, b: int| 0 <= a < b < t.len() implies seq_lt(#[trigger] t[a].0, #[trigger] t[b].0) by {
                    let a2 = if a < i { a } else { a + 1 };
                    let b2 = if b < i { b } else { b + 1 };
                    assert(t[a] == s[a2] && t[b] == s[b2]);
                }
            }
        }
        self.entries = v;
        proof {
            let t = self@;
            assert(t =~= s.remove(i as int));
            assert(keys_sorted(t)) by {
                assert forall|a: int, b: int| 0 <= a < b < t.len() implies seq_lt(#[trigger] t[a].0, #[trigger] t[b].0) by {
                    let a2 = if a < i { a } else { a + 1 };
                    let b2 = if b < i { b } else { b + 1 };
                    assert(t[a] == s[a2] && t[b] == s[b2]);
                }
            }
            lemma_map_of_sorted(s);
            lemma_map_of_sorted(t);
            assert forall|k: Seq<char>| #[trigger] map_of(t).contains_key(k) <==> map_of(s).remove(r.0@).contains_key(k) by {
                if map_of(t).contains_key(k) {
                    let j = choose|j: int| 0 <= j < t.len() && t[j].0 == k;
                    let j2 = if j < i { j } else { j + 1 };
                    assert(t[j] == s[j2]);
                    assert(s[j2].0 == k);
                    assert(has_key(s, k));
                    lemma_sorted_distinct(s, j2, i as int);
                }
                if map_of(s).remove(r.0@).contains_key(k) {
                    let j = choose|j: int| 0 <= j < s.len() && s[j].0 == k;
                    assert(j != i);
                    let j2 = if j < i { j } else { j - 1 };
                    assert(t[j2] == s[j]);
                    assert(t[j2].0 == k);
                    assert(has_key(t, k));
                }
            }
            assert forall|k: Seq<char>| #[trigger] map_of(t).contains_key(k) implies map_of(t)[k] == map_of(s).remove(r.0@)[k] by {
                let j = choose|j: int| 0 <= j < t.len() && t[j].0 == k;
                let j2 = if j < i { j } else { j + 1 };
                assert(t[j] == s[j2]);
                lemma_map_of_index(t, j);
                lemma_map_of_index(s, j2);
            }
            assert(map_of(t) =~= map_of(s).remove(r.0@));
        }
        r
    }

    /// Removes the entry with key `k`, if there is one.
    pub fn remove(&mut self, k: &String)
        ensures
            final(self).to_map() == old(self).to_map().remove(k@),
    {
        match self.index_of(k) {
            Some(i) => {
                let _ = self.remove_at(i);
            },
            None => {
                assert(self.to_map().remove(k@) =~= self.to_map());
            },
        }
    }

    /// Appends an entry whose key sorts after every key present.
    pub fn push_last(&mut self, k: String, v: T)
        requires
            old(self)@.len() == 0 || seq_lt(old(self)@.last().0, k@),
        ensures
            final(self)@ == old(self)@.push((k@, v)),
    {
        proof {
            use_type_invariant(&*self);
        }
        let ghost s = self@;
        let ghost kv = k@;
        let mut e: Vec<(String, T)> = Vec::new();
        std::mem::swap(&mut e, &mut self.entries);
        e.push((k, v));
        proof {
            let t = e@.map_values(|e: (String, T)| (e.0@, e.1));
            assert(t =~= s.push((kv, v)));
            assert forall|a: int, b: int| 0 <= a < b < t.len() implies seq_lt(#[trigger] t[a].0, #[trigger] t[b].0) by {
                if b == s.len() && a < s.len() - 1 {
                    lemma_lt_transitive(s[a].0, s.last().0, kv);
                }
            }
        }
        self.entries = e;
        proof {
            let t = self@;
            assert(t =~= s.push((kv, v)));
            assert forall|a: int, b: int| 0 <= a < b < t.len() implies seq_lt(#[trigger] t[a].0, #[trigger] t[b].0) by {
                if b == s.len() && a < s.len() - 1 {
                    lemma_lt_transitive(s[a].0, s.last().0, kv);
                }
            }
        }
    }

    /// Stores `v` under `k`, replacing any previous value.
    pub fn insert(&mut self, k: String, v: T)
        ensures
            final(self).to_map() == old(self).to_map().insert(k@, v),
    {
        proof {
            use_type_invariant(&*self);
        }
        let ghost s = self@;
        let ghost kv = k@;
        // first position whose key is not below `k`
        let mut p: usize = 0;
        while p < self.entries.len() && string_lt(&self.entries[p].0, &k)
            invariant
                self@ == s,
                kv == k@,
                0 <= p <= s.len(),
                forall|j: int| 0 <= j < p ==> seq_lt(#[trigger] s[j].0, kv),
                forall|j: int| 0 <= j < s.len() ==> (#[trigger] s[j]).0 == self.entries@[j].0@,
                s.len() == self.entries@.len(),
            decreases self.entries.len() - p,
        {
            p = p + 1;
        }
        proof {
            lemma_map_of_sorted(s);
        }
        if p < self.entries.len() && self.entries[p].0 == k {
            let mut e: Vec<(String, T)> = Vec::new();
            std::mem::swap(&mut e, &mut self.entries);
            e.set(p, (k, v));
            proof {
                let t = e@.map_values(|e: (String, T)| (e.0@, e.1));
                assert(t =~= s.update(p as int, (kv, v)));
                assert(keys_sorted(t)) by {
                    assert forall|a: int, b: int| 0 <= a < b < t.len() implies seq_lt(#[trigger] t[a].0, #[trigger] t[b].0) by {
                        assert(t[a].0 == s[a].0 && t[b].0 == s[b].0);
                    }
                }
                lemma_map_of_sorted(t);
                assert forall|key: Seq<char>| #[trigger] map_of(t).contains_key(key) <==> map_of(s).insert(kv, v).contains_key(key) by {
                    if map_of(t).contains_key(key) {
                        let j = choose|j: int| 0 <= j < t.len() && t[j].0 == key;
                        assert(s[j].0 == key);
                        assert(has_key(s, key));
                    }
                    if map_of(s).contains_key(key) {
                        let j = choose|j: int| 0 <= j < s.len() && s[j].0 == key;
                        assert(t[j].0 == key);
                        assert(has_key(t, key));
                    }
                    if key == kv {
                        assert(t[p as int].0 == key);
                        assert(has_key(t, key));
                    }
                }
                assert forall|key: Seq<char>| #[trigger] map_of(t).contains_key(key) implies map_of(t)[key] == map_of(s).insert(kv, v)[key] by {
                    let j = choose|j: int| 0 <= j < t.len() && t[j].0 == key;
                    lemma_map_of_index(t, j);
                    if j != p {
                        lemma_map_of_index(s, j);
                        lemma_sorted_distinct(s, j, p as int);
                    }
                }
                assert(map_of(t) =~= map_of(s).insert(kv, v));
            }
            self.entries = e;
            assert(self@ =~= e@.map_values(|e: (String, T)| (e.0@, e.1)));
        } else {
            let mut e: Vec<(String, T)> = Vec::new();
            std::mem::swap(&mut e, &mut self.entries);
            e.insert(p, (k, v));
            proof {
                let t = e@.map_values(|e: (String, T)| (e.0@, e.1));
                assert(t =~= s.insert(p as int, (kv, v)));
                // every key from position p on sorts after `k`
                assert forall|j: int| p <= j < s.len() implies seq_lt(kv, #[trigger] s[j].0) by {
                    lemma_lt_total(s[p as int].0, kv);
                    if p < j {
                        lemma_lt_transitive(kv, s[p as int].0, s[j].0);
                    }
                }
                assert(keys_sorted(t)) by {
                    assert forall|a: int, b: int| 0 <= a < b < t.len() implies seq_lt(#[trigger] t[a].0, #[trigger] t[b].0) by {
                        if b < p {
                            assert(t[a] == s[a] && t[b] == s[b]);
                        } else if a < p && b == p {
                        } else if a < p && b > p {
                            assert(t[b] == s[b - 1]);
                        } else if a == p {
                            assert(t[b] == s[b - 1]);
                        } else {
                            assert(t[a] == s[a - 1] && t[b] == s[b - 1]);
                        }
                    }
                }
                lemma_map_of_sorted(t);
                assert forall|key: Seq<char>| #[trigger] map_of(t).contains_key(key) <==> map_of(s).insert(kv, v).contains_key(key) by {
                    if map_of(t).contains_key(key) {
                        let j = choose|j: int| 0 <= j < t.len() && t[j].0 == key;
                        if j < p {
                            assert(s[j].0 == key);
                        } else if j > p {
                            assert(s[j - 1].0 == key);
                        }
                    }
                    if map_of(s).contains_key(key) {
                        let j = choose|j: int| 0 <= j < s.len() && s[j].0 == key;
                        if j < p {
                            assert(t[j].0 == key);
                        } else {
                            assert(t[j + 1].0 == key);
                        }
                    }
                    if key == kv {
                        assert(t[p as int].0 == key);
                    }
                }
                assert forall|key: Seq<char>| #[trigger] map_of(t).contains_key(key) implies map_of(t)[key] == map_of(s).insert(kv, v)[key] by {
                    let j = choose|j: int| 0 <= j < t.len() && t[j].0 == key;
                    lemma_map_of_index(t, j);
                    if j < p {
                        lemma_map_of_index(s, j);
                        assert(seq_lt(s[j].0, kv));
                        if key == kv {
                            lemma_lt_irreflexive(kv);
                        }
                    } else if j > p {
                        lemma_map_of_index(s, j - 1);
                        assert(seq_lt(kv, s[j - 1].0));
                        if key == kv {
                            lemma_lt_irreflexive(kv);
                        }
                    }
                }
                assert(map_of(t) =~= map_of(s).insert(kv, v));
            }
            self.entries = e;
            assert(self@ =~= e@.map_values(|e: (String, T)| (e.0@, e.1)));
        }
    }
}

impl<T: Copy> Clone for KeyedMap<T> {
    fn clone(&self) -> (r: Self)
        ensures
            r@ == self@,
    {
        proof {
            use_type_invariant(self);
        }
        let mut e: Vec<(String, T)> = Vec::new();
        let mut i: usize = 0;
        while i < self.entries.len()
            invariant
                0 <= i <= self.entries@.len(),
                e@.len() == i,
                forall|j: int| 0 <= j < i ==> (#[trigger] e@[j]).0@ == self.entries@[j].0@ && e@[j].1
                    == self.entries@[j].1,
            decreases self.entries.len() - i,
        {
            let k = self.entries[i].0.clone();
            let v = self.entries[i].1;
            e.push((k, v));
            i = i + 1;
        }
        assert(e@.map_values(|e: (String, T)| (e.0@, e.1)) =~= self@);
        let r = KeyedMap { entries: e };
        r
    }
}

} // verus!

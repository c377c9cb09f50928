//! A map from names to values that remembers insertion order.
//!
//! Configuration objects (interfaces, zones, applications, address-book
//! entries) are looked up by name. Lookups find the entry with that name;
//! inserting under an existing name replaces its value in place, so every
//! name occurs at most once and iteration follows first insertion.

use vstd::prelude::*;

use crate::text::str_eq;

verus! {

/// Whether `i` is the first position whose name is `k`.
pub open spec fn is_first_key<T>(m: Seq<(Seq<char>, T)>, k: Seq<char>, i: int) -> bool {
    &&& 0 <= i < m.len()
    &&& m[i].0 == k
    &&& forall|j: int| 0 <= j < i ==> m[j].0 != k
}

/// Position of the entry named `k`, or `-1`.
pub open spec fn key_pos<T>(m: Seq<(Seq<char>, T)>, k: Seq<char>) -> int {
    if exists|i: int| is_first_key(m, k, i) {
        choose|i: int| is_first_key(m, k, i)
    } else {
        -1
    }
}

/// The value stored under `k`.
pub open spec fn map_lookup<T>(m: Seq<(Seq<char>, T)>, k: Seq<char>) -> Option<T> {
    let p = key_pos(m, k);
    if p >= 0 {
        Some(m[p].1)
    } else {
        None
    }
}

/// `m` with `v` stored under `k`: replaces the value of an existing entry in
/// place, or appends a new entry.
pub open spec fn map_insert<T>(m: Seq<(Seq<char>, T)>, k: Seq<char>, v: T) -> Seq<(Seq<char>, T)> {
    let p = key_pos(m, k);
    if p >= 0 {
        m.update(p, (k, v))
    } else {
        m.push((k, v))
    }
}

/// Whether no two entries share a name.
pub open spec fn keys_distinct<T>(m: Seq<(Seq<char>, T)>) -> bool {
    forall|i: int, j: int| 0 <= i < m.len() && 0 <= j < m.len() && i != j ==> m[i].0 != m[j].0
}

pub proof fn lemma_key_pos<T>(m: Seq<(Seq<char>, T)>, k: Seq<char>) -> (p: int)
    ensures
        p == key_pos(m, k),
        p == -1 || is_first_key(m, k, p),
        p == -1 <==> forall|j: int| 0 <= j < m.len() ==> m[j].0 != k,
{
    if exists|i: int| is_first_key(m, k, i) {
        choose|i: int| is_first_key(m, k, i)
    } else {
        assert forall|j: int| 0 <= j < m.len() implies m[j].0 != k by {
            if m[j].0 == k {
                assert(exists|i: int| is_first_key(m, k, i)) by {
                    lemma_first_exists(m, k, j);
                }
            }
        }
        -1
    }
}

proof fn lemma_first_exists<T>(m: Seq<(Seq<char>, T)>, k: Seq<char>, j: int)
    requires
        0 <= j < m.len(),
        m[j].0 == k,
    ensures
        exists|i: int| is_first_key(m, k, i),
    decreases j,
{
    if forall|i: int| 0 <= i < j ==> m[i].0 != k {
        assert(is_first_key(m, k, j));
    } else {
        let i = choose|i: int| 0 <= i < j && m[i].0 == k;
        lemma_first_exists(m, k, i);
    }
}

/// Inserting keeps names distinct.
pub proof fn lemma_insert_keeps_keys_distinct<T>(m: Seq<(Seq<char>, T)>, k: Seq<char>, v: T)
    requires
        keys_distinct(m),
    ensures
        keys_distinct(map_insert(m, k, v)),
{
    let p = lemma_key_pos(m, k);
}

/// A read after a write under the same name gives back what was written.
pub proof fn lemma_lookup_after_insert<T>(m: Seq<(Seq<char>, T)>, k: Seq<char>, v: T, k2: Seq<char>)
    ensures
        map_lookup(map_insert(m, k, v), k2) == if k2 == k { Some(v) } else { map_lookup(m, k2) },
{
    let p = lemma_key_pos(m, k);
    let m2 = map_insert(m, k, v);
    let q = lemma_key_pos(m, k2);
    let q2 = lemma_key_pos(m2, k2);
    if k2 == k {
        if p >= 0 {
            assert(is_first_key(m2, k, p));
        } else {
            assert(is_first_key(m2, k, m.len() as int));
        }
    } else {
        if q >= 0 {
            assert(is_first_key(m2, k2, q));
        } else {
            assert forall|j: int| 0 <= j < m2.len() implies m2[j].0 != k2 by {
                if j < m.len() && j != p {
                    assert(m2[j] == m[j]);
                }
            }
        }
    }
}

/// A map from names to values, kept in insertion order. No two entries share
/// a name.
#[derive(Debug)]
pub struct NameMap<V> {
    entries: Vec<(String, V)>,
}

impl<V> NameMap<V> {
    /// No two entries share a name.
    #[verifier::type_invariant]
    pub closed spec fn names_distinct(self) -> bool {
        forall|i: int, j: int|
            0 <= i < self.entries@.len() && 0 <= j < self.entries@.len() && i != j
                ==> self.entries@[i].0@ != self.entries@[j].0@
    }
}

impl<V: View> View for NameMap<V> {
    type V = Seq<(Seq<char>, V::V)>;

    closed spec fn view(&self) -> Seq<(Seq<char>, V::V)> {
        self.entries@.map_values(|e: (String, V)| (e.0@, e.1@))
    }
}

impl<V: View> NameMap<V> {
    /// An empty map.
    pub fn new() -> (m: Self)
        ensures
            m@ == Seq::<(Seq<char>, V::V)>::empty(),
            keys_distinct(m@),
    {
        let m = NameMap { entries: Vec::new() };
        assert(m@ =~= Seq::<(Seq<char>, V::V)>::empty());
        m
    }

    /// Number of entries.
    pub fn len(&self) -> (n: usize)
        ensures
            n == self@.len(),
    {
        self.entries.len()
    }

    /// Whether the map has no entries.
    pub fn is_empty(&self) -> (b: bool)
        ensures
            b == (self@.len() == 0),
    {
        self.entries.len() == 0
    }

    /// The name of entry `i`, in insertion order.
    pub fn key_at(&self, i: usize) -> (k: &String)
        requires
            i < self@.len(),
        ensures
            k@ == self@[i as int].0,
    {
        &self.entries[i].0
    }

    /// The value of entry `i`, in insertion order.
    pub fn value_at(&self, i: usize) -> (v: &V)
        requires
            i < self@.len(),
        ensures
            v@ == self@[i as int].1,
    {
        &self.entries[i].1
    }

    fn position(&self, k: &str) -> (r: Option<usize>)
        ensures
            match r {
                Some(p) => key_pos(self@, k@) == p as int && p < self@.len(),
                None => key_pos(self@, k@) == -1,
            },
    {
        let ghost m = self@;
        let mut i: usize = 0;
        while i < self.entries.len()
            invariant
                i <= self.entries@.len(),
                m == self@,
                m.len() == self.entries@.len(),
                forall|j: int| 0 <= j < i ==> m[j].0 != k@,
            decreases self.entries@.len() - i,
        {
            if str_eq(self.entries[i].0.as_str(), k) {
                proof {
                    let p = lemma_key_pos(m, k@);
                    assert(is_first_key(m, k@, i as int));
                    assert(p == i) by {
                        if p < i {
                            assert(m[p].0 != k@);
                        }
                        if p > i || p == -1 {
                            assert(m[i as int].0 == k@);
                        }
                    }
                }
                return Some(i);
            }
            i = i + 1;
        }
        proof {
            lemma_key_pos(m, k@);
        }
        None
    }

    /// Whether an entry is named `k`.
    pub fn contains_key(&self, k: &str) -> (b: bool)
        ensures
            b == (map_lookup(self@, k@) is Some),
    {
        self.position(k).is_some()
    }

    /// The value named `k`.
    pub fn get(&self, k: &str) -> (r: Option<&V>)
        ensures
            match r {
                Some(v) => map_lookup(self@, k@) == Some(v@),
                None => map_lookup(self@, k@) is None,
            },
    {
        match self.position(k) {
            Some(p) => Some(&self.entries[p].1),
            None => None,
        }
    }

    /// Stores `v` under `k`, replacing the value of an existing entry.
    pub fn insert(&mut self, k: String, v: V)
        ensures
            final(self)@ == map_insert(old(self)@, k@, v@),
            keys_distinct(final(self)@),
    {
        proof {
            use_type_invariant(&*self);
        }
        let ghost kv = k@;
        let ghost vv = v@;
        let ghost m0 = self@;
        let pos = self.position(k.as_str());
        let mut entries = Vec::new();
        std::mem::swap(&mut entries, &mut self.entries);
        match pos {
            Some(p) => {
                entries.set(p, (k, v));
            },
            None => {
                entries.push((k, v));
            },
        }
        proof {
            let m1 = entries@.map_values(|e: (String, V)| (e.0@, e.1@));
            assert(m1 =~= map_insert(m0, kv, vv));
            lemma_insert_keeps_keys_distinct(m0, kv, vv);
            assert forall|i: int, j: int|
                0 <= i < entries@.len() && 0 <= j < entries@.len() && i != j
                    implies entries@[i].0@ != entries@[j].0@ by {
                assert(m1[i].0 == entries@[i].0@);
                assert(m1[j].0 == entries@[j].0@);
            }
        }
        self.entries = entries;
        assert(self@ =~= map_insert(m0, kv, vv));
    }
}

/// The invariant of a name map, read through its view: no two entries share a
/// name. (A caller obtains the invariant with `use_type_invariant` on a map it
/// holds.)
pub proof fn lemma_names_distinct<V: View>(m: NameMap<V>)
    requires
        m.names_distinct(),
    ensures
        keys_distinct(m@),
{
    assert forall|i: int, j: int| 0 <= i < m@.len() && 0 <= j < m@.len() && i != j implies m@[i].0 != m@[j].0 by {
        assert(m@[i].0 == m.entries@[i].0@);
        assert(m@[j].0 == m.entries@[j].0@);
    }
}

impl<V: Clone + View> Clone for NameMap<V> {
    /// A copy with the same names in the same order; each value is cloned.
    fn clone(&self) -> (r: Self)
        ensures
            r@.len() == self@.len(),
            forall|i: int| 0 <= i < self@.len() ==> #[trigger] r@[i].0 == self@[i].0,
    {
        proof {
            use_type_invariant(self);
        }
        let mut entries: Vec<(String, V)> = Vec::new();
        let mut i: usize = 0;
        while i < self.entries.len()
            invariant
                i <= self.entries@.len(),
                entries@.len() == i,
                forall|j: int| 0 <= j < i ==> #[trigger] entries@[j].0@ == self.entries@[j].0@,
                forall|a: int, b: int|
                    0 <= a < self.entries@.len() && 0 <= b < self.entries@.len() && a != b
                        ==> self.entries@[a].0@ != self.entries@[b].0@,
            decreases self.entries@.len() - i,
        {
            let k = self.entries[i].0.clone();
            let v = self.entries[i].1.clone();
            entries.push((k, v));
            i = i + 1;
        }
        let r = NameMap { entries };
        assert(r@.len() == self@.len());
        r
    }
}

impl<V: View> Default for NameMap<V> {
    fn default() -> (m: Self)
        ensures
            m@ == Seq::<(Seq<char>, V::V)>::empty(),
            keys_distinct(m@),
    {
        NameMap::new()
    }
}

} // verus!

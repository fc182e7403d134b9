//! A map kept as a vector of entries in increasing key order: the shape of
//! the contract's maps, whose iteration visits keys in order.

use vstd::prelude::*;
use crate::order::{Cmp, Ordered};

verus! {

/// The keys of `s` increase strictly.
pub open spec fn keys_increase<K: Ordered, W>(s: Seq<(K, W)>) -> bool {
    forall|i: int, j: int| 0 <= i < j < s.len() ==> (#[trigger] s[i]).0.precedes((#[trigger] s[j]).0)
}

pub open spec fn has_key<K, W>(s: Seq<(K, W)>, k: K) -> bool {
    exists|i: int| 0 <= i < s.len() && (#[trigger] s[i]).0 == k
}

pub open spec fn key_index<K, W>(s: Seq<(K, W)>, k: K) -> int {
    choose|i: int| 0 <= i < s.len() && (#[trigger] s[i]).0 == k
}

/// The map that a list of entries stands for.
pub open spec fn map_of<K, W>(s: Seq<(K, W)>) -> Map<K, W> {
    Map::new(|k: K| has_key(s, k), |k: K| s[key_index(s, k)].1)
}

/// In a list with increasing keys, each entry's key finds that entry.
pub proof fn lemma_entry<K: Ordered, W>(s: Seq<(K, W)>, i: int)
    requires
        keys_increase(s),
        0 <= i < s.len(),
    ensures
        has_key(s, s[i].0),
        key_index(s, s[i].0) == i,
        map_of(s).contains_key(s[i].0),
        map_of(s)[s[i].0] == s[i].1,
{
    let k = s[i].0;
    assert(has_key(s, k));
    let j = key_index(s, k);
    if j != i {
        K::lemma_irreflexive(k);
    }
}

/// The map of a list with increasing keys holds exactly its entries.
pub proof fn lemma_entries<K: Ordered, W>(s: Seq<(K, W)>)
    requires
        keys_increase(s),
    ensures
        forall|i: int|
            0 <= i < s.len() ==> #[trigger] map_of(s).contains_key(s[i].0) && map_of(s)[s[i].0]
                == s[i].1,
        forall|k: K| #[trigger]
            map_of(s).contains_key(k) ==> exists|i: int| 0 <= i < s.len() && (#[trigger] s[i]).0 == k,
{
    assert forall|i: int| 0 <= i < s.len() implies #[trigger] map_of(s).contains_key(s[i].0)
        && map_of(s)[s[i].0] == s[i].1 by {
        lemma_entry(s, i);
    }
}

/// `p` is where `k` belongs among the keys of `s`.
pub open spec fn is_place<K: Ordered, W>(s: Seq<(K, W)>, k: K, p: int) -> bool {
    &&& 0 <= p <= s.len()
    &&& forall|j: int| 0 <= j < p ==> (#[trigger] s[j]).0.precedes(k)
    &&& forall|j: int| p <= j < s.len() ==> k.precedes((#[trigger] s[j]).0)
}

/// The entries after setting `k` to `w`: in place, or inserted at its place.
pub open spec fn entries_set<K: Ordered, W>(s: Seq<(K, W)>, k: K, w: W) -> Seq<(K, W)> {
    if has_key(s, k) {
        s.update(key_index(s, k), (k, w))
    } else {
        s.insert(choose|p: int| is_place(s, k, p), (k, w))
    }
}

/// The entries after removing `k`.
pub open spec fn entries_remove<K, W>(s: Seq<(K, W)>, k: K) -> Seq<(K, W)> {
    if has_key(s, k) {
        s.remove(key_index(s, k))
    } else {
        s
    }
}

/// A key has one place.
pub proof fn lemma_place_unique<K: Ordered, W>(s: Seq<(K, W)>, k: K, p: int, q: int)
    requires
        is_place(s, k, p),
        is_place(s, k, q),
    ensures
        p == q,
{
    if p < q {
        K::lemma_irreflexive(k);
        K::lemma_transitive(k, s[p].0, k);
    } else if q < p {
        K::lemma_irreflexive(k);
        K::lemma_transitive(k, s[q].0, k);
    }
}

pub proof fn lemma_place_from<K: Ordered, W>(s: Seq<(K, W)>, k: K, i: int)
    requires
        keys_increase(s),
        !has_key(s, k),
        0 <= i <= s.len(),
        forall|j: int| 0 <= j < i ==> (#[trigger] s[j]).0.precedes(k),
    ensures
        exists|p: int| is_place(s, k, p),
    decreases s.len() - i,
{
    if i == s.len() {
        assert(is_place(s, k, i));
    } else if s[i].0.precedes(k) {
        lemma_place_from(s, k, i + 1);
    } else {
        K::lemma_total(s[i].0, k);
        assert(s[i].0 != k);
        assert forall|j: int| i <= j < s.len() implies k.precedes((#[trigger] s[j]).0) by {
            if i < j {
                K::lemma_transitive(k, s[i].0, s[j].0);
            }
        }
        assert(is_place(s, k, i));
    }
}

/// A key that is absent has a place.
pub proof fn lemma_place_exists<K: Ordered, W>(s: Seq<(K, W)>, k: K)
    requires
        keys_increase(s),
        !has_key(s, k),
    ensures
        exists|p: int| is_place(s, k, p),
{
    lemma_place_from(s, k, 0);
}

/// Setting a key keeps the keys increasing, and sets it in the map.
pub proof fn lemma_entries_set<K: Ordered, W>(s: Seq<(K, W)>, k: K, w: W)
    requires
        keys_increase(s),
    ensures
        keys_increase(entries_set(s, k, w)),
        map_of(entries_set(s, k, w)) == map_of(s).insert(k, w),
{
    let t = entries_set(s, k, w);
    lemma_entries(s);
    if has_key(s, k) {
        let i = key_index(s, k);
        assert(t =~= s.update(i, (k, w)));
        lemma_entries(t);
        assert forall|k2: K| #[trigger] map_of(t).contains_key(k2) == map_of(s).insert(k, w).contains_key(k2) by {
            if map_of(s).contains_key(k2) {
                let j = choose|j: int| 0 <= j < s.len() && (#[trigger] s[j]).0 == k2;
                assert(t[j].0 == k2);
            }
            if map_of(t).contains_key(k2) {
                let j = choose|j: int| 0 <= j < t.len() && (#[trigger] t[j]).0 == k2;
                if j != i {
                    assert(s[j].0 == k2);
                }
            }
        }
        assert forall|k2: K| #[trigger] map_of(t).contains_key(k2) implies map_of(t)[k2] == map_of(
            s,
        ).insert(k, w)[k2] by {
            let j = choose|j: int| 0 <= j < t.len() && (#[trigger] t[j]).0 == k2;
            lemma_entry(t, j);
            lemma_entry(t, i);
            if j != i {
                lemma_entry(s, j);
            }
        }
        assert(map_of(t) =~= map_of(s).insert(k, w));
    } else {
        lemma_place_exists(s, k);
        let i = choose|p: int| is_place(s, k, p);
        assert(t =~= s.insert(i, (k, w)));
        assert forall|a: int, b: int| 0 <= a < b < t.len() implies (#[trigger] t[a]).0.precedes(
            (#[trigger] t[b]).0,
        ) by {
            if a < i && b == i {
            } else if a == i {
            } else if a < i && b > i {
                assert(t[b] == s[b - 1]);
            } else if a > i {
                assert(t[a] == s[a - 1] && t[b] == s[b - 1]);
            }
        }
        lemma_entries(t);
        assert forall|k2: K| #[trigger] map_of(t).contains_key(k2) == map_of(s).insert(k, w).contains_key(k2) by {
            if map_of(s).contains_key(k2) {
                let j = choose|j: int| 0 <= j < s.len() && (#[trigger] s[j]).0 == k2;
                if j < i {
                    assert(t[j].0 == k2);
                } else {
                    assert(t[j + 1].0 == k2);
                }
            }
            if k2 == k {
                assert(t[i].0 == k2);
            }
            if map_of(t).contains_key(k2) && k2 != k {
                let j = choose|j: int| 0 <= j < t.len() && (#[trigger] t[j]).0 == k2;
                if j < i {
                    assert(s[j].0 == k2);
                } else {
                    assert(s[j - 1].0 == k2);
                }
            }
        }
        assert forall|k2: K| #[trigger] map_of(t).contains_key(k2) implies map_of(t)[k2] == map_of(
            s,
        ).insert(k, w)[k2] by {
            let j = choose|j: int| 0 <= j < t.len() && (#[trigger] t[j]).0 == k2;
            lemma_entry(t, j);
            lemma_entry(t, i);
            if j < i {
                lemma_entry(s, j);
            } else if j > i {
                lemma_entry(s, j - 1);
            }
        }
        assert(map_of(t) =~= map_of(s).insert(k, w));
    }
}

/// Removing a key keeps the keys increasing, and removes it from the map.
pub proof fn lemma_entries_remove<K: Ordered, W>(s: Seq<(K, W)>, k: K)
    requires
        keys_increase(s),
    ensures
        keys_increase(entries_remove(s, k)),
        map_of(entries_remove(s, k)) == map_of(s).remove(k),
{
    let t = entries_remove(s, k);
    lemma_entries(s);
    if has_key(s, k) {
        let i = key_index(s, k);
        assert(t =~= s.remove(i));
        assert forall|a: int, b: int| 0 <= a < b < t.len() implies (#[trigger] t[a]).0.precedes(
            (#[trigger] t[b]).0,
        ) by {
            if b < i {
            } else if a < i {
                assert(t[b] == s[b + 1]);
            } else {
                assert(t[a] == s[a + 1] && t[b] == s[b + 1]);
            }
        }
        lemma_entries(t);
        assert forall|k2: K| #[trigger] map_of(t).contains_key(k2) == map_of(s).remove(k).contains_key(k2) by {
            if map_of(s).contains_key(k2) && k2 != k {
                let j = choose|j: int| 0 <= j < s.len() && (#[trigger] s[j]).0 == k2;
                if j < i {
                    assert(t[j].0 == k2);
                } else {
                    assert(t[j - 1].0 == k2);
                }
            }
            if map_of(t).contains_key(k2) {
                let j = choose|j: int| 0 <= j < t.len() && (#[trigger] t[j]).0 == k2;
                lemma_entry(s, i);
                if j < i {
                    lemma_entry(s, j);
                    assert(t[j] == s[j]);
                } else {
                    lemma_entry(s, j + 1);
                    assert(t[j] == s[j + 1]);
                }
            }
        }
        assert forall|k2: K| #[trigger] map_of(t).contains_key(k2) implies map_of(t)[k2] == map_of(
            s,
        ).remove(k)[k2] by {
            let j = choose|j: int| 0 <= j < t.len() && (#[trigger] t[j]).0 == k2;
            lemma_entry(t, j);
            if j < i {
                lemma_entry(s, j);
                assert(t[j] == s[j]);
            } else {
                lemma_entry(s, j + 1);
                assert(t[j] == s[j + 1]);
            }
        }
        assert(map_of(t) =~= map_of(s).remove(k));
    } else {
        if map_of(s).contains_key(k) {
            let j = choose|j: int| 0 <= j < s.len() && (#[trigger] s[j]).0 == k;
        }
        assert(map_of(s) =~= map_of(s).remove(k));
    }
}

/// Values that can be copied into an equal value.
pub trait Duplicate: View + Sized {
    fn duplicate(&self) -> (r: Self)
        ensures
            r@ == self@,
    ;
}

impl Duplicate for u32 {
    fn duplicate(&self) -> (r: Self) {
        *self
    }
}

impl<T: Copy> Duplicate for Vec<T> {
    fn duplicate(&self) -> (r: Self) {
        let mut r: Vec<T> = Vec::new();
        let mut i: usize = 0;
        while i < self.len()
            invariant
                0 <= i <= self@.len(),
                r@ == self@.subrange(0, i as int),
            decreases self@.len() - i,
        {
            r.push(self[i]);
            i = i + 1;
        }
        assert(r@ =~= self@);
        r
    }
}

pub struct SortedMap<K, V> {
    entries: Vec<(K, V)>,
}

impl<K: Ordered, V: View> View for SortedMap<K, V> {
    type V = Seq<(K, V::V)>;

    /// The entries, in increasing key order, with each value by its view.
    closed spec fn view(&self) -> Seq<(K, V::V)> {
        self.entries@.map_values(|p: (K, V)| (p.0, p.1@))
    }
}

impl<K: Ordered, V: View> SortedMap<K, V> {
    pub open spec fn entries(&self) -> Seq<(K, V::V)> {
        self@
    }

    /// The map the entries stand for.
    pub open spec fn map(&self) -> Map<K, V::V> {
        map_of(self@)
    }

    pub open spec fn wf(&self) -> bool {
        keys_increase(self@)
    }

    pub fn new() -> (m: Self)
        ensures
            m.wf(),
            m.entries() == Seq::<(K, V::V)>::empty(),
            m.map() == Map::<K, V::V>::empty(),
    {
        let m = SortedMap { entries: Vec::new() };
        assert(m.entries() =~= Seq::<(K, V::V)>::empty());
        assert(m.map() =~= Map::<K, V::V>::empty());
        m
    }

    pub fn len(&self) -> (n: usize)
        ensures
            n == self.entries().len(),
    {
        self.entries.len()
    }

    pub fn is_empty(&self) -> (b: bool)
        ensures
            b == (self.entries().len() == 0),
    {
        self.entries.len() == 0
    }

    pub fn key_at(&self, i: usize) -> (k: K)
        requires
            i < self.entries().len(),
        ensures
            k == self.entries()[i as int].0,
    {
        self.entries[i].0
    }

    pub fn value_at(&self, i: usize) -> (v: &V)
        requires
            i < self.entries().len(),
        ensures
            v@ == self.entries()[i as int].1,
    {
        &self.entries[i].1
    }

    /// The position of `k`, or where it would be inserted.
    fn find(&self, k: &K) -> (r: Result<usize, usize>)
        requires
            self.wf(),
        ensures
            match r {
                Ok(i) => i < self.entries().len() && self.entries()[i as int].0 == *k,
                Err(i) => i <= self.entries().len() && (forall|j: int|
                    0 <= j < i ==> (#[trigger] self.entries()[j]).0.precedes(*k)) && (forall|j: int|
                    i <= j < self.entries().len() ==> k.precedes((#[trigger] self.entries()[j]).0)),
            },
    {
        let mut i: usize = 0;
        while i < self.entries.len()
            invariant
                self.wf(),
                0 <= i <= self.entries().len(),
                forall|j: int| 0 <= j < i ==> (#[trigger] self.entries()[j]).0.precedes(*k),
            decreases self.entries().len() - i,
        {
            match self.entries[i].0.compare(k) {
                Cmp::Less => {},
                Cmp::Equal => {
                    return Ok(i);
                },
                Cmp::Greater => {
                    proof {
                        assert forall|j: int| i <= j < self.entries().len() implies k.precedes(
                            (#[trigger] self.entries()[j]).0,
                        ) by {
                            if i < j {
                                K::lemma_transitive(
                                    *k,
                                    self.entries()[i as int].0,
                                    self.entries()[j].0,
                                );
                            }
                        }
                    }
                    return Err(i);
                },
            }
            i = i + 1;
        }
        Err(i)
    }

    pub fn get(&self, k: &K) -> (r: Option<&V>)
        requires
            self.wf(),
        ensures
            r is Some == self.map().contains_key(*k),
            r is Some ==> r->0@ == self.map()[*k],
    {
        proof {
            lemma_entries(self.entries());
        }
        match self.find(k) {
            Ok(i) => {
                proof {
                    lemma_entry(self.entries(), i as int);
                }
                Some(&self.entries[i].1)
            },
            Err(i) => {
                proof {
                    if self.map().contains_key(*k) {
                        let j = choose|j: int|
                            0 <= j < self.entries().len() && (#[trigger] self.entries()[j]).0 == *k;
                        K::lemma_irreflexive(*k);
                    }
                }
                None
            },
        }
    }

    pub fn contains_key(&self, k: &K) -> (b: bool)
        requires
            self.wf(),
        ensures
            b == self.map().contains_key(*k),
    {
        self.get(k).is_some()
    }

    /// Sets the value of `k`, in place if `k` is present, else at its place in order.
    pub fn set(&mut self, k: K, v: V)
        requires
            old(self).wf(),
        ensures
            final(self).wf(),
            final(self)@ == entries_set(old(self)@, k, v@),
            final(self).map() == old(self).map().insert(k, v@),
    {
        let ghost s = self.entries();
        let ghost vv = v@;
        proof {
            lemma_entries(s);
        }
        match self.find(&k) {
            Ok(i) => {
                self.entries.set(i, (k, v));
                proof {
                    let t = self.entries();
                    assert(t =~= s.update(i as int, (k, vv)));
                    lemma_entry(s, i as int);
                    lemma_entries(t);
                    assert forall|k2: K| #[trigger]
                        map_of(t).contains_key(k2) == map_of(s).insert(k, vv).contains_key(k2) by {
                        if map_of(s).contains_key(k2) {
                            let j = choose|j: int| 0 <= j < s.len() && (#[trigger] s[j]).0 == k2;
                            assert(t[j].0 == k2);
                        }
                    }
                    assert forall|k2: K| #[trigger] map_of(t).contains_key(k2) implies map_of(t)[k2]
                        == map_of(s).insert(k, vv)[k2] by {
                        let j = choose|j: int| 0 <= j < t.len() && (#[trigger] t[j]).0 == k2;
                        lemma_entry(t, j);
                        lemma_entry(t, i as int);
                        if j != i {
                            lemma_entry(s, j);
                        }
                    }
                    assert(map_of(t) =~= map_of(s).insert(k, vv));
                }
            },
            Err(i) => {
                self.entries.insert(i, (k, v));
                proof {
                    let t = self.entries();
                    assert(t =~= s.insert(i as int, (k, vv)));
                    assert(is_place(s, k, i as int));
                    if has_key(s, k) {
                        let j = choose|j: int| 0 <= j < s.len() && (#[trigger] s[j]).0 == k;
                        K::lemma_irreflexive(k);
                    }
                    let p = choose|p: int| is_place(s, k, p);
                    lemma_place_unique(s, k, p, i as int);
                    assert forall|a: int, b: int| 0 <= a < b < t.len() implies (#[trigger] t[a]).0.precedes(
                        (#[trigger] t[b]).0,
                    ) by {
                        if a < i && b == i {
                        } else if a == i {
                        } else if a < i && b > i {
                            assert(t[b] == s[b - 1]);
                        } else if a > i {
                            assert(t[a] == s[a - 1] && t[b] == s[b - 1]);
                        }
                    }
                    lemma_entries(t);
                    assert forall|k2: K| #[trigger]
                        map_of(t).contains_key(k2) == map_of(s).insert(k, vv).contains_key(k2) by {
                        if map_of(s).contains_key(k2) {
                            let j = choose|j: int| 0 <= j < s.len() && (#[trigger] s[j]).0 == k2;
                            if j < i {
                                assert(t[j].0 == k2);
                            } else {
                                assert(t[j + 1].0 == k2);
                            }
                        }
                        if k2 == k {
                            assert(t[i as int].0 == k2);
                        }
                    }
                    assert forall|k2: K| #[trigger] map_of(t).contains_key(k2) implies map_of(t)[k2]
                        == map_of(s).insert(k, vv)[k2] by {
                        let j = choose|j: int| 0 <= j < t.len() && (#[trigger] t[j]).0 == k2;
                        lemma_entry(t, j);
                        lemma_entry(t, i as int);
                        if j < i {
                            lemma_entry(s, j);
                        } else if j > i {
                            lemma_entry(s, j - 1);
                        }
                    }
                    assert(map_of(t) =~= map_of(s).insert(k, vv));
                }
            },
        }
    }

    /// Removes `k`, giving back its value if it was present.
    pub fn remove(&mut self, k: &K) -> (r: Option<V>)
        requires
            old(self).wf(),
        ensures
            final(self).wf(),
            final(self)@ == entries_remove(old(self)@, *k),
            final(self).map() == old(self).map().remove(*k),
            r is Some == old(self).map().contains_key(*k),
            r is Some ==> r->0@ == old(self).map()[*k],
    {
        let ghost s = self.entries();
        proof {
            lemma_entries(s);
        }
        match self.find(k) {
            Ok(i) => {
                proof {
                    lemma_entry(s, i as int);
                }
                let (_, v) = self.entries.remove(i);
                proof {
                    let t = self.entries();
                    assert(t =~= s.remove(i as int));
                    assert forall|a: int, b: int| 0 <= a < b < t.len() implies (#[trigger] t[a]).0.precedes(
                        (#[trigger] t[b]).0,
                    ) by {
                        if b < i {
                        } else if a < i {
                            assert(t[b] == s[b + 1]);
                        } else {
                            assert(t[a] == s[a + 1] && t[b] == s[b + 1]);
                        }
                    }
                    lemma_entries(t);
                    assert forall|k2: K| #[trigger]
                        map_of(t).contains_key(k2) == map_of(s).remove(*k).contains_key(k2) by {
                        if map_of(s).contains_key(k2) && k2 != *k {
                            let j = choose|j: int| 0 <= j < s.len() && (#[trigger] s[j]).0 == k2;
                            if j < i {
                                assert(t[j].0 == k2);
                            } else {
                                assert(t[j - 1].0 == k2);
                            }
                        }
                        if map_of(t).contains_key(k2) {
                            let j = choose|j: int| 0 <= j < t.len() && (#[trigger] t[j]).0 == k2;
                            if j < i {
                                lemma_entry(s, j);
                                assert(t[j] == s[j]);
                            } else {
                                lemma_entry(s, j + 1);
                                assert(t[j] == s[j + 1]);
                            }
                        }
                    }
                    assert forall|k2: K| #[trigger] map_of(t).contains_key(k2) implies map_of(t)[k2]
                        == map_of(s).remove(*k)[k2] by {
                        let j = choose|j: int| 0 <= j < t.len() && (#[trigger] t[j]).0 == k2;
                        lemma_entry(t, j);
                        if j < i {
                            lemma_entry(s, j);
                            assert(t[j] == s[j]);
                        } else {
                            lemma_entry(s, j + 1);
                            assert(t[j] == s[j + 1]);
                        }
                    }
                    assert(map_of(t) =~= map_of(s).remove(*k));
                }
                Some(v)
            },
            Err(i) => {
                proof {
                    if map_of(s).contains_key(*k) {
                        let j = choose|j: int| 0 <= j < s.len() && (#[trigger] s[j]).0 == *k;
                        K::lemma_irreflexive(*k);
                    }
                    assert(map_of(s) =~= map_of(s).remove(*k));
                }
                None
            },
        }
    }
}

impl<K: Ordered, V: Duplicate> Duplicate for SortedMap<K, V> {
    fn duplicate(&self) -> (r: Self) {
        let mut entries: Vec<(K, V)> = Vec::new();
        let mut i: usize = 0;
        while i < self.entries.len()
            invariant
                0 <= i <= self.entries@.len(),
                entries@.len() == i,
                forall|j: int|
                    0 <= j < i ==> (#[trigger] entries@[j]).0 == self.entries@[j].0 && entries@[j].1@
                        == self.entries@[j].1@,
            decreases self.entries@.len() - i,
        {
            let v = self.entries[i].1.duplicate();
            entries.push((self.entries[i].0, v));
            i = i + 1;
        }
        let r = SortedMap { entries };
        assert(r@ =~= self@);
        r
    }
}

} // verus!

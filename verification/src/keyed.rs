//! A small association map whose entries are kept in insertion order and whose keys
//! are compared by their abstract key value.

use vstd::prelude::*;

verus! {

/// A key type: each value has an abstract key, and `same_key` decides key equality.
pub trait Keyed: Sized {
    type KeyView;

    spec fn key(&self) -> Self::KeyView;

    fn same_key(&self, other: &Self) -> (r: bool)
        ensures
            r == (self.key() == other.key()),
    ;
}

/// Association map from keys to values; no two entries share a key.
pub struct KeyedMap<K, V> {
    entries: Vec<(K, V)>,
}

/// Index of the entry of `s` whose key is `k`.
pub open spec fn index_of<K: Keyed, V>(s: Seq<(K, V)>, k: K::KeyView) -> int {
    choose|i: int| 0 <= i < s.len() && #[trigger] s[i].0.key() == k
}

/// Whether some entry of `s` has key `k`.
pub open spec fn has_key<K: Keyed, V>(s: Seq<(K, V)>, k: K::KeyView) -> bool {
    exists|i: int| 0 <= i < s.len() && #[trigger] s[i].0.key() == k
}

/// No two entries of `s` share a key.
pub open spec fn keys_distinct<K: Keyed, V>(s: Seq<(K, V)>) -> bool {
    forall|i: int, j: int|
        0 <= i < s.len() && 0 <= j < s.len() && i != j ==> #[trigger] s[i].0.key()
            != #[trigger] s[j].0.key()
}

/// The map that a sequence of entries with distinct keys stands for.
pub open spec fn entries_map<K: Keyed, V>(s: Seq<(K, V)>) -> Map<K::KeyView, V> {
    Map::new(|k: K::KeyView| has_key(s, k), |k: K::KeyView| s[index_of(s, k)].1)
}

proof fn lemma_index_of<K: Keyed, V>(s: Seq<(K, V)>, i: int)
    requires
        keys_distinct(s),
        0 <= i < s.len(),
    ensures
        has_key(s, s[i].0.key()),
        index_of(s, s[i].0.key()) == i,
{
    let k = s[i].0.key();
    assert(has_key(s, k));
    let j = index_of(s, k);
    assert(s[j].0.key() == k);
}

impl<K: Keyed, V> KeyedMap<K, V> {
    pub closed spec fn entries(&self) -> Seq<(K, V)> {
        self.entries@
    }

    /// The keys of this map are distinct.
    pub closed spec fn wf(&self) -> bool {
        keys_distinct(self.entries@)
    }

    /// The map from each key to its value.
    pub closed spec fn view(&self) -> Map<K::KeyView, V> {
        entries_map(self.entries@)
    }

    /// Relates the entries to the map: each entry's key maps to its value, every key of
    /// the map is the key of some entry, and no two entries share a key.
    pub proof fn lemma_view_entries(&self)
        requires
            self.wf(),
        ensures
            forall|i: int|
                0 <= i < self.entries().len() ==> self@.contains_key(
                    #[trigger] self.entries()[i].0.key(),
                ) && self@[self.entries()[i].0.key()] == self.entries()[i].1,
            forall|k: K::KeyView|
                self@.contains_key(k) ==> exists|i: int|
                    0 <= i < self.entries().len() && #[trigger] self.entries()[i].0.key() == k,
            keys_distinct(self.entries()),
    {
        assert forall|i: int| 0 <= i < self.entries().len() implies self@.contains_key(
            #[trigger] self.entries()[i].0.key(),
        ) && self@[self.entries()[i].0.key()] == self.entries()[i].1 by {
            lemma_index_of(self.entries@, i);
        }
        assert forall|k: K::KeyView| self@.contains_key(k) implies exists|i: int|
            0 <= i < self.entries().len() && #[trigger] self.entries()[i].0.key() == k by {
            assert(has_key(self.entries@, k));
            let i = choose|i: int| 0 <= i < self.entries@.len() && #[trigger] self.entries@[i].0.key() == k;
            assert(self.entries()[i].0.key() == k);
        }
    }

    pub fn new() -> (m: Self)
        ensures
            m.wf(),
            m@ == Map::<K::KeyView, V>::empty(),
            m.entries().len() == 0,
    {
        let m = KeyedMap { entries: Vec::new() };
        assert(m@ =~= Map::<K::KeyView, V>::empty());
        m
    }

    pub fn len(&self) -> (n: usize)
        requires
            self.wf(),
        ensures
            n == self@.dom().len(),
            n == self.entries().len(),
    {
        proof {
            self.lemma_dom_len();
        }
        self.entries.len()
    }

    proof fn lemma_dom_len(&self)
        requires
            self.wf(),
        ensures
            self@.dom().finite(),
            self@.dom().len() == self.entries().len(),
    {
        let s = self.entries@;
        let keys = Seq::new(s.len(), |i: int| s[i].0.key());
        assert forall|i: int, j: int| 0 <= i < keys.len() && 0 <= j < keys.len() && i != j implies keys[i] != keys[j] by {
            assert(s[i].0.key() != s[j].0.key());
        }
        keys.unique_seq_to_set();
        assert(self@.dom() =~= keys.to_set()) by {
            assert forall|k: K::KeyView| self@.dom().contains(k) implies keys.to_set().contains(k) by {
                let i = choose|i: int| 0 <= i < s.len() && #[trigger] s[i].0.key() == k;
                assert(keys[i] == k);
            }
            assert forall|k: K::KeyView| keys.to_set().contains(k) implies self@.dom().contains(k) by {
                let i = choose|i: int| 0 <= i < keys.len() && keys[i] == k;
                assert(s[i].0.key() == k);
            }
        }
    }

    /// Position of the entry with the key of `k`, if there is one.
    pub fn position(&self, k: &K) -> (r: Option<usize>)
        requires
            self.wf(),
        ensures
            match r {
                Some(i) => i < self.entries().len() && self.entries()[i as int].0.key() == k.key()
                    && self@.contains_key(k.key()),
                None => !self@.contains_key(k.key()),
            },
    {
        let mut i: usize = 0;
        while i < self.entries.len()
            invariant
                0 <= i <= self.entries@.len(),
                forall|j: int| 0 <= j < i ==> #[trigger] self.entries@[j].0.key() != k.key(),
            decreases self.entries@.len() - i,
        {
            if self.entries[i].0.same_key(k) {
                proof {
                    assert(has_key(self.entries@, k.key()));
                }
                return Some(i);
            }
            i = i + 1;
        }
        None
    }

    pub fn contains_key(&self, k: &K) -> (r: bool)
        requires
            self.wf(),
        ensures
            r == self@.contains_key(k.key()),
    {
        self.position(k).is_some()
    }

    pub fn get(&self, k: &K) -> (r: Option<&V>)
        requires
            self.wf(),
        ensures
            match r {
                Some(v) => self@.contains_key(k.key()) && *v == self@[k.key()],
                None => !self@.contains_key(k.key()),
            },
    {
        match self.position(k) {
            Some(i) => {
                proof {
                    lemma_index_of(self.entries@, i as int);
                }
                Some(&self.entries[i].1)
            },
            None => None,
        }
    }

    /// Entry at position `i`, in insertion order.
    pub fn entry_at(&self, i: usize) -> (r: &(K, V))
        requires
            self.wf(),
            i < self.entries().len(),
        ensures
            *r == self.entries()[i as int],
            self@.contains_key(r.0.key()),
            self@[r.0.key()] == r.1,
    {
        proof {
            lemma_index_of(self.entries@, i as int);
        }
        &self.entries[i]
    }

    /// Removes the entry under the key of `k`, if any, keeping the order of the others.
    #[verifier::rlimit(30)]
    pub fn remove(&mut self, k: &K)
        requires
            old(self).wf(),
        ensures
            final(self).wf(),
            final(self)@ == old(self)@.remove(k.key()),
    {
        let ghost kk = k.key();
        let ghost old_s = self.entries@;
        match self.position(k) {
            Some(i) => {
                self.entries.remove(i);
                proof {
                    let s = self.entries@;
                    assert(s == old_s.remove(i as int));
                    assert(keys_distinct(s)) by {
                        assert forall|a: int, b: int|
                            0 <= a < s.len() && 0 <= b < s.len() && a != b implies s[a].0.key()
                            != s[b].0.key() by {
                            let oa = if a < i { a } else { a + 1 };
                            let ob = if b < i { b } else { b + 1 };
                            assert(s[a] == old_s[oa]);
                            assert(s[b] == old_s[ob]);
                            assert(old_s[oa].0.key() != old_s[ob].0.key());
                        }
                    }
                    assert(entries_map(s) =~= entries_map(old_s).remove(kk)) by {
                        assert forall|key: K::KeyView| #[trigger] entries_map(s).contains_key(key) <==> entries_map(old_s).remove(kk).contains_key(key) by {
                            if has_key(s, key) {
                                let j = choose|j: int| 0 <= j < s.len() && #[trigger] s[j].0.key() == key;
                                let oj = if j < i { j } else { j + 1 };
                                assert(s[j] == old_s[oj]);
                                assert(old_s[oj].0.key() != old_s[i as int].0.key());
                            }
                            if has_key(old_s, key) && key != kk {
                                let j = choose|j: int| 0 <= j < old_s.len() && #[trigger] old_s[j].0.key() == key;
                                assert(j != i);
                                let sj = if j < i { j } else { j - 1 };
                                assert(s[sj] == old_s[j]);
                            }
                        }
                        assert forall|key: K::KeyView| entries_map(s).contains_key(key) implies #[trigger] entries_map(s)[key] == entries_map(old_s).remove(kk)[key] by {
                            let j = choose|j: int| 0 <= j < s.len() && #[trigger] s[j].0.key() == key;
                            lemma_index_of(s, j);
                            let oj = if j < i { j } else { j + 1 };
                            assert(s[j] == old_s[oj]);
                            lemma_index_of(old_s, oj);
                        }
                    }
                }
            },
            None => {
                proof {
                    assert(entries_map(old_s) =~= entries_map(old_s).remove(kk));
                }
            },
        }
    }

    /// Inserts or replaces the value under the key of `k`.
    #[verifier::rlimit(30)]
    pub fn insert(&mut self, k: K, v: V)
        requires
            old(self).wf(),
        ensures
            final(self).wf(),
            final(self)@ == old(self)@.insert(k.key(), v),
    {
        let ghost kk = k.key();
        let ghost old_s = self.entries@;
        match self.position(&k) {
            Some(i) => {
                self.entries.set(i, (k, v));
                proof {
                    let s = self.entries@;
                    assert(keys_distinct(s)) by {
                        assert forall|a: int, b: int|
                            0 <= a < s.len() && 0 <= b < s.len() && a != b implies s[a].0.key()
                            != s[b].0.key() by {
                            assert(old_s[a].0.key() != old_s[b].0.key());
                        }
                    }
                    assert(entries_map(s) =~= entries_map(old_s).insert(kk, v)) by {
                        assert forall|key: K::KeyView| #[trigger] entries_map(s).contains_key(key) <==> entries_map(old_s).insert(kk, v).contains_key(key) by {
                            if has_key(s, key) {
                                let j = choose|j: int| 0 <= j < s.len() && #[trigger] s[j].0.key() == key;
                                if j != i {
                                    assert(s[j] == old_s[j]);
                                }
                            }
                            if has_key(old_s, key) {
                                let j = choose|j: int| 0 <= j < old_s.len() && #[trigger] old_s[j].0.key() == key;
                                if j != i {
                                    assert(s[j] == old_s[j]);
                                } else {
                                    assert(s[j].0.key() == kk);
                                }
                            }
                        }
                        assert forall|key: K::KeyView| entries_map(s).contains_key(key) implies #[trigger] entries_map(s)[key] == entries_map(old_s).insert(kk, v)[key] by {
                            let j = choose|j: int| 0 <= j < s.len() && #[trigger] s[j].0.key() == key;
                            lemma_index_of(s, j);
                            if j != i {
                                lemma_index_of(old_s, j);
                            }
                        }
                    }
                }
            },
            None => {
                self.entries.push((k, v));
                proof {
                    let s = self.entries@;
                    let n = old_s.len() as int;
                    assert(keys_distinct(s)) by {
                        assert forall|a: int, b: int|
                            0 <= a < s.len() && 0 <= b < s.len() && a != b implies s[a].0.key()
                            != s[b].0.key() by {
                            if a < n && b < n {
                                assert(old_s[a].0.key() != old_s[b].0.key());
                            } else if a < n {
                                assert(old_s[a].0.key() == s[a].0.key());
                            } else {
                                assert(old_s[b].0.key() == s[b].0.key());
                            }
                        }
                    }
                    assert(entries_map(s) =~= entries_map(old_s).insert(kk, v)) by {
                        assert forall|key: K::KeyView| #[trigger] entries_map(s).contains_key(key) <==> entries_map(old_s).insert(kk, v).contains_key(key) by {
                            if has_key(s, key) {
                                let j = choose|j: int| 0 <= j < s.len() && #[trigger] s[j].0.key() == key;
                                if j < n {
                                    assert(old_s[j].0.key() == key);
                                }
                            }
                            if has_key(old_s, key) {
                                let j = choose|j: int| 0 <= j < old_s.len() && #[trigger] old_s[j].0.key() == key;
                                assert(s[j].0.key() == key);
                            }
                            if key == kk {
                                assert(s[n].0.key() == key);
                            }
                        }
                        assert forall|key: K::KeyView| entries_map(s).contains_key(key) implies #[trigger] entries_map(s)[key] == entries_map(old_s).insert(kk, v)[key] by {
                            let j = choose|j: int| 0 <= j < s.len() && #[trigger] s[j].0.key() == key;
                            lemma_index_of(s, j);
                            if j < n {
                                assert(old_s[j] == s[j]);
                                lemma_index_of(old_s, j);
                            }
                        }
                    }
                }
            },
        }
    }
}

} // verus!

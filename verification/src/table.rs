//! An insertion-ordered association table keyed by `u64`.
//!
//! The ledger assumes an external ordered key-value substrate with
//! exact-match lookup, insertion, deletion and full iteration per mapping.
//! This module supplies that mapping as a verified structure: a vector of
//! key-value entries with pairwise-distinct keys, abstracted by the
//! mathematical map [`Table::m`] and by the entry sequence [`Table::kvs`]
//! where iteration order matters.

use vstd::prelude::*;

verus! {

/// A mapping from `u64` keys to values, in insertion order.
pub struct Table<V> {
    pub entries: Vec<(u64, V)>,
}

impl<V> Table<V> {
    /// Well-formed: keys are pairwise distinct.
    pub open spec fn wf(&self) -> bool {
        forall|i: int, j: int|
            0 <= i < j < self.entries@.len() ==> self.entries@[i].0 != self.entries@[j].0
    }

    /// The entries in table order.
    #[verifier::inline]
    pub open spec fn kvs(&self) -> Seq<(u64, V)> {
        self.entries@
    }

    /// The mathematical map the entries stand for.
    pub open spec fn m(&self) -> Map<u64, V> {
        Self::map_of(self.entries@)
    }

    /// The map built from an entry sequence, later entries overriding.
    pub open spec fn map_of(s: Seq<(u64, V)>) -> Map<u64, V>
        decreases s.len(),
    {
        if s.len() == 0 {
            Map::empty()
        } else {
            Self::map_of(s.drop_last()).insert(s.last().0, s.last().1)
        }
    }

    /// A key is in the map exactly when some entry carries it.
    pub proof fn lemma_map_of_contains(s: Seq<(u64, V)>, k: u64)
        ensures
            Self::map_of(s).contains_key(k) <==> (exists|i: int|
                0 <= i < s.len() && (#[trigger] s[i]).0 == k),
        decreases s.len(),
    {
        if s.len() > 0 {
            Self::lemma_map_of_contains(s.drop_last(), k);
            if s.last().0 == k {
                assert(s[s.len() - 1].0 == k);
            } else {
                if exists|i: int| 0 <= i < s.len() && s[i].0 == k {
                    let i = choose|i: int| 0 <= i < s.len() && s[i].0 == k;
                    assert(s.drop_last()[i] == s[i]);
                }
            }
        }
    }

    /// Under distinct keys, the map agrees with the entry at any index.
    pub proof fn lemma_map_of_index(s: Seq<(u64, V)>, i: int)
        requires
            forall|p: int, q: int| 0 <= p < q < s.len() ==> s[p].0 != s[q].0,
            0 <= i < s.len(),
        ensures
            Self::map_of(s).contains_key(s[i].0),
            Self::map_of(s)[s[i].0] == s[i].1,
        decreases s.len(),
    {
        if i == s.len() - 1 {
            assert(s[i] == s.last());
        } else {
            assert(s.drop_last()[i] == s[i]);
            Self::lemma_map_of_index(s.drop_last(), i);
            assert(s[i].0 != s.last().0);
        }
    }

    /// Updating the value at index `i` updates the map at that entry's key.
    pub proof fn lemma_map_of_update(s: Seq<(u64, V)>, i: int, v: V)
        requires
            forall|p: int, q: int| 0 <= p < q < s.len() ==> s[p].0 != s[q].0,
            0 <= i < s.len(),
        ensures
            Self::map_of(s.update(i, (s[i].0, v))) =~= Self::map_of(s).insert(s[i].0, v),
        decreases s.len(),
    {
        let k = s[i].0;
        let t = s.update(i, (k, v));
        if i == s.len() - 1 {
            assert(t.drop_last() =~= s.drop_last());
            assert(t.last() == (k, v));
        } else {
            assert(t.drop_last() =~= s.drop_last().update(i, (s.drop_last()[i].0, v)));
            Self::lemma_map_of_update(s.drop_last(), i, v);
            assert(t.last() == s.last());
            assert(k != s.last().0);
        }
    }

    /// Removing the entry at index `i` removes that entry's key from the map.
    pub proof fn lemma_map_of_remove(s: Seq<(u64, V)>, i: int)
        requires
            forall|p: int, q: int| 0 <= p < q < s.len() ==> s[p].0 != s[q].0,
            0 <= i < s.len(),
        ensures
            Self::map_of(s.remove(i)) =~= Self::map_of(s).remove(s[i].0),
        decreases s.len(),
    {
        let k = s[i].0;
        if i == s.len() - 1 {
            assert(s.remove(i) =~= s.drop_last());
            Self::lemma_map_of_contains(s.drop_last(), k);
            assert(forall|p: int| 0 <= p < s.len() - 1 ==> s.drop_last()[p] == s[p]);
        } else {
            assert(s.remove(i).drop_last() =~= s.drop_last().remove(i));
            Self::lemma_map_of_remove(s.drop_last(), i);
            assert(s.remove(i).last() == s.last());
            assert(k != s.last().0);
        }
    }

    /// An empty table.
    pub fn new() -> (r: Self)
        ensures
            r.wf(),
            r.kvs() == Seq::<(u64, V)>::empty(),
            r.m() == Map::<u64, V>::empty(),
    {
        Table { entries: Vec::new() }
    }

    /// The number of entries.
    pub fn len(&self) -> (r: usize)
        ensures
            r == self.kvs().len(),
    {
        self.entries.len()
    }

    /// The position of the entry carrying `k`, if any.
    pub fn index_of(&self, k: u64) -> (r: Option<usize>)
        ensures
            match r {
                Some(i) => i < self.kvs().len() && self.kvs()[i as int].0 == k,
                None => forall|i: int|
                    0 <= i < self.kvs().len() ==> (#[trigger] self.kvs()[i]).0 != k,
            },
    {
        let mut i: usize = 0;
        while i < self.entries.len()
            invariant
                i <= self.entries@.len(),
                forall|j: int| 0 <= j < i ==> self.entries@[j].0 != k,
            decreases self.entries@.len() - i,
        {
            if self.entries[i].0 == k {
                return Some(i);
            }
            i = i + 1;
        }
        None
    }

    /// Whether an entry carries `k`.
    pub fn contains_key(&self, k: u64) -> (r: bool)
        ensures
            r == self.m().contains_key(k),
    {
        let r = self.index_of(k);
        proof {
            Self::lemma_map_of_contains(self.entries@, k);
        }
        r.is_some()
    }

    /// The value under `k`, if any.
    pub fn get(&self, k: u64) -> (r: Option<&V>)
        requires
            self.wf(),
        ensures
            match r {
                Some(v) => self.m().contains_key(k) && *v == self.m()[k],
                None => !self.m().contains_key(k),
            },
    {
        proof {
            Self::lemma_map_of_contains(self.entries@, k);
        }
        match self.index_of(k) {
            Some(i) => {
                proof {
                    Self::lemma_map_of_index(self.entries@, i as int);
                }
                Some(&self.entries[i].1)
            },
            None => None,
        }
    }

    /// Inserts or replaces the value under `k`. A fresh key is appended;
    /// an existing key keeps its position.
    pub fn insert(&mut self, k: u64, v: V)
        requires
            old(self).wf(),
        ensures
            final(self).wf(),
            final(self).m() =~= old(self).m().insert(k, v),
            old(self).m().contains_key(k) ==> exists|i: int|
                0 <= i < old(self).kvs().len() && old(self).kvs()[i].0 == k && final(self).kvs()
                    == old(self).kvs().update(i, (k, v)),
            !old(self).m().contains_key(k) ==> final(self).kvs() == old(self).kvs().push((k, v)),
    {
        proof {
            Self::lemma_map_of_contains(self.entries@, k);
        }
        match self.index_of(k) {
            Some(i) => {
                proof {
                    Self::lemma_map_of_update(self.entries@, i as int, v);
                }
                let e: &mut (u64, V) = &mut self.entries[i];
                *e = (k, v);
            },
            None => {
                self.entries.push((k, v));
                proof {
                    assert(self.entries@.drop_last() =~= old(self).entries@);
                }
            },
        }
    }

    /// Removes and returns the value under `k`, if any; the other entries
    /// keep their relative order.
    pub fn remove(&mut self, k: u64) -> (r: Option<V>)
        requires
            old(self).wf(),
        ensures
            final(self).wf(),
            match r {
                Some(v) => old(self).m().contains_key(k) && v == old(self).m()[k]
                    && final(self).m() =~= old(self).m().remove(k) && exists|i: int|
                    0 <= i < old(self).kvs().len() && old(self).kvs()[i].0 == k
                        && final(self).kvs() == old(self).kvs().remove(i),
                None => !old(self).m().contains_key(k) && *final(self) == *old(self),
            },
    {
        proof {
            Self::lemma_map_of_contains(self.entries@, k);
        }
        match self.index_of(k) {
            Some(i) => {
                proof {
                    Self::lemma_map_of_index(self.entries@, i as int);
                    Self::lemma_map_of_remove(self.entries@, i as int);
                }
                let (_, v) = self.entries.remove(i);
                Some(v)
            },
            None => None,
        }
    }
}

} // verus!

//! The cache itself: a fixed-capacity key/value store with strict
//! least-recently-used eviction and explicit recency manipulation.

use crate::model::{
    demote_model, distinct_keys, has_key, lemma_cons_fresh_distinct, lemma_drop_key_absent,
    lemma_drop_key_distinct, lemma_drop_key_first, lemma_drop_key_keys, lemma_snoc_fresh_distinct,
    promote_model, put_model, remove_model, value_of,
};
use vstd::prelude::*;

verus! {

/// A fixed-capacity cache from `u64` keys to values of type `V`.
///
/// The entries are kept in recency order, most recently used first; the
/// abstract state (`self@`) is that sequence of key/value pairs.  The
/// capacity is fixed at construction.  A capacity of zero is accepted and
/// gives a cache that never retains anything: every insertion is a no-op.
pub struct LRUCache<V> {
    capacity: usize,
    entries: Vec<(u64, V)>,
}

impl<V> View for LRUCache<V> {
    type V = Seq<(u64, V)>;

    closed spec fn view(&self) -> Seq<(u64, V)> {
        self.entries@
    }
}

impl<V> LRUCache<V> {
    /// The capacity chosen at construction.
    pub closed spec fn capacity(self) -> usize {
        self.capacity
    }

    /// Well-formedness: no key appears twice, and the entry count never
    /// exceeds the capacity.  Constructors establish it and every operation
    /// preserves it.
    pub open spec fn wf(self) -> bool {
        &&& distinct_keys(self@)
        &&& self@.len() <= self.capacity()
    }

    /// Creates an empty cache with the given capacity.  A capacity of zero
    /// is accepted and gives a cache that never retains anything.
    pub fn new(capacity: usize) -> (c: LRUCache<V>)
        ensures
            c.wf(),
            c@ == Seq::<(u64, V)>::empty(),
            c.capacity() == capacity,
    {
        LRUCache { capacity, entries: Vec::new() }
    }

    /// The index of the entry carrying `key`, if it is present.
    fn position(&self, key: u64) -> (r: Option<usize>)
        ensures
            match r {
                Some(i) => {
                    &&& i < self@.len()
                    &&& self@[i as int].0 == key
                    &&& forall|j: int| 0 <= j < i ==> self@[j].0 != key
                },
                None => !has_key(self@, key),
            },
    {
        let mut i: usize = 0;
        while i < self.entries.len()
            invariant
                i <= self@.len(),
                forall|j: int| 0 <= j < i ==> self@[j].0 != key,
            decreases self@.len() - i,
        {
            if self.entries[i].0 == key {
                return Some(i);
            }
            i = i + 1;
        }
        None
    }

    /// Inserts `key` with `value`.  An existing key is updated in place and
    /// becomes most-recently-used; a fresh key is pushed to the front, and
    /// if the cache is full the least-recently-used entry is evicted first.
    /// With capacity zero nothing is ever retained.
    pub fn put(&mut self, key: u64, value: V)
        requires
            old(self).wf(),
        ensures
            final(self).wf(),
            final(self).capacity() == old(self).capacity(),
            final(self)@ == put_model(old(self)@, old(self).capacity() as int, key, value),
    {
        let ghost s0 = self@;
        match self.position(key) {
            Some(i) => {
                let _replaced = self.entries.remove(i);
                self.entries.insert(0, (key, value));
                proof {
                    lemma_drop_key_first(s0, key, i as int);
                    lemma_drop_key_keys(s0, key);
                    lemma_drop_key_distinct(s0, key);
                    lemma_cons_fresh_distinct(s0.remove(i as int), key, value);
                    assert(self@ =~= seq![(key, value)] + s0.remove(i as int));
                }
            },
            None => {
                if self.capacity == 0 {
                    return;
                }
                self.evict();
                self.entries.insert(0, (key, value));
                proof {
                    if s0.len() >= self.capacity() {
                        assert(self@ =~= seq![(key, value)] + s0.drop_last());
                        assert forall|j: int| 0 <= j < s0.drop_last().len()
                            implies s0.drop_last()[j].0 != key by {
                            assert(s0[j].0 != key);
                        }
                        lemma_cons_fresh_distinct(s0.drop_last(), key, value);
                    } else {
                        assert(self@ =~= seq![(key, value)] + s0);
                        lemma_cons_fresh_distinct(s0, key, value);
                    }
                }
            },
        }
    }

    /// Looks `key` up.  A present key's value is returned and the key
    /// becomes most-recently-used; an absent key leaves the cache unchanged.
    pub fn get(&mut self, key: u64) -> (r: Option<&V>)
        requires
            old(self).wf(),
        ensures
            final(self).wf(),
            final(self).capacity() == old(self).capacity(),
            final(self)@ == promote_model(old(self)@, key),
            match r {
                Some(v) => has_key(old(self)@, key) && *v == value_of(old(self)@, key),
                None => !has_key(old(self)@, key),
            },
    {
        let ghost s0 = self@;
        match self.position(key) {
            Some(i) => {
                let entry = self.entries.remove(i);
                self.entries.insert(0, entry);
                proof {
                    lemma_drop_key_first(s0, key, i as int);
                    lemma_drop_key_keys(s0, key);
                    lemma_drop_key_distinct(s0, key);
                    lemma_cons_fresh_distinct(s0.remove(i as int), key, s0[i as int].1);
                    assert(self@ =~= seq![(key, value_of(s0, key))] + s0.remove(i as int));
                }
                Some(&self.entries[0].1)
            },
            None => None,
        }
    }

    /// Deletes `key` and its value; an absent key is a no-op.
    pub fn remove(&mut self, key: u64)
        requires
            old(self).wf(),
        ensures
            final(self).wf(),
            final(self).capacity() == old(self).capacity(),
            final(self)@ == remove_model(old(self)@, key),
    {
        let ghost s0 = self@;
        match self.position(key) {
            Some(i) => {
                let _removed = self.entries.remove(i);
                proof {
                    lemma_drop_key_first(s0, key, i as int);
                    lemma_drop_key_distinct(s0, key);
                }
            },
            None => {
                proof {
                    lemma_drop_key_absent(s0, key);
                }
            },
        }
    }

    /// Makes `key` the most-recently-used entry, without reading or
    /// changing its value; an absent key is a no-op.
    pub fn move_to_front(&mut self, key: u64)
        requires
            old(self).wf(),
        ensures
            final(self).wf(),
            final(self).capacity() == old(self).capacity(),
            final(self)@ == promote_model(old(self)@, key),
    {
        let ghost s0 = self@;
        match self.position(key) {
            Some(i) => {
                let entry = self.entries.remove(i);
                self.entries.insert(0, entry);
                proof {
                    lemma_drop_key_first(s0, key, i as int);
                    lemma_drop_key_keys(s0, key);
                    lemma_drop_key_distinct(s0, key);
                    lemma_cons_fresh_distinct(s0.remove(i as int), key, s0[i as int].1);
                    assert(self@ =~= seq![(key, value_of(s0, key))] + s0.remove(i as int));
                }
            },
            None => {},
        }
    }

    /// Makes `key` the least-recently-used entry, first in line for
    /// eviction, without reading or changing its value; an absent key is a
    /// no-op.
    pub fn move_to_back(&mut self, key: u64)
        requires
            old(self).wf(),
        ensures
            final(self).wf(),
            final(self).capacity() == old(self).capacity(),
            final(self)@ == demote_model(old(self)@, key),
    {
        let ghost s0 = self@;
        match self.position(key) {
            Some(i) => {
                let entry = self.entries.remove(i);
                self.entries.push(entry);
                proof {
                    lemma_drop_key_first(s0, key, i as int);
                    lemma_drop_key_keys(s0, key);
                    lemma_drop_key_distinct(s0, key);
                    lemma_snoc_fresh_distinct(s0.remove(i as int), key, s0[i as int].1);
                    assert(self@ =~= s0.remove(i as int) + seq![(key, value_of(s0, key))]);
                }
            },
            None => {},
        }
    }

    /// Removes the least-recently-used entry when the cache is at (or
    /// beyond) its capacity; otherwise does nothing.
    fn evict(&mut self)
        requires
            old(self).wf(),
        ensures
            final(self).wf(),
            final(self).capacity() == old(self).capacity(),
            old(self)@.len() >= old(self).capacity() && old(self)@.len() > 0 ==> final(self)@
                == old(self)@.drop_last(),
            old(self)@.len() < old(self).capacity() || old(self)@.len() == 0 ==> final(self)@
                == old(self)@,
    {
        if self.entries.len() >= self.capacity {
            let ghost s0 = self@;
            let _evicted = self.entries.pop();
            proof {
                if s0.len() > 0 {
                    assert(self@ =~= s0.drop_last());
                    assert forall|a: int, b: int| #![trigger self@[a], self@[b]]
                        0 <= a < b < self@.len() implies self@[a].0 != self@[b].0 by {
                        assert(s0[a].0 != s0[b].0);
                    }
                }
            }
        }
    }
}

} // verus!

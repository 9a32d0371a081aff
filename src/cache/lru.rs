use crate::cache::Cache;
use crate::lru::{well_behaved_key, LruCache, LruModel};
use std::hash::Hash;
use vstd::prelude::*;

verus! {

/// Least recently used eviction behind the `Cache` interface.
#[verifier::reject_recursive_types(K)]
pub struct LRU<K, V> {
    inner: LruCache<K, V>,
}

impl<K, V> View for LRU<K, V> {
    type V = LruModel<K, V>;

    closed spec fn view(&self) -> LruModel<K, V> {
        self.inner@
    }
}

impl<K: Eq + Hash + Clone, V> LRU<K, V> {
    pub fn new(capacity: usize) -> (c: Self)
        requires
            well_behaved_key::<K>(),
        ensures
            c.wf(),
            c@.recency == Seq::<K>::empty(),
            c@.entries == Map::<K, V>::empty(),
            c@.capacity == capacity,
    {
        LRU { inner: LruCache::with_capacity(capacity) }
    }

    pub fn is_empty(&self) -> (r: bool)
        requires
            self.wf(),
        ensures
            r == (self@.len() == 0),
    {
        self.inner.is_empty()
    }

    /// Whether the next write of a new key makes an entry leave.
    pub fn is_full(&self) -> (r: bool)
        requires
            self.wf(),
        ensures
            r == (self@.len() >= self@.capacity),
    {
        self.len() >= self.inner.capacity()
    }

    pub fn len(&self) -> (r: usize)
        requires
            self.wf(),
        ensures
            r == self@.len(),
    {
        self.inner.len()
    }

    /// The value under `key`, if any, to be changed in place; a hit moves `key` to the front.
    pub fn get_mut(&mut self, key: &K) -> (r: Option<&mut V>)
        requires
            old(self).wf(),
        ensures
            final(self).wf(),
            match r {
                Some(v) => old(self)@.entries.contains_key(*key) && *v == old(self)@.entries[*key]
                    && final(self)@ =~= (LruModel {
                    entries: old(self)@.entries.insert(*key, *final(v)),
                    ..old(self)@.touch(*key)
                }),
                None => !old(self)@.entries.contains_key(*key) && final(self)@ == old(self)@,
            },
    {
        self.inner.get_mut(key)
    }

    /// The value under `key`, if any; the recency order is left as it is.
    pub fn get_without_refresh(&self, key: &K) -> (r: Option<&V>)
        requires
            self.wf(),
        ensures
            match r {
                Some(v) => self@.entries.contains_key(*key) && *v == self@.entries[*key],
                None => !self@.entries.contains_key(*key),
            },
    {
        self.inner.peek(key)
    }
}

impl<K: Eq + Hash + Clone, V> Cache<K, V> for LRU<K, V> {
    closed spec fn wf(&self) -> bool {
        self.inner.wf()
    }

    fn get(&mut self, key: &K) -> (r: Option<&V>)
        ensures
            match r {
                Some(v) => old(self)@.entries.contains_key(*key) && *v == old(self)@.entries[*key],
                None => !old(self)@.entries.contains_key(*key),
            },
            final(self)@ =~= old(self)@.touch(*key),
    {
        self.inner.get(key)
    }

    fn set(&mut self, key: K, value: V) -> (r: Option<V>)
        ensures
            r == (if old(self)@.entries.contains_key(key) {
                Some(old(self)@.entries[key])
            } else {
                None::<V>
            }),
            final(self)@ =~= old(self)@.insert(key, value),
    {
        self.inner.insert(key, value)
    }
}

} // verus!

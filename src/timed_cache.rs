use std::hash::Hash;
use vstd::prelude::*;

use crate::cache::{Cache, GetKey, KeyRegistry};
use crate::concurrent_cache::ConcurrentCache;
use crate::key::{KeyExtension, TimedKey};
use crate::queued_cache::{QueuedLookupRegistry, QueuedRegistry};

verus! {

/// Scanning eviction policy over raw keys that stamps each admitted key
/// with its creation instant.
pub struct TimedKeyRegistry<K> where K: KeyExtension<K> {
    inner: QueuedRegistry<TimedKey<K>, K>,
}

impl<K> GetKey<K> for TimedKeyRegistry<K> where K: KeyExtension<K> + Eq + Hash + Copy {
    /// Takes O(n) for finding the key.
    fn get(&self, key: &K) -> (r: Option<&K>) {
        self.inner.get(key)
    }
}

impl<K> KeyRegistry<K> for TimedKeyRegistry<K> where K: KeyExtension<K> + Eq + Hash + Copy {
    type KeyExtension = K;

    closed spec fn keys(&self) -> Seq<K> {
        self.inner.keys()
    }

    closed spec fn capacity(&self) -> nat {
        self.inner.capacity()
    }

    closed spec fn wf(&self) -> bool {
        self.inner.wf()
    }

    fn with_capacity(max_capacity: usize) -> (r: Self) {
        Self { inner: QueuedRegistry::with_capacity(max_capacity) }
    }

    fn clear(&mut self) {
        self.inner.clear();
    }

    fn len(&self) -> (r: usize) {
        self.inner.len()
    }

    fn add_or_update(&mut self, key: K) -> (r: Option<K>) {
        let timed_key = TimedKey::create_now(*key.key());
        self.inner.add_or_update(timed_key)
    }

    fn try_remove(&mut self, key: &K) -> (r: Option<K>) {
        self.inner.try_remove(key)
    }
}

pub type TimedCache<K, V> = Cache<K, TimedKeyRegistry<K>, K, V>;

pub type ConcurrentTimedCache<K, V> = ConcurrentCache<K, TimedKeyRegistry<K>, K, V>;

/// Indexed eviction policy over raw keys that stamps each admitted key
/// with its creation instant.
pub struct TimedKeyRegistry2<K> where K: KeyExtension<K> {
    inner: QueuedLookupRegistry<TimedKey<K>, K>,
}

impl<K> GetKey<K> for TimedKeyRegistry2<K> where K: KeyExtension<K> + Eq + Hash + Copy {
    /// Takes O(1) for finding the key.
    fn get(&self, key: &K) -> (r: Option<&K>) {
        self.inner.get(key)
    }
}

impl<K> KeyRegistry<K> for TimedKeyRegistry2<K> where K: KeyExtension<K> + Eq + Hash + Copy {
    type KeyExtension = K;

    closed spec fn keys(&self) -> Seq<K> {
        self.inner.keys()
    }

    closed spec fn capacity(&self) -> nat {
        self.inner.capacity()
    }

    closed spec fn wf(&self) -> bool {
        self.inner.wf()
    }

    fn with_capacity(max_capacity: usize) -> (r: Self) {
        Self { inner: QueuedLookupRegistry::with_capacity(max_capacity) }
    }

    fn clear(&mut self) {
        self.inner.clear();
    }

    fn len(&self) -> (r: usize) {
        self.inner.len()
    }

    fn add_or_update(&mut self, key: K) -> (r: Option<K>) {
        let timed_key = TimedKey::create_now(*key.key());
        self.inner.add_or_update(timed_key)
    }

    fn try_remove(&mut self, key: &K) -> (r: Option<K>) {
        self.inner.try_remove(key)
    }
}

pub type TimedCacheV2<K, V> = Cache<K, TimedKeyRegistry2<K>, K, V>;

pub type ConcurrentTimedCacheV2<K, V> = ConcurrentCache<K, TimedKeyRegistry2<K>, K, V>;

} // verus!

use std::hash::Hash;
use std::sync::Arc;
use vstd::prelude::*;
use vstd::rwlock::RwLock;

use crate::cache::{key_laws, Cache, GetKey, GetKeyMut, KeyRegistry};
use crate::key::KeyExtension;

verus! {

/// What every cache guarded by a `ConcurrentCache` of capacity `cap`
/// satisfies between lock holders.
pub open spec fn guarded<K, KeyReg, KeyExt, V>(cap: nat) -> spec_fn(
    Cache<K, KeyReg, KeyExt, Arc<V>>,
) -> bool where
    K: Eq + Hash + Copy,
    KeyReg: KeyRegistry<K, KeyExtension = KeyExt>,
    KeyExt: KeyExtension<K>,
 {
    |c: Cache<K, KeyReg, KeyExt, Arc<V>>| c.wf() && c.capacity() == cap
}

/// A cache shared between threads: one reader/writer lock over the whole
/// cache, policy and store together. Values are handed out as shared
/// handles that outlive the lock and later evictions.
#[verifier::reject_recursive_types(K)]
#[verifier::reject_recursive_types(KeyReg)]
#[verifier::reject_recursive_types(KeyExt)]
#[verifier::reject_recursive_types(V)]
pub struct ConcurrentCache<K, KeyReg, KeyExt, V> where
    K: Eq + Hash + Copy,
    KeyReg: KeyRegistry<K, KeyExtension = KeyExt>,
    KeyExt: KeyExtension<K>,
 {
    inner: RwLock<Cache<K, KeyReg, KeyExt, Arc<V>>, spec_fn(Cache<K, KeyReg, KeyExt, Arc<V>>) -> bool>,
    max_capacity: Ghost<nat>,
}

impl<K, KeyReg, KeyExt, V> ConcurrentCache<K, KeyReg, KeyExt, V> where
    K: Eq + Hash + Copy,
    KeyReg: KeyRegistry<K, KeyExtension = KeyExt>,
    KeyExt: KeyExtension<K>,
 {
    #[verifier::type_invariant]
    closed spec fn lock_guards_cache(&self) -> bool {
        self.inner.pred() == guarded::<K, KeyReg, KeyExt, V>(self.max_capacity@)
    }

    /// The capacity of the guarded cache.
    pub closed spec fn capacity(&self) -> nat {
        self.max_capacity@
    }

    pub fn new(max_capacity: Option<usize>) -> (r: Self)
        requires
            key_laws::<K>(),
        ensures
            r.capacity() == match max_capacity {
                Some(c) => c,
                None => usize::MAX,
            },
    {
        let cache = Cache::new(max_capacity);
        let ghost cap = cache.capacity();
        Self {
            inner: RwLock::new(cache, Ghost(guarded::<K, KeyReg, KeyExt, V>(cap))),
            max_capacity: Ghost(cap),
        }
    }

    /// Number of cached values; never above capacity.
    pub fn len(&self) -> (r: usize)
        ensures
            r <= self.capacity(),
    {
        proof {
            use_type_invariant(self);
        }
        let guard = self.inner.acquire_read();
        let cache = guard.borrow();
        proof {
            cache.lemma_wf();
        }
        let r = cache.len();
        guard.release_read();
        r
    }

    pub fn is_empty(&self) -> (r: bool) {
        proof {
            use_type_invariant(self);
        }
        let guard = self.inner.acquire_read();
        let r = guard.borrow().is_empty();
        guard.release_read();
        r
    }

    /// Removes all key-value pairs.
    pub fn clear(&mut self)
        ensures
            final(self).capacity() == old(self).capacity(),
    {
        proof {
            use_type_invariant(&*self);
        }
        let (mut cache, guard) = self.inner.acquire_write();
        cache.clear();
        guard.release_write(cache);
    }

    /// Inserts a key-value pair under the write lock; returns the handle to
    /// the value previously stored at that raw key.
    pub fn insert(&self, key: KeyExt, value: V) -> (r: Option<Arc<V>>) {
        proof {
            use_type_invariant(self);
        }
        let (mut cache, guard) = self.inner.acquire_write();
        let r = cache.insert(key, Arc::new(value));
        guard.release_write(cache);
        r
    }

    /// Removes a key under the write lock, returning its value's handle.
    pub fn remove(&self, key: &K) -> (r: Option<Arc<V>>) {
        proof {
            use_type_invariant(self);
        }
        let (mut cache, guard) = self.inner.acquire_write();
        let r = cache.remove(key);
        guard.release_write(cache);
        r
    }
}

impl<K, KeyReg, KeyExt, V> ConcurrentCache<K, KeyReg, KeyExt, V> where
    K: Eq + Hash + Copy,
    KeyReg: KeyRegistry<K, KeyExtension = KeyExt> + GetKey<K>,
    KeyExt: KeyExtension<K>,
 {
    /// Gets a handle to the key's value under the read lock, without
    /// updating its statistics.
    pub fn get(&self, key: &K) -> (r: Option<Arc<V>>) {
        proof {
            use_type_invariant(self);
        }
        let guard = self.inner.acquire_read();
        let r = match guard.borrow().get(key) {
            Some(v) => Some(v.clone()),
            None => None,
        };
        guard.release_read();
        r
    }
}

impl<K, KeyReg, KeyExt, V> ConcurrentCache<K, KeyReg, KeyExt, V> where
    K: Eq + Hash + Copy,
    KeyReg: KeyRegistry<K, KeyExtension = KeyExt> + GetKeyMut<K>,
    KeyExt: KeyExtension<K>,
 {
    /// Gets a handle to the key's value under the write lock, updating its
    /// statistics.
    pub fn get_mut(&mut self, key: &K) -> (r: Option<Arc<V>>)
        ensures
            final(self).capacity() == old(self).capacity(),
    {
        proof {
            use_type_invariant(&*self);
        }
        let (mut cache, guard) = self.inner.acquire_write();
        let r = match cache.get_mut(key) {
            Some(v) => Some(v.clone()),
            None => None,
        };
        guard.release_write(cache);
        r
    }
}

} // verus!

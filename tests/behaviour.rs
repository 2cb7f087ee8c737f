use modular_cache::cache::{GetKey, KeyRegistry};
use modular_cache::key::{KeyExtension, TimedKey};
use modular_cache::queued_cache::{
    ConcurrentQueuedLookupCache, QueuedCache, QueuedLookupCache, QueuedLookupRegistry,
    QueuedRegistry,
};
use modular_cache::timed_cache::{ConcurrentTimedCacheV2, TimedKeyRegistry, TimedKeyRegistry2};
use modular_cache::workload::{queued_cache_sequential, queued_lookup_cache_sequential};

fn fifo_with_refresh<R: KeyRegistry<i32, KeyExtension = i32> + GetKey<i32>>() {
    let mut reg = R::with_capacity(4);
    assert_eq!(reg.add_or_update(1), None);
    assert_eq!(reg.add_or_update(2), None);
    assert_eq!(reg.add_or_update(3), None);
    assert_eq!(reg.add_or_update(4), None);
    assert_eq!(reg.add_or_update(5), Some(1));
    assert_eq!(reg.add_or_update(2), None);
    assert_eq!(reg.add_or_update(6), Some(3));
    assert_eq!(reg.len(), 4);
    assert_eq!(reg.get(&2), Some(&2));
    assert_eq!(reg.get(&3), None);
}

#[test]
fn scan_registry_evicts_oldest_and_refreshes() {
    fifo_with_refresh::<QueuedRegistry<i32, i32>>();
}

#[test]
fn indexed_registry_evicts_oldest_and_refreshes() {
    fifo_with_refresh::<QueuedLookupRegistry<i32, i32>>();
}

#[test]
fn timed_registries_evict_oldest_and_refresh() {
    fifo_with_refresh::<TimedKeyRegistry<i32>>();
    fifo_with_refresh::<TimedKeyRegistry2<i32>>();
}

#[test]
fn zero_capacity_evicts_the_key_just_inserted() {
    let mut reg = QueuedLookupRegistry::<i32, i32>::with_capacity(0);
    assert_eq!(reg.add_or_update(7), Some(7));
    assert_eq!(reg.len(), 0);
    assert!(reg.is_empty());

    let mut cache = QueuedCache::<i32, i32, String>::new(Some(0));
    assert_eq!(cache.insert(1, "a".to_string()), None);
    assert_eq!(cache.insert(1, "b".to_string()), None);
    assert_eq!(cache.len(), 0);
    assert_eq!(cache.get(&1), None);
}

#[test]
fn unbounded_cache_keeps_everything() {
    let mut cache = QueuedLookupCache::<usize, usize, usize>::new(None);
    for i in 0..100usize {
        cache.insert(i, i * 2);
    }
    assert_eq!(cache.len(), 100);
    assert_eq!(cache.get(&0), Some(&0));
    assert_eq!(cache.get(&99), Some(&198));
}

#[test]
fn insert_returns_previous_value() {
    let mut cache = QueuedCache::<i32, i32, String>::new(Some(2));
    assert_eq!(cache.insert(1, "one".to_string()), None);
    assert_eq!(cache.insert(1, "uno".to_string()), Some("one".to_string()));
    assert_eq!(cache.get(&1).cloned(), Some("uno".to_string()));
    assert_eq!(cache.len(), 1);
}

#[test]
fn remove_drops_from_store_and_policy() {
    let mut cache = QueuedLookupCache::<i32, i32, String>::new(Some(3));
    cache.insert(1, "a".to_string());
    cache.insert(2, "b".to_string());
    cache.insert(3, "c".to_string());
    assert_eq!(cache.remove(&2), Some("b".to_string()));
    assert_eq!(cache.remove(&2), None);
    assert_eq!(cache.remove(&9), None);
    assert_eq!(cache.len(), 2);
    assert_eq!(cache.get(&2), None);
    // after a removal in the middle, the positions are re-indexed
    assert_eq!(cache.get(&3).cloned(), Some("c".to_string()));
    cache.insert(4, "d".to_string());
    cache.insert(5, "e".to_string());
    assert_eq!(cache.get(&1), None);
    assert_eq!(cache.get(&3).cloned(), Some("c".to_string()));
    assert_eq!(cache.get(&4).cloned(), Some("d".to_string()));
    assert_eq!(cache.get(&5).cloned(), Some("e".to_string()));
}

#[test]
fn registry_try_remove_reports_tracked_keys_only() {
    let mut reg = QueuedRegistry::<i32, i32>::with_capacity(3);
    reg.add_or_update(1);
    reg.add_or_update(2);
    assert_eq!(reg.try_remove(&1), Some(1));
    assert_eq!(reg.try_remove(&1), None);
    assert_eq!(reg.len(), 1);
}

#[test]
fn indexed_registry_lookups_after_every_change() {
    let mut reg = QueuedLookupRegistry::<i32, i32>::with_capacity(3);
    for k in [1, 2, 3, 1, 4, 2] {
        reg.add_or_update(k);
        assert_eq!(reg.get(&k), Some(&k));
    }
    assert_eq!(reg.get(&3), None);
    assert_eq!(reg.try_remove(&4), Some(4));
    assert_eq!(reg.get(&1), Some(&1));
    assert_eq!(reg.get(&2), Some(&2));
    assert_eq!(reg.len(), 2);
}

#[test]
fn capacity_is_never_exceeded() {
    let mut cache = QueuedCache::<usize, usize, usize>::new(Some(5));
    for i in 0..50usize {
        cache.insert(i % 7, i);
        assert!(cache.len() <= 5);
    }
}

#[test]
fn clear_behaves_like_new() {
    let mut cleared = QueuedLookupCache::<i32, i32, String>::new(Some(2));
    cleared.insert(1, "x".to_string());
    cleared.insert(2, "y".to_string());
    cleared.clear();
    assert_eq!(cleared.len(), 0);
    assert!(cleared.is_empty());
    let mut fresh = QueuedLookupCache::<i32, i32, String>::new(Some(2));
    for (k, v) in [(3, "a"), (1, "b"), (4, "c")] {
        assert_eq!(cleared.insert(k, v.to_string()), fresh.insert(k, v.to_string()));
    }
    for k in 0..6 {
        assert_eq!(cleared.get(&k), fresh.get(&k));
    }
    assert_eq!(cleared.len(), fresh.len());
}

#[test]
fn concurrent_cache_tracks_distinct_keys() {
    let cache = ConcurrentQueuedLookupCache::<i32, i32, String>::new(Some(8));
    for k in 0..8 {
        cache.insert(k, k.to_string());
    }
    assert_eq!(cache.len(), 8);
    for k in 0..8 {
        assert_eq!(cache.get(&k).as_deref(), Some(&k.to_string()));
    }
}

#[test]
fn handles_outlive_eviction() {
    let mut cache = ConcurrentTimedCacheV2::<i32, String>::new(Some(1));
    cache.insert(1, "kept".to_string());
    let handle = cache.get(&1).unwrap();
    cache.insert(2, "new".to_string());
    assert_eq!(cache.get(&1), None);
    assert_eq!(handle.as_str(), "kept");
    assert_eq!(cache.remove(&2).as_deref(), Some(&"new".to_string()));
    assert!(cache.is_empty());
    cache.insert(3, "z".to_string());
    cache.clear();
    assert_eq!(cache.len(), 0);
}

#[test]
fn timed_key_exposes_its_raw_key() {
    let k = TimedKey::create_now(42usize);
    assert_eq!(*k.key(), 42);
    assert!(k.instant().elapsed().as_secs() < 60);
}

#[test]
fn sequential_workloads_run() {
    queued_cache_sequential((4, 20, 3));
    queued_lookup_cache_sequential((4, 20, 3));
    queued_cache_sequential((8, 0, 0));
}

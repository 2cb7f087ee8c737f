use modular_cache::queued_cache::{ConcurrentQueuedCache, QueuedCache, QueuedLookupCache};
use modular_cache::timed_cache::{ConcurrentTimedCache, TimedCache, TimedCacheV2};

#[test]
fn lib_timed_cache_init() {
    let mut cache = TimedCache::<i32, String>::new(Some(4));
    cache.insert(1, "How".to_string());
    cache.insert(2, "Hi".to_string());
    cache.insert(3, "Are".to_string());
    cache.insert(4, "You".to_string());
    cache.insert(5, "Doing".to_string());
    cache.insert(2, "How".to_string());

    assert_eq!(cache.len(), 4);

    assert_eq!(cache.get(&1), None);
    assert_eq!(cache.get(&2).cloned(), Some("How".to_string()));
    assert_eq!(cache.get(&3).cloned(), Some("Are".to_string()));
    assert_eq!(cache.get(&4).cloned(), Some("You".to_string()));
    assert_eq!(cache.get(&5).cloned(), Some("Doing".to_string()));
}

#[test]
fn queued_cache_init() {
    let mut cache = QueuedCache::<i32, i32, String>::new(Some(4));
    cache.insert(1, "How".to_string());
    cache.insert(2, "Hi".to_string());
    cache.insert(3, "Are".to_string());
    cache.insert(4, "You".to_string());
    cache.insert(5, "Doing".to_string());
    cache.insert(2, "How".to_string());

    assert_eq!(cache.len(), 4);

    assert_eq!(cache.get(&1), None);
    assert_eq!(cache.get(&2).cloned(), Some("How".to_string()));
    assert_eq!(cache.get(&3).cloned(), Some("Are".to_string()));
    assert_eq!(cache.get(&4).cloned(), Some("You".to_string()));
    assert_eq!(cache.get(&5).cloned(), Some("Doing".to_string()));
}

#[test]
fn concurrent_queued_cache_init() {
    let cache = ConcurrentQueuedCache::<i32, i32, String>::new(Some(4));
    cache.insert(1, "How".to_string());
    cache.insert(2, "Hi".to_string());
    cache.insert(3, "Are".to_string());
    cache.insert(4, "You".to_string());
    cache.insert(5, "Doing".to_string());
    cache.insert(2, "How".to_string());

    assert_eq!(cache.len(), 4);

    assert_eq!(cache.get(&1).clone(), None);
    assert_eq!(cache.get(&2).as_deref(), Some(&"How".to_string()));
    assert_eq!(cache.get(&3).as_deref(), Some(&"Are".to_string()));
    assert_eq!(cache.get(&4).as_deref(), Some(&"You".to_string()));
    assert_eq!(cache.get(&5).as_deref(), Some(&"Doing".to_string()));
}

#[test]
fn queued_lookup_cache_init() {
    let mut cache = QueuedLookupCache::<i32, i32, String>::new(Some(4));
    cache.insert(1, "How".to_string());
    cache.insert(2, "Hi".to_string());
    cache.insert(3, "Are".to_string());
    cache.insert(4, "You".to_string());
    cache.insert(5, "Doing".to_string());
    cache.insert(2, "How".to_string());

    assert_eq!(cache.len(), 4);

    assert_eq!(cache.get(&1), None);
    assert_eq!(cache.get(&2).cloned(), Some("How".to_string()));
    assert_eq!(cache.get(&3).cloned(), Some("Are".to_string()));
    assert_eq!(cache.get(&4).cloned(), Some("You".to_string()));
    assert_eq!(cache.get(&5).cloned(), Some("Doing".to_string()));
}

#[test]
fn timed_cache_timed_cache_init() {
    let mut cache = TimedCache::<i32, String>::new(Some(4));
    cache.insert(1, "How".to_string());
    cache.insert(2, "Hi".to_string());
    cache.insert(3, "Are".to_string());
    cache.insert(4, "You".to_string());
    cache.insert(5, "Doing".to_string());
    cache.insert(2, "How".to_string());

    assert_eq!(cache.len(), 4);

    assert_eq!(cache.get(&1), None);
    assert_eq!(cache.get(&2).cloned(), Some("How".to_string()));
    assert_eq!(cache.get(&3).cloned(), Some("Are".to_string()));
    assert_eq!(cache.get(&4).cloned(), Some("You".to_string()));
    assert_eq!(cache.get(&5).cloned(), Some("Doing".to_string()));
}

#[test]
fn concurrent_timed_cache_init() {
    let cache = ConcurrentTimedCache::<i32, String>::new(Some(4));
    cache.insert(1, "How".to_string());
    cache.insert(2, "Hi".to_string());
    cache.insert(3, "Are".to_string());
    cache.insert(4, "You".to_string());
    cache.insert(5, "Doing".to_string());
    cache.insert(2, "How".to_string());

    assert_eq!(cache.len(), 4);

    assert_eq!(cache.get(&1).clone(), None);
    assert_eq!(cache.get(&2).as_deref(), Some(&"How".to_string()));
    assert_eq!(cache.get(&3).as_deref(), Some(&"Are".to_string()));
    assert_eq!(cache.get(&4).as_deref(), Some(&"You".to_string()));
    assert_eq!(cache.get(&5).as_deref(), Some(&"Doing".to_string()));
}

#[test]
fn timed_cache_v2_init() {
    let mut cache = TimedCacheV2::<i32, String>::new(Some(4));
    cache.insert(1, "How".to_string());
    cache.insert(2, "Hi".to_string());
    cache.insert(3, "Are".to_string());
    cache.insert(4, "You".to_string());
    cache.insert(5, "Doing".to_string());
    cache.insert(2, "How".to_string());

    assert_eq!(cache.len(), 4);

    assert_eq!(cache.get(&1), None);
    assert_eq!(cache.get(&2).cloned(), Some("How".to_string()));
    assert_eq!(cache.get(&3).cloned(), Some("Are".to_string()));
    assert_eq!(cache.get(&4).cloned(), Some("You".to_string()));
    assert_eq!(cache.get(&5).cloned(), Some("Doing".to_string()));
}

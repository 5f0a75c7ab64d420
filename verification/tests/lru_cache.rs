use memory_box::LruCache;

#[test]
fn lru_cache_works() {
    let mut cache = LruCache::new(3);

    // Insert values into the cache
    cache.insert(1, "one".to_string());
    cache.insert(2, "two".to_string());
    cache.insert(3, "three".to_string());

    // Access values
    assert_eq!(cache.get(2), Some("two".to_string()));
    assert_eq!(cache.get(4), None);

    // Insert another value, causing eviction of key 1
    cache.insert(4, "four".to_string());
    assert_eq!(cache.get(1), None);

    // Verify remaining keys
    assert_eq!(cache.get(3), Some("three".to_string()));
    assert_eq!(cache.get(4), Some("four".to_string()));
}

#[test]
fn promoted_key_survives_eviction() {
    let mut cache = LruCache::new(2);
    cache.insert(1, "a".to_string());
    cache.insert(2, "b".to_string());

    // Reading key 1 promotes it, so key 2 becomes least-recently-used.
    assert_eq!(cache.get(1), Some("a".to_string()));

    cache.insert(3, "c".to_string());
    assert_eq!(cache.get(2), None);
    assert_eq!(cache.get(1), Some("a".to_string()));
    assert_eq!(cache.get(3), Some("c".to_string()));
}

#[test]
fn size_never_exceeds_capacity() {
    let mut cache = LruCache::new(3);
    let mut k: u64 = 0;
    while k < 10 {
        cache.insert(k, format!("value{}", k));
        assert!(cache.len() <= 3);
        k += 1;
    }
    assert_eq!(cache.len(), 3);
}

#[test]
fn reinsert_overwrites_without_growth() {
    let mut cache = LruCache::new(2);
    cache.insert(1, "x".to_string());
    assert_eq!(cache.len(), 1);
    cache.insert(1, "y".to_string());
    assert_eq!(cache.len(), 1);
    assert_eq!(cache.get(1), Some("y".to_string()));
}

#[test]
fn remove_returns_the_value_once() {
    let mut cache = LruCache::new(2);
    cache.insert(1, "one".to_string());
    cache.insert(2, "two".to_string());
    assert_eq!(cache.remove(1), Some("one".to_string()));
    assert_eq!(cache.remove(1), None);
    assert_eq!(cache.get(1), None);
    assert_eq!(cache.len(), 1);
}

#[test]
fn removed_key_frees_a_slot() {
    let mut cache = LruCache::new(2);
    cache.insert(1, "one".to_string());
    cache.insert(2, "two".to_string());
    assert_eq!(cache.remove(1), Some("one".to_string()));
    cache.insert(3, "three".to_string());
    // No eviction was needed, so key 2 is still present.
    assert_eq!(cache.get(2), Some("two".to_string()));
    assert_eq!(cache.get(3), Some("three".to_string()));
}

#[test]
fn zero_capacity_stores_nothing() {
    let mut cache = LruCache::new(0);
    cache.insert(1, "one".to_string());
    assert_eq!(cache.len(), 0);
    assert_eq!(cache.get(1), None);
    assert_eq!(cache.remove(1), None);
}

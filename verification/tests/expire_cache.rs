use memory_box::CacheError;
use memory_box::ExpireCache;
use memory_box::MAX_TTL;

#[test]
fn test_expire_cache() {
    let mut cache = ExpireCache::new();

    assert_eq!(cache.insert("key1".to_string(), "value1".to_string(), 2, 0), Ok(()));
    assert_eq!(cache.insert("key2".to_string(), "value2".to_string(), 1, 0), Ok(()));

    assert_eq!(cache.get(&"key1".to_string(), 0), Some("value1".to_string()));
    assert_eq!(cache.get(&"key2".to_string(), 0), Some("value2".to_string()));

    // One time-unit later key2's deadline (instant 1) has been reached.
    assert_eq!(cache.get(&"key1".to_string(), 1), Some("value1".to_string()));
    assert_eq!(cache.get(&"key2".to_string(), 1), None);

    // One more and key1 (instant 2) is gone too.
    assert_eq!(cache.get(&"key1".to_string(), 2), None);
}

#[test]
fn ttl_over_ceiling_is_invalid_configuration() {
    let mut cache = ExpireCache::new();
    assert_eq!(MAX_TTL, 60);
    let result = cache.insert("k".to_string(), "v".to_string(), 61, 0);
    assert_eq!(result, Err(CacheError::InvalidConfiguration));
    // The failed insert stored nothing.
    assert_eq!(cache.len(), 0);
    assert_eq!(cache.get(&"k".to_string(), 0), None);
}

#[test]
fn ttl_at_ceiling_is_accepted() {
    let mut cache = ExpireCache::new();
    assert_eq!(cache.insert("k".to_string(), "v".to_string(), 60, 0), Ok(()));
    assert_eq!(cache.get(&"k".to_string(), 59), Some("v".to_string()));
    // The expiry instant itself is already too late: a hard deadline.
    assert_eq!(cache.get(&"k".to_string(), 60), None);
}

#[test]
fn zero_ttl_expires_immediately() {
    let mut cache = ExpireCache::new();
    assert_eq!(cache.insert("k".to_string(), "v".to_string(), 0, 5), Ok(()));
    // The insert's own sweep already discarded the record.
    assert_eq!(cache.len(), 0);
    assert_eq!(cache.get(&"k".to_string(), 5), None);
}

#[test]
fn reinsert_overwrites_record() {
    let mut cache = ExpireCache::new();
    assert_eq!(cache.insert("k".to_string(), "a".to_string(), 5, 0), Ok(()));
    assert_eq!(cache.insert("k".to_string(), "b".to_string(), 10, 0), Ok(()));
    assert_eq!(cache.len(), 1);
    // At instant 7 only the overwritten record's expiry (10) still holds.
    assert_eq!(cache.get(&"k".to_string(), 7), Some("b".to_string()));
}

#[test]
fn insert_sweeps_expired_records() {
    let mut cache = ExpireCache::new();
    assert_eq!(cache.insert("stale".to_string(), "x".to_string(), 1, 0), Ok(()));
    assert_eq!(cache.insert("fresh".to_string(), "y".to_string(), 5, 3), Ok(()));
    // The sweep run by the second insert purged the expired record.
    assert_eq!(cache.len(), 1);
    assert_eq!(cache.remove(&"stale".to_string()), None);
    assert_eq!(cache.get(&"fresh".to_string(), 3), Some("y".to_string()));
}

#[test]
fn remove_returns_value_once() {
    let mut cache = ExpireCache::new();
    assert_eq!(cache.insert("k".to_string(), "v".to_string(), 10, 0), Ok(()));
    assert_eq!(cache.remove(&"k".to_string()), Some("v".to_string()));
    assert_eq!(cache.remove(&"k".to_string()), None);
    assert_eq!(cache.get(&"k".to_string(), 0), None);
}

#[test]
fn remove_is_unconditional() {
    let mut cache = ExpireCache::new();
    assert_eq!(cache.insert("k".to_string(), "v".to_string(), 1, 0), Ok(()));
    // No sweep runs before an explicit removal: it returns the prior value
    // whatever the clock would say.
    assert_eq!(cache.remove(&"k".to_string()), Some("v".to_string()));
    assert_eq!(cache.len(), 0);
}

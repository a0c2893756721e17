//! Scenarios for the cache contract and the unbounded cache.

use blockstore::{
    new_cache_for_test, new_non_persistent_cache_for_test, Cache, CacheConfig, CacheError,
    ErrorCodes, UnboundedCache, UnboundedCacheConfig,
};

#[test]
fn cache_insert_then_get() {
    let mut c: UnboundedCache<u32, String> = new_cache_for_test();
    c.insert(1, "one".to_string());
    assert_eq!(c.get(&1).unwrap(), Some("one".to_string()));
    assert_eq!(c.get(&2).unwrap(), None);
}

#[test]
fn cache_insert_overwrites() {
    let mut c: UnboundedCache<u32, u32> = new_non_persistent_cache_for_test();
    c.insert(1, 10);
    c.insert(1, 20);
    assert_eq!(c.get(&1).unwrap(), Some(20));
}

#[test]
fn cache_remove_and_clear() {
    let mut c: UnboundedCache<u32, u32> = UnboundedCache::new(&UnboundedCacheConfig::default());
    c.insert(1, 10);
    c.insert(2, 20);
    c.remove(&1);
    assert_eq!(c.get(&1).unwrap(), None);
    assert_eq!(c.get(&2).unwrap(), Some(20));
    c.clear().unwrap();
    assert_eq!(c.get(&2).unwrap(), None);
}

#[test]
fn cache_may_contain_and_obtain() {
    let mut c: UnboundedCache<String, u32> = new_cache_for_test();
    c.insert("k".to_string(), 7);
    assert!(c.may_contain(&"k".to_string()));
    assert!(!c.may_contain(&"missing".to_string()));
    assert_eq!(c.obtain("k".to_string()).unwrap(), Some(7));
}

#[test]
fn cache_error_codes() {
    let e = CacheError::InvalidCacheConfig("bad".to_string());
    assert_eq!(e.code(), ErrorCodes::InvalidArgument);
    let d = CacheError::DiskError(anyhow::Error::msg("io"));
    assert_eq!(d.code(), ErrorCodes::Unavailable);
}

#[test]
fn cache_config_default_is_nop() {
    let c = CacheConfig::default();
    assert!(matches!(c, CacheConfig::Nop));
}

use crates_proxy::cache::{CacheError, CacheManager};

#[test]
fn write_then_read_round_trip() {
    let mut cache = CacheManager::new("./cache", 3600).unwrap();
    let bytes = vec![0x1f, 0x8b, 1, 2, 3];
    cache.save_to_cache("foo", "1.0.0", "foo-1.0.0.crate", &bytes, 1000).unwrap();
    let back = cache.get_cached_content("foo", "1.0.0", "foo-1.0.0.crate").unwrap();
    assert_eq!(back, bytes);
}

#[test]
fn overwrite_keeps_last_content() {
    let mut cache = CacheManager::new("./cache", 3600).unwrap();
    cache.save_to_cache("foo", "1.0.0", "f", &[1, 2], 1000).unwrap();
    cache.save_to_cache("foo", "1.0.0", "f", &[9], 2000).unwrap();
    assert_eq!(cache.get_cached_content("foo", "1.0.0", "f").unwrap(), vec![9]);
}

#[test]
fn cached_implies_readable() {
    let mut cache = CacheManager::new("./cache", 1).unwrap();
    cache.save_to_cache("foo", "1.0.0", "f", &[7], 0).unwrap();
    // Present entries are served even past their TTL: presence alone gates
    // the read path.
    assert!(cache.is_cached("foo", "1.0.0", "f"));
    assert!(cache.get_cached_content("foo", "1.0.0", "f").is_ok());
    assert!(!cache.is_cached("bar", "1.0.0", "f"));
    match cache.get_cached_content("bar", "1.0.0", "f") {
        Err(CacheError::PathError(_)) => {}
        _ => panic!("absent entries must be a path error"),
    }
}

#[test]
fn cache_path_is_pure_join() {
    let cache = CacheManager::new("./cache", 3600).unwrap();
    assert_eq!(cache.get_cache_path("foo", "1.0.0", "foo-1.0.0.crate"), "./cache/foo/1.0.0/foo-1.0.0.crate");
}

#[test]
fn expiry_is_ttl_after_creation() {
    let cache = CacheManager::new("./cache", 100).unwrap();
    assert!(!cache.is_expired(1000, 1100));
    assert!(cache.is_expired(1000, 1101));
}

#[test]
fn sweep_removes_only_expired_entries() {
    let mut cache = CacheManager::new("./cache", 100).unwrap();
    cache.save_to_cache("old", "1", "f", &[1], 0).unwrap();
    cache.save_to_cache("new", "1", "f", &[2], 950).unwrap();
    cache.clear_expired_cache(1000).unwrap();
    assert!(!cache.is_cached("old", "1", "f"));
    assert!(cache.is_cached("new", "1", "f"));
    assert_eq!(cache.get_cached_content("new", "1", "f").unwrap(), vec![2]);
}

#[test]
fn stats_count_valid_and_expired() {
    let mut cache = CacheManager::new("./cache", 100).unwrap();
    cache.save_to_cache("a", "1", "f", &[1, 2, 3], 0).unwrap();
    cache.save_to_cache("b", "1", "f", &[4, 5], 950).unwrap();
    let stats = cache.get_cache_stats(1000).unwrap();
    assert_eq!(stats.total_files, 2);
    assert_eq!(stats.expired_files, 1);
    assert_eq!(stats.valid_files, 1);
    assert_eq!(stats.total_size, 5);
}

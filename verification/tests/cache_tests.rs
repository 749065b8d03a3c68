use sb::DirectoryCache;

/// A cache wrapper that tracks how much memory its values take.
#[allow(dead_code)]
struct MemoryBoundedCache {
    max_items: usize,
    current_size: usize,
    max_memory: usize,
}

impl MemoryBoundedCache {
    fn new(max_items: usize, max_memory: usize) -> Self {
        Self { max_items, current_size: 0, max_memory }
    }

    fn can_insert(&self, size: usize) -> bool {
        self.current_size + size <= self.max_memory
    }
}

#[test]
fn test_cache_memory_bounds() {
    // Test that cache respects memory bounds
    let max_cache_memory: usize = 1024 * 1024; // 1MB

    let cache = MemoryBoundedCache::new(100, max_cache_memory);

    // Test boundary conditions
    assert!(cache.can_insert(max_cache_memory - 1));
    assert!(cache.can_insert(max_cache_memory));
    assert!(!cache.can_insert(max_cache_memory + 1));
}

#[test]
fn test_cache_basic_operations() {
    let mut cache = DirectoryCache::new(60, 10);
    let path = "/tmp/cache-basic";

    let items = vec!["test1".to_string(), "test2".to_string()];

    // Insert and retrieve: same time, same modification time.
    cache.insert(path, items.clone(), 100, Some(50));
    assert!(cache.get(path, 100, Some(50)).is_some());
    assert_eq!(cache.len(), 1);
}

#[test]
fn cache_test_cache_expiration() {
    let mut cache = DirectoryCache::new(1, 10); // 1 second TTL
    let path = "/tmp/cache-expiry";

    let items = vec!["test".to_string()];

    cache.insert(path, items, 100, Some(50));
    assert!(cache.get(path, 100, Some(50)).is_some());

    // Two seconds later the TTL has elapsed.
    assert!(cache.get(path, 102, Some(50)).is_none());
}

#[test]
fn test_cache_invalidation() {
    let mut cache = DirectoryCache::new(60, 10);
    let path = "/test/path";
    let parent = "/test";

    let items = vec!["test".to_string()];

    cache.insert(path, items.clone(), 100, Some(50));
    cache.insert(parent, items, 100, Some(50));

    assert_eq!(cache.len(), 2);

    // Invalidating the child path also invalidates the parent.
    cache.invalidate(path);
    assert!(cache.get(path, 100, Some(50)).is_none());
    assert!(cache.get(parent, 100, Some(50)).is_none());
}

#[test]
fn test_cache_max_entries() {
    let mut cache = DirectoryCache::new(60, 3); // Max 3 entries

    for i in 0..5u64 {
        let path = format!("/test/path{}", i);
        let items = vec![format!("test{}", i)];
        cache.insert(&path, items, 100 + i, Some(50));
    }

    // Only 3 entries remain (oldest evicted).
    assert_eq!(cache.len(), 3);
}

#[test]
fn insert_then_get_returns_inserted_listing() {
    let mut cache = DirectoryCache::new(300, 100);
    let items = vec!["a.md".to_string(), "b.md".to_string()];
    cache.insert("/docs", items.clone(), 1000, Some(900));
    assert_eq!(cache.get("/docs", 1000, Some(900)), Some(items));
}

#[test]
fn entry_expires_exactly_past_ttl() {
    let mut cache = DirectoryCache::new(30, 100);
    cache.insert("/docs", vec!["a".to_string()], 1000, Some(900));
    // At the TTL boundary the entry still answers; one second past it, no more.
    assert!(cache.get("/docs", 1030, Some(900)).is_some());
    assert!(cache.get("/docs", 1031, Some(900)).is_none());
}

#[test]
fn advanced_mtime_invalidates_within_ttl() {
    let mut cache = DirectoryCache::new(300, 100);
    cache.insert("/docs", vec!["a".to_string()], 1000, Some(900));
    // Well within TTL, but the directory was modified after caching.
    assert!(cache.get("/docs", 1001, Some(901)).is_none());
    // An unchanged directory still answers.
    assert!(cache.get("/docs", 1001, Some(900)).is_some());
}

#[test]
fn unavailable_mtime_is_a_miss() {
    let mut cache = DirectoryCache::new(300, 100);
    cache.insert("/docs", vec!["a".to_string()], 1000, Some(900));
    assert!(cache.get("/docs", 1001, None).is_none());
}

#[test]
fn insert_without_mtime_records_now() {
    let mut cache = DirectoryCache::new(300, 100);
    // Metadata unavailable at insert: the recorded mtime falls back to `now`.
    cache.insert("/docs", vec!["a".to_string()], 1000, None);
    assert!(cache.get("/docs", 1000, Some(1000)).is_some());
    assert!(cache.get("/docs", 1000, Some(1001)).is_none());
}

#[test]
fn clock_gone_backwards_is_a_miss() {
    let mut cache = DirectoryCache::new(300, 100);
    cache.insert("/docs", vec!["a".to_string()], 1000, Some(900));
    assert!(cache.get("/docs", 999, Some(900)).is_none());
}

#[test]
fn full_cache_evicts_smallest_cached_at() {
    let mut cache = DirectoryCache::new(300, 3);
    cache.insert("/b", vec!["b".to_string()], 20, Some(1));
    cache.insert("/a", vec!["a".to_string()], 10, Some(1));
    cache.insert("/c", vec!["c".to_string()], 30, Some(1));
    assert_eq!(cache.len(), 3);

    // Capacity + 1st distinct path: the entry with the smallest cached_at
    // ("/a", cached at 10) is the one evicted.
    cache.insert("/d", vec!["d".to_string()], 40, Some(1));
    assert_eq!(cache.len(), 3);
    assert!(cache.get("/a", 41, Some(1)).is_none());
    assert!(cache.get("/b", 41, Some(1)).is_some());
    assert!(cache.get("/c", 41, Some(1)).is_some());
    assert!(cache.get("/d", 41, Some(1)).is_some());
}

#[test]
fn eviction_tie_takes_first_inserted() {
    let mut cache = DirectoryCache::new(300, 2);
    cache.insert("/x", vec!["x".to_string()], 10, Some(1));
    cache.insert("/y", vec!["y".to_string()], 10, Some(1));
    cache.insert("/z", vec!["z".to_string()], 11, Some(1));
    assert!(cache.get("/x", 12, Some(1)).is_none());
    assert!(cache.get("/y", 12, Some(1)).is_some());
    assert!(cache.get("/z", 12, Some(1)).is_some());
}

#[test]
fn reinserting_a_path_replaces_its_entry() {
    let mut cache = DirectoryCache::new(300, 10);
    cache.insert("/docs", vec!["old".to_string()], 10, Some(1));
    cache.insert("/docs", vec!["new".to_string()], 20, Some(2));
    assert_eq!(cache.len(), 1);
    assert_eq!(cache.get("/docs", 20, Some(2)), Some(vec!["new".to_string()]));
}

#[test]
fn invalidate_unknown_path_is_safe() {
    let mut cache = DirectoryCache::new(300, 10);
    cache.insert("/kept", vec!["k".to_string()], 10, Some(1));
    cache.invalidate("/never/inserted");
    assert_eq!(cache.len(), 1);
    assert!(cache.get("/kept", 10, Some(1)).is_some());
}

#[test]
fn default_cache_holds_five_minutes_of_entries() {
    let mut cache = DirectoryCache::default();
    cache.insert("/docs", vec!["a".to_string()], 0, Some(0));
    assert!(cache.get("/docs", 300, Some(0)).is_some());
    assert!(cache.get("/docs", 301, Some(0)).is_none());
}

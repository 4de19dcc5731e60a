use explorer_core::cache::FileCache;

#[test]
fn test_file_cache_set_and_get() {
    let mut cache = FileCache::new();
    let path = "test_path".to_string();
    let content = "test_content".to_string();

    cache.set(path.clone(), content.clone());
    assert_eq!(cache.get(&path), Some(content));
}

#[test]
fn test_file_cache_nonexistent_path() {
    let cache = FileCache::new();
    assert_eq!(cache.get(&"nonexistent_path".to_string()), None);
}

#[test]
fn test_cache_expiry_at_window() {
    let mut cache = FileCache::new();
    cache.set_at("p".to_string(), "c".to_string(), 100);
    // Strictly inside the freshness window: served.
    assert_eq!(cache.get_at(&"p".to_string(), 100), Some("c".to_string()));
    assert_eq!(cache.get_at(&"p".to_string(), 104), Some("c".to_string()));
    // Window elapsed: treated as absent.
    assert_eq!(cache.get_at(&"p".to_string(), 105), None);
    assert_eq!(cache.get_at(&"p".to_string(), 1000), None);
}

#[test]
fn test_cache_clock_backward_counts_as_fresh() {
    let mut cache = FileCache::new();
    cache.set_at("p".to_string(), "c".to_string(), 100);
    assert_eq!(cache.get_at(&"p".to_string(), 95), Some("c".to_string()));
}

#[test]
fn test_cache_last_write_wins() {
    let mut cache = FileCache::new();
    cache.set_at("p".to_string(), "first".to_string(), 10);
    cache.set_at("p".to_string(), "second".to_string(), 20);
    assert_eq!(cache.get_at(&"p".to_string(), 21), Some("second".to_string()));
    cache.set_at("q".to_string(), "other".to_string(), 21);
    assert_eq!(cache.get_at(&"p".to_string(), 22), Some("second".to_string()));
    assert_eq!(cache.get_at(&"q".to_string(), 22), Some("other".to_string()));
}

use slang_preview::cache::CompileCache;

#[test]
fn a_fresh_cache_is_empty_and_has_compiled_nothing() {
    let cache: CompileCache<String> = CompileCache::new();
    assert!(cache.is_empty());
    assert_eq!(cache.len(), 0);
    assert_eq!(cache.compile_count(), 0);
    assert_eq!(cache.lookup(7), None);
}

#[test]
fn a_recorded_compile_is_a_hit_next_time() {
    let mut cache: CompileCache<String> = CompileCache::new();
    assert!(cache.lookup(42).is_none());
    cache.record_compile(42, "shader".to_string());
    assert_eq!(cache.lookup(42).map(String::as_str), Some("shader"));
    assert_eq!(cache.lookup(43), None);
    assert_eq!(cache.compile_count(), 1);
    assert_eq!(cache.len(), 1);
    assert!(!cache.is_empty());
}

#[test]
fn distinct_keys_are_distinct_entries_and_recompiles_replace() {
    let mut cache: CompileCache<u32> = CompileCache::new();
    cache.record_compile(1, 10);
    cache.record_compile(2, 20);
    cache.record_compile(1, 11);
    assert_eq!(cache.len(), 2);
    assert_eq!(cache.compile_count(), 3);
    assert_eq!(cache.lookup(1), Some(&11));
    assert_eq!(cache.lookup(2), Some(&20));
}

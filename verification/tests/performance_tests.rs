use gren_lsp::performance::{
    calculate_content_hash, CachedReferenceResult, ParseTreeCache, ParseTreeCacheKey,
    PerformanceManager, ReferenceCache, ReferenceCacheKey,
};
use gren_lsp::protocol::{Location, Position, Range};

const MINUTE_NANOS: u128 = 60_000_000_000;

fn key(name: &str, version: u64) -> ReferenceCacheKey {
    ReferenceCacheKey { symbol_name: name.to_string(), workspace_version: version }
}

fn location(uri: &str, line: u32) -> Location {
    Location {
        uri: uri.to_string(),
        range: Range {
            start: Position { line, character: 0 },
            end: Position { line, character: 4 },
        },
    }
}

#[test]
fn test_content_hash() {
    let content1 = "hello world";
    let content2 = "hello world";
    let content3 = "different content";

    assert_eq!(calculate_content_hash(content1), calculate_content_hash(content2));
    assert_ne!(calculate_content_hash(content1), calculate_content_hash(content3));
}

#[test]
fn test_reference_cache() {
    let mut cache = ReferenceCache::new(10);
    let key = ReferenceCacheKey { symbol_name: "test".to_string(), workspace_version: 1 };

    // Cache miss
    assert!(cache.get(&key).is_none());

    // Add to cache
    let references = vec![];
    let result = CachedReferenceResult::new(references, MINUTE_NANOS);
    cache.put(key.clone(), result);

    // Cache hit
    assert!(cache.get(&key).is_some());

    let stats = cache.get_stats();
    assert_eq!(stats.hit_count, 1);
    assert_eq!(stats.miss_count, 1);
    assert_eq!(stats.size, 1);
}

#[test]
fn test_performance_manager() {
    let mut manager = PerformanceManager::new(10, 5);

    // Test workspace version increment
    let initial_version = manager.get_workspace_version();
    manager.increment_workspace_version();
    let new_version = manager.get_workspace_version();
    assert_eq!(new_version, initial_version + 1);

    // Test reference caching
    let references = vec![];
    manager.cache_references("test".to_string(), references, MINUTE_NANOS);

    let cached = manager.get_cached_references("test");
    assert!(cached.is_some());

    // Test stats
    let stats = manager.get_performance_stats();
    assert_eq!(stats.workspace_version, new_version);
}

#[test]
fn cached_references_are_read_back() {
    let mut cache = ReferenceCache::new(4);
    let refs = vec![location("file:///a.gren", 3), location("file:///b.gren", 7)];
    cache.put(key("greet", 2), CachedReferenceResult::new(refs, MINUTE_NANOS));
    let found = cache.get(&key("greet", 2)).expect("hit");
    assert_eq!(found.get_references().len(), 2);
    assert_eq!(found.references[0].uri, "file:///a.gren");
    assert_eq!(found.references[1].range.start.line, 7);
    // Another version of the same symbol is another key.
    assert!(cache.get(&key("greet", 3)).is_none());
}

#[test]
fn full_cache_evicts_least_recently_used() {
    let mut cache = ReferenceCache::new(2);
    cache.put(key("a", 0), CachedReferenceResult::new(vec![], MINUTE_NANOS));
    cache.put(key("b", 0), CachedReferenceResult::new(vec![], MINUTE_NANOS));
    // Reading "a" makes "b" the least recently used entry.
    assert!(cache.get(&key("a", 0)).is_some());
    cache.put(key("c", 0), CachedReferenceResult::new(vec![], MINUTE_NANOS));
    assert_eq!(cache.get_stats().size, 2);
    assert!(cache.get(&key("b", 0)).is_none());
    assert!(cache.get(&key("a", 0)).is_some());
    assert!(cache.get(&key("c", 0)).is_some());
    assert_eq!(cache.get_stats().capacity, 2);
}

#[test]
fn invalidation_drops_older_versions_only() {
    let mut cache = ReferenceCache::new(8);
    cache.put(key("old", 1), CachedReferenceResult::new(vec![], MINUTE_NANOS));
    cache.put(key("current", 2), CachedReferenceResult::new(vec![], MINUTE_NANOS));
    cache.put(key("newer", 3), CachedReferenceResult::new(vec![], MINUTE_NANOS));
    cache.invalidate_workspace(2);
    assert_eq!(cache.get_stats().size, 2);
    assert!(cache.get(&key("old", 1)).is_none());
    assert!(cache.get(&key("current", 2)).is_some());
    assert!(cache.get(&key("newer", 3)).is_some());
}

#[test]
fn clear_resets_entries_and_counts() {
    let mut cache = ReferenceCache::new(3);
    cache.put(key("x", 0), CachedReferenceResult::new(vec![], MINUTE_NANOS));
    assert!(cache.get(&key("x", 0)).is_some());
    assert!(cache.get(&key("y", 0)).is_none());
    cache.clear();
    let stats = cache.get_stats();
    assert_eq!((stats.size, stats.hit_count, stats.miss_count), (0, 0, 0));
}

#[test]
fn expiry_is_decided_by_age_against_time_to_live() {
    let result = CachedReferenceResult::new(vec![], 1_000);
    assert!(!result.is_expired_after(1_000));
    assert!(result.is_expired_after(1_001));
    let lasting = CachedReferenceResult::new(vec![], MINUTE_NANOS);
    assert!(!lasting.is_expired());
}

#[test]
fn new_workspace_version_hides_older_cached_references() {
    let mut manager = PerformanceManager::new(4, 4);
    manager.cache_references("main".to_string(), vec![location("file:///m.gren", 1)], MINUTE_NANOS);
    assert_eq!(manager.get_cached_references("main").map(|v| v.len()), Some(1));
    manager.increment_workspace_version();
    assert!(manager.get_cached_references("main").is_none());
    let stats = manager.get_performance_stats();
    assert_eq!(stats.reference_cache.size, 0);
    assert_eq!(stats.reference_cache.hit_count, 1);
    assert_eq!(stats.reference_cache.miss_count, 1);
    assert_eq!(stats.workspace_version, 1);
}

#[test]
fn parse_tree_cache_counts_misses() {
    let mut cache = ParseTreeCache::new(2);
    let k = ParseTreeCacheKey { uri: "file:///a.gren".to_string(), content_hash: 42 };
    assert!(cache.get(&k).is_none());
    let stats = cache.get_stats();
    assert_eq!((stats.capacity, stats.size, stats.hit_count, stats.miss_count), (2, 0, 0, 1));
}

#[test]
fn clearing_all_caches_keeps_parse_tree_counts() {
    let mut manager = PerformanceManager::new(2, 2);
    assert!(manager.get_cached_parse_tree("file:///a.gren", 1).is_none());
    manager.cache_references("f".to_string(), vec![], MINUTE_NANOS);
    manager.clear_all_caches();
    let stats = manager.get_performance_stats();
    assert_eq!(stats.reference_cache.size, 0);
    assert_eq!(stats.parse_tree_cache.miss_count, 1);
}

#[test]
fn lookups_at_an_age_hit_only_within_the_time_to_live() {
    let mut cache = ReferenceCache::new(4);
    cache.put(key("greet", 1), CachedReferenceResult::new(vec![location("file:///g.gren", 3)], 1_000));
    let hit = cache.get_at_age(&key("greet", 1), 1_000).expect("hit at the time to live");
    assert_eq!(hit.references.len(), 1);
    assert_eq!(hit.references[0].range.start.line, 3);
    assert_eq!(hit.ttl_nanos, 1_000);
    assert!(cache.get_at_age(&key("greet", 1), 1_001).is_none());
    // The expired entry is gone.
    assert!(cache.get_at_age(&key("greet", 1), 0).is_none());
    let stats = cache.get_stats();
    assert_eq!((stats.size, stats.hit_count, stats.miss_count), (0, 1, 2));
    cache.put(key("never", 1), CachedReferenceResult::new(vec![], u128::MAX));
    assert!(cache.get(&key("never", 1)).is_some());
}

#[test]
fn manager_lookups_at_an_age() {
    let mut manager = PerformanceManager::new(4, 4);
    manager.cache_references("main".to_string(), vec![location("file:///m.gren", 1)], 50);
    assert_eq!(manager.get_cached_references_at_age("main", 50).map(|v| v.len()), Some(1));
    assert!(manager.get_cached_references_at_age("main", 51).is_none());
    assert!(manager.get_cached_references("main").is_none());
}

#[test]
fn batches_are_consecutive_runs() {
    use_batches();
}

fn use_batches() {
    let b = gren_lsp::performance::batch_chunks(vec![1, 2, 3, 4, 5], 2);
    assert_eq!(b, vec![vec![1, 2], vec![3, 4], vec![5]]);
    assert!(gren_lsp::performance::batch_chunks(Vec::<u8>::new(), 3).is_empty());
    assert_eq!(gren_lsp::performance::batch_chunks(vec!['a'], 3), vec![vec!['a']]);
}

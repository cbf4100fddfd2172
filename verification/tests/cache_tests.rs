use united_flarmnet::cache::Cache;

const HOUR: u64 = 60 * 60;

#[test]
fn test_missing_entry_needs_update() {
    let cache = Cache::new("ogn-ddb.json", HOUR);
    assert!(cache.needs_update(None, 1_700_000_000));
}

#[test]
fn test_entry_one_second_past_ttl_is_stale() {
    let cache = Cache::new("ogn-ddb.json", HOUR);
    let now = 1_700_000_000;
    assert!(cache.needs_update(Some(now - HOUR - 1), now));
}

#[test]
fn test_entry_within_ttl_is_fresh() {
    let cache = Cache::new("ogn-ddb.json", HOUR);
    let now = 1_700_000_000;
    assert!(!cache.needs_update(Some(now - HOUR + 1), now));
    // An age of exactly the ttl is still fresh: staleness is strict.
    assert!(!cache.needs_update(Some(now - HOUR), now));
}

#[test]
fn test_entry_modified_in_the_future_is_fresh() {
    // Elapsed time cannot be computed: fail open toward not refetching.
    let cache = Cache::new("ogn-ddb.json", HOUR);
    let now = 1_700_000_000;
    assert!(!cache.needs_update(Some(now + 50), now));
}

#[test]
fn test_cache_path_is_under_cache_dir() {
    let cache = Cache::new("flarmnet.fln", HOUR);
    assert_eq!(cache.path, ".cache/flarmnet.fln");
    assert_eq!(cache.cache_duration, HOUR);
}

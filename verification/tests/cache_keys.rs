use git_intel::cache::{cache_key, cache_serve, CacheEntry};

#[test]
fn cache_key_metrics_all() {
    assert_eq!(cache_key("metrics", None, None, None), "metrics-all-all.json");
}

#[test]
fn cache_key_metrics_since() {
    let key = cache_key("metrics", Some(1768435200), None, None);
    assert_eq!(key, "metrics-1768435200-all.json");
}

#[test]
fn cache_key_metrics_until() {
    let key = cache_key("metrics", None, Some(1768521599), None);
    assert_eq!(key, "metrics-all-1768521599.json");
}

#[test]
fn cache_key_metrics_since_until() {
    let key = cache_key("metrics", Some(1768435200), Some(1768521599), None);
    assert_eq!(key, "metrics-1768435200-1768521599.json");
}

#[test]
fn cache_key_lifecycle_files() {
    let files = vec!["src/main.rs".to_string(), "Cargo.toml".to_string()];
    let key = cache_key("lifecycle", None, None, Some(&files));
    assert!(key.starts_with("lifecycle-"));
    assert!(key.ends_with("-all-all.json"));
}

#[test]
fn cache_key_lifecycle_order_independent() {
    let files_a = vec!["a.rs".to_string(), "b.rs".to_string()];
    let files_b = vec!["b.rs".to_string(), "a.rs".to_string()];
    assert_eq!(
        cache_key("lifecycle", None, None, Some(&files_a)),
        cache_key("lifecycle", None, None, Some(&files_b))
    );
}

#[test]
fn cache_serve_round_trip_same_head() {
    let entry = Some(CacheEntry {
        head_commit: "abc123".to_string(),
        computed_at: "some time".to_string(),
        result: "{\"total_commits\": 5}".to_string(),
    });
    let served = cache_serve(&entry, &"abc123".to_string());
    assert_eq!(served, Some("{\"total_commits\": 5}".to_string()));
}

#[test]
fn cache_serve_stale_head_misses() {
    let entry = Some(CacheEntry {
        head_commit: "abc123".to_string(),
        computed_at: "some time".to_string(),
        result: "{\"total_commits\": 5}".to_string(),
    });
    assert_eq!(cache_serve(&entry, &"def456".to_string()), None);
}

#[test]
fn cache_serve_missing_entry_misses() {
    assert_eq!(cache_serve(&None, &"abc123".to_string()), None);
}

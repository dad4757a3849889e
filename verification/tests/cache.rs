use std::sync::Arc;

use cache_core::cache::normalize_args;
use cache_core::clock::{Clock, Moment, Span};
use cache_core::json::{parse_json, Json};
use cache_core::{Cache, CacheEntry};

fn args(text: &str) -> Json {
    parse_json(text).unwrap()
}

fn payload(text: &str) -> Arc<String> {
    Arc::new(text.to_string())
}

fn files(names: &[&str]) -> Vec<String> {
    names.iter().map(|n| n.to_string()).collect()
}

/// Some milliseconds after the origin of a clock.
fn at(millis: u64) -> Moment {
    Moment { nanos: 0 }.plus(Span::from_millis(millis))
}

#[test]
fn key_is_stable_for_equivalent_args() {
    let a = Json::Object(vec![
        ("repo".to_string(), Json::Text("ut".to_string())),
        ("query".to_string(), Json::Text("search_function".to_string())),
    ]);
    let b = Json::Object(vec![
        ("query".to_string(), Json::Text("search_function".to_string())),
        ("repo".to_string(), Json::Text("ut".to_string())),
    ]);
    assert_eq!(
        Cache::key_for("ci", "ut", "x", &a),
        Cache::key_for("ci", "ut", "x", &b),
    );
}

#[test]
fn key_starts_with_structural_prefix() {
    let args = args(r#"{"repo": "ut", "query": "X"}"#);
    let key = Cache::key_for("ci", "ut", "search_function", &args);
    assert!(
        key.starts_with("ci|ut|search_function|"),
        "structural prefix expected, got {key}"
    );
}

#[test]
fn scope_prefix_format() {
    assert_eq!(Cache::scope_prefix("ci", "ut"), "ci|ut|");
    assert_eq!(Cache::scope_prefix("1c", "smaks-ut"), "1c|smaks-ut|");
}

#[test]
fn keys_with_different_scope_differ() {
    let args = args(r#"{"query": "X"}"#);
    let k_ut = Cache::key_for("ci", "ut", "search_function", &args);
    let k_bp = Cache::key_for("ci", "bp-ss", "search_function", &args);
    assert_ne!(k_ut, k_bp);
    assert!(k_ut.starts_with("ci|ut|"));
    assert!(k_bp.starts_with("ci|bp-ss|"));
}

#[test]
fn key_ends_with_the_digest_of_the_sorted_arguments() {
    // SHA-256 of the text `null`.
    assert_eq!(
        Cache::key_for("ci", "", "get_stats", &Json::Null),
        "ci||get_stats|74234e98afe7498fb5daf1f36ac2d78acc339464f950703b8c019892f982b90b"
    );
    let nested = args(r#"{"b": [{"y": 1, "x": 2}], "a": null}"#);
    assert_eq!(normalize_args(&nested), r#"{"a":null,"b":[{"x":2,"y":1}]}"#);
}

#[test]
fn get_returns_none_after_ttl() {
    let mut cache = Cache::new();
    let key = "k1".to_string();
    cache.insert_at(key.clone(), payload("payload"), Span::from_millis(50), at(0));
    assert!(cache.get_at(&key, at(0)).is_some());
    assert!(cache.get_at(&key, at(49)).is_some());
    assert!(cache.get_at(&key, at(80)).is_none());
    assert_eq!(cache.len(), 0, "an expired entry is dropped when it is looked up");
}

#[test]
fn entry_expires_at_the_end_of_its_ttl() {
    let mut cache = Cache::new();
    cache.insert_at("k".to_string(), payload("p"), Span::from_millis(50), at(10));
    assert_eq!(*cache.get_at("k", at(59)).unwrap(), "p");
    assert!(cache.get_at("k", at(60)).is_none());

    let entry = CacheEntry::new(payload("p"), Span::from_millis(50), at(10));
    assert_eq!(entry.recorded_at, at(10));
    assert_eq!(entry.expires_at, at(60));
    assert!(entry.dependent_files.is_empty());
    assert!(!entry.is_expired(at(59)));
    assert!(entry.is_expired(at(60)));
}

#[test]
fn own_clock_is_read_when_no_moment_is_given() {
    let mut cache = Cache::with_clock(Clock::new());
    cache.insert("k".to_string(), payload("p"), Span::from_secs(60));
    cache.insert("gone".to_string(), payload("p"), Span::from_millis(0));
    assert_eq!(*cache.get("k").unwrap(), "p");
    let (text, deps) = cache.get_with_deps("k").unwrap();
    assert_eq!(*text, "p");
    assert!(deps.is_empty());
    assert_eq!(cache.evict_expired(), 1);
    assert!(cache.get("gone").is_none());
}

#[test]
fn evict_expired_drops_only_expired() {
    let mut cache = Cache::new();
    cache.insert_at("alive".to_string(), payload("p"), Span::from_secs(60), at(0));
    cache.insert_at("dead".to_string(), payload("p"), Span::from_millis(10), at(0));
    let removed = cache.evict_expired_at(at(40));
    assert_eq!(removed, 1);
    assert!(cache.get_at("alive", at(40)).is_some());
    assert!(cache.get_at("dead", at(40)).is_none());
}

#[test]
fn invalidate_where_drops_matched() {
    let mut cache = Cache::new();
    cache.insert("a1".to_string(), payload("p"), Span::from_secs(60));
    cache.insert("b2".to_string(), payload("p"), Span::from_secs(60));
    cache.insert("a3".to_string(), payload("p"), Span::from_secs(60));
    let removed = cache.invalidate_where(|k: &str| k.starts_with('a'));
    assert_eq!(removed, 2);
    assert!(cache.get("b2").is_some());
    assert!(cache.get("a1").is_none());
}

#[test]
fn insert_with_deps_registers_reverse_index() {
    let mut cache = Cache::new();
    cache.insert_with_deps(
        "key1".to_string(),
        payload("p"),
        Span::from_secs(60),
        files(&["src/X.bsl", "src/Y.bsl"]),
    );
    assert_eq!(cache.reverse_index_size(), 2);
    assert!(cache.get("key1").is_some());
}

#[test]
fn invalidate_files_drops_only_dependent_entries() {
    let mut cache = Cache::new();
    cache.insert_with_deps(
        "key_X".to_string(),
        payload("payload_x"),
        Span::from_secs(60),
        files(&["src/X.bsl"]),
    );
    cache.insert_with_deps(
        "key_Y".to_string(),
        payload("payload_y"),
        Span::from_secs(60),
        files(&["src/Y.bsl"]),
    );
    cache.insert_with_deps(
        "key_XY".to_string(),
        payload("payload_xy"),
        Span::from_secs(60),
        files(&["src/X.bsl", "src/Y.bsl"]),
    );

    let removed = cache.invalidate_files(&["src/X.bsl".to_string()]);
    assert_eq!(removed, 2, "key_X and key_XY go");
    assert!(cache.get("key_X").is_none());
    assert!(cache.get("key_XY").is_none());
    assert!(cache.get("key_Y").is_some(), "key_Y does not depend on X.bsl");
    assert_eq!(cache.reverse_index_size(), 1);
}

#[test]
fn invalidate_files_empty_paths_noop() {
    let mut cache = Cache::new();
    cache.insert_with_deps(
        "key1".to_string(),
        payload("p"),
        Span::from_secs(60),
        files(&["src/X.bsl"]),
    );
    let removed = cache.invalidate_files(&[]);
    assert_eq!(removed, 0);
    assert!(cache.get("key1").is_some());
}

#[test]
fn invalidate_files_unknown_path_noop() {
    let mut cache = Cache::new();
    cache.insert_with_deps(
        "key1".to_string(),
        payload("p"),
        Span::from_secs(60),
        files(&["src/X.bsl"]),
    );
    let removed = cache.invalidate_files(&["src/UNKNOWN.bsl".to_string()]);
    assert_eq!(removed, 0);
    assert!(cache.get("key1").is_some());
    assert_eq!(cache.reverse_index_size(), 1);
}

#[test]
fn invalidate_files_fully_cleans_reverse_index_from_dangling_refs() {
    let mut cache = Cache::new();
    cache.insert_with_deps(
        "key_multi".to_string(),
        payload("payload"),
        Span::from_secs(60),
        files(&["src/A.bsl", "src/B.bsl", "src/C.bsl", "src/D.bsl"]),
    );
    cache.insert_with_deps(
        "key_other".to_string(),
        payload("payload2"),
        Span::from_secs(60),
        files(&["src/B.bsl", "src/E.bsl"]),
    );
    assert_eq!(cache.reverse_index_size(), 5);

    let removed = cache.invalidate_files(&["src/A.bsl".to_string()]);
    assert_eq!(removed, 1, "only key_multi goes");
    assert!(cache.get("key_other").is_some(), "key_other stays");
    assert_eq!(cache.len(), 1);
    assert_eq!(
        cache.reverse_index_size(),
        2,
        "B and E stay, both linked to key_other"
    );

    let removed_again =
        cache.invalidate_files(&["src/C.bsl".to_string(), "src/D.bsl".to_string()]);
    assert_eq!(removed_again, 0, "no dangling links");
    assert_eq!(cache.reverse_index_size(), 2);
}

#[test]
fn evict_expired_cleans_reverse_index() {
    let mut cache = Cache::new();
    cache.insert_with_deps_at(
        "dead".to_string(),
        payload("p"),
        Span::from_millis(10),
        files(&["src/X.bsl"]),
        at(0),
    );
    cache.insert_with_deps_at(
        "alive".to_string(),
        payload("p"),
        Span::from_secs(60),
        files(&["src/Y.bsl"]),
        at(0),
    );
    assert_eq!(cache.reverse_index_size(), 2);

    let removed = cache.evict_expired_at(at(40));
    assert_eq!(removed, 1);
    assert_eq!(cache.reverse_index_size(), 1);
}

#[test]
fn invalidate_where_cleans_reverse_index() {
    let mut cache = Cache::new();
    cache.insert_with_deps(
        "ci|ut|grep_body|h1".to_string(),
        payload("p"),
        Span::from_secs(60),
        files(&["src/X.bsl"]),
    );
    cache.insert_with_deps(
        "ci|bp-ss|grep_body|h2".to_string(),
        payload("p"),
        Span::from_secs(60),
        files(&["src/Y.bsl"]),
    );
    let removed = cache.invalidate_where(|k: &str| k.starts_with("ci|ut|"));
    assert_eq!(removed, 1);
    assert_eq!(cache.reverse_index_size(), 1);
    assert!(cache.get("ci|bp-ss|grep_body|h2").is_some());
}

#[test]
fn invalidate_prefix_drops_one_scope() {
    let mut cache = Cache::new();
    cache.insert("ci|ut|grep_body|h1".to_string(), payload("p"), Span::from_secs(60));
    cache.insert("ci|ut2|grep_body|h1".to_string(), payload("p"), Span::from_secs(60));
    cache.insert("xci|ut|grep_body|h1".to_string(), payload("p"), Span::from_secs(60));
    let removed = cache.invalidate_prefix(&Cache::scope_prefix("ci", "ut"));
    assert_eq!(removed, 1);
    assert!(cache.get("ci|ut|grep_body|h1").is_none());
    assert!(cache.get("ci|ut2|grep_body|h1").is_some());
    assert!(cache.get("xci|ut|grep_body|h1").is_some());
}

#[test]
fn clear_drops_reverse_index_too() {
    let mut cache = Cache::new();
    cache.insert_with_deps(
        "key1".to_string(),
        payload("p"),
        Span::from_secs(60),
        files(&["src/X.bsl"]),
    );
    cache.clear();
    assert!(cache.is_empty());
    assert_eq!(cache.reverse_index_size(), 0);
}

#[test]
fn replacing_an_entry_replaces_its_links() {
    let mut cache = Cache::new();
    cache.insert_with_deps(
        "k".to_string(),
        payload("old"),
        Span::from_secs(60),
        files(&["src/A.bsl", "src/B.bsl"]),
    );
    cache.insert_with_deps(
        "k".to_string(),
        payload("new"),
        Span::from_secs(60),
        files(&["src/B.bsl", "src/B.bsl"]),
    );
    assert_eq!(cache.len(), 1);
    assert_eq!(cache.reverse_index_size(), 1);
    assert_eq!(cache.invalidate_files(&["src/A.bsl".to_string()]), 0);
    assert_eq!(*cache.get("k").unwrap(), "new");
    let (_, deps) = cache.get_with_deps("k").unwrap();
    assert_eq!(deps, files(&["src/B.bsl", "src/B.bsl"]));

    cache.insert("k".to_string(), payload("plain"), Span::from_secs(60));
    assert_eq!(cache.reverse_index_size(), 0);
}

#[test]
fn looking_up_an_expired_entry_drops_its_links() {
    let mut cache = Cache::new();
    cache.insert_with_deps_at(
        "k".to_string(),
        payload("p"),
        Span::from_millis(10),
        files(&["src/A.bsl"]),
        at(0),
    );
    assert!(cache.get_with_deps_at("k", at(10)).is_none());
    assert_eq!(cache.reverse_index_size(), 0);
}

#[test]
fn keys_of_different_tools_differ() {
    let a = args("{}");
    assert_ne!(Cache::key_for("ci", "ut", "x", &a), Cache::key_for("ci", "ut", "xy", &a));
}

#[test]
fn eviction_is_not_noticed_by_later_lookups() {
    let mut cache = Cache::new();
    cache.insert_at("a".to_string(), payload("p"), Span::from_millis(10), at(0));
    cache.insert_at("b".to_string(), payload("q"), Span::from_millis(30), at(0));
    assert_eq!(cache.evict_expired_at(at(20)), 1);
    assert_eq!(cache.evict_expired_at(at(20)), 0);
    assert!(cache.get_at("a", at(20)).is_none());
    assert_eq!(*cache.get_at("b", at(29)).unwrap(), "q");
}

#[test]
fn key_ends_with_64_hex_digits() {
    for text in ["null", "{}", r#"{"repo":"ut","names":["я","|"]}"#] {
        let key = Cache::key_for("ci", "ut", "get_class", &args(text));
        let digits = key.strip_prefix("ci|ut|get_class|").unwrap();
        assert_eq!(digits.len(), 64);
        assert!(digits.chars().all(|c| matches!(c, '0'..='9' | 'a'..='f')));
    }
}

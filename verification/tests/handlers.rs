use std::sync::Arc;

use cache_core::clock::{Clock, Moment, Span};
use cache_core::handlers::{
    freeze, freeze_at, health, health_at, invalidate, mark_dirty, mark_dirty_at, metrics,
    metrics_json, pick_scope, status, status_at, thaw, thaw_at, AppState, FreezeRequest,
    InvalidateRequest, MarkDirtyFile, MarkDirtyRequest, ThawRequest,
};
use cache_core::json::print_json;
use cache_core::{
    Cache, CacheProxy, DirtySet, FreezeController, Metrics, Policy, RevalConfig, SingleFlight,
};

fn at(millis: u64) -> Moment {
    Moment { nanos: 0 }.plus(Span::from_millis(millis))
}

fn some(text: &str) -> Option<String> {
    Some(text.to_string())
}

fn state() -> AppState {
    let clock = Clock::new();
    AppState {
        proxy: CacheProxy::new(
            "ci",
            vec!["repo".to_string()],
            Policy::default(),
            Cache::with_clock(clock),
            SingleFlight::new(),
            Metrics::new(),
            FreezeController::with_clock(clock),
            DirtySet::with_clock(clock),
            RevalConfig::default(),
        ),
        backend_url: "http://127.0.0.1:8011/mcp".to_string(),
    }
}

/// A state with answers under three keys.
fn filled() -> AppState {
    let mut s = state();
    for (key, file) in [
        ("ci|ut|a|1", "src/A.bsl"),
        ("ci|ut|b|2", "src/B.bsl"),
        ("ci|zup|a|3", "src/A.bsl"),
    ] {
        s.proxy.cache.insert_with_deps(
            key.to_string(),
            Arc::new("p".to_string()),
            Span::from_secs(60),
            vec![file.to_string()],
        );
    }
    s
}

fn nothing() -> InvalidateRequest {
    InvalidateRequest {
        scope: None,
        repo: None,
        base: None,
        key_prefix: None,
        all: false,
        file_paths: None,
        file_path: None,
    }
}

fn invalidated(s: &mut AppState, req: InvalidateRequest) -> String {
    print_json(&invalidate(s, req).unwrap())
}

#[test]
fn invalidate_drops_what_is_named() {
    let mut s = filled();
    let by_scope = InvalidateRequest { repo: some("ut"), ..nothing() };
    assert_eq!(
        invalidated(&mut s, by_scope),
        r#"{"cache_size":1,"removed":2,"reverse_index_size":1}"#
    );
    assert_eq!(s.proxy.metrics.cache_size, 1);

    let mut s = filled();
    let by_file = InvalidateRequest { file_path: some("src/A.bsl"), ..nothing() };
    assert_eq!(
        invalidated(&mut s, by_file),
        r#"{"cache_size":1,"removed":2,"reverse_index_size":1}"#
    );

    let mut s = filled();
    let by_files = InvalidateRequest {
        file_paths: Some(vec!["src/A.bsl".to_string(), "src/B.bsl".to_string()]),
        ..nothing()
    };
    assert_eq!(
        invalidated(&mut s, by_files),
        r#"{"cache_size":0,"removed":3,"reverse_index_size":0}"#
    );

    let mut s = filled();
    let by_prefix = InvalidateRequest { key_prefix: some("ci|ut|a|"), ..nothing() };
    assert_eq!(
        invalidated(&mut s, by_prefix),
        r#"{"cache_size":2,"removed":1,"reverse_index_size":2}"#
    );

    let mut s = filled();
    let all = InvalidateRequest { all: true, ..nothing() };
    assert_eq!(
        invalidated(&mut s, all),
        r#"{"cache_size":0,"removed":3,"reverse_index_size":0}"#
    );
}

#[test]
fn invalidate_takes_one_way_at_a_time() {
    // Files count before the scope, the scope before the key prefix.
    let mut s = filled();
    let req = InvalidateRequest {
        scope: some("zup"),
        file_paths: Some(Vec::new()),
        key_prefix: some("ci|"),
        ..nothing()
    };
    assert_eq!(
        invalidated(&mut s, req),
        r#"{"cache_size":3,"removed":0,"reverse_index_size":2}"#
    );
    let req = InvalidateRequest { scope: some("zup"), key_prefix: some("ci|"), ..nothing() };
    assert_eq!(
        invalidated(&mut s, req),
        r#"{"cache_size":2,"removed":1,"reverse_index_size":2}"#
    );
}

#[test]
fn invalidate_without_a_name_is_an_error() {
    let mut s = filled();
    let body = invalidate(&mut s, InvalidateRequest { scope: some(""), ..nothing() }).unwrap_err();
    assert_eq!(
        body.get("error").unwrap().as_str(),
        Some("укажите один из параметров: scope (синонимы repo/base), key_prefix, file_paths, file_path или all=true")
    );
    assert_eq!(s.proxy.cache.len(), 3);
}

#[test]
fn scope_is_the_first_name_that_is_not_empty() {
    assert_eq!(pick_scope(&some("s"), &some("r"), &some("b")), "s");
    assert_eq!(pick_scope(&some(""), &some("r"), &some("b")), "r");
    assert_eq!(pick_scope(&None, &some(""), &some("b")), "b");
    assert_eq!(pick_scope(&None, &None, &None), "");
}

#[test]
fn mark_dirty_marks_every_file() {
    let mut s = state();
    let req = MarkDirtyRequest {
        repo: some("ut"),
        base: some("ignored"),
        files: vec![
            MarkDirtyFile { path: "a".to_string(), mtime: 5 },
            MarkDirtyFile { path: "a".to_string(), mtime: 3 },
            MarkDirtyFile { path: "b".to_string(), mtime: 1 },
        ],
    };
    let body = mark_dirty_at(&mut s, req, at(0));
    assert_eq!(print_json(&body), r#"{"dirty_size":2,"marked":3,"scope":"ut"}"#);
    assert_eq!(s.proxy.dirty.observed("ut", "a"), Some(5));
    assert_eq!(s.proxy.dirty.observed("ut", "b"), Some(1));

    let by_base = MarkDirtyRequest {
        repo: None,
        base: some("zup"),
        files: vec![MarkDirtyFile { path: "a".to_string(), mtime: 9 }],
    };
    assert_eq!(
        print_json(&mark_dirty(&mut s, by_base)),
        r#"{"dirty_size":3,"marked":1,"scope":"zup"}"#
    );
    assert_eq!(s.proxy.dirty.observed("zup", "a"), Some(9));
}

#[test]
fn freeze_and_thaw_list_what_is_on() {
    let mut s = state();
    let req = FreezeRequest { scope: some("ut"), repo: None, base: None, duration_seconds: 60 };
    assert_eq!(
        print_json(&freeze_at(&mut s, req, at(0))),
        r#"{"active":[{"scope":"ut","ttl_remaining_seconds":60}],"duration_seconds":60,"frozen":true,"scope":"ut"}"#
    );
    let req = FreezeRequest { scope: None, repo: None, base: None, duration_seconds: 10 };
    freeze_at(&mut s, req, at(0));
    let req = ThawRequest { scope: None, repo: some("ut"), base: None, all: false };
    assert_eq!(
        print_json(&thaw_at(&mut s, req, at(2_500))),
        r#"{"active":[{"scope":"","ttl_remaining_seconds":7}],"thawed":"ut"}"#
    );
    let req = ThawRequest { scope: some("x"), repo: None, base: None, all: true };
    assert_eq!(print_json(&thaw_at(&mut s, req, at(2_500))), r#"{"active":[],"thawed":"all"}"#);
}

#[test]
fn freeze_and_thaw_read_the_clock() {
    let mut s = state();
    let req = FreezeRequest { scope: None, repo: None, base: some("ut"), duration_seconds: 600 };
    let body = freeze(&mut s, req);
    assert_eq!(body.get("scope").unwrap().as_str(), Some("ut"));
    assert!(s.proxy.freeze.is_frozen("ut").is_some());
    let req = ThawRequest { scope: some("ut"), repo: None, base: None, all: false };
    thaw(&mut s, req);
    assert!(s.proxy.freeze.is_frozen("ut").is_none());
}

#[test]
fn health_and_status_are_exact() {
    let mut s = filled();
    s.proxy.metrics.update_cache_size(3);
    s.proxy.metrics.record_hit();
    assert_eq!(
        print_json(&health_at(&s, "0.4.0", at(0))),
        r#"{"backend_url":"http://127.0.0.1:8011/mcp","cache_size":3,"frozen_scopes":[],"server_alias":"ci","status":"ok","version":"0.4.0"}"#
    );
    assert_eq!(
        print_json(&status_at(&s, at(0))),
        r#"{"backend_url":"http://127.0.0.1:8011/mcp","cache_size":3,"dirty_size":0,"frozen_scopes":[],"metrics":{"backend_errors":0,"bypass":0,"cache_hits":1,"cache_misses":0,"cache_size":3,"reverse_index_size":0},"server_alias":"ci"}"#
    );
    assert_eq!(print_json(&health(&s, "0.4.0")), print_json(&health_at(&s, "0.4.0", at(0))));
    assert_eq!(print_json(&status(&s)), print_json(&status_at(&s, at(0))));
}

#[test]
fn metrics_show_the_present_size_of_the_index() {
    let mut s = filled();
    assert_eq!(s.proxy.metrics.reverse_index_size, 0);
    let text = metrics(&mut s, "8.5");
    assert!(text.contains("cache_reverse_index_size{server=\"ci\"} 2\n"));
    assert!(text.contains("cache_backend_latency_ms_avg{server=\"ci\"} 8.5\n"));
    s.proxy.cache.clear();
    assert_eq!(
        print_json(&metrics_json(&mut s)),
        r#"{"backend_errors":0,"bypass":0,"cache_hits":0,"cache_misses":0,"cache_size":0,"reverse_index_size":0}"#
    );
}

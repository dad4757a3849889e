use std::sync::Arc;

use cache_core::clock::{Clock, Moment, Span};
use cache_core::json::{parse_json, Json};
use cache_core::proxy::{Action, Route};
use cache_core::{
    Cache, CacheProxy, DirtySet, FreezeController, Metrics, Policy, ProxyError, ProxyResult,
    RevalConfig, ScopePolicy, SingleFlight, ToolPolicy,
};

/// A backend that gives its responses in turn; the last one is repeated.
struct Backend {
    calls: usize,
    responses: Vec<String>,
}

impl Backend {
    fn new(responses: &[&str]) -> Backend {
        Backend { calls: 0, responses: responses.iter().map(|r| r.to_string()).collect() }
    }

    fn call(&mut self) -> Result<Arc<String>, String> {
        let i = self.calls.min(self.responses.len() - 1);
        self.calls += 1;
        Ok(Arc::new(self.responses[i].clone()))
    }
}

fn args(text: &str) -> Json {
    parse_json(text).unwrap()
}

fn at(millis: u64) -> Moment {
    Moment { nanos: 0 }.plus(Span::from_millis(millis))
}

fn build_with(policy: Policy, reval: RevalConfig) -> CacheProxy {
    let clock = Clock::new();
    CacheProxy::new(
        "ci",
        vec!["repo".to_string()],
        policy,
        Cache::with_clock(clock),
        SingleFlight::new(),
        Metrics::new(),
        FreezeController::with_clock(clock),
        DirtySet::with_clock(clock),
        reval,
    )
}

fn build_proxy(policy: Policy) -> CacheProxy {
    build_with(policy, RevalConfig::default())
}

fn build_proxy_reval(max_wait_ms: u64) -> CacheProxy {
    build_with(
        Policy::default(),
        RevalConfig {
            enabled: true,
            max_wait: Span::from_millis(max_wait_ms),
            retry_interval: Span::from_millis(5),
        },
    )
}

/// Carry a call out at `now`; pauses pass at once.
fn run(
    proxy: &mut CacheProxy,
    backend: &mut Backend,
    tool: &str,
    args: &Json,
    bypass: bool,
    start: Moment,
) -> ProxyResult {
    let mut now = start;
    let mut action = proxy.handle_at(tool, args, bypass, now);
    loop {
        action = match action {
            Action::Reply(payload) => return Ok(payload),
            Action::Refuse(error) => return Err(error),
            Action::Forward(route) => proxy.settle_at(route, backend.call(), now),
            Action::Retry(route, pause) => {
                now = now.plus(pause);
                proxy.settle_at(route, backend.call(), now)
            }
        };
    }
}

/// Carry a call out by the proxy's own clock.
fn run_now(
    proxy: &mut CacheProxy,
    backend: &mut Backend,
    tool: &str,
    args: &Json,
    bypass: bool,
) -> ProxyResult {
    let mut action = proxy.handle(tool, args, bypass);
    loop {
        action = match action {
            Action::Reply(payload) => return Ok(payload),
            Action::Refuse(error) => return Err(error),
            Action::Forward(route) => proxy.settle(route, backend.call()),
            Action::Retry(route, _) => proxy.settle(route, backend.call()),
        };
    }
}

const R_BEHIND: &str = r#"{"result":[],"_meta":{"dependent_files":["src/X.bsl"],"file_mtimes":{"src/X.bsl":90}}}"#;
const R_CAUGHT: &str = r#"{"result":[],"_meta":{"dependent_files":["src/X.bsl"],"file_mtimes":{"src/X.bsl":100}}}"#;

#[test]
fn revalidation_caches_only_when_index_caught_up() {
    let mut proxy = build_proxy_reval(1000);
    let mut backend = Backend::new(&[R_BEHIND, R_CAUGHT]);
    proxy.dirty.mark("ut", "src/X.bsl", 100);
    let a = args(r#"{"repo": "ut", "query": "F"}"#);

    run(&mut proxy, &mut backend, "search_function", &a, false, at(0)).unwrap();
    assert_eq!(backend.calls, 2);
    assert_eq!(proxy.cache.len(), 1, "kept once the index caught up");
    assert_eq!(proxy.dirty.observed("ut", "src/X.bsl"), None, "the mark is gone");

    run(&mut proxy, &mut backend, "search_function", &a, false, at(10)).unwrap();
    assert_eq!(backend.calls, 2);
    assert_eq!(proxy.metrics.snapshot().cache_hits, 1);
}

#[test]
fn eventual_serves_stale_without_caching_when_behind() {
    let mut proxy = build_proxy_reval(0);
    let mut backend = Backend::new(&[R_BEHIND]);
    proxy.dirty.mark("ut", "src/X.bsl", 100);
    let a = args(r#"{"repo": "ut", "query": "F"}"#);

    run_now(&mut proxy, &mut backend, "search_function", &a, false).unwrap();
    assert_eq!(backend.calls, 1, "exactly one forward");
    assert_eq!(proxy.cache.len(), 0, "nothing stale is kept");
    assert_eq!(proxy.dirty.observed("ut", "src/X.bsl"), Some(100), "the mark stays");
}

#[test]
fn dirty_hit_triggers_revalidation_not_stale_serve() {
    let mut proxy = build_proxy_reval(1000);
    let mut backend = Backend::new(&[R_CAUGHT]);
    let a = args(r#"{"repo": "ut", "query": "F"}"#);

    run_now(&mut proxy, &mut backend, "search_function", &a, false).unwrap();
    assert_eq!(backend.calls, 1);
    assert_eq!(proxy.cache.len(), 1);

    proxy.dirty.mark("ut", "src/X.bsl", 100);
    run_now(&mut proxy, &mut backend, "search_function", &a, false).unwrap();
    assert_eq!(backend.calls, 2, "a marked hit goes to the backend");
    assert_eq!(proxy.dirty.observed("ut", "src/X.bsl"), None, "the mark is gone");
}

#[test]
fn waiting_for_the_index_ends_at_the_deadline() {
    let mut proxy = build_proxy_reval(20);
    let mut backend = Backend::new(&[R_BEHIND]);
    proxy.dirty.mark("ut", "src/X.bsl", 100);
    let a = args(r#"{"repo": "ut", "query": "F"}"#);

    let answer = run(&mut proxy, &mut backend, "search_function", &a, false, at(0)).unwrap();
    assert_eq!(*answer, r#"{"result":[]}"#);
    assert_eq!(backend.calls, 5, "at 0, 5, 10, 15 and 20 ms");
    assert_eq!(proxy.cache.len(), 0);
    assert_eq!(proxy.metrics.cache_misses, 1);
}

#[test]
fn file_without_an_index_time_is_not_caught_up() {
    let mut proxy = build_proxy_reval(0);
    let mut backend = Backend::new(&[r#"{"result":[],"_meta":{"dependent_files":["a","b"],"file_mtimes":{"a":7}}}"#]);
    proxy.dirty.mark("ut", "b", 1);
    let a = args(r#"{"repo": "ut"}"#);
    run(&mut proxy, &mut backend, "t", &a, false, at(0)).unwrap();
    assert_eq!(proxy.cache.len(), 0);
    // In another scope the file is not marked.
    let b = args(r#"{"repo": "zup"}"#);
    run(&mut proxy, &mut backend, "t", &b, false, at(0)).unwrap();
    assert_eq!(proxy.cache.len(), 1);
    assert_eq!(proxy.dirty.observed("ut", "b"), Some(1));
}

#[test]
fn without_checks_marks_play_no_part() {
    let mut proxy = build_proxy(Policy::default());
    let mut backend = Backend::new(&[R_BEHIND]);
    proxy.dirty.mark("ut", "src/X.bsl", 100);
    let a = args(r#"{"repo": "ut"}"#);
    run_now(&mut proxy, &mut backend, "t", &a, false).unwrap();
    run_now(&mut proxy, &mut backend, "t", &a, false).unwrap();
    assert_eq!(backend.calls, 1);
    assert_eq!(proxy.dirty.observed("ut", "src/X.bsl"), Some(100));
}

#[test]
fn second_call_is_cache_hit() {
    let mut proxy = build_proxy(Policy::default());
    let mut backend = Backend::new(&[r#"{"ok":true}"#]);
    let a = args(r#"{"x": 1}"#);

    let r1 = run_now(&mut proxy, &mut backend, "search_function", &a, false).unwrap();
    let r2 = run_now(&mut proxy, &mut backend, "search_function", &a, false).unwrap();
    assert_eq!(*r1, *r2);
    assert_eq!(*r1, r#"{"ok":true}"#);
    assert_eq!(backend.calls, 1);

    let snap = proxy.metrics.snapshot();
    assert_eq!(snap.cache_hits, 1);
    assert_eq!(snap.cache_misses, 1);
}

#[test]
fn hit_lasts_until_the_ttl_of_the_tool_is_over() {
    let mut policy = Policy::default();
    policy.tools.insert("fast".to_string(), ToolPolicy { cacheable: true, ttl_seconds: Some(0) });
    let mut proxy = build_proxy(policy);
    let mut backend = Backend::new(&[r#"{"ok":true}"#]);
    let a = args("{}");
    // A time to live of zero seconds counts as one second.
    run(&mut proxy, &mut backend, "fast", &a, false, at(0)).unwrap();
    run(&mut proxy, &mut backend, "fast", &a, false, at(999)).unwrap();
    assert_eq!(backend.calls, 1);
    run(&mut proxy, &mut backend, "fast", &a, false, at(1000)).unwrap();
    assert_eq!(backend.calls, 2);
    // The default is 600 seconds.
    run(&mut proxy, &mut backend, "other", &a, false, at(0)).unwrap();
    run(&mut proxy, &mut backend, "other", &a, false, at(599_999)).unwrap();
    assert_eq!(backend.calls, 3);
    run(&mut proxy, &mut backend, "other", &a, false, at(600_000)).unwrap();
    assert_eq!(backend.calls, 4);
}

#[test]
fn non_cacheable_tool_bypasses() {
    let mut policy = Policy::default();
    policy.tools.insert(
        "execute_query".into(),
        ToolPolicy {
            cacheable: false,
            ttl_seconds: None,
        },
    );
    let mut proxy = build_proxy(policy);
    let mut backend = Backend::new(&[r#"[]"#]);
    let a = args(r#"{"query": "ВЫБРАТЬ 1"}"#);

    run_now(&mut proxy, &mut backend, "execute_query", &a, false).unwrap();
    run_now(&mut proxy, &mut backend, "execute_query", &a, false).unwrap();
    assert_eq!(backend.calls, 2);

    let snap = proxy.metrics.snapshot();
    assert_eq!(snap.bypass, 2);
    assert_eq!(snap.cache_hits, 0);
}

#[test]
fn explicit_bypass_skips_cache() {
    let mut proxy = build_proxy(Policy::default());
    let mut backend = Backend::new(&[r#"{"v":1}"#]);
    let a = args(r#"{"a": 1}"#);
    run_now(&mut proxy, &mut backend, "search_function", &a, false).unwrap();
    run_now(&mut proxy, &mut backend, "search_function", &a, true).unwrap();
    run_now(&mut proxy, &mut backend, "search_function", &a, false).unwrap();
    assert_eq!(backend.calls, 2);

    let snap = proxy.metrics.snapshot();
    assert_eq!(snap.cache_hits, 1);
    assert_eq!(snap.bypass, 1);
}

#[test]
fn frozen_scope_returns_error_without_backend_call() {
    let mut proxy = build_proxy(Policy::default());
    let mut backend = Backend::new(&[r#"{"v":1}"#]);
    proxy.freeze.freeze("ut", Span::from_secs(60));

    let args_ut = args(r#"{"repo": "ut", "query": "X"}"#);
    let res = run_now(&mut proxy, &mut backend, "search_function", &args_ut, false);
    match res {
        Err(ProxyError::Frozen { scope, .. }) => assert_eq!(scope, "ut"),
        other => panic!("Frozen expected, got {other:?}"),
    }
    assert_eq!(backend.calls, 0, "a frozen scope does not reach the backend");

    let args_bp = args(r#"{"repo": "bp-ss", "query": "X"}"#);
    run_now(&mut proxy, &mut backend, "search_function", &args_bp, false).unwrap();
    assert_eq!(backend.calls, 1);
}

#[test]
fn thaw_restores_traffic_to_backend() {
    let mut proxy = build_proxy(Policy::default());
    let mut backend = Backend::new(&[r#"{"v":1}"#]);
    proxy.freeze.freeze("ut", Span::from_secs(60));

    let a = args(r#"{"repo": "ut", "query": "X"}"#);
    assert!(run_now(&mut proxy, &mut backend, "search_function", &a, false).is_err());

    proxy.freeze.thaw("ut");
    run_now(&mut proxy, &mut backend, "search_function", &a, false).unwrap();
    assert_eq!(backend.calls, 1);
}

#[test]
fn frozen_scope_is_refused_even_on_a_hit_or_a_bypass() {
    let mut proxy = build_proxy(Policy::default());
    let mut backend = Backend::new(&[r#"{"v":1}"#]);
    let a = args(r#"{"repo": "ut"}"#);
    run(&mut proxy, &mut backend, "t", &a, false, at(0)).unwrap();
    proxy.freeze.freeze_at("", Span::from_millis(1_500), at(0));
    for bypass in [false, true] {
        match run(&mut proxy, &mut backend, "t", &a, bypass, at(1_000)) {
            Err(ProxyError::Frozen { scope, retry_after_seconds }) => {
                assert_eq!(scope, "ut");
                assert_eq!(retry_after_seconds, 1);
            }
            other => panic!("Frozen expected, got {other:?}"),
        }
    }
    assert_eq!(backend.calls, 1);
    assert_eq!(proxy.metrics.cache_hits, 0);
    run(&mut proxy, &mut backend, "t", &a, false, at(1_500)).unwrap();
    assert_eq!(proxy.metrics.cache_hits, 1);
}

#[test]
fn keys_for_different_repos_are_independent_in_cache() {
    let mut proxy = build_proxy(Policy::default());
    let mut backend = Backend::new(&[r#"{"v":1}"#]);
    let a_ut = args(r#"{"repo": "ut", "query": "X"}"#);
    let a_bp = args(r#"{"repo": "bp-ss", "query": "X"}"#);

    run_now(&mut proxy, &mut backend, "search_function", &a_ut, false).unwrap();
    run_now(&mut proxy, &mut backend, "search_function", &a_bp, false).unwrap();
    assert_eq!(backend.calls, 2);

    run_now(&mut proxy, &mut backend, "search_function", &a_ut, false).unwrap();
    assert_eq!(backend.calls, 2);

    let snap = proxy.metrics.snapshot();
    assert_eq!(snap.cache_misses, 2);
    assert_eq!(snap.cache_hits, 1);
}

#[test]
fn scope_with_cacheable_false_bypasses_cache() {
    let mut policy = Policy::default();
    policy
        .scopes
        .insert("ut".to_string(), ScopePolicy { cacheable: false });
    let mut proxy = build_proxy(policy);
    let mut backend = Backend::new(&[r#"{"v":1}"#]);
    let args_ut = args(r#"{"repo": "ut", "query": "X"}"#);

    run_now(&mut proxy, &mut backend, "search_function", &args_ut, false).unwrap();
    run_now(&mut proxy, &mut backend, "search_function", &args_ut, false).unwrap();
    assert_eq!(backend.calls, 2);

    let snap = proxy.metrics.snapshot();
    assert_eq!(snap.cache_hits, 0);
    assert_eq!(snap.bypass, 2, "both went past the cache");
    assert_eq!(snap.cache_size, 0, "nothing is kept");
}

#[test]
fn scope_disabled_does_not_affect_other_scopes() {
    let mut policy = Policy::default();
    policy
        .scopes
        .insert("ut".to_string(), ScopePolicy { cacheable: false });
    let mut proxy = build_proxy(policy);
    let mut backend = Backend::new(&[r#"{"v":1}"#]);

    let args_ut = args(r#"{"repo": "ut", "query": "X"}"#);
    run_now(&mut proxy, &mut backend, "search_function", &args_ut, false).unwrap();
    run_now(&mut proxy, &mut backend, "search_function", &args_ut, false).unwrap();
    assert_eq!(backend.calls, 2);

    let args_bp = args(r#"{"repo": "bp-ss", "query": "X"}"#);
    run_now(&mut proxy, &mut backend, "search_function", &args_bp, false).unwrap();
    run_now(&mut proxy, &mut backend, "search_function", &args_bp, false).unwrap();
    assert_eq!(backend.calls, 3, "bp-ss: one miss and one hit");

    let snap = proxy.metrics.snapshot();
    assert_eq!(snap.cache_hits, 1);
    assert_eq!(snap.bypass, 2);
}

#[test]
fn meta_dependent_files_populates_reverse_index() {
    let payload_with_meta = r#"{"result":[{"name":"F","file_path":"src/X.bsl"}],"_meta":{"dependent_files":["src/X.bsl","src/Y.bsl"]}}"#;
    let mut proxy = build_proxy(Policy::default());
    let mut backend = Backend::new(&[payload_with_meta]);
    let a = args(r#"{"repo": "ut", "query": "F"}"#);

    run_now(&mut proxy, &mut backend, "search_function", &a, false).unwrap();
    assert_eq!(proxy.cache.reverse_index_size(), 2);
    assert_eq!(proxy.metrics.cache_size, 1);

    assert_eq!(proxy.cache.invalidate_files(&["src/Z.bsl".to_string()]), 0);
    let removed = proxy.cache.invalidate_files(&["src/X.bsl".to_string()]);
    assert_eq!(removed, 1);
    assert_eq!(proxy.cache.len(), 0);
}

#[test]
fn meta_absent_falls_back_to_plain_insert() {
    let payload_no_meta = r#"{"result":[{"name":"F","file_path":"src/X.bsl"}]}"#;
    let mut proxy = build_proxy(Policy::default());
    let mut backend = Backend::new(&[payload_no_meta]);
    let a = args(r#"{"repo": "ut", "query": "F"}"#);

    run_now(&mut proxy, &mut backend, "search_function", &a, false).unwrap();
    assert_eq!(proxy.cache.reverse_index_size(), 0);
    assert_eq!(proxy.cache.len(), 1);
}

#[test]
fn clients_get_answers_without_meta_on_every_route() {
    for bypass in [true, false] {
        let mut proxy = build_proxy(Policy::default());
        let mut backend = Backend::new(&[R_CAUGHT]);
        let answer = run_now(&mut proxy, &mut backend, "t", &args("{}"), bypass).unwrap();
        assert_eq!(*answer, r#"{"result":[]}"#);
    }
}

#[test]
fn failed_call_is_counted_and_not_kept() {
    let mut proxy = build_proxy(Policy::default());
    let a = args(r#"{"repo": "ut"}"#);
    match proxy.handle_at("t", &a, false, at(0)) {
        Action::Forward(route) => {
            assert!(matches!(route, Route::Keep { .. }));
            assert_eq!(
                route.flight_key().unwrap(),
                Cache::key_for("ci", "ut", "t", &a)
            );
            assert_eq!(Route::Direct.flight_key(), None);
            match proxy.settle_at(route, Err("boom".to_string()), at(0)) {
                Action::Refuse(error) => {
                    assert_eq!(error.message(), "ошибка обращения к бэкенду: boom")
                }
                other => panic!("an error expected, got {other:?}"),
            }
        }
        other => panic!("a forward expected, got {other:?}"),
    }
    assert_eq!(proxy.metrics.backend_errors, 1);
    assert_eq!(proxy.cache.len(), 0);
}

#[test]
fn scope_is_the_first_argument_that_is_a_text() {
    let mut proxy = build_proxy(Policy::default());
    proxy.scope_args = vec!["repo".to_string(), "base".to_string()];
    assert_eq!(proxy.extract_scope(&args(r#"{"base":"b","repo":"r"}"#)), "r");
    assert_eq!(proxy.extract_scope(&args(r#"{"base":"b","repo":1}"#)), "b");
    assert_eq!(proxy.extract_scope(&args(r#"{"x":"b"}"#)), "");
    assert_eq!(proxy.extract_scope(&Json::Null), "");
}

#[test]
fn error_messages_are_exact() {
    let internal = ProxyError::Internal("why".to_string());
    assert_eq!(internal.message(), "внутренняя ошибка прокси: why");
    let frozen = ProxyError::Frozen { scope: "ut".to_string(), retry_after_seconds: 42 };
    assert_eq!(frozen.message(), "прокси заморожен (scope='ut', retry after 42s)");
}

#[test]
fn changed_file_forces_a_forward() {
    let mut proxy = build_proxy(Policy::default());
    let mut backend = Backend::new(&[R_CAUGHT]);
    let a = args(r#"{"repo": "ut"}"#);
    run_now(&mut proxy, &mut backend, "t", &a, false).unwrap();
    run_now(&mut proxy, &mut backend, "t", &a, false).unwrap();
    assert_eq!(backend.calls, 1);
    proxy.cache.invalidate_files(&["src/X.bsl".to_string()]);
    run_now(&mut proxy, &mut backend, "t", &a, false).unwrap();
    assert_eq!(backend.calls, 2);
}

#[test]
fn order_of_arguments_plays_no_part() {
    let mut proxy = build_proxy(Policy::default());
    let mut backend = Backend::new(&[R_CAUGHT]);
    let a = Json::Object(vec![
        ("repo".to_string(), Json::Text("ut".to_string())),
        ("n".to_string(), Json::Int(1)),
    ]);
    let b = Json::Object(vec![
        ("n".to_string(), Json::Int(1)),
        ("repo".to_string(), Json::Text("ut".to_string())),
    ]);
    run_now(&mut proxy, &mut backend, "t", &a, false).unwrap();
    run_now(&mut proxy, &mut backend, "t", &b, false).unwrap();
    assert_eq!(backend.calls, 1);
}

#[test]
fn every_call_that_is_not_refused_counts_once() {
    let mut proxy = build_proxy_reval(20);
    proxy.policy.tools.insert(
        "off".into(),
        ToolPolicy { cacheable: false, ttl_seconds: None },
    );
    let mut backend = Backend::new(&[R_BEHIND]);
    let a = args(r#"{"repo": "ut"}"#);
    let mut calls = 0;
    let mut refused = 0;
    for round in 0..3u64 {
        let now = at(round * 1_000);
        if round == 1 {
            proxy.dirty.mark_at("ut", "src/X.bsl", 100, now);
            proxy.freeze.freeze_at("other", Span::from_secs(60), now);
        }
        for (tool, bypass) in [("t", false), ("t", true), ("off", false), ("t", false)] {
            for repo in [&a, &args(r#"{"repo": "other"}"#)] {
                calls += 1;
                if run(&mut proxy, &mut backend, tool, repo, bypass, now).is_err() {
                    refused += 1;
                }
            }
        }
    }
    assert_eq!(refused, 8);
    let m = proxy.metrics.snapshot();
    assert_eq!(m.cache_hits + m.cache_misses + m.bypass, calls - refused);
    assert!(backend.calls as u64 > calls - refused - m.cache_hits, "some calls were repeated");
    assert!(m.cache_hits > 0 && m.cache_misses > 0 && m.bypass > 0);
}

use std::sync::Arc;

use cache_core::batch::{detect_batch, handle_batch, inner_value, split_batch, unwrap_value, SubCall};
use cache_core::clock::{Clock, Span};
use cache_core::json::{parse_json, Json};
use cache_core::proxy::Action;
use cache_core::{
    Cache, CacheProxy, DirtySet, FreezeController, Metrics, Policy, ProxyError, ProxyResult,
    RevalConfig, SingleFlight,
};
use serde_json::Value;

/// A backend that echoes the name it is asked for, and counts its calls.
struct EchoBackend {
    calls: usize,
}

impl EchoBackend {
    fn call(&mut self, args: &Json) -> Result<Arc<String>, String> {
        self.calls += 1;
        if let Some(fqn) = args.get("full_name").and_then(|v| v.as_str()) {
            return Ok(Arc::new(format!(
                r#"{{"result":{{"full_name":"{fqn}"}},"_meta":{{"dependent_files":[]}}}}"#
            )));
        }
        let name = args.get("name").and_then(|v| v.as_str()).unwrap_or("<none>");
        Ok(Arc::new(format!(r#"{{"echo":"{name}"}}"#)))
    }
}

fn args(text: &str) -> Json {
    parse_json(text).unwrap()
}

fn build_proxy() -> (CacheProxy, EchoBackend) {
    let clock = Clock::new();
    let proxy = CacheProxy::new(
        "ci",
        vec!["repo".to_string()],
        Policy::default(),
        Cache::with_clock(clock),
        SingleFlight::new(),
        Metrics::new(),
        FreezeController::with_clock(clock),
        DirtySet::with_clock(clock),
        RevalConfig::default(),
    );
    (proxy, EchoBackend { calls: 0 })
}

/// Carry out one call.
fn single(proxy: &mut CacheProxy, backend: &mut EchoBackend, tool: &str, args: &Json) -> ProxyResult {
    let mut action = proxy.handle(tool, args, false);
    loop {
        action = match action {
            Action::Reply(payload) => return Ok(payload),
            Action::Refuse(error) => return Err(error),
            Action::Forward(route) => proxy.settle(route, backend.call(args)),
            Action::Retry(route, _) => proxy.settle(route, backend.call(args)),
        };
    }
}

/// Carry out a call for many names.
fn batch(
    proxy: &mut CacheProxy,
    backend: &mut EchoBackend,
    tool: &str,
    args: &Json,
) -> Result<String, ProxyError> {
    let mut replies: Vec<Option<ProxyResult>> = Vec::new();
    for call in proxy.open_batch(tool, args)? {
        replies.push(match call {
            SubCall::Call(sub) => Some(single(proxy, backend, tool, &sub)),
            SubCall::Reject(_) => None,
        });
    }
    handle_batch(tool, args, replies)
}

fn parse_results(s: &str) -> Vec<Value> {
    serde_json::from_str::<Value>(s).unwrap()["results"]
        .as_array()
        .cloned()
        .unwrap()
}

#[test]
fn detect_batch_positive_and_negative() {
    let batch = args(r#"{"repo": "r", "names": ["A", "B"]}"#);
    assert_eq!(
        detect_batch("get_function", &batch),
        Some(("names", "name", false))
    );
    assert_eq!(detect_batch("get_class", &batch), Some(("names", "name", false)));
    let oss = args(r#"{"repo": "r", "full_names": ["Catalog.X"]}"#);
    assert_eq!(
        detect_batch("get_object_structure", &oss),
        Some(("full_names", "full_name", true))
    );
    assert_eq!(detect_batch("get_function", &args(r#"{"repo": "r", "name": "A"}"#)), None);
    assert_eq!(detect_batch("get_function", &args(r#"{"repo": "r", "names": "A"}"#)), None);
    assert_eq!(detect_batch("search_function", &batch), None);
}

#[test]
fn batch_object_structure_unwraps_result() {
    let (mut proxy, mut backend) = build_proxy();
    let a = args(r#"{"repo": "r", "full_names": ["Catalog.X", "Catalog.Y"]}"#);
    let out = batch(&mut proxy, &mut backend, "get_object_structure", &a).unwrap();
    let results = parse_results(&out);
    assert_eq!(results[0]["full_name"].as_str(), Some("Catalog.X"));
    assert_eq!(results[1]["full_name"].as_str(), Some("Catalog.Y"));
    assert!(results[0].get("result").is_none());
    assert!(results[0].get("_meta").is_none());
}

#[test]
fn batch_preserves_order() {
    let (mut proxy, mut backend) = build_proxy();
    let a = args(r#"{"repo": "r", "names": ["B", "A", "C"]}"#);
    let out = batch(&mut proxy, &mut backend, "get_function", &a).unwrap();
    let results = parse_results(&out);
    let echoes: Vec<&str> = results.iter().map(|r| r["echo"].as_str().unwrap()).collect();
    assert_eq!(echoes, vec!["B", "A", "C"], "results stand in the order of the names");
    assert_eq!(out, r#"{"results":[{"echo":"B"},{"echo":"A"},{"echo":"C"}]}"#);
}

#[test]
fn batch_caches_per_object_and_partial_hit() {
    let (mut proxy, mut backend) = build_proxy();

    let a = args(r#"{"repo": "r", "names": ["A", "B"]}"#);
    batch(&mut proxy, &mut backend, "get_function", &a).unwrap();
    assert_eq!(backend.calls, 2);

    let one = args(r#"{"repo": "r", "name": "A"}"#);
    single(&mut proxy, &mut backend, "get_function", &one).unwrap();
    assert_eq!(backend.calls, 2, "a single call after a batch is a hit");

    let a2 = args(r#"{"repo": "r", "names": ["A", "B", "C"]}"#);
    let out = batch(&mut proxy, &mut backend, "get_function", &a2).unwrap();
    assert_eq!(backend.calls, 3, "only C goes to the backend");
    let results = parse_results(&out);
    let echoes: Vec<&str> = results.iter().map(|r| r["echo"].as_str().unwrap()).collect();
    assert_eq!(echoes, vec!["A", "B", "C"]);
}

#[test]
fn batch_warms_cache_for_single_and_vice_versa() {
    let (mut proxy, mut backend) = build_proxy();
    let one = args(r#"{"repo": "r", "name": "X"}"#);
    single(&mut proxy, &mut backend, "get_function", &one).unwrap();
    assert_eq!(backend.calls, 1);
    let a = args(r#"{"repo": "r", "names": ["X", "Y"]}"#);
    batch(&mut proxy, &mut backend, "get_function", &a).unwrap();
    assert_eq!(backend.calls, 2, "X is a hit, only Y goes to the backend");
}

#[test]
fn batch_non_string_element_gets_error_in_place() {
    let (mut proxy, mut backend) = build_proxy();
    let a = args(r#"{"repo": "r", "names": ["A", 42, "B"]}"#);
    let out = batch(&mut proxy, &mut backend, "get_function", &a).unwrap();
    let results = parse_results(&out);
    assert_eq!(results.len(), 3);
    assert_eq!(results[0]["echo"].as_str(), Some("A"));
    assert!(
        results[1]["error"].as_str().unwrap().contains("строкой"),
        "an item that is no text has an error in its place: {:?}",
        results[1]
    );
    assert_eq!(
        results[1]["error"].as_str(),
        Some("names: каждый элемент должен быть строкой")
    );
    assert_eq!(results[2]["echo"].as_str(), Some("B"));
    assert_eq!(backend.calls, 2, "an item that is no text is not called for");
}

#[test]
fn batch_empty_list_short_circuits() {
    let (mut proxy, mut backend) = build_proxy();
    let a = args(r#"{"repo": "r", "names": []}"#);
    let out = batch(&mut proxy, &mut backend, "get_function", &a).unwrap();
    assert!(parse_results(&out).is_empty());
    assert_eq!(backend.calls, 0, "an empty batch does not reach the backend");
}

#[test]
fn batch_frozen_scope_fails_whole_batch() {
    let (mut proxy, mut backend) = build_proxy();
    proxy.freeze.freeze("r", Span::from_secs(60));
    let a = args(r#"{"repo": "r", "names": ["A", "B"]}"#);
    let err = batch(&mut proxy, &mut backend, "get_function", &a).unwrap_err();
    assert!(
        matches!(err, ProxyError::Frozen { .. }),
        "a freeze is an error of the whole batch"
    );
}

fn frozen_scope(list: &str) -> String {
    let (mut proxy, mut backend) = build_proxy();
    proxy.freeze.freeze("r", Span::from_secs(60));
    let a = args(&format!(r#"{{"repo":"r","names":{list}}}"#));
    match batch(&mut proxy, &mut backend, "get_function", &a) {
        Err(ProxyError::Frozen { scope, retry_after_seconds }) => {
            assert!((1..=60).contains(&retry_after_seconds));
            assert_eq!(backend.calls, 0);
            scope
        }
        other => panic!("a frozen scope expected, got {other:?}"),
    }
}

#[test]
fn batch_without_names_in_a_frozen_scope_is_refused() {
    assert_eq!(frozen_scope("[]"), "r");
    assert_eq!(frozen_scope("[1, null]"), "r");
    assert_eq!(frozen_scope(r#"["A", 1]"#), "r");
}

#[test]
fn frozen_batch_gets_the_error_of_a_single_call() {
    let (mut proxy, _) = build_proxy();
    let now = proxy.clock.now();
    proxy.freeze.freeze_at("r", Span::from_millis(7500), now);
    let many = args(r#"{"repo":"r","names":["A"]}"#);
    let one = args(r#"{"repo":"r","name":"A"}"#);
    let elsewhere = args(r#"{"repo":"s","names":["A"]}"#);
    let message = proxy.open_batch_at("get_function", &many, now).unwrap_err().message();
    assert_eq!(message, "прокси заморожен (scope='r', retry after 7s)");
    match proxy.handle_at("get_function", &one, true, now) {
        Action::Refuse(error) => assert_eq!(error.message(), message),
        other => panic!("a refusal expected, got {other:?}"),
    }
    assert_eq!(proxy.open_batch_at("get_function", &elsewhere, now).unwrap().len(), 1);
    let later = now.plus(Span::from_secs(8));
    assert_eq!(proxy.open_batch_at("get_function", &many, later).unwrap().len(), 1);
}

#[test]
fn batch_answers_each_item_as_the_single_call_would() {
    let list = r#"["A", 1, "B", "A"]"#;
    let (mut proxy, mut backend) = build_proxy();
    let a = args(&format!(r#"{{"repo":"r","names":{list}}}"#));
    let out = batch(&mut proxy, &mut backend, "get_class", &a).unwrap();
    let results = parse_results(&out);
    assert_eq!(results.len(), 4);
    for (i, name) in [(0, "A"), (2, "B"), (3, "A")] {
        let (mut other, mut other_backend) = build_proxy();
        let one = args(&format!(r#"{{"repo":"r","name":"{name}"}}"#));
        let payload = single(&mut other, &mut other_backend, "get_class", &one).unwrap();
        assert_eq!(results[i].to_string(), payload.as_str());
    }
    assert_eq!(
        results[1].to_string(),
        r#"{"error":"names: каждый элемент должен быть строкой"}"#
    );
}

#[test]
fn first_frozen_call_is_the_error_of_the_batch() {
    let a = args(r#"{"names": ["A", "B", "C"]}"#);
    let frozen = |secs: u64| {
        Some(Err(ProxyError::Frozen { scope: "r".to_string(), retry_after_seconds: secs }))
    };
    let replies: Vec<Option<ProxyResult>> =
        vec![Some(Ok(Arc::new("7".to_string()))), frozen(3), frozen(2)];
    match handle_batch("get_class", &a, replies) {
        Err(ProxyError::Frozen { retry_after_seconds, .. }) => assert_eq!(retry_after_seconds, 3),
        other => panic!("a frozen scope expected, got {other:?}"),
    }
}

#[test]
fn failed_calls_have_errors_in_their_places() {
    let a = args(r#"{"names": ["A", "B"]}"#);
    let replies: Vec<Option<ProxyResult>> = vec![
        Some(Err(ProxyError::Backend("boom".to_string()))),
        Some(Ok(Arc::new("7".to_string()))),
    ];
    let out = handle_batch("get_class", &a, replies).unwrap();
    assert_eq!(out, r#"{"results":[{"error":"ошибка обращения к бэкенду: boom"},7]}"#);
}

#[test]
fn call_without_a_list_is_no_batch() {
    let a = args(r#"{"name": "A"}"#);
    match split_batch("get_function", &a) {
        Err(ProxyError::Internal(reason)) => {
            assert_eq!(reason, "handle_batch вызван не для батчевого инструмента")
        }
        other => panic!("an error expected, got {other:?}"),
    }
    assert!(matches!(
        handle_batch("get_function", &a, Vec::new()),
        Err(ProxyError::Internal(_))
    ));
}

#[test]
fn calls_of_a_batch_keep_the_other_arguments() {
    let a = args(r#"{"repo":"r","names":["A"],"name":"ignored","language":"bsl"}"#);
    let calls = split_batch("get_function", &a).unwrap();
    assert_eq!(calls.len(), 1);
    match &calls[0] {
        SubCall::Call(sub) => {
            let direct = args(r#"{"name":"A","language":"bsl","repo":"r"}"#);
            assert_eq!(
                Cache::key_for("ci", "r", "get_function", sub),
                Cache::key_for("ci", "r", "get_function", &direct)
            );
        }
        other => panic!("a call expected, got {other:?}"),
    }
}

#[test]
fn inner_value_unwraps_mcp_calltoolresult() {
    let payload = r#"{"content":[{"type":"text","text":"{\"result\":[1,2],\"hint\":\"h\"}"}]}"#;
    let v = inner_value(payload, false);
    assert_eq!(v.get("result").unwrap().as_array().unwrap()[0].as_i64(), Some(1));
    assert_eq!(v.get("hint").unwrap().as_str(), Some("h"));
}

#[test]
fn inner_value_takes_plain_json_and_strips_meta() {
    let payload = r#"{"result":[],"_meta":{"dependent_files":["x"]}}"#;
    let v = inner_value(payload, false);
    assert!(v.get("_meta").is_none(), "_meta is taken out");
    assert!(v.get("result").unwrap().as_array().is_some());
}

#[test]
fn inner_value_non_json_text_kept_as_string() {
    let payload = r#"{"content":[{"type":"text","text":"not json"}]}"#;
    assert_eq!(inner_value(payload, false), Json::Text("not json".into()));
    assert_eq!(inner_value("not json", true), Json::Text("not json".into()));
}

#[test]
fn inner_value_unwrap_result_unwraps_and_keeps_errors() {
    let payload = r#"{"result":{"full_name":"Catalog.X"},"_meta":{"dependent_files":[]}}"#;
    let v = inner_value(payload, true);
    assert_eq!(v.get("full_name").unwrap().as_str(), Some("Catalog.X"));
    assert!(v.get("result").is_none());
    let payload = r#"{"error":"boom"}"#;
    let v = inner_value(payload, true);
    assert_eq!(v.get("error").unwrap().as_str(), Some("boom"));
}

#[test]
fn parsed_value_is_unwrapped_where_asked_for() {
    let value = || args(r#"{"result":{"a":1},"_meta":{}}"#);
    assert_eq!(unwrap_value(value(), true), args(r#"{"a":1}"#));
    assert_eq!(unwrap_value(value(), false), args(r#"{"result":{"a":1}}"#));
    assert_eq!(unwrap_value(args("[1]"), true), args("[1]"));
}

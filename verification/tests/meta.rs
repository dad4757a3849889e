use cache_core::json::parse_json;
use cache_core::meta::{
    extract_dependent_files, extract_file_mtimes, files_of_answer, mtimes_of_answer,
    strip_content_json, strip_item_json, strip_json, strip_meta, strip_structured_json,
    text_of_answer,
};
use serde_json::Value;

const R_CAUGHT: &str = r#"{"result":[],"_meta":{"dependent_files":["src/X.bsl"],"file_mtimes":{"src/X.bsl":100}}}"#;

/// A text as the text of the one content item of an MCP result.
fn wrapped(inner: &str) -> String {
    let inner_escaped = serde_json::to_string(inner).unwrap();
    format!(r#"{{"content":[{{"type":"text","text":{}}}]}}"#, inner_escaped)
}

#[test]
fn extract_file_mtimes_top_level() {
    let m = extract_file_mtimes(R_CAUGHT);
    assert_eq!(m.get("src/X.bsl"), Some(&100));
}

#[test]
fn extract_file_mtimes_mcp_wrapper() {
    let m = extract_file_mtimes(&wrapped(R_CAUGHT));
    assert_eq!(m.get("src/X.bsl"), Some(&100));
}

#[test]
fn extract_file_mtimes_absent_is_empty() {
    assert!(extract_file_mtimes(r#"{"result":[]}"#).is_empty());
    assert!(extract_file_mtimes("not json").is_empty());
}

#[test]
fn extract_file_mtimes_takes_integers_only() {
    let m = extract_file_mtimes(
        r#"{"_meta":{"file_mtimes":{"a":-5,"b":1.5,"c":"7","d":9223372036854775808,"e":9223372036854775807}}}"#,
    );
    assert_eq!(m.get("a"), Some(&-5));
    assert_eq!(m.get("b"), None);
    assert_eq!(m.get("c"), None);
    assert_eq!(m.get("d"), None);
    assert_eq!(m.get("e"), Some(&i64::MAX));
    assert_eq!(m.len(), 2);
}

#[test]
fn extract_dependent_files_extracts_paths() {
    let payload = r#"{"result":[],"_meta":{"dependent_files":["a.bsl","b.bsl"]}}"#;
    let deps = extract_dependent_files(payload);
    assert_eq!(deps, vec!["a.bsl".to_string(), "b.bsl".to_string()]);
}

#[test]
fn extract_dependent_files_handles_missing_meta() {
    let payload = r#"{"result":[]}"#;
    assert!(extract_dependent_files(payload).is_empty());
}

#[test]
fn extract_dependent_files_handles_invalid_json() {
    let payload = "not a json";
    assert!(extract_dependent_files(payload).is_empty());
}

#[test]
fn extract_dependent_files_handles_non_array() {
    let payload = r#"{"_meta":{"dependent_files":"not an array"}}"#;
    assert!(extract_dependent_files(payload).is_empty());
}

#[test]
fn extract_dependent_files_unpacks_mcp_call_tool_result() {
    let inner = r#"{"result":[],"_meta":{"dependent_files":["src/X.bsl","src/Y.bsl"]}}"#;
    let deps = extract_dependent_files(&wrapped(inner));
    assert_eq!(deps, vec!["src/X.bsl".to_string(), "src/Y.bsl".to_string()]);
}

#[test]
fn extract_dependent_files_handles_mcp_wrapper_without_meta() {
    assert!(extract_dependent_files(&wrapped(r#"{"result":[]}"#)).is_empty());
}

#[test]
fn extract_dependent_files_skips_what_is_no_text() {
    let payload = r#"{"_meta":{"dependent_files":["a",1,null,"b",["c"]]}}"#;
    assert_eq!(extract_dependent_files(payload), vec!["a".to_string(), "b".to_string()]);
}

#[test]
fn extract_dependent_files_reads_the_first_text_item() {
    let payload = r#"{"content":[{"type":"image","text":"{\"_meta\":{\"dependent_files\":[\"no\"]}}"},{"type":"text","text":"{\"_meta\":{\"dependent_files\":[\"yes\"]}}"},{"type":"text","text":"{\"_meta\":{\"dependent_files\":[\"late\"]}}"}]}"#;
    assert_eq!(extract_dependent_files(payload), vec!["yes".to_string()]);
}

#[test]
fn strip_meta_removes_meta_from_mcp_wrapper() {
    let inner = r#"{"result":[1,2],"_meta":{"dependent_files":["a.bsl"],"file_mtimes":{"a.bsl":5}}}"#;
    let payload = wrapped(inner);
    assert_eq!(extract_dependent_files(&payload), vec!["a.bsl".to_string()]);
    let clean = strip_meta(&payload);
    assert!(!clean.contains("_meta"), "clean has _meta: {}", clean);
    assert!(!clean.contains("file_mtimes"));
    assert!(!clean.contains("dependent_files"));
    assert!(clean.contains("result"), "result is lost: {}", clean);
}

#[test]
fn strip_meta_removes_top_level_meta() {
    let payload = r#"{"result":[],"_meta":{"dependent_files":["x"]}}"#;
    let clean = strip_meta(payload);
    assert!(!clean.contains("_meta"));
    assert!(clean.contains("result"));
    assert_eq!(clean, r#"{"result":[]}"#);
}

#[test]
fn strip_meta_removes_meta_from_structured_content() {
    let inner = r#"{"result":{"name":"X"},"_meta":{"dependent_files":["a.bsl"]}}"#;
    let inner_escaped = serde_json::to_string(inner).unwrap();
    let payload = format!(
        r#"{{"content":[{{"type":"text","text":{}}}],"structuredContent":{{"_meta":{{"dependent_files":["a.bsl"]}},"result":{{"name":"X"}}}},"isError":false}}"#,
        inner_escaped
    );
    assert_eq!(extract_dependent_files(&payload), vec!["a.bsl".to_string()]);
    let clean = strip_meta(&payload);
    assert!(!clean.contains("_meta"), "clean has _meta: {}", clean);
    assert!(!clean.contains("dependent_files"));
    let v: Value = serde_json::from_str(&clean).unwrap();
    assert_eq!(v["structuredContent"]["result"]["name"], "X");
    let inner_clean: Value =
        serde_json::from_str(v["content"][0]["text"].as_str().unwrap()).unwrap();
    assert_eq!(inner_clean["result"]["name"], "X");
    assert_eq!(v["isError"], false);
}

#[test]
fn strip_meta_noop_without_meta() {
    let payload = r#"{"result":[1,2,3]}"#;
    assert_eq!(strip_meta(payload), payload.to_string());
}

#[test]
fn strip_meta_noop_on_invalid_json() {
    assert_eq!(strip_meta("not json"), "not json".to_string());
}

#[test]
fn strip_meta_leaves_other_text_byte_for_byte() {
    // No `_meta`: neither spaces nor the order of members change.
    let payload = r#"{ "b" : 1, "a" : [ {"_meta":1} ] }"#;
    assert_eq!(strip_meta(payload), payload);
    // A `_meta` at the top of an MCP result belongs to the protocol and stays.
    let mcp = r#"{"_meta":{"x":1},"content":[{"type":"text","text":"plain"}]}"#;
    assert_eq!(strip_meta(mcp), mcp);
}

fn payloads_with_meta() -> Vec<String> {
    let inner = r#"{"result":{"b":1,"a":2},"_meta":{"dependent_files":["a.bsl"],"file_mtimes":{"a.bsl":5}}}"#;
    vec![
        R_CAUGHT.to_string(),
        inner.to_string(),
        wrapped(inner),
        format!(r#"{{"structuredContent":{inner},"content":[]}}"#),
    ]
}

#[test]
fn stripping_twice_is_stripping_once() {
    for payload in payloads_with_meta() {
        let once = strip_meta(&payload);
        assert_ne!(once, payload);
        assert_eq!(strip_meta(&once), once);
    }
}

#[test]
fn stripped_payload_names_no_files() {
    for payload in payloads_with_meta() {
        let clean = strip_meta(&payload);
        assert!(extract_dependent_files(&clean).is_empty(), "files in {clean}");
        assert_eq!(extract_file_mtimes(&clean).len(), 0, "times in {clean}");
    }
}

#[test]
fn stripped_payload_reads_back_without_meta() {
    let clean = strip_meta(&wrapped(r#"{"z":1,"_meta":{"x":1},"a":{"d":4,"c":3}}"#));
    let v: Value = serde_json::from_str(&clean).unwrap();
    assert_eq!(v["content"][0]["text"], r#"{"a":{"c":3,"d":4},"z":1}"#);
    assert_eq!(v["content"][0]["type"], "text");
}

#[test]
fn payloads_with_fractions_are_stripped_once() {
    let inner = r#"{"score":0.1,"big":1e300,"_meta":{"dependent_files":["a.bsl"],"file_mtimes":{"a.bsl":5}}}"#;
    for payload in [inner.to_string(), wrapped(inner)] {
        let once = strip_meta(&payload);
        assert_ne!(once, payload);
        assert!(once.contains("score") && !once.contains("_meta"), "stripped to {once}");
        assert_eq!(strip_meta(&once), once);
        assert!(extract_dependent_files(&once).is_empty());
        assert_eq!(extract_file_mtimes(&once).len(), 0);
    }
    assert_eq!(strip_meta(r#"{"x":0.5,"_meta":1}"#), r#"{"x":0.5}"#);
}

#[test]
fn payload_nested_too_deep_is_left_alone() {
    let deep = format!("{}{}", "[".repeat(127), "]".repeat(127));
    let payload = format!(r#"{{"_meta":{{"dependent_files":["a"]}},"x":{deep}}}"#);
    assert_eq!(strip_meta(&payload), payload);
    assert!(extract_dependent_files(&payload).is_empty());
}

#[test]
fn parsed_answers_are_stripped_without_a_text() {
    let parsed = |text: &str| parse_json(text).unwrap();
    let plain = r#"{"_meta":{"dependent_files":["a",1,"b"],"file_mtimes":{"a":1,"b":2.5}},"r":1}"#;
    assert_eq!(strip_json(parsed(plain)), (parsed(r#"{"r":1}"#), true));
    assert_eq!(strip_json(parsed("[1]")), (parsed("[1]"), false));
    let structured = r#"{"content":[],"structuredContent":{"_meta":{},"r":1},"_meta":2}"#;
    assert_eq!(
        strip_json(parsed(structured)),
        (parsed(r#"{"content":[],"structuredContent":{"r":1},"_meta":2}"#), true)
    );
    assert_eq!(strip_structured_json(parsed(plain)), (parsed(plain), false));
    assert_eq!(strip_content_json(parsed(structured)), (parsed(structured), false));

    let item = parsed(r#"{"type":"text","text":"{}"}"#);
    let (clean, found) = strip_item_json(&item, Some(parsed(plain)));
    assert!(found);
    assert_eq!(clean, parsed(r#"{"type":"text","text":"{\"r\":1}"}"#));
    assert_eq!(strip_item_json(&item, None), (item.clone(), false));
    assert_eq!(strip_item_json(&item, Some(parsed("7"))), (item, false));

    let answer = parsed(r#"{"content":[{"type":"image"},{"type":"text","text":"t"},{"type":"text","text":"u"}]}"#);
    assert_eq!(text_of_answer(&answer), Some("t"));
    assert_eq!(text_of_answer(&parsed(plain)), None);
    let nested = Some(parsed(plain));
    assert_eq!(files_of_answer(&answer, &nested), vec!["a".to_string(), "b".to_string()]);
    assert!(files_of_answer(&answer, &None).is_empty());
    assert_eq!(mtimes_of_answer(&answer, &nested).get("a"), Some(&1));
    assert_eq!(mtimes_of_answer(&answer, &nested).len(), 1);
    assert_eq!(mtimes_of_answer(&answer, &None).len(), 0);
    // What stands at the top goes before what is nested.
    let top = parsed(r#"{"_meta":{"dependent_files":[]}}"#);
    assert!(files_of_answer(&top, &nested).is_empty());
}

#[test]
fn object_that_starts_with_the_raw_name_may_be_stripped_twice() {
    let payload = r#"{"_meta":1,"$serde_json::private::RawValue":"{\"_meta\":1}"}"#;
    let once = strip_meta(payload);
    assert_eq!(once, r#"{"$serde_json::private::RawValue":"{\"_meta\":1}"}"#);
    assert_eq!(strip_meta(&once), "{}");
}

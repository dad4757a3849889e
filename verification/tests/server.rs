use cache_core::json::{parse_json, print_json, Json};
use cache_core::rmcp_client::{call_arguments, call_failure};
use cache_core::server::{
    batch_payload, bypass_requested, proxy_error_to_mcp, server_instructions, server_name,
};
use cache_core::ProxyError;

#[test]
fn server_presents_itself() {
    assert_eq!(server_name("ci"), "mcp-cache-ci");
    assert_eq!(
        server_instructions("ci"),
        "Кэширующий прокси перед бэкендом 'ci'. Все вызовы tools/call проходят через TTL-кэш. Заголовок X-Cache-Bypass=1 минует кэш."
    );
}

#[test]
fn bypass_header_reads_one() {
    assert!(bypass_requested(Some("1")));
    assert!(!bypass_requested(Some("0")));
    assert!(!bypass_requested(Some("")));
    assert!(!bypass_requested(None));
}

#[test]
fn batch_results_become_one_content_item() {
    assert_eq!(
        batch_payload(r#"{"results":[]}"#.to_string()),
        r#"{"content":[{"text":"{\"results\":[]}","type":"text"}]}"#
    );
}

#[test]
fn errors_are_reported() {
    let report = proxy_error_to_mcp(ProxyError::Backend("boom".to_string()));
    assert_eq!(report.message, "backend error: boom");
    assert!(report.data.is_none());

    let report = proxy_error_to_mcp(ProxyError::Internal("why".to_string()));
    assert_eq!(report.message, "why");
    assert!(report.data.is_none());

    let report = proxy_error_to_mcp(ProxyError::Frozen {
        scope: "ut".to_string(),
        retry_after_seconds: 17,
    });
    assert_eq!(
        report.message,
        "прокси заморожен (scope='ut'): обновление конфигурации в процессе, повторите через 17 сек."
    );
    assert_eq!(
        print_json(&report.data.unwrap()),
        r#"{"frozen":true,"retry_after_seconds":17,"scope":"ut"}"#
    );

    let report = proxy_error_to_mcp(ProxyError::Frozen {
        scope: String::new(),
        retry_after_seconds: 1,
    });
    assert_eq!(
        report.message,
        "прокси заморожен (scope='global'): обновление конфигурации в процессе, повторите через 1 сек."
    );
}

#[test]
fn arguments_are_members() {
    let object = parse_json(r#"{"a":1}"#).unwrap();
    assert_eq!(call_arguments(&object), Some(vec![("a".to_string(), Json::Int(1))]));
    assert_eq!(call_arguments(&Json::Null), None);
    assert_eq!(
        call_arguments(&Json::Bool(true)),
        Some(vec![("value".to_string(), Json::Bool(true))])
    );
    assert_eq!(
        call_failure("get_stats", "timeout"),
        "rmcp call_tool(get_stats) failed: timeout"
    );
}

use cache_core::config::default_backend_timeout_ms;
use cache_core::{BackendConfig, CacheConfig, HealthConfig, ProxyConfig, RevalConfig, ServerConfig};
use cache_core::clock::Span;

#[test]
fn parses_minimal_config() {
    let text = r#"
            [server]
            bind_host = "127.0.0.1"
            bind_port = 8013

            [backend]
            url = "http://127.0.0.1:8011/mcp"
        "#;
    let table: toml::Table = text.parse().unwrap();
    let cfg = ProxyConfig {
        server: ServerConfig {
            bind_host: table["server"]["bind_host"].as_str().unwrap().to_string(),
            bind_port: table["server"]["bind_port"].as_integer().unwrap() as u16,
            allowed_hosts: None,
        },
        backend: BackendConfig {
            url: table["backend"]["url"].as_str().unwrap().to_string(),
            timeout_ms: match table["backend"].get("timeout_ms") {
                Some(ms) => ms.as_integer().unwrap() as u64,
                None => default_backend_timeout_ms(),
            },
        },
        cache: CacheConfig::default(),
        health: HealthConfig::default(),
        policy_path: table.get("policy_path").map(|p| p.as_str().unwrap().to_string()),
    };
    assert_eq!(cfg.server.bind_port, 8013);
    assert_eq!(cfg.backend.url, "http://127.0.0.1:8011/mcp");
    assert_eq!(cfg.backend.timeout_ms, 5000);
    assert_eq!(cfg.cache.default_ttl_seconds, 600);
    assert_eq!(cfg.health.interval_s, 30);
    assert!(cfg.policy_path.is_none());
}

#[test]
fn defaults_are_the_documented_ones() {
    let cache = CacheConfig::default();
    assert_eq!(cache.max_entries, 10_000);
    assert_eq!(cache.max_memory_mb, 200);
    assert_eq!(cache.evict_interval_seconds, 60);
    assert!(cache.lazy_revalidation_enabled);
    assert_eq!(cache.revalidation_max_wait_ms, 2000);
    assert_eq!(cache.revalidation_retry_interval_ms, 150);
    assert_eq!(cache.dirty_ttl_seconds, 300);
    assert_eq!(HealthConfig::default().backend_timeout_ms, 2000);
}

#[test]
fn checks_follow_the_settings() {
    let mut cache = CacheConfig::default();
    cache.revalidation_max_wait_ms = 0;
    let reval = RevalConfig::from_settings(&cache);
    assert!(reval.enabled);
    assert_eq!(reval.max_wait, Span::from_millis(0));
    assert_eq!(reval.retry_interval, Span::from_millis(150));
    assert!(!RevalConfig::default().enabled);
    assert_eq!(RevalConfig::default().max_wait, Span::from_millis(2000));
}

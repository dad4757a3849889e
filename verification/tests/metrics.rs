use cache_core::Metrics;

/// The average latency in milliseconds as text, for one call of some microseconds.
fn latency_text(micros: u64) -> String {
    let avg: f64 = micros as f64 / 1000.0;
    format!("{avg}")
}

#[test]
fn prometheus_text_contains_all_metrics() {
    let mut m = Metrics::new();
    m.record_hit();
    m.record_hit();
    m.record_miss();
    m.record_bypass();
    m.record_backend_error();
    m.update_cache_size(7);
    m.update_reverse_index_size(3);

    let text = m.to_prometheus_text("ci", &latency_text(42_000));
    assert!(text.contains("cache_hits_total{server=\"ci\"} 2"));
    assert!(text.contains("cache_misses_total{server=\"ci\"} 1"));
    assert!(text.contains("cache_bypass_total{server=\"ci\"} 1"));
    assert!(text.contains("cache_backend_errors_total{server=\"ci\"} 1"));
    assert!(text.contains("cache_entries_count{server=\"ci\"} 7"));
    assert!(text.contains("cache_reverse_index_size{server=\"ci\"} 3"));
    assert!(text.contains("cache_backend_latency_ms_avg{server=\"ci\"}"));
    assert!(text.contains("# HELP cache_hits_total"));
    assert!(text.contains("# TYPE cache_hits_total counter"));
    assert!(text.contains("cache_backend_latency_ms_avg{server=\"ci\"} 42\n"));
}

#[test]
fn prometheus_text_uses_provided_server_label() {
    let m = Metrics::new();
    let text = m.to_prometheus_text("1c", &latency_text(0));
    assert!(text.contains("cache_hits_total{server=\"1c\"}"));
    assert!(!text.contains("cache_hits_total{server=\"ci\"}"));
}

#[test]
fn prometheus_text_is_exact() {
    let mut m = Metrics::new();
    m.update_cache_size(1205);
    let text = m.to_prometheus_text("ci", "0");
    let expected = "# HELP cache_hits_total Total number of cache hits.\n\
# TYPE cache_hits_total counter\n\
cache_hits_total{server=\"ci\"} 0\n\
# HELP cache_misses_total Total number of cache misses (backend was called).\n\
# TYPE cache_misses_total counter\n\
cache_misses_total{server=\"ci\"} 0\n\
# HELP cache_bypass_total Total number of explicit cache bypasses (non-cacheable tool, scope disabled, X-Cache-Bypass header).\n\
# TYPE cache_bypass_total counter\n\
cache_bypass_total{server=\"ci\"} 0\n\
# HELP cache_backend_errors_total Total number of failed backend calls.\n\
# TYPE cache_backend_errors_total counter\n\
cache_backend_errors_total{server=\"ci\"} 0\n\
# HELP cache_entries_count Current number of entries in the main cache.\n\
# TYPE cache_entries_count gauge\n\
cache_entries_count{server=\"ci\"} 1205\n\
# HELP cache_reverse_index_size Number of file_paths registered in reverse_index for point invalidation.\n\
# TYPE cache_reverse_index_size gauge\n\
cache_reverse_index_size{server=\"ci\"} 0\n\
# HELP cache_backend_latency_ms_avg EMA of backend call latency in milliseconds.\n\
# TYPE cache_backend_latency_ms_avg gauge\n\
cache_backend_latency_ms_avg{server=\"ci\"} 0\n";
    assert_eq!(text, expected);
}

#[test]
fn counters_wrap_and_snapshots_copy_them() {
    let mut m = Metrics::new();
    m.cache_hits = u64::MAX;
    m.record_hit();
    m.record_miss();
    let snap = m.snapshot();
    assert_eq!(snap.cache_hits, 0);
    assert_eq!(snap.cache_misses, 1);
    assert_eq!(snap.bypass, 0);
    assert_eq!(snap.backend_errors, 0);
}

//! Counters of the proxy and their Prometheus text.

use crate::text;
use vstd::prelude::*;

verus! {

/// The counters of one proxy. They wrap at their upper limit.
#[derive(Debug, Clone, Copy, PartialEq, Eq, Structural)]
pub struct Metrics {
    pub cache_hits: u64,
    pub cache_misses: u64,
    pub bypass: u64,
    pub backend_errors: u64,
    pub cache_size: usize,
    pub reverse_index_size: usize,
}

/// The counters at one time.
#[derive(Debug, Clone, Copy, PartialEq, Eq, Structural)]
pub struct MetricsSnapshot {
    pub cache_hits: u64,
    pub cache_misses: u64,
    pub bypass: u64,
    pub backend_errors: u64,
    pub cache_size: usize,
    pub reverse_index_size: usize,
}

/// The next value of a counter.
pub open spec fn bump(n: u64) -> u64 {
    if n == u64::MAX {
        0
    } else {
        (n + 1) as u64
    }
}

/// The lines for one metric: its help, its type and its value for a server.
pub open spec fn metric_lines(
    name: Seq<char>,
    help: Seq<char>,
    kind: Seq<char>,
    server_alias: Seq<char>,
    value: Seq<char>,
) -> Seq<char> {
    "# HELP "@ + name + " "@ + help + "\n"@ + "# TYPE "@ + name + " "@ + kind + "\n"@ + name
        + "{server=\""@ + server_alias + "\"} "@ + value + "\n"@
}

/// Append the lines for one metric.
fn append_metric(
    out: &mut String,
    name: &str,
    help: &str,
    kind: &str,
    server_alias: &str,
    value: &str,
)
    ensures
        final(out)@ == old(out)@ + metric_lines(name@, help@, kind@, server_alias@, value@),
{
    out.append("# HELP ");
    out.append(name);
    out.append(" ");
    out.append(help);
    out.append("\n");
    out.append("# TYPE ");
    out.append(name);
    out.append(" ");
    out.append(kind);
    out.append("\n");
    out.append(name);
    out.append("{server=\"");
    out.append(server_alias);
    out.append("\"} ");
    out.append(value);
    out.append("\n");
    assert(out@ =~= old(out)@ + metric_lines(name@, help@, kind@, server_alias@, value@));
}

impl Default for Metrics {
    fn default() -> (r: Self)
        ensures
            r == (Metrics {
                cache_hits: 0,
                cache_misses: 0,
                bypass: 0,
                backend_errors: 0,
                cache_size: 0,
                reverse_index_size: 0,
            }),
    {
        Metrics::new()
    }
}

impl Metrics {
    /// All counters at zero.
    pub fn new() -> (r: Metrics)
        ensures
            r == (Metrics {
                cache_hits: 0,
                cache_misses: 0,
                bypass: 0,
                backend_errors: 0,
                cache_size: 0,
                reverse_index_size: 0,
            }),
    {
        Metrics {
            cache_hits: 0,
            cache_misses: 0,
            bypass: 0,
            backend_errors: 0,
            cache_size: 0,
            reverse_index_size: 0,
        }
    }

    pub fn record_hit(&mut self)
        ensures
            *final(self) == (Metrics { cache_hits: bump(old(self).cache_hits), ..*old(self) }),
    {
        self.cache_hits = self.cache_hits.wrapping_add(1);
    }

    pub fn record_miss(&mut self)
        ensures
            *final(self) == (Metrics { cache_misses: bump(old(self).cache_misses), ..*old(self) }),
    {
        self.cache_misses = self.cache_misses.wrapping_add(1);
    }

    pub fn record_bypass(&mut self)
        ensures
            *final(self) == (Metrics { bypass: bump(old(self).bypass), ..*old(self) }),
    {
        self.bypass = self.bypass.wrapping_add(1);
    }

    pub fn record_backend_error(&mut self)
        ensures
            *final(self) == (Metrics {
                backend_errors: bump(old(self).backend_errors),
                ..*old(self)
            }),
    {
        self.backend_errors = self.backend_errors.wrapping_add(1);
    }

    pub fn update_cache_size(&mut self, len: usize)
        ensures
            *final(self) == (Metrics { cache_size: len, ..*old(self) }),
    {
        self.cache_size = len;
    }

    pub fn update_reverse_index_size(&mut self, len: usize)
        ensures
            *final(self) == (Metrics { reverse_index_size: len, ..*old(self) }),
    {
        self.reverse_index_size = len;
    }

    /// The counters at this time.
    pub fn snapshot(&self) -> (r: MetricsSnapshot)
        ensures
            r.cache_hits == self.cache_hits,
            r.cache_misses == self.cache_misses,
            r.bypass == self.bypass,
            r.backend_errors == self.backend_errors,
            r.cache_size == self.cache_size,
            r.reverse_index_size == self.reverse_index_size,
    {
        MetricsSnapshot {
            cache_hits: self.cache_hits,
            cache_misses: self.cache_misses,
            bypass: self.bypass,
            backend_errors: self.backend_errors,
            cache_size: self.cache_size,
            reverse_index_size: self.reverse_index_size,
        }
    }

    /// The counters in the Prometheus text format, for a server.
    pub open spec fn counter_text(self, server_alias: Seq<char>) -> Seq<char> {
        metric_lines(
            "cache_hits_total"@,
            "Total number of cache hits."@,
            "counter"@,
            server_alias,
            text::decimal(self.cache_hits as nat),
        ) + metric_lines(
            "cache_misses_total"@,
            "Total number of cache misses (backend was called)."@,
            "counter"@,
            server_alias,
            text::decimal(self.cache_misses as nat),
        ) + metric_lines(
            "cache_bypass_total"@,
            "Total number of explicit cache bypasses (non-cacheable tool, scope disabled, X-Cache-Bypass header)."@,
            "counter"@,
            server_alias,
            text::decimal(self.bypass as nat),
        ) + metric_lines(
            "cache_backend_errors_total"@,
            "Total number of failed backend calls."@,
            "counter"@,
            server_alias,
            text::decimal(self.backend_errors as nat),
        )
    }

    /// The sizes and the latency in the Prometheus text format, for a server.
    pub open spec fn gauge_text(
        self,
        server_alias: Seq<char>,
        avg_backend_latency_ms: Seq<char>,
    ) -> Seq<char> {
        metric_lines(
            "cache_entries_count"@,
            "Current number of entries in the main cache."@,
            "gauge"@,
            server_alias,
            text::decimal(self.cache_size as nat),
        ) + metric_lines(
            "cache_reverse_index_size"@,
            "Number of file_paths registered in reverse_index for point invalidation."@,
            "gauge"@,
            server_alias,
            text::decimal(self.reverse_index_size as nat),
        ) + metric_lines(
            "cache_backend_latency_ms_avg"@,
            "EMA of backend call latency in milliseconds."@,
            "gauge"@,
            server_alias,
            avg_backend_latency_ms,
        )
    }

    /// All metrics in the Prometheus text format, with `server_alias` in the label
    /// `server`. The average latency comes as text.
    pub fn to_prometheus_text(&self, server_alias: &str, avg_backend_latency_ms: &str) -> (r:
        String)
        ensures
            r@ == self.counter_text(server_alias@) + self.gauge_text(
                server_alias@,
                avg_backend_latency_ms@,
            ),
    {
        let snap = self.snapshot();
        let mut out: String = String::new();
        append_metric(
            &mut out,
            "cache_hits_total",
            "Total number of cache hits.",
            "counter",
            server_alias,
            text::decimal_text(snap.cache_hits).as_str(),
        );
        append_metric(
            &mut out,
            "cache_misses_total",
            "Total number of cache misses (backend was called).",
            "counter",
            server_alias,
            text::decimal_text(snap.cache_misses).as_str(),
        );
        append_metric(
            &mut out,
            "cache_bypass_total",
            "Total number of explicit cache bypasses (non-cacheable tool, scope disabled, X-Cache-Bypass header).",
            "counter",
            server_alias,
            text::decimal_text(snap.bypass).as_str(),
        );
        append_metric(
            &mut out,
            "cache_backend_errors_total",
            "Total number of failed backend calls.",
            "counter",
            server_alias,
            text::decimal_text(snap.backend_errors).as_str(),
        );
        assert(out@ =~= self.counter_text(server_alias@));
        append_metric(
            &mut out,
            "cache_entries_count",
            "Current number of entries in the main cache.",
            "gauge",
            server_alias,
            text::decimal_text(snap.cache_size as u64).as_str(),
        );
        append_metric(
            &mut out,
            "cache_reverse_index_size",
            "Number of file_paths registered in reverse_index for point invalidation.",
            "gauge",
            server_alias,
            text::decimal_text(snap.reverse_index_size as u64).as_str(),
        );
        append_metric(
            &mut out,
            "cache_backend_latency_ms_avg",
            "EMA of backend call latency in milliseconds.",
            "gauge",
            server_alias,
            avg_backend_latency_ms,
        );
        assert(out@ =~= self.counter_text(server_alias@) + self.gauge_text(
            server_alias@,
            avg_backend_latency_ms@,
        ));
        out
    }
}

/// The next value of a counter is one more, and zero once there is no room.
pub proof fn law_counter_goes_up_by_one(n: u64)
    ensures
        n < u64::MAX ==> bump(n) == n + 1,
        n == u64::MAX ==> bump(n) == 0,
{
}

/// The line that gives the value of a metric for a server.
pub open spec fn sample(name: Seq<char>, server_alias: Seq<char>, value: Seq<char>) -> Seq<char> {
    name + "{server=\""@ + server_alias + "\"} "@ + value + "\n"@
}

/// Whether a text has another one in it.
pub open spec fn has_part(shown: Seq<char>, part: Seq<char>) -> bool {
    exists|a: Seq<char>, b: Seq<char>| shown == #[trigger] (a + part + b)
}

/// The lines for a metric end with its value.
proof fn lemma_sample_in_lines(
    name: Seq<char>,
    help: Seq<char>,
    kind: Seq<char>,
    server_alias: Seq<char>,
    value: Seq<char>,
)
    ensures
        has_part(
            metric_lines(name, help, kind, server_alias, value),
            sample(name, server_alias, value),
        ),
{
    let head = "# HELP "@ + name + " "@ + help + "\n"@ + "# TYPE "@ + name + " "@ + kind + "\n"@;
    assert(metric_lines(name, help, kind, server_alias, value) =~= head + sample(
        name,
        server_alias,
        value,
    ) + Seq::empty());
}

/// What a text has in it, a text around it has too.
proof fn lemma_part_of_longer(before: Seq<char>, shown: Seq<char>, after: Seq<char>, part: Seq<char>)
    requires
        has_part(shown, part),
    ensures
        has_part(before + shown, part),
        has_part(shown + after, part),
{
    let (a, b) = choose|a: Seq<char>, b: Seq<char>| shown == #[trigger] (a + part + b);
    assert(before + shown =~= (before + a) + part + b);
    assert(shown + after =~= a + part + (b + after));
}

/// The text of the counters gives each of them.
proof fn lemma_counters(m: Metrics, server_alias: Seq<char>)
    ensures
        has_part(m.counter_text(server_alias), sample("cache_hits_total"@, server_alias, text::decimal(m.cache_hits as nat))),
        has_part(m.counter_text(server_alias), sample("cache_misses_total"@, server_alias, text::decimal(m.cache_misses as nat))),
        has_part(m.counter_text(server_alias), sample("cache_bypass_total"@, server_alias, text::decimal(m.bypass as nat))),
        has_part(m.counter_text(server_alias), sample("cache_backend_errors_total"@, server_alias, text::decimal(m.backend_errors as nat))),
{
    let m1 = metric_lines(
        "cache_hits_total"@,
        "Total number of cache hits."@,
        "counter"@,
        server_alias,
        text::decimal(m.cache_hits as nat),
    );
    let m2 = metric_lines(
        "cache_misses_total"@,
        "Total number of cache misses (backend was called)."@,
        "counter"@,
        server_alias,
        text::decimal(m.cache_misses as nat),
    );
    let m3 = metric_lines(
        "cache_bypass_total"@,
        "Total number of explicit cache bypasses (non-cacheable tool, scope disabled, X-Cache-Bypass header)."@,
        "counter"@,
        server_alias,
        text::decimal(m.bypass as nat),
    );
    let m4 = metric_lines(
        "cache_backend_errors_total"@,
        "Total number of failed backend calls."@,
        "counter"@,
        server_alias,
        text::decimal(m.backend_errors as nat),
    );
    lemma_sample_in_lines(
        "cache_hits_total"@,
        "Total number of cache hits."@,
        "counter"@,
        server_alias,
        text::decimal(m.cache_hits as nat),
    );
    let s1 = sample("cache_hits_total"@, server_alias, text::decimal(m.cache_hits as nat));
    lemma_part_of_longer(Seq::empty(), m1, m2, s1);
    lemma_part_of_longer(Seq::empty(), m1 + m2, m3, s1);
    lemma_part_of_longer(Seq::empty(), m1 + m2 + m3, m4, s1);
    lemma_sample_in_lines(
        "cache_misses_total"@,
        "Total number of cache misses (backend was called)."@,
        "counter"@,
        server_alias,
        text::decimal(m.cache_misses as nat),
    );
    let s2 = sample("cache_misses_total"@, server_alias, text::decimal(m.cache_misses as nat));
    lemma_part_of_longer(m1, m2, Seq::empty(), s2);
    lemma_part_of_longer(Seq::empty(), m1 + m2, m3, s2);
    lemma_part_of_longer(Seq::empty(), m1 + m2 + m3, m4, s2);
    lemma_sample_in_lines(
        "cache_bypass_total"@,
        "Total number of explicit cache bypasses (non-cacheable tool, scope disabled, X-Cache-Bypass header)."@,
        "counter"@,
        server_alias,
        text::decimal(m.bypass as nat),
    );
    let s3 = sample("cache_bypass_total"@, server_alias, text::decimal(m.bypass as nat));
    lemma_part_of_longer(m1 + m2, m3, Seq::empty(), s3);
    lemma_part_of_longer(Seq::empty(), m1 + m2 + m3, m4, s3);
    lemma_sample_in_lines(
        "cache_backend_errors_total"@,
        "Total number of failed backend calls."@,
        "counter"@,
        server_alias,
        text::decimal(m.backend_errors as nat),
    );
    let s4 = sample("cache_backend_errors_total"@, server_alias, text::decimal(m.backend_errors as nat));
    lemma_part_of_longer(m1 + m2 + m3, m4, Seq::empty(), s4);
}

/// The text of the gauges gives each of them.
proof fn lemma_gauges(m: Metrics, server_alias: Seq<char>, latency: Seq<char>)
    ensures
        has_part(m.gauge_text(server_alias, latency), sample("cache_entries_count"@, server_alias, text::decimal(m.cache_size as nat))),
        has_part(m.gauge_text(server_alias, latency), sample("cache_reverse_index_size"@, server_alias, text::decimal(m.reverse_index_size as nat))),
        has_part(m.gauge_text(server_alias, latency), sample("cache_backend_latency_ms_avg"@, server_alias, latency)),
{
    let m5 = metric_lines(
        "cache_entries_count"@,
        "Current number of entries in the main cache."@,
        "gauge"@,
        server_alias,
        text::decimal(m.cache_size as nat),
    );
    let m6 = metric_lines(
        "cache_reverse_index_size"@,
        "Number of file_paths registered in reverse_index for point invalidation."@,
        "gauge"@,
        server_alias,
        text::decimal(m.reverse_index_size as nat),
    );
    let m7 = metric_lines(
        "cache_backend_latency_ms_avg"@,
        "EMA of backend call latency in milliseconds."@,
        "gauge"@,
        server_alias,
        latency,
    );
    lemma_sample_in_lines(
        "cache_entries_count"@,
        "Current number of entries in the main cache."@,
        "gauge"@,
        server_alias,
        text::decimal(m.cache_size as nat),
    );
    let s5 = sample("cache_entries_count"@, server_alias, text::decimal(m.cache_size as nat));
    lemma_part_of_longer(Seq::empty(), m5, m6, s5);
    lemma_part_of_longer(Seq::empty(), m5 + m6, m7, s5);
    lemma_sample_in_lines(
        "cache_reverse_index_size"@,
        "Number of file_paths registered in reverse_index for point invalidation."@,
        "gauge"@,
        server_alias,
        text::decimal(m.reverse_index_size as nat),
    );
    let s6 = sample("cache_reverse_index_size"@, server_alias, text::decimal(m.reverse_index_size as nat));
    lemma_part_of_longer(m5, m6, Seq::empty(), s6);
    lemma_part_of_longer(Seq::empty(), m5 + m6, m7, s6);
    lemma_sample_in_lines(
        "cache_backend_latency_ms_avg"@,
        "EMA of backend call latency in milliseconds."@,
        "gauge"@,
        server_alias,
        latency,
    );
    let s7 = sample("cache_backend_latency_ms_avg"@, server_alias, latency);
    lemma_part_of_longer(m5 + m6, m7, Seq::empty(), s7);
}

/// The text of all metrics gives each of them under its own name, for its server.
pub proof fn law_text_gives_each_metric(m: Metrics, server_alias: Seq<char>, latency: Seq<char>)
    ensures
        ({
            let shown = m.counter_text(server_alias) + m.gauge_text(server_alias, latency);
            &&& has_part(
                shown,
                sample("cache_hits_total"@, server_alias, text::decimal(m.cache_hits as nat)),
            )
            &&& has_part(
                shown,
                sample("cache_misses_total"@, server_alias, text::decimal(m.cache_misses as nat)),
            )
            &&& has_part(
                shown,
                sample("cache_bypass_total"@, server_alias, text::decimal(m.bypass as nat)),
            )
            &&& has_part(
                shown,
                sample("cache_backend_errors_total"@, server_alias, text::decimal(m.backend_errors as nat)),
            )
            &&& has_part(
                shown,
                sample("cache_entries_count"@, server_alias, text::decimal(m.cache_size as nat)),
            )
            &&& has_part(
                shown,
                sample("cache_reverse_index_size"@, server_alias, text::decimal(m.reverse_index_size as nat)),
            )
            &&& has_part(
                shown,
                sample("cache_backend_latency_ms_avg"@, server_alias, latency),
            )
        }),
{
    let counters = m.counter_text(server_alias);
    let gauges = m.gauge_text(server_alias, latency);
    lemma_counters(m, server_alias);
    lemma_gauges(m, server_alias, latency);
    lemma_part_of_longer(
        Seq::empty(),
        counters,
        gauges,
        sample("cache_hits_total"@, server_alias, text::decimal(m.cache_hits as nat)),
    );
    lemma_part_of_longer(
        Seq::empty(),
        counters,
        gauges,
        sample("cache_misses_total"@, server_alias, text::decimal(m.cache_misses as nat)),
    );
    lemma_part_of_longer(
        Seq::empty(),
        counters,
        gauges,
        sample("cache_bypass_total"@, server_alias, text::decimal(m.bypass as nat)),
    );
    lemma_part_of_longer(
        Seq::empty(),
        counters,
        gauges,
        sample("cache_backend_errors_total"@, server_alias, text::decimal(m.backend_errors as nat)),
    );
    lemma_part_of_longer(
        counters,
        gauges,
        Seq::empty(),
        sample("cache_entries_count"@, server_alias, text::decimal(m.cache_size as nat)),
    );
    lemma_part_of_longer(
        counters,
        gauges,
        Seq::empty(),
        sample("cache_reverse_index_size"@, server_alias, text::decimal(m.reverse_index_size as nat)),
    );
    lemma_part_of_longer(
        counters,
        gauges,
        Seq::empty(),
        sample("cache_backend_latency_ms_avg"@, server_alias, latency),
    );
}

} // verus!

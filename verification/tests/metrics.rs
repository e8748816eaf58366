//! Counters, gauges, histograms and what they show.

use ai_graph_engine::metrics::{Counter, Gauge, Histogram, Metrics, MetricsSummary, Timer};

/// The share of cache hits as the health reply shows it.
fn hit_rate(s: &MetricsSummary) -> String {
    let total = s.cache_hits + s.cache_misses;
    let rate = if total > 0 { s.cache_hits as f64 / total as f64 } else { 0.0 };
    format!("{:.1}%", rate * 100.0)
}

#[test]
fn counter_increments() {
    let mut c = Counter::new("test");
    assert_eq!(c.get(), 0);
    c.inc();
    c.inc();
    assert_eq!(c.get(), 2);
}

#[test]
fn counter_add() {
    let mut c = Counter::new("test");
    c.add(5);
    assert_eq!(c.get(), 5);
}

#[test]
fn counter_wraps_at_its_end() {
    let mut c = Counter::new("test");
    c.add(u64::MAX);
    c.inc();
    assert_eq!(c.get(), 0);
}

#[test]
fn gauge_sets_value() {
    let mut g = Gauge::new("test");
    g.set(42);
    assert_eq!(g.get(), 42);
    g.set(0);
    assert_eq!(g.get(), 0);
}

#[test]
fn histogram_count_and_sum() {
    let mut h = Histogram::new("test");
    h.observe(100);
    h.observe(200);
    h.observe(300);
    let r = h.render();
    assert!(r.contains("test_count 3"));
    assert!(r.contains("test_sum 600"));
}

#[test]
fn histogram_percentiles_reasonable() {
    let mut h = Histogram::new("test");
    for _ in 0..100 {
        h.observe(10);
    }
    assert!(h.p50_ms() <= 50);
    assert!(h.p99_ms() <= 100);
}

#[test]
fn histogram_empty_percentile_is_0() {
    let h = Histogram::new("test");
    assert_eq!(h.p50_ms(), 0);
    assert_eq!(h.p99_ms(), 0);
}

#[test]
fn histogram_percentiles_are_bucket_bounds() {
    let mut h = Histogram::new("test");
    for _ in 0..94 {
        h.observe(20);
    }
    for _ in 0..5 {
        h.observe(400);
    }
    h.observe(1_000_000);
    assert_eq!(h.p50_ms(), 50);
    assert_eq!(h.p95_ms(), 500);
    assert_eq!(h.p99_ms(), 500);
    h.observe(1_000_000);
    assert_eq!(h.p99_ms(), 9999);
}

#[test]
fn histogram_renders_cumulative_buckets() {
    let mut h = Histogram::new("t");
    h.observe(60);
    h.observe(10);
    let r = h.render();
    assert!(r.contains("t_bucket{le=\"50\"} 1\n"));
    assert!(r.contains("t_bucket{le=\"100\"} 2\n"));
    assert!(r.contains("t_bucket{le=\"+Inf\"} 2\n"));
    assert!(r.contains("t_sum 70\n"));
}

#[test]
fn prometheus_render_contains_all_metrics() {
    let mut m = Metrics::new();
    m.queries_total.inc();
    m.cache_hits.add(5);
    m.query_latency.observe(250);
    m.graph_nodes.set(1000);
    let r = m.render_prometheus();
    assert!(r.contains("queries_total 1"));
    assert!(r.contains("cache_hits_total 5"));
    assert!(r.contains("graph_nodes 1000"));
    assert!(r.contains("query_latency_ms_bucket"));
}

#[test]
fn summary_json_cache_hit_rate() {
    let mut m = Metrics::new();
    m.cache_hits.add(80);
    m.cache_misses.add(20);
    assert_eq!(hit_rate(&m.summary()), "80.0%");
}

#[test]
fn summary_json_zero_denominator_no_panic() {
    let m = Metrics::new();
    assert_eq!(hit_rate(&m.summary()), "0.0%");
}

#[test]
fn metrics_track_query_lifecycle() {
    let mut m = Metrics::new();
    m.queries_total.inc();
    m.embed_latency.observe(35);
    m.llm_latency.observe(800);
    m.query_latency.observe(840);
    m.cache_hits.add(3);
    m.cache_misses.add(1);

    let s = m.summary();
    assert_eq!(s.queries_total, 1);
    assert_eq!(s.cache_hits, 3);
    assert_eq!(hit_rate(&s), "75.0%");
    assert_eq!(s.latency_p50_ms, 1000);

    let prom = m.render_prometheus();
    assert!(prom.contains("queries_total 1"));
    assert!(prom.contains("embed_latency_ms_count 1"));
}

#[test]
fn timer_records_on_drop() {
    let mut h = Histogram::new("test");
    let t = Timer::new(1_000);
    t.finish(1_005, &mut h);
    assert!(h.render().contains("test_count 1"));
    assert!(h.render().contains("test_sum 5"));
}

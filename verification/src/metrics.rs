//! Prometheus-style counters, gauges and histograms.

use crate::digits::{decimal, decimal_text};
use crate::text::{has_substring, occurs_at};
use vstd::prelude::*;
use vstd::string::*;

verus! {

// ── histogram ────────────────────────────────────────────────────────────────

/// How many buckets a histogram has.
pub const BUCKET_COUNT: usize = 7;

/// The upper bound of bucket `i`. The last bucket has none.
pub open spec fn bucket_bound(i: int) -> u64 {
    if i == 0 {
        50
    } else if i == 1 {
        100
    } else if i == 2 {
        250
    } else if i == 3 {
        500
    } else if i == 4 {
        1000
    } else if i == 5 {
        2500
    } else {
        u64::MAX
    }
}

fn bound(i: usize) -> (r: u64)
    ensures
        r == bucket_bound(i as int),
{
    if i == 0 {
        50
    } else if i == 1 {
        100
    } else if i == 2 {
        250
    } else if i == 3 {
        500
    } else if i == 4 {
        1000
    } else if i == 5 {
        2500
    } else {
        u64::MAX
    }
}

/// The first bucket whose bound `value` does not exceed.
pub open spec fn bucket_of(value: u64) -> int {
    if value <= 50 {
        0
    } else if value <= 100 {
        1
    } else if value <= 250 {
        2
    } else if value <= 500 {
        3
    } else if value <= 1000 {
        4
    } else if value <= 2500 {
        5
    } else {
        6
    }
}

/// How many observations lie in the first `n` buckets.
pub open spec fn cumulative(buckets: Seq<u64>, n: int) -> int
    decreases n,
{
    if n <= 0 {
        0
    } else {
        cumulative(buckets, n - 1) + buckets[n - 1]
    }
}

/// Counts of observed values by bucket, with their number and their sum.
pub struct Histogram {
    pub buckets: Vec<u64>,
    pub sum: u64,
    pub count: u64,
    pub name: &'static str,
}

/// The label of a bucket: its bound, or `+Inf`.
pub open spec fn bound_text(i: int) -> Seq<char> {
    if i == 6 {
        "+Inf"@
    } else {
        decimal_text(bucket_bound(i) as nat)
    }
}

/// The line of bucket `i`: how many observations do not exceed its bound.
pub open spec fn bucket_line(name: Seq<char>, buckets: Seq<u64>, i: int) -> Seq<char> {
    name + "_bucket{le=\""@ + bound_text(i) + "\"} "@ + decimal_text(
        cumulative(buckets, i + 1) as nat,
    ) + "\n"@
}

/// The lines of the first `n` buckets.
pub open spec fn bucket_lines(name: Seq<char>, buckets: Seq<u64>, n: int) -> Seq<char>
    decreases n,
{
    if n <= 0 {
        Seq::empty()
    } else {
        bucket_lines(name, buckets, n - 1) + bucket_line(name, buckets, n - 1)
    }
}

/// A line of a name and a number.
pub open spec fn value_line(name: Seq<char>, value: u64) -> Seq<char> {
    name + " "@ + decimal_text(value as nat) + "\n"@
}

/// The smallest number of observations that is at least `percent` in a hundred of `total`.
pub open spec fn rank_of(total: u64, percent: u64) -> int {
    (total * percent + 99) / 100
}

/// The first bucket by which `rank` observations are reached, from bucket `i` on.
pub open spec fn bucket_reaching(buckets: Seq<u64>, rank: int, i: int) -> int
    decreases BUCKET_COUNT - i,
{
    if i >= BUCKET_COUNT || cumulative(buckets, i + 1) >= rank {
        i
    } else {
        bucket_reaching(buckets, rank, i + 1)
    }
}

/// The bound of the bucket that holds the given percentile; 9999 for the bucket without a bound,
/// and 0 without observations.
pub open spec fn percentile_of(buckets: Seq<u64>, total: u64, percent: u64) -> u64 {
    if total == 0 {
        0
    } else {
        let i = bucket_reaching(buckets, rank_of(total, percent), 0);
        if i >= 6 {
            9999
        } else {
            bucket_bound(i)
        }
    }
}

proof fn lemma_cumulative_update(buckets: Seq<u64>, i: int, n: int)
    requires
        0 <= i < buckets.len(),
        0 <= n <= buckets.len(),
        buckets[i] < u64::MAX,
    ensures
        cumulative(buckets.update(i, (buckets[i] + 1) as u64), n) == cumulative(buckets, n) + if i
            < n {
            1int
        } else {
            0
        },
    decreases n,
{
    if n > 0 {
        lemma_cumulative_update(buckets, i, n - 1);
    }
}

/// Cumulative counts never decrease.
pub proof fn lemma_cumulative_monotone(buckets: Seq<u64>, a: int, b: int)
    requires
        0 <= a <= b,
    ensures
        0 <= cumulative(buckets, a) <= cumulative(buckets, b),
    decreases b,
{
    if a < b {
        lemma_cumulative_monotone(buckets, a, b - 1);
    } else if a > 0 {
        lemma_cumulative_monotone(buckets, a - 1, a - 1);
    }
}

impl Histogram {
    /// Every observation is in exactly one bucket.
    pub open spec fn wf(&self) -> bool {
        &&& self.buckets@.len() == BUCKET_COUNT
        &&& cumulative(self.buckets@, BUCKET_COUNT as int) == self.count
    }

    /// The histogram in Prometheus text format: cumulative buckets, sum and count.
    pub open spec fn text(&self) -> Seq<char> {
        bucket_lines(self.name@, self.buckets@, BUCKET_COUNT as int) + (self.name@ + "_sum "@
            + decimal_text(self.sum as nat) + "\n"@) + (self.name@ + "_count "@ + decimal_text(
            self.count as nat,
        ) + "\n"@)
    }

    pub fn new(name: &'static str) -> (r: Self)
        ensures
            r.wf(),
            r.is_fresh(name@),
    {
        let buckets: Vec<u64> = vec![0u64; BUCKET_COUNT];
        proof {
            reveal_with_fuel(cumulative, 8);
            assert(buckets@ =~= Seq::new(BUCKET_COUNT as nat, |i: int| 0u64));
        }
        Histogram { buckets, sum: 0, count: 0, name }
    }

    /// A histogram without values.
    pub open spec fn is_fresh(&self, name: Seq<char>) -> bool {
        &&& self.name@ == name
        &&& self.count == 0
        &&& self.sum == 0
        &&& self.buckets@ == Seq::new(BUCKET_COUNT as nat, |i: int| 0u64)
    }

    /// The histogram is `before` with one more value.
    pub open spec fn observed(&self, before: &Histogram, value_ms: u64) -> bool {
        &&& self.name == before.name
        &&& self.count == before.count + 1
        &&& self.sum == (before.sum + value_ms) % 0x1_0000_0000_0000_0000
        &&& self.buckets@ == before.buckets@.update(
            bucket_of(value_ms),
            (before.buckets@[bucket_of(value_ms)] + 1) as u64,
        )
    }

    /// Counts a value, in the first bucket whose bound it does not exceed.
    pub fn observe(&mut self, value_ms: u64)
        requires
            old(self).wf(),
            old(self).count < u64::MAX,
        ensures
            final(self).wf(),
            final(self).observed(old(self), value_ms),
    {
        self.sum = self.sum.wrapping_add(value_ms);
        let mut i: usize = 0;
        while i < BUCKET_COUNT - 1 && value_ms > bound(i)
            invariant
                i <= BUCKET_COUNT - 1,
                forall|j: int| 0 <= j < i ==> value_ms > #[trigger] bucket_bound(j),
            decreases BUCKET_COUNT - i,
        {
            i += 1;
        }
        proof {
            assert(i == bucket_of(value_ms)) by {
                assert(i > 0 ==> value_ms > bucket_bound(i - 1));
            }
            reveal_with_fuel(cumulative, 8);
            let n = BUCKET_COUNT as int;
            lemma_cumulative_monotone(self.buckets@, 0, i as int);
            lemma_cumulative_monotone(self.buckets@, i + 1, n);
            lemma_cumulative_update(self.buckets@, i as int, n);
        }
        let seen: u64 = self.buckets[i];
        self.buckets.set(i, seen + 1);
        self.count = self.count + 1;
    }

    /// The histogram in Prometheus text format.
    pub fn render(&self) -> (r: String)
        requires
            self.wf(),
        ensures
            r@ == self.text(),
    {
        let mut out: String = String::new();
        let mut seen: u64 = 0;
        let mut i: usize = 0;
        while i < BUCKET_COUNT
            invariant
                self.wf(),
                i <= BUCKET_COUNT,
                seen == cumulative(self.buckets@, i as int),
                out@ == bucket_lines(self.name@, self.buckets@, i as int),
            decreases BUCKET_COUNT - i,
        {
            proof {
                lemma_cumulative_monotone(self.buckets@, i + 1, BUCKET_COUNT as int);
            }
            seen = seen + self.buckets[i];
            let le: String = if i == BUCKET_COUNT - 1 {
                "+Inf".to_owned()
            } else {
                decimal(bound(i))
            };
            let ghost before = out@;
            out.append(self.name);
            out.append("_bucket{le=\"");
            out.append(le.as_str());
            out.append("\"} ");
            out.append(decimal(seen).as_str());
            out.append("\n");
            proof {
                assert(out@ =~= before + bucket_line(self.name@, self.buckets@, i as int));
            }
            i += 1;
        }
        let ghost before = out@;
        out.append(self.name);
        out.append("_sum ");
        out.append(decimal(self.sum).as_str());
        out.append("\n");
        out.append(self.name);
        out.append("_count ");
        out.append(decimal(self.count).as_str());
        out.append("\n");
        proof {
            assert(out@ =~= self.text());
        }
        out
    }

    fn percentile(&self, percent: u64) -> (r: u64)
        requires
            self.wf(),
            percent <= 100,
        ensures
            r == percentile_of(self.buckets@, self.count, percent),
    {
        if self.count == 0 {
            return 0;
        }
        proof {
            assert(self.count * percent <= 0xffff_ffff_ffff_ffff * 100) by (nonlinear_arith)
                requires
                    self.count <= 0xffff_ffff_ffff_ffff,
                    percent <= 100,
            ;
        }
        let target: u128 = (self.count as u128 * percent as u128 + 99) / 100;
        let mut seen: u64 = 0;
        let mut i: usize = 0;
        while i < BUCKET_COUNT
            invariant
                self.wf(),
                i <= BUCKET_COUNT,
                target == rank_of(self.count, percent),
                seen == cumulative(self.buckets@, i as int),
                bucket_reaching(self.buckets@, target as int, 0) == bucket_reaching(
                    self.buckets@,
                    target as int,
                    i as int,
                ),
                self.count > 0,
            decreases BUCKET_COUNT - i,
        {
            proof {
                lemma_cumulative_monotone(self.buckets@, i + 1, BUCKET_COUNT as int);
            }
            seen = seen + self.buckets[i];
            if seen as u128 >= target {
                return if i == BUCKET_COUNT - 1 {
                    9999
                } else {
                    bound(i)
                };
            }
            i += 1;
        }
        9999
    }

    pub fn p50_ms(&self) -> (r: u64)
        requires
            self.wf(),
        ensures
            r == percentile_of(self.buckets@, self.count, 50),
    {
        self.percentile(50)
    }

    pub fn p95_ms(&self) -> (r: u64)
        requires
            self.wf(),
        ensures
            r == percentile_of(self.buckets@, self.count, 95),
    {
        self.percentile(95)
    }

    pub fn p99_ms(&self) -> (r: u64)
        requires
            self.wf(),
        ensures
            r == percentile_of(self.buckets@, self.count, 99),
    {
        self.percentile(99)
    }
}

/// The bound that a percentile names is one that enough observations do not exceed, and the bucket
/// before it is not enough: it is 9999 exactly when only the bucket without a bound is.
pub proof fn law_percentile_is_reached(h: &Histogram, percent: u64)
    requires
        h.wf(),
        h.count > 0,
        percent <= 100,
    ensures
        ({
            let rank = rank_of(h.count, percent);
            let i = bucket_reaching(h.buckets@, rank, 0);
            &&& 0 <= i < BUCKET_COUNT
            &&& cumulative(h.buckets@, i + 1) >= rank
            &&& i > 0 ==> cumulative(h.buckets@, i) < rank
        }),
{
    let rank = rank_of(h.count, percent);
    assert(rank <= h.count) by (nonlinear_arith)
        requires
            rank == (h.count * percent + 99) / 100,
            percent <= 100,
    ;
    lemma_bucket_reaching(h.buckets@, rank, 0);
    let i = bucket_reaching(h.buckets@, rank, 0);
    if i == BUCKET_COUNT {
        assert(cumulative(h.buckets@, BUCKET_COUNT as int) < rank);
    }
}

proof fn lemma_bucket_reaching(buckets: Seq<u64>, rank: int, i: int)
    requires
        0 <= i <= BUCKET_COUNT,
        i > 0 ==> cumulative(buckets, i) < rank,
    ensures
        i <= bucket_reaching(buckets, rank, i) <= BUCKET_COUNT,
        bucket_reaching(buckets, rank, i) < BUCKET_COUNT ==> cumulative(
            buckets,
            bucket_reaching(buckets, rank, i) + 1,
        ) >= rank,
        bucket_reaching(buckets, rank, i) > 0 ==> cumulative(
            buckets,
            bucket_reaching(buckets, rank, i),
        ) < rank,
    decreases BUCKET_COUNT - i,
{
    if i < BUCKET_COUNT && cumulative(buckets, i + 1) < rank {
        lemma_bucket_reaching(buckets, rank, i + 1);
    }
}

// ── counter and gauge ────────────────────────────────────────────────────────

pub struct Counter {
    pub value: u64,
    pub name: &'static str,
}

impl Counter {
    /// The counter stands one higher than before, or at 0 behind the largest number.
    pub open spec fn is_one_past(&self, before: &Counter) -> bool {
        &&& self.value == (before.value + 1) % 0x1_0000_0000_0000_0000
        &&& self.name == before.name
    }

    pub fn new(name: &'static str) -> (r: Self)
        ensures
            r.value == 0,
            r.name@ == name@,
    {
        Counter { value: 0, name }
    }

    pub fn inc(&mut self)
        ensures
            final(self).is_one_past(old(self)),
    {
        self.value = self.value.wrapping_add(1);
    }

    pub fn add(&mut self, n: u64)
        ensures
            final(self).value == (old(self).value + n) % 0x1_0000_0000_0000_0000,
            final(self).name == old(self).name,
    {
        self.value = self.value.wrapping_add(n);
    }

    pub fn get(&self) -> (r: u64)
        ensures
            r == self.value,
    {
        self.value
    }

    pub fn render(&self) -> (r: String)
        ensures
            r@ == value_line(self.name@, self.value),
    {
        render_value(self.name, self.value)
    }
}

pub struct Gauge {
    pub value: u64,
    pub name: &'static str,
}

impl Gauge {
    pub fn new(name: &'static str) -> (r: Self)
        ensures
            r.value == 0,
            r.name@ == name@,
    {
        Gauge { value: 0, name }
    }

    pub fn set(&mut self, v: u64)
        ensures
            final(self).value == v,
            final(self).name == old(self).name,
    {
        self.value = v;
    }

    pub fn get(&self) -> (r: u64)
        ensures
            r == self.value,
    {
        self.value
    }

    pub fn render(&self) -> (r: String)
        ensures
            r@ == value_line(self.name@, self.value),
    {
        render_value(self.name, self.value)
    }
}

fn render_value(name: &str, value: u64) -> (r: String)
    ensures
        r@ == value_line(name@, value),
{
    let mut r: String = name.to_owned();
    r.append(" ");
    r.append(decimal(value).as_str());
    r.append("\n");
    r
}

// ── metrics registry ─────────────────────────────────────────────────────────

pub struct Metrics {
    pub queries_total: Counter,
    pub queries_failed_total: Counter,
    pub query_latency: Histogram,
    pub embed_latency: Histogram,
    pub llm_latency: Histogram,
    pub cache_hits: Counter,
    pub cache_misses: Counter,
    pub ingest_total: Counter,
    pub ingest_failed_total: Counter,
    pub nodes_ingested_total: Counter,
    pub ingest_latency: Histogram,
    pub delta_size: Gauge,
    pub graph_nodes: Gauge,
    pub graph_edges: Gauge,
}

/// The metrics of a registry in Prometheus text format: each behind its description.
pub open spec fn prometheus_text(m: &Metrics) -> Seq<char> {
    Seq::<char>::empty() + ("# HELP queries_total Total query requests\n# TYPE queries_total counter\n"@ + value_line(m.queries_total.name@, m.queries_total.value))
        + ("# HELP queries_failed_total Failed queries\n# TYPE queries_failed_total counter\n"@ + value_line(m.queries_failed_total.name@, m.queries_failed_total.value))
        + ("# HELP query_latency_ms Query end-to-end latency\n# TYPE query_latency_ms histogram\n"@ + m.query_latency.text())
        + ("# HELP embed_latency_ms Embedding latency\n# TYPE embed_latency_ms histogram\n"@ + m.embed_latency.text())
        + ("# HELP llm_latency_ms LLM generation latency\n# TYPE llm_latency_ms histogram\n"@ + m.llm_latency.text())
        + ("# HELP cache_hits_total LRU cache hits\n# TYPE cache_hits_total counter\n"@ + value_line(m.cache_hits.name@, m.cache_hits.value))
        + ("# HELP cache_misses_total LRU cache misses\n# TYPE cache_misses_total counter\n"@ + value_line(m.cache_misses.name@, m.cache_misses.value))
        + ("# HELP ingest_total Total ingest requests\n# TYPE ingest_total counter\n"@ + value_line(m.ingest_total.name@, m.ingest_total.value))
        + ("# HELP ingest_failed_total Failed ingest requests\n# TYPE ingest_failed_total counter\n"@ + value_line(m.ingest_failed_total.name@, m.ingest_failed_total.value))
        + ("# HELP nodes_ingested_total Total new nodes committed to delta\n# TYPE nodes_ingested_total counter\n"@ + value_line(m.nodes_ingested_total.name@, m.nodes_ingested_total.value))
        + ("# HELP ingest_latency_ms Ingest end-to-end latency\n# TYPE ingest_latency_ms histogram\n"@ + m.ingest_latency.text())
        + ("# HELP delta_size Current delta buffer size\n# TYPE delta_size gauge\n"@ + value_line(m.delta_size.name@, m.delta_size.value))
        + ("# HELP graph_nodes Total nodes in main graph\n# TYPE graph_nodes gauge\n"@ + value_line(m.graph_nodes.name@, m.graph_nodes.value))
        + ("# HELP graph_edges Total edges in main graph\n# TYPE graph_edges gauge\n"@ + value_line(m.graph_edges.name@, m.graph_edges.value))
}

fn section(out: &mut String, head: &str, body: &str)
    ensures
        final(out)@ == old(out)@ + (head@ + body@),
{
    let ghost before = out@;
    out.append(head);
    out.append(body);
    proof {
        assert(out@ =~= before + (head@ + body@));
    }
}

impl Metrics {
    pub open spec fn wf(&self) -> bool {
        &&& self.query_latency.wf()
        &&& self.embed_latency.wf()
        &&& self.llm_latency.wf()
        &&& self.ingest_latency.wf()
    }

    /// A registry of metrics that are all at zero.
    pub fn new() -> (r: Self)
        ensures
            r.wf(),
            r.queries_total.value == 0 && r.queries_total.name@ == "queries_total"@,
            r.queries_failed_total.value == 0 && r.queries_failed_total.name@ == "queries_failed_total"@,
            r.query_latency.is_fresh("query_latency_ms"@),
            r.embed_latency.is_fresh("embed_latency_ms"@),
            r.llm_latency.is_fresh("llm_latency_ms"@),
            r.cache_hits.value == 0 && r.cache_hits.name@ == "cache_hits_total"@,
            r.cache_misses.value == 0 && r.cache_misses.name@ == "cache_misses_total"@,
            r.ingest_total.value == 0 && r.ingest_total.name@ == "ingest_total"@,
            r.ingest_failed_total.value == 0 && r.ingest_failed_total.name@ == "ingest_failed_total"@,
            r.nodes_ingested_total.value == 0 && r.nodes_ingested_total.name@ == "nodes_ingested_total"@,
            r.ingest_latency.is_fresh("ingest_latency_ms"@),
            r.delta_size.value == 0 && r.delta_size.name@ == "delta_size"@,
            r.graph_nodes.value == 0 && r.graph_nodes.name@ == "graph_nodes"@,
            r.graph_edges.value == 0 && r.graph_edges.name@ == "graph_edges"@,
    {
        Metrics {
            queries_total: Counter::new("queries_total"),
            queries_failed_total: Counter::new("queries_failed_total"),
            query_latency: Histogram::new("query_latency_ms"),
            embed_latency: Histogram::new("embed_latency_ms"),
            llm_latency: Histogram::new("llm_latency_ms"),
            cache_hits: Counter::new("cache_hits_total"),
            cache_misses: Counter::new("cache_misses_total"),
            ingest_total: Counter::new("ingest_total"),
            ingest_failed_total: Counter::new("ingest_failed_total"),
            nodes_ingested_total: Counter::new("nodes_ingested_total"),
            ingest_latency: Histogram::new("ingest_latency_ms"),
            delta_size: Gauge::new("delta_size"),
            graph_nodes: Gauge::new("graph_nodes"),
            graph_edges: Gauge::new("graph_edges"),
        }
    }

    /// All metrics in Prometheus text format.
    pub fn render_prometheus(&self) -> (r: String)
        requires
            self.wf(),
        ensures
            r@ == prometheus_text(self),
    {
        let mut out: String = String::new();
        section(
            &mut out,
            "# HELP queries_total Total query requests\n# TYPE queries_total counter\n",
            self.queries_total.render().as_str(),
        );
        section(
            &mut out,
            "# HELP queries_failed_total Failed queries\n# TYPE queries_failed_total counter\n",
            self.queries_failed_total.render().as_str(),
        );
        section(
            &mut out,
            "# HELP query_latency_ms Query end-to-end latency\n# TYPE query_latency_ms histogram\n",
            self.query_latency.render().as_str(),
        );
        section(
            &mut out,
            "# HELP embed_latency_ms Embedding latency\n# TYPE embed_latency_ms histogram\n",
            self.embed_latency.render().as_str(),
        );
        section(
            &mut out,
            "# HELP llm_latency_ms LLM generation latency\n# TYPE llm_latency_ms histogram\n",
            self.llm_latency.render().as_str(),
        );
        section(
            &mut out,
            "# HELP cache_hits_total LRU cache hits\n# TYPE cache_hits_total counter\n",
            self.cache_hits.render().as_str(),
        );
        section(
            &mut out,
            "# HELP cache_misses_total LRU cache misses\n# TYPE cache_misses_total counter\n",
            self.cache_misses.render().as_str(),
        );
        section(
            &mut out,
            "# HELP ingest_total Total ingest requests\n# TYPE ingest_total counter\n",
            self.ingest_total.render().as_str(),
        );
        section(
            &mut out,
            "# HELP ingest_failed_total Failed ingest requests\n# TYPE ingest_failed_total counter\n",
            self.ingest_failed_total.render().as_str(),
        );
        section(
            &mut out,
            "# HELP nodes_ingested_total Total new nodes committed to delta\n# TYPE nodes_ingested_total counter\n",
            self.nodes_ingested_total.render().as_str(),
        );
        section(
            &mut out,
            "# HELP ingest_latency_ms Ingest end-to-end latency\n# TYPE ingest_latency_ms histogram\n",
            self.ingest_latency.render().as_str(),
        );
        section(
            &mut out,
            "# HELP delta_size Current delta buffer size\n# TYPE delta_size gauge\n",
            self.delta_size.render().as_str(),
        );
        section(
            &mut out,
            "# HELP graph_nodes Total nodes in main graph\n# TYPE graph_nodes gauge\n",
            self.graph_nodes.render().as_str(),
        );
        section(
            &mut out,
            "# HELP graph_edges Total edges in main graph\n# TYPE graph_edges gauge\n",
            self.graph_edges.render().as_str(),
        );
        out
    }

    /// The figures of the health report.
    pub fn summary(&self) -> (r: MetricsSummary)
        requires
            self.wf(),
        ensures
            r.queries_total == self.queries_total.value,
            r.queries_failed == self.queries_failed_total.value,
            r.latency_p50_ms == percentile_of(
                self.query_latency.buckets@,
                self.query_latency.count,
                50,
            ),
            r.latency_p95_ms == percentile_of(
                self.query_latency.buckets@,
                self.query_latency.count,
                95,
            ),
            r.latency_p99_ms == percentile_of(
                self.query_latency.buckets@,
                self.query_latency.count,
                99,
            ),
            r.cache_hits == self.cache_hits.value,
            r.cache_misses == self.cache_misses.value,
            r.ingest_total == self.ingest_total.value,
            r.ingest_failed == self.ingest_failed_total.value,
            r.nodes_ingested == self.nodes_ingested_total.value,
            r.ingest_latency_p95_ms == percentile_of(
                self.ingest_latency.buckets@,
                self.ingest_latency.count,
                95,
            ),
            r.graph_nodes == self.graph_nodes.value,
            r.graph_edges == self.graph_edges.value,
            r.delta_size == self.delta_size.value,
    {
        MetricsSummary {
            queries_total: self.queries_total.get(),
            queries_failed: self.queries_failed_total.get(),
            latency_p50_ms: self.query_latency.p50_ms(),
            latency_p95_ms: self.query_latency.p95_ms(),
            latency_p99_ms: self.query_latency.p99_ms(),
            cache_hits: self.cache_hits.get(),
            cache_misses: self.cache_misses.get(),
            ingest_total: self.ingest_total.get(),
            ingest_failed: self.ingest_failed_total.get(),
            nodes_ingested: self.nodes_ingested_total.get(),
            ingest_latency_p95_ms: self.ingest_latency.p95_ms(),
            graph_nodes: self.graph_nodes.get(),
            graph_edges: self.graph_edges.get(),
            delta_size: self.delta_size.get(),
        }
    }
}

/// The figures of the health report.
pub struct MetricsSummary {
    pub queries_total: u64,
    pub queries_failed: u64,
    pub latency_p50_ms: u64,
    pub latency_p95_ms: u64,
    pub latency_p99_ms: u64,
    pub cache_hits: u64,
    pub cache_misses: u64,
    pub ingest_total: u64,
    pub ingest_failed: u64,
    pub nodes_ingested: u64,
    pub ingest_latency_p95_ms: u64,
    pub graph_nodes: u64,
    pub graph_edges: u64,
    pub delta_size: u64,
}

// ── timer ────────────────────────────────────────────────────────────────────

/// A running time measurement, on a clock of milliseconds.
pub struct Timer {
    pub start_ms: u64,
}

impl Timer {
    pub fn new(now_ms: u64) -> (r: Self)
        ensures
            r.start_ms == now_ms,
    {
        Timer { start_ms: now_ms }
    }

    /// Ends the measurement and counts the time that has passed.
    pub fn finish(self, now_ms: u64, histogram: &mut Histogram)
        requires
            old(histogram).wf(),
            old(histogram).count < u64::MAX,
        ensures
            final(histogram).wf(),
            final(histogram).name == old(histogram).name,
            final(histogram).count == old(histogram).count + 1,
            ({
                let passed = if now_ms >= self.start_ms {
                    (now_ms - self.start_ms) as u64
                } else {
                    0
                };
                &&& final(histogram).sum == (old(histogram).sum + passed) % 0x1_0000_0000_0000_0000
                &&& final(histogram).buckets@ == old(histogram).buckets@.update(
                    bucket_of(passed),
                    (old(histogram).buckets@[bucket_of(passed)] + 1) as u64,
                )
            }),
    {
        let passed: u64 = if now_ms >= self.start_ms {
            now_ms - self.start_ms
        } else {
            0
        };
        histogram.observe(passed);
    }
}

/// An observation counts in the first bucket whose bound it does not exceed, and in no other.
pub proof fn law_observation_counts_in_its_bucket(value: u64)
    ensures
        0 <= bucket_of(value) < BUCKET_COUNT,
        value <= bucket_bound(bucket_of(value)),
        bucket_of(value) > 0 ==> value > bucket_bound(bucket_of(value) - 1),
        forall|i: int, j: int|
            0 <= i < j < BUCKET_COUNT ==> #[trigger] bucket_bound(i) < #[trigger] bucket_bound(j),
{
}

/// The count at a bound is that of the observations that do not exceed it: one more observation
/// raises the counts at its own bound and above, and leaves those below.
pub proof fn law_counts_are_of_what_does_not_exceed(
    now: &Histogram,
    before: &Histogram,
    value_ms: u64,
    i: int,
)
    requires
        before.wf(),
        before.count < u64::MAX,
        now.observed(before, value_ms),
        0 <= i < BUCKET_COUNT,
    ensures
        now.count == before.count + 1,
        cumulative(now.buckets@, i + 1) == cumulative(before.buckets@, i + 1) + (if value_ms
            <= bucket_bound(i) {
            1int
        } else {
            0
        }),
{
    law_observation_counts_in_its_bucket(value_ms);
    lemma_cumulative_within(before.buckets@, bucket_of(value_ms), BUCKET_COUNT as int);
    lemma_cumulative_update(before.buckets@, bucket_of(value_ms), i + 1);
    if bucket_of(value_ms) <= i {
        if bucket_of(value_ms) < i {
            assert(bucket_bound(bucket_of(value_ms)) < bucket_bound(i));
        }
    } else if i < bucket_of(value_ms) - 1 {
        assert(bucket_bound(i) < bucket_bound(bucket_of(value_ms) - 1));
    }
}

proof fn lemma_cumulative_within(buckets: Seq<u64>, k: int, n: int)
    requires
        0 <= k < n <= buckets.len(),
    ensures
        buckets[k] <= cumulative(buckets, n),
{
    lemma_cumulative_monotone(buckets, 0, k);
    lemma_cumulative_monotone(buckets, k + 1, n);
}

/// A percentile is the bound of the first bucket such that at least so many in a hundred of the
/// observations do not exceed it, and 9999 where that is the one without a bound. Without
/// observations it is 0.
pub proof fn law_percentile_is_the_least_sufficient_bound(h: &Histogram, percent: u64) -> (i: int)
    requires
        h.wf(),
        0 < percent <= 100,
    ensures
        h.count == 0 ==> percentile_of(h.buckets@, h.count, percent) == 0,
        h.count > 0 ==> {
            &&& 0 <= i < BUCKET_COUNT
            &&& percentile_of(h.buckets@, h.count, percent) == (if i == 6 {
                9999
            } else {
                bucket_bound(i)
            })
            &&& cumulative(h.buckets@, i + 1) * 100 >= h.count * percent
            &&& i > 0 ==> cumulative(h.buckets@, i) * 100 < h.count * percent
        },
{
    let rank = rank_of(h.count, percent);
    let i = bucket_reaching(h.buckets@, rank, 0);
    if h.count > 0 {
        law_percentile_is_reached(h, percent);
        let c = cumulative(h.buckets@, i + 1);
        let d = cumulative(h.buckets@, i);
        let total = h.count * percent;
        assert(rank * 100 >= total && (rank - 1) * 100 < total) by (nonlinear_arith)
            requires
                rank == (total + 99) / 100,
        ;
    }
    i
}

/// An observation adds its value to the sum, in 64 bits, and one to the count; nothing else of the
/// histogram changes but its bucket.
pub proof fn law_observation_is_summed(now: &Histogram, before: &Histogram, value_ms: u64)
    requires
        before.wf(),
        before.count < u64::MAX,
        now.observed(before, value_ms),
    ensures
        now.name == before.name,
        before.sum + value_ms <= u64::MAX ==> now.sum == before.sum + value_ms,
        now.buckets@.len() == before.buckets@.len(),
        forall|i: int|
            0 <= i < before.buckets@.len() && i != bucket_of(value_ms)
                ==> #[trigger] now.buckets@[i] == before.buckets@[i],
{
}

/// A counter counts up by one.
pub proof fn law_counter_counts_up(now: &Counter, before: &Counter)
    requires
        now.is_one_past(before),
    ensures
        before.value < u64::MAX ==> now.value == before.value + 1,
        now.name == before.name,
{
}

/// Sections one after the other, each a head and a body.
spec fn sections_text(list: Seq<(Seq<char>, Seq<char>)>) -> Seq<char>
    decreases list.len(),
{
    if list.len() == 0 {
        Seq::empty()
    } else {
        sections_text(list.drop_last()) + (list.last().0 + list.last().1)
    }
}

proof fn lemma_section_shown(list: Seq<(Seq<char>, Seq<char>)>, i: int)
    requires
        0 <= i < list.len(),
    ensures
        has_substring(sections_text(list), list[i].1),
    decreases list.len(),
{
    let rest = list.drop_last();
    let before = sections_text(rest);
    let (head, body) = list.last();
    let all = sections_text(list);
    if i < rest.len() {
        lemma_section_shown(rest, i);
        let at = choose|at: int| #[trigger] occurs_at(before, list[i].1, at);
        assert(all.subrange(at, at + list[i].1.len()) =~= before.subrange(
            at,
            at + list[i].1.len(),
        ));
        assert(occurs_at(all, list[i].1, at));
    } else {
        let at = (before.len() + head.len()) as int;
        assert(all.subrange(at, at + body.len()) =~= body);
        assert(occurs_at(all, body, at));
    }
}

spec fn metric_sections(m: &Metrics) -> Seq<(Seq<char>, Seq<char>)> {
    seq![
        ("# HELP queries_total Total query requests\n# TYPE queries_total counter\n"@, value_line(m.queries_total.name@, m.queries_total.value)),
        ("# HELP queries_failed_total Failed queries\n# TYPE queries_failed_total counter\n"@, value_line(m.queries_failed_total.name@, m.queries_failed_total.value)),
        ("# HELP query_latency_ms Query end-to-end latency\n# TYPE query_latency_ms histogram\n"@, m.query_latency.text()),
        ("# HELP embed_latency_ms Embedding latency\n# TYPE embed_latency_ms histogram\n"@, m.embed_latency.text()),
        ("# HELP llm_latency_ms LLM generation latency\n# TYPE llm_latency_ms histogram\n"@, m.llm_latency.text()),
        ("# HELP cache_hits_total LRU cache hits\n# TYPE cache_hits_total counter\n"@, value_line(m.cache_hits.name@, m.cache_hits.value)),
        ("# HELP cache_misses_total LRU cache misses\n# TYPE cache_misses_total counter\n"@, value_line(m.cache_misses.name@, m.cache_misses.value)),
        ("# HELP ingest_total Total ingest requests\n# TYPE ingest_total counter\n"@, value_line(m.ingest_total.name@, m.ingest_total.value)),
        ("# HELP ingest_failed_total Failed ingest requests\n# TYPE ingest_failed_total counter\n"@, value_line(m.ingest_failed_total.name@, m.ingest_failed_total.value)),
        ("# HELP nodes_ingested_total Total new nodes committed to delta\n# TYPE nodes_ingested_total counter\n"@, value_line(m.nodes_ingested_total.name@, m.nodes_ingested_total.value)),
        ("# HELP ingest_latency_ms Ingest end-to-end latency\n# TYPE ingest_latency_ms histogram\n"@, m.ingest_latency.text()),
        ("# HELP delta_size Current delta buffer size\n# TYPE delta_size gauge\n"@, value_line(m.delta_size.name@, m.delta_size.value)),
        ("# HELP graph_nodes Total nodes in main graph\n# TYPE graph_nodes gauge\n"@, value_line(m.graph_nodes.name@, m.graph_nodes.value)),
        ("# HELP graph_edges Total edges in main graph\n# TYPE graph_edges gauge\n"@, value_line(m.graph_edges.name@, m.graph_edges.value)),
    ]
}

/// The text of all metrics shows each of them: counters and gauges by a line with the name and the
/// value, histograms by their own texts.
pub proof fn law_text_shows_every_metric(m: &Metrics)
    ensures
        has_substring(prometheus_text(m), m.queries_total.name@ + " "@ + decimal_text(m.queries_total.value as nat) + "\n"@),
        has_substring(prometheus_text(m), m.queries_failed_total.name@ + " "@ + decimal_text(m.queries_failed_total.value as nat) + "\n"@),
        has_substring(prometheus_text(m), m.query_latency.text()),
        has_substring(prometheus_text(m), m.embed_latency.text()),
        has_substring(prometheus_text(m), m.llm_latency.text()),
        has_substring(prometheus_text(m), m.cache_hits.name@ + " "@ + decimal_text(m.cache_hits.value as nat) + "\n"@),
        has_substring(prometheus_text(m), m.cache_misses.name@ + " "@ + decimal_text(m.cache_misses.value as nat) + "\n"@),
        has_substring(prometheus_text(m), m.ingest_total.name@ + " "@ + decimal_text(m.ingest_total.value as nat) + "\n"@),
        has_substring(prometheus_text(m), m.ingest_failed_total.name@ + " "@ + decimal_text(m.ingest_failed_total.value as nat) + "\n"@),
        has_substring(prometheus_text(m), m.nodes_ingested_total.name@ + " "@ + decimal_text(m.nodes_ingested_total.value as nat) + "\n"@),
        has_substring(prometheus_text(m), m.ingest_latency.text()),
        has_substring(prometheus_text(m), m.delta_size.name@ + " "@ + decimal_text(m.delta_size.value as nat) + "\n"@),
        has_substring(prometheus_text(m), m.graph_nodes.name@ + " "@ + decimal_text(m.graph_nodes.value as nat) + "\n"@),
        has_substring(prometheus_text(m), m.graph_edges.name@ + " "@ + decimal_text(m.graph_edges.value as nat) + "\n"@),
{
    let list = metric_sections(m);
    lemma_sections_are_the_text(m);
    lemma_section_shown(list, 0);
    lemma_section_shown(list, 1);
    lemma_section_shown(list, 2);
    lemma_section_shown(list, 3);
    lemma_section_shown(list, 4);
    lemma_section_shown(list, 5);
    lemma_section_shown(list, 6);
    lemma_section_shown(list, 7);
    lemma_section_shown(list, 8);
    lemma_section_shown(list, 9);
    lemma_section_shown(list, 10);
    lemma_section_shown(list, 11);
    lemma_section_shown(list, 12);
    lemma_section_shown(list, 13);
}

proof fn lemma_sections_are_the_text(m: &Metrics)
    ensures
        sections_text(metric_sections(m)) == prometheus_text(m),
{
    let all = metric_sections(m);
    let t0 = Seq::<(Seq<char>, Seq<char>)>::empty();
    let t1 = t0.push(all[0]);
    assert(t1.drop_last() =~= t0);
    assert(sections_text(t1) == sections_text(t0) + (all[0].0 + all[0].1));
    let t2 = t1.push(all[1]);
    assert(t2.drop_last() =~= t1);
    assert(sections_text(t2) == sections_text(t1) + (all[1].0 + all[1].1));
    let t3 = t2.push(all[2]);
    assert(t3.drop_last() =~= t2);
    assert(sections_text(t3) == sections_text(t2) + (all[2].0 + all[2].1));
    let t4 = t3.push(all[3]);
    assert(t4.drop_last() =~= t3);
    assert(sections_text(t4) == sections_text(t3) + (all[3].0 + all[3].1));
    let t5 = t4.push(all[4]);
    assert(t5.drop_last() =~= t4);
    assert(sections_text(t5) == sections_text(t4) + (all[4].0 + all[4].1));
    let t6 = t5.push(all[5]);
    assert(t6.drop_last() =~= t5);
    assert(sections_text(t6) == sections_text(t5) + (all[5].0 + all[5].1));
    let t7 = t6.push(all[6]);
    assert(t7.drop_last() =~= t6);
    assert(sections_text(t7) == sections_text(t6) + (all[6].0 + all[6].1));
    let t8 = t7.push(all[7]);
    assert(t8.drop_last() =~= t7);
    assert(sections_text(t8) == sections_text(t7) + (all[7].0 + all[7].1));
    let t9 = t8.push(all[8]);
    assert(t9.drop_last() =~= t8);
    assert(sections_text(t9) == sections_text(t8) + (all[8].0 + all[8].1));
    let t10 = t9.push(all[9]);
    assert(t10.drop_last() =~= t9);
    assert(sections_text(t10) == sections_text(t9) + (all[9].0 + all[9].1));
    let t11 = t10.push(all[10]);
    assert(t11.drop_last() =~= t10);
    assert(sections_text(t11) == sections_text(t10) + (all[10].0 + all[10].1));
    let t12 = t11.push(all[11]);
    assert(t12.drop_last() =~= t11);
    assert(sections_text(t12) == sections_text(t11) + (all[11].0 + all[11].1));
    let t13 = t12.push(all[12]);
    assert(t13.drop_last() =~= t12);
    assert(sections_text(t13) == sections_text(t12) + (all[12].0 + all[12].1));
    let t14 = t13.push(all[13]);
    assert(t14.drop_last() =~= t13);
    assert(sections_text(t14) == sections_text(t13) + (all[13].0 + all[13].1));
    assert(t14 =~= all);
}

/// The text of a histogram has a line for each bound with the number of observations that do not
/// exceed it, and lines with their sum and their number.
pub proof fn law_histogram_shows_its_counts(h: &Histogram, i: int)
    requires
        0 <= i < BUCKET_COUNT,
    ensures
        has_substring(
            h.text(),
            h.name@ + "_bucket{le=\""@ + (if i == 6 {
                "+Inf"@
            } else {
                decimal_text(bucket_bound(i) as nat)
            }) + "\"} "@ + decimal_text(cumulative(h.buckets@, i + 1) as nat) + "\n"@,
        ),
        has_substring(h.text(), h.name@ + "_sum "@ + decimal_text(h.sum as nat) + "\n"@),
        has_substring(h.text(), h.name@ + "_count "@ + decimal_text(h.count as nat) + "\n"@),
{
    let lines = bucket_lines(h.name@, h.buckets@, BUCKET_COUNT as int);
    let sum = h.name@ + "_sum "@ + decimal_text(h.sum as nat) + "\n"@;
    let count = h.name@ + "_count "@ + decimal_text(h.count as nat) + "\n"@;
    let all = h.text();
    lemma_bucket_line_shown(h.name@, h.buckets@, BUCKET_COUNT as int, i);
    let line = bucket_line(h.name@, h.buckets@, i);
    let at = choose|at: int| #[trigger] occurs_at(lines, line, at);
    assert(all.subrange(at, at + line.len()) =~= lines.subrange(at, at + line.len()));
    assert(occurs_at(all, line, at));
    let a = lines.len() as int;
    assert(all.subrange(a, a + sum.len()) =~= sum);
    assert(occurs_at(all, sum, a));
    let b = (lines.len() + sum.len()) as int;
    assert(all.subrange(b, b + count.len()) =~= count);
    assert(occurs_at(all, count, b));
}

proof fn lemma_bucket_line_shown(name: Seq<char>, buckets: Seq<u64>, n: int, i: int)
    requires
        0 <= i < n,
    ensures
        has_substring(bucket_lines(name, buckets, n), bucket_line(name, buckets, i)),
    decreases n,
{
    let before = bucket_lines(name, buckets, n - 1);
    let last = bucket_line(name, buckets, n - 1);
    let all = bucket_lines(name, buckets, n);
    let line = bucket_line(name, buckets, i);
    if i < n - 1 {
        lemma_bucket_line_shown(name, buckets, n - 1, i);
        let at = choose|at: int| #[trigger] occurs_at(before, line, at);
        assert(all.subrange(at, at + line.len()) =~= before.subrange(at, at + line.len()));
        assert(occurs_at(all, line, at));
    } else {
        let at = before.len() as int;
        assert(all.subrange(at, at + line.len()) =~= line);
        assert(occurs_at(all, line, at));
    }
}

} // verus!

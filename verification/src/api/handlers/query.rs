//! Query requests: their options and what they count as.

use crate::api::dto::query::{OptionsOverride, PipelineControl, WeightsOverride};
use crate::api::error::ApiError;
use crate::config::QueryConfig;
use crate::metrics::Metrics;
use crate::query::{QueryOptions, QueryStats, ScoringWeights};
use crate::text::{arg_text, same_text};
use vstd::prelude::*;
use vstd::string::*;

verus! {

/// The weights of a mode, and whether the expansion also runs against the direction of edges.
pub open spec fn mode_weights(mode: Option<Seq<char>>) -> (ScoringWeights, bool) {
    if mode == Some("semantic"@) {
        (ScoringWeights { alpha: 0x3f33_3333, beta: 0x3e4c_cccd, gamma: 0x3dcc_cccd }, false)
    } else if mode == Some("relationship"@) {
        (ScoringWeights { alpha: 0x3e99_999a, beta: 0x3f19_999a, gamma: 0x3dcc_cccd }, true)
    } else if mode == Some("entity"@) {
        (ScoringWeights { alpha: 0x3ecc_cccd, beta: 0x3e4c_cccd, gamma: 0x3ecc_cccd }, false)
    } else {
        (ScoringWeights { alpha: 0x3f00_0000, beta: 0x3e99_999a, gamma: 0x3e4c_cccd }, false)
    }
}

/// Looks up a mode; any other text counts as `balanced`.
pub fn resolve_weights(mode: Option<&str>) -> (r: (ScoringWeights, bool))
    ensures
        r == mode_weights(arg_text(mode)),
{
    match mode {
        Some(m) => if same_text(m, "semantic") {
            (ScoringWeights::semantic_search(), false)
        } else if same_text(m, "relationship") {
            (ScoringWeights::relationship(), true)
        } else if same_text(m, "entity") {
            (ScoringWeights::entity_lookup(), false)
        } else {
            (ScoringWeights::balanced(), false)
        },
        None => (ScoringWeights::balanced(), false),
    }
}

/// A value of the request, or else a default.
pub open spec fn or_default<A>(value: Option<A>, default: A) -> A {
    match value {
        Some(x) => x,
        None => default,
    }
}

/// The weights of a request.
pub open spec fn chosen_weights(o: Option<WeightsOverride>, default: ScoringWeights) -> ScoringWeights {
    match o {
        Some(w) => ScoringWeights {
            alpha: or_default(w.alpha, default.alpha),
            beta: or_default(w.beta, default.beta),
            gamma: or_default(w.gamma, default.gamma),
        },
        None => default,
    }
}

/// The options of a request: its own, or else those of its mode and of the configuration.
pub open spec fn chosen_options(
    options: Option<OptionsOverride>,
    mode: Option<Seq<char>>,
    cfg: QueryConfig,
    min_score: u32,
) -> QueryOptions {
    let (weights, bidirectional) = mode_weights(mode);
    match options {
        Some(o) => QueryOptions {
            hnsw_k: or_default(o.hnsw_k, cfg.hnsw_k),
            bfs_depth: or_default(o.bfs_depth, cfg.bfs_depth),
            bfs_max_nodes: or_default(o.bfs_max_nodes, cfg.bfs_max_nodes),
            context_top_n: or_default(o.context_top_n, cfg.context_top_n),
            context_min_score: or_default(o.context_min_score, min_score),
            weights: chosen_weights(o.weights, weights),
            bidirectional: or_default(o.bidirectional, false),
        },
        None => QueryOptions {
            hnsw_k: cfg.hnsw_k,
            bfs_depth: cfg.bfs_depth,
            bfs_max_nodes: cfg.bfs_max_nodes,
            context_top_n: cfg.context_top_n,
            context_min_score: min_score,
            weights,
            bidirectional,
        },
    }
}

fn pick<A: Copy>(value: Option<A>, default: A) -> (r: A)
    ensures
        r == or_default(value, default),
{
    match value {
        Some(x) => x,
        None => default,
    }
}

fn choose_options(
    options: Option<OptionsOverride>,
    mode: Option<&str>,
    cfg: &QueryConfig,
    min_score: u32,
) -> (r: QueryOptions)
    ensures
        r == chosen_options(options, arg_text(mode), *cfg, min_score),
{
    let (weights, bidirectional) = resolve_weights(mode);
    match options {
        Some(o) => QueryOptions {
            hnsw_k: pick(o.hnsw_k, cfg.hnsw_k),
            bfs_depth: pick(o.bfs_depth, cfg.bfs_depth),
            bfs_max_nodes: pick(o.bfs_max_nodes, cfg.bfs_max_nodes),
            context_top_n: pick(o.context_top_n, cfg.context_top_n),
            context_min_score: pick(o.context_min_score, min_score),
            weights: match o.weights {
                Some(w) => ScoringWeights {
                    alpha: pick(w.alpha, weights.alpha),
                    beta: pick(w.beta, weights.beta),
                    gamma: pick(w.gamma, weights.gamma),
                },
                None => weights,
            },
            bidirectional: pick(o.bidirectional, false),
        },
        None => QueryOptions {
            hnsw_k: cfg.hnsw_k,
            bfs_depth: cfg.bfs_depth,
            bfs_max_nodes: cfg.bfs_max_nodes,
            context_top_n: cfg.context_top_n,
            context_min_score: min_score,
            weights,
            bidirectional,
        },
    }
}

/// The options of a query by text, vector or image.
pub fn query_options(options: Option<OptionsOverride>, mode: Option<&str>, cfg: &QueryConfig) -> (r:
    QueryOptions)
    ensures
        r == chosen_options(options, arg_text(mode), *cfg, cfg.context_min_score),
{
    choose_options(options, mode, cfg, cfg.context_min_score)
}

/// The options of a query from a node: without a least score, for the whole neighbourhood.
pub fn node_query_options(options: Option<OptionsOverride>, mode: Option<&str>, cfg: &QueryConfig) -> (r:
    QueryOptions)
    ensures
        r == chosen_options(options, arg_text(mode), *cfg, 0),
{
    choose_options(options, mode, cfg, 0)
}

/// An answer is asked for, unless the request says otherwise.
pub open spec fn answer_wanted(pipeline: Option<PipelineControl>) -> bool {
    match pipeline {
        Some(p) => p.llm_generate,
        None => true,
    }
}

pub fn wants_answer(pipeline: &Option<PipelineControl>) -> (r: bool)
    ensures
        r == answer_wanted(*pipeline),
{
    match pipeline {
        Some(p) => p.llm_generate,
        None => true,
    }
}

/// The question of a request whose query is not a text; empty without one.
pub fn prompt_of(pipeline: &Option<PipelineControl>) -> (r: String)
    ensures
        match *pipeline {
            Some(PipelineControl { prompt: Some(p), .. }) => r@ == p@,
            _ => r@.len() == 0,
        },
{
    match pipeline {
        Some(p) => match &p.prompt {
            Some(text) => text.clone(),
            None => String::new(),
        },
        None => String::new(),
    }
}

/// A query needs the plugin server to embed a text or to answer: one with a vector that asks for
/// no answer does not.
pub fn needs_plugin(has_vector: bool, wants_answer: bool) -> (r: bool)
    ensures
        r == (!has_vector || wants_answer),
{
    !has_vector || wants_answer
}

/// Counts a query, and refuses it where it needs a plugin server that is not ready.
pub fn admit_query(metrics: &mut Metrics, plugin_needed: bool, plugin_ready: bool) -> (r: Result<
    (),
    ApiError,
>)
    ensures
        final(metrics).queries_total.is_one_past(&old(metrics).queries_total),
        match r {
            Ok(()) => {
                &&& !plugin_needed || plugin_ready
                &&& final(metrics).queries_failed_total == old(metrics).queries_failed_total
            },
            Err(e) => {
                &&& plugin_needed && !plugin_ready
                &&& e matches ApiError::ServiceUnavailable(m) && m@ == "plugin not available"@
                &&& final(metrics).queries_failed_total.is_one_past(
                    &old(metrics).queries_failed_total,
                )
            },
        },
        *final(metrics) == (Metrics {
            queries_total: final(metrics).queries_total,
            queries_failed_total: final(metrics).queries_failed_total,
            ..*old(metrics)
        }),
{
    metrics.queries_total.inc();
    if plugin_needed && !plugin_ready {
        metrics.queries_failed_total.inc();
        Err(ApiError::plugin_unavailable())
    } else {
        Ok(())
    }
}

/// Counts a query that failed with this error, and hands the error on.
pub fn fail_query(metrics: &mut Metrics, e: ApiError) -> (r: ApiError)
    ensures
        r == e,
        final(metrics).queries_failed_total.is_one_past(&old(metrics).queries_failed_total),
        *final(metrics) == (Metrics {
            queries_failed_total: final(metrics).queries_failed_total,
            ..*old(metrics)
        }),
{
    metrics.queries_failed_total.inc();
    e
}

/// Counts a query that was answered.
pub fn record_metrics(metrics: &mut Metrics, total_ms: u64, stats: &QueryStats)
    requires
        old(metrics).wf(),
        old(metrics).query_latency.count < u64::MAX,
        old(metrics).embed_latency.count < u64::MAX,
        old(metrics).llm_latency.count < u64::MAX,
    ensures
        final(metrics).wf(),
        final(metrics).query_latency.observed(&old(metrics).query_latency, total_ms),
        final(metrics).embed_latency.observed(&old(metrics).embed_latency, stats.embed_ms),
        final(metrics).llm_latency.observed(&old(metrics).llm_latency, stats.llm_ms),
        final(metrics).cache_hits.value == (old(metrics).cache_hits.value + (if stats.cache_hit {
            1int
        } else {
            0
        })) % 0x1_0000_0000_0000_0000,
        final(metrics).cache_misses.value == (old(metrics).cache_misses.value
            + (if stats.cache_hit {
            0int
        } else {
            1
        })) % 0x1_0000_0000_0000_0000,
        final(metrics).cache_hits.name == old(metrics).cache_hits.name,
        final(metrics).cache_misses.name == old(metrics).cache_misses.name,
        *final(metrics) == (Metrics {
            query_latency: final(metrics).query_latency,
            embed_latency: final(metrics).embed_latency,
            llm_latency: final(metrics).llm_latency,
            cache_hits: final(metrics).cache_hits,
            cache_misses: final(metrics).cache_misses,
            ..*old(metrics)
        }),
{
    metrics.query_latency.observe(total_ms);
    metrics.embed_latency.observe(stats.embed_ms);
    metrics.llm_latency.observe(stats.llm_ms);
    if stats.cache_hit {
        metrics.cache_hits.inc();
    } else {
        metrics.cache_misses.inc();
    }
}

/// Each option that the request gives stands. Those that it does not give are those of the
/// configuration, with the weights of the mode and without a way back; a request without any options
/// also has the directions of its mode.
pub proof fn law_request_options_stand(
    options: Option<OptionsOverride>,
    mode: Option<Seq<char>>,
    cfg: QueryConfig,
    min_score: u32,
)
    ensures
        ({
            let r = chosen_options(options, mode, cfg, min_score);
            let (weights, both) = mode_weights(mode);
            &&& options is None ==> r.hnsw_k == cfg.hnsw_k && r.bfs_depth == cfg.bfs_depth
                && r.bfs_max_nodes == cfg.bfs_max_nodes && r.context_top_n == cfg.context_top_n
                && r.context_min_score == min_score && r.weights == weights && r.bidirectional
                == both
            &&& options matches Some(o) ==> {
                &&& r.hnsw_k == (if o.hnsw_k is Some {
                    o.hnsw_k->0
                } else {
                    cfg.hnsw_k
                })
                &&& r.bfs_depth == (if o.bfs_depth is Some {
                    o.bfs_depth->0
                } else {
                    cfg.bfs_depth
                })
                &&& r.bfs_max_nodes == (if o.bfs_max_nodes is Some {
                    o.bfs_max_nodes->0
                } else {
                    cfg.bfs_max_nodes
                })
                &&& r.context_top_n == (if o.context_top_n is Some {
                    o.context_top_n->0
                } else {
                    cfg.context_top_n
                })
                &&& r.context_min_score == (if o.context_min_score is Some {
                    o.context_min_score->0
                } else {
                    min_score
                })
                &&& r.bidirectional == (o.bidirectional == Some(true))
                &&& o.weights is None ==> r.weights == weights
                &&& o.weights matches Some(w) ==> r.weights.alpha == (if w.alpha is Some {
                    w.alpha->0
                } else {
                    weights.alpha
                }) && r.weights.beta == (if w.beta is Some {
                    w.beta->0
                } else {
                    weights.beta
                }) && r.weights.gamma == (if w.gamma is Some {
                    w.gamma->0
                } else {
                    weights.gamma
                })
            }
        }),
{
}

/// The modes weigh what they are for: `semantic` similarity most, `relationship` proximity, and
/// `entity` importance more than any other. Only `relationship` runs against the direction of edges,
/// and an unknown mode is as good as none.
pub proof fn law_modes_weigh_what_they_are_for(mode: Option<Seq<char>>)
    ensures
        ({
            let semantic = mode_weights(Some("semantic"@)).0;
            let relationship = mode_weights(Some("relationship"@)).0;
            let entity = mode_weights(Some("entity"@)).0;
            let balanced = mode_weights(None).0;
            &&& semantic.alpha == 0x3f33_3333 && semantic.beta == 0x3e4c_cccd && semantic.gamma
                == 0x3dcc_cccd
            &&& relationship.alpha == 0x3e99_999a && relationship.beta == 0x3f19_999a
                && relationship.gamma == 0x3dcc_cccd
            &&& entity.alpha == 0x3ecc_cccd && entity.beta == 0x3e4c_cccd && entity.gamma
                == 0x3ecc_cccd
            &&& balanced.alpha == 0x3f00_0000 && balanced.beta == 0x3e99_999a && balanced.gamma
                == 0x3e4c_cccd
            &&& mode_weights(mode).1 <==> mode == Some("relationship"@)
            &&& mode != Some("semantic"@) && mode != Some("relationship"@) && mode != Some(
                "entity"@,
            ) ==> mode_weights(mode) == mode_weights(None)
        }),
{
    reveal_strlit("semantic");
    reveal_strlit("relationship");
    reveal_strlit("entity");
    assert("semantic"@.len() == 8 && "relationship"@.len() == 12 && "entity"@.len() == 6);
}

/// An answer is generated unless the request turns it off.
pub proof fn law_answer_is_wanted_unless_turned_off(pipeline: Option<PipelineControl>)
    ensures
        !answer_wanted(pipeline) <==> pipeline is Some && !pipeline->0.llm_generate,
{
}

} // verus!

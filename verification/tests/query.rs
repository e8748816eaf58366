//! Queries: cache keys, seeds, ranking, context, several hops, new nodes.

use ai_graph_engine::graph::csr::{CsrGraph, EdgeInfo, NodeInfo};
use ai_graph_engine::plugin::ReasonResponse;
use ai_graph_engine::query::{
    delta_hits, find_place, finish_query, lower_names_overlap, mark_cache_hit, merge_context,
    merge_edges, merge_seeds, node_cache_key, plan_scores, rank_nodes, resolve_entity_names,
    restore_ids, score_nodes, select_context, subgraph_edges, text_cache_key, vector_source, HopStep,
    LookUpStep, Multihop, NumberTexts, QueryCache, QueryOptions, QueryResult, ScoredNode, Subgraph, Timings,
    VectorSource,
};
use serde_json::Value;

fn b(x: f32) -> u32 {
    x.to_bits()
}

fn make_node(id: u32) -> NodeInfo {
    NodeInfo {
        id,
        external_id: String::new(),
        name: id.to_string(),
        node_type: "T".into(),
        weight: b(0.5),
        props: Value::Null,
        full_context: String::new(),
        embed_context: None,
        image_url: None,
    }
}

fn named(id: u32, name: &str) -> NodeInfo {
    NodeInfo { name: name.into(), ..make_node(id) }
}

fn edge(from: u32, to: u32, weight: f32, edge_type: &str) -> EdgeInfo {
    EdgeInfo {
        from,
        to,
        edge_type: edge_type.into(),
        weight: b(weight),
        full_context: String::new(),
        embed_context: None,
        edge_id: 0,
    }
}

fn scored(id: u32, score: f32) -> ScoredNode {
    ScoredNode {
        id,
        name: format!("n{id}"),
        node_type: "T".into(),
        props: Value::Null,
        full_context: String::new(),
        score: b(score),
        vector_sim: b(0.0),
        hop: 0,
        is_seed: false,
    }
}

fn ids(nodes: &[ScoredNode]) -> Vec<u32> {
    nodes.iter().map(|n| n.id).collect()
}

fn number(bits: u32) -> String {
    serde_json::to_string(&f32::from_bits(bits)).unwrap()
}

fn numbers(opts: &QueryOptions) -> NumberTexts {
    NumberTexts {
        context_min_score: number(opts.context_min_score),
        alpha: number(opts.weights.alpha),
        beta: number(opts.weights.beta),
        gamma: number(opts.weights.gamma),
    }
}

fn make_key(prefix: &str, id: &str, opts: &QueryOptions, llm_generate: bool) -> Option<String> {
    QueryCache::make_key(prefix, id, opts, &numbers(opts), llm_generate)
}

fn text_key(q: &str, opts: &QueryOptions, llm_generate: bool, hinted: bool) -> Option<String> {
    text_cache_key(q, opts, &numbers(opts), llm_generate, hinted)
}

fn node_key(id: u32, opts: &QueryOptions, llm_generate: bool, hinted: bool) -> Option<String> {
    node_cache_key(id, opts, &numbers(opts), llm_generate, hinted)
}

// ── cache keys ───────────────────────────────────────────────────────────────

#[test]
fn cache_key_same_inputs_match() {
    let opts = QueryOptions::default();
    let k1 = make_key("text", "hello", &opts, true);
    let k2 = make_key("text", "hello", &opts, true);
    assert_eq!(k1, k2);
}

#[test]
fn cache_key_differs_by_query() {
    let opts = QueryOptions::default();
    let k1 = make_key("text", "hello", &opts, true);
    let k2 = make_key("text", "world", &opts, true);
    assert_ne!(k1, k2);
}

#[test]
fn cache_key_differs_by_llm_flag() {
    let opts = QueryOptions::default();
    let k1 = make_key("text", "hello", &opts, true);
    let k2 = make_key("text", "hello", &opts, false);
    assert_ne!(k1, k2);
}

#[test]
fn cache_key_differs_by_prefix() {
    let opts = QueryOptions::default();
    let k1 = make_key("text", "1", &opts, true);
    let k2 = make_key("node", "1", &opts, true);
    assert_ne!(k1, k2);
}

#[test]
fn cache_key_differs_by_options() {
    let opts = QueryOptions::default();
    let deeper = QueryOptions { bfs_depth: 5, ..opts };
    assert_ne!(text_key("q", &opts, true, false), text_key("q", &deeper, true, false));
    assert_eq!(text_key(" q ", &opts, true, false), text_key("q", &opts, true, false));
    assert_ne!(node_key(1, &opts, true, false), node_key(2, &opts, true, false));
    // hinted queries are not cached, nor those with numbers that are none
    assert_eq!(text_key("q", &opts, true, true), None);
    let nan = QueryOptions { context_min_score: b(f32::NAN), ..opts };
    assert_eq!(make_key("text", "q", &nan, true), None);
}

#[test]
fn cache_key_holds_the_options_as_json() {
    let opts = QueryOptions { bidirectional: true, ..QueryOptions::default() };
    assert_eq!(
        make_key("text", "a||b", &opts, false).unwrap(),
        [
            "text||a||b||false||{\"hnsw_k\":20,\"bfs_depth\":2,\"bfs_max_nodes\":500,",
            "\"context_top_n\":50,\"context_min_score\":0.3,",
            "\"weights\":{\"alpha\":0.5,\"beta\":0.3,\"gamma\":0.2},\"bidirectional\":true}",
        ]
        .concat()
    );
    let json = make_key("node", "7", &opts, true).unwrap().replace("node||7||true||", "");
    let read: Value = serde_json::from_str(&json).unwrap();
    assert_eq!(read["weights"]["beta"].as_f64(), Some(0.3));
    assert_eq!(read["bfs_max_nodes"].as_u64(), Some(500));
    let infinite = QueryOptions { context_min_score: b(f32::INFINITY), ..opts };
    assert_eq!(make_key("text", "q", &infinite, true), None);
}

// ── cached results ───────────────────────────────────────────────────────────

fn result(answer: &str) -> QueryResult {
    let mut graph_nodes = vec![scored(1, 0.5)];
    graph_nodes[0].props = serde_json::from_str("{\"role\":\"CEO\"}").unwrap();
    QueryResult {
        answer: answer.into(),
        subgraph: Subgraph { nodes: graph_nodes, edges: vec![] },
        stats: finish_query(
            String::new(),
            select_context(&CsrGraph::build(vec![], &[]), &vec![], &QueryOptions::default()),
            2,
            3,
            Timings { total_ms: 9, embed_ms: 1, search_ms: 2, bfs_ms: 3, score_ms: 1, llm_ms: 2 },
        )
        .stats,
    }
}

#[test]
fn cached_results_come_back_until_invalidated() {
    let mut cache = QueryCache::new(16, 300);
    assert!(cache.get_by_key("k").is_none());
    cache.insert_by_key("k".to_string(), result("a"));
    let found = cache.get_by_key("k").unwrap();
    assert_eq!(found.answer, "a");
    assert_eq!(found.subgraph.nodes[0].props["role"].as_str(), Some("CEO"));
    assert_eq!(found.stats.seed_nodes, 2);
    assert!(!found.stats.cache_hit);
    let hit = mark_cache_hit(found, 1);
    assert!(hit.stats.cache_hit);
    assert_eq!(hit.stats.total_ms, 1);
    assert_eq!(hit.answer, "a");
    cache.invalidate_all();
    assert!(cache.get_by_key("k").is_none());
}

// ── merge helpers ────────────────────────────────────────────────────────────

#[test]
fn merge_context_deduplicates() {
    let mut base = vec![make_node(1), make_node(2)];
    merge_context(&mut base, vec![make_node(2), make_node(3)]);
    assert_eq!(base.len(), 3);
    assert!(base.iter().any(|n| n.id == 3));
}

#[test]
fn merge_edges_deduplicates() {
    let mut base: Vec<(u32, u32, u32, String)> = vec![(1, 2, b(0.9), "rel".into())];
    merge_edges(&mut base, vec![(1, 2, b(0.9), "rel".into()), (2, 3, b(0.5), "".into())]);
    assert_eq!(base.len(), 2);
}

#[test]
fn merged_context_has_each_node_once() {
    let mut base = vec![make_node(1)];
    merge_context(&mut base, vec![make_node(3), make_node(3)]);
    assert_eq!(base.iter().map(|n| n.id).collect::<Vec<u32>>(), vec![1, 3]);
}

// ── from hits to context ─────────────────────────────────────────────────────

#[test]
fn seeds_are_node_hits_then_ends_of_edge_hits() {
    let seeds = merge_seeds(&vec![(4, b(0.1)), (2, b(0.2))], &vec![(2, 7, b(0.1)), (9, 4, b(0.3))]);
    assert_eq!(seeds, vec![4, 2, 7, 9]);
}

fn small_graph() -> CsrGraph {
    CsrGraph::build(
        vec![named(0, "Alice"), named(1, "Acme"), named(2, "Oslo")],
        &[edge(0, 1, 0.8, "works_at"), edge(1, 2, 0.5, "in")],
    )
}

#[test]
fn scores_are_planned_for_visited_nodes() {
    let g = small_graph();
    let visits = g.bfs_expand(&[0], 2, 100, false);
    let inputs = plan_scores(&g, &visits, &vec![(0, b(0.25))]);
    assert_eq!(inputs.len(), 3);
    assert_eq!(inputs[0].seed_distance, Some(b(0.25)));
    assert_eq!(inputs[1].seed_distance, None);
    assert_eq!(inputs[1].hop, 1);
    assert_eq!(inputs[1].path_weight, b(0.8));
    let values = vec![(b(0.75), b(0.9)), (b(0.1), b(0.4)), (b(0.0), b(0.2))];
    let nodes = score_nodes(&g, &inputs, &values);
    assert!(nodes[0].is_seed && !nodes[1].is_seed);
    assert_eq!(nodes[0].vector_sim, b(0.75));
    assert_eq!(nodes[1].score, b(0.4));
    assert_eq!(nodes[2].name, "Oslo");
}

#[test]
fn visits_outside_the_graph_are_passed_over() {
    let g = small_graph();
    let inputs = plan_scores(&g, &vec![(7, 0, b(1.0)), (1, 0, b(1.0))], &vec![]);
    assert_eq!(inputs.len(), 1);
    assert_eq!(inputs[0].place, 1);
}

#[test]
fn context_is_sorted_capped_and_above_the_minimum() {
    let nodes = vec![scored(1, 0.2), scored(2, 0.9), scored(3, 0.5), scored(4, 0.29), scored(5, 0.9)];
    let ranked = rank_nodes(&nodes, b(0.3), 10);
    assert_eq!(ids(&ranked), vec![2, 5, 3]);
    assert_eq!(ids(&rank_nodes(&nodes, b(0.3), 2)), vec![2, 5]);
    for w in ranked.windows(2) {
        assert!(f32::from_bits(w[0].score) >= f32::from_bits(w[1].score));
    }
}

#[test]
fn context_holds_nodes_near_the_seeds() {
    let g = small_graph();
    let visits = g.bfs_expand(&[0], 1, 100, false);
    let inputs = plan_scores(&g, &visits, &vec![(0, b(0.25))]);
    let values = vec![(b(0.75), b(0.5)), (b(0.1), b(0.9))];
    let nodes = score_nodes(&g, &inputs, &values);
    let context = rank_nodes(&nodes, b(0.3), 10);
    let found: Vec<(u32, u8)> = context.iter().map(|n| (n.id, n.hop)).collect();
    assert_eq!(found, vec![(1, 1), (0, 0)]);
}

#[test]
fn context_comes_with_its_edges_by_name() {
    let g = small_graph();
    let nodes: Vec<ScoredNode> = (0..2)
        .map(|i| ScoredNode { name: g.nodes[i].name.clone(), ..scored(i as u32, 0.9) })
        .collect();
    let context = select_context(&g, &nodes, &QueryOptions::default());
    assert_eq!(ids(&context.nodes), vec![0, 1]);
    assert_eq!(context.infos[1].name, "Acme");
    let edges = subgraph_edges(&context.infos, &context.edges);
    assert_eq!(edges.len(), 1);
    assert_eq!((edges[0].from.as_str(), edges[0].to.as_str()), ("Alice", "Acme"));
    assert_eq!(edges[0].edge_type, "works_at");
    assert_eq!(edges[0].weight, b(0.8));
}

#[test]
fn finished_query_counts_its_context() {
    let g = small_graph();
    let nodes: Vec<ScoredNode> = (0..3).map(|i| scored(i, 0.9)).collect();
    let context = select_context(&g, &nodes, &QueryOptions::default());
    let times = Timings { total_ms: 50, embed_ms: 5, search_ms: 4, bfs_ms: 3, score_ms: 2, llm_ms: 30 };
    let r = finish_query("yes".to_string(), context, 1, 3, times);
    assert_eq!(r.answer, "yes");
    assert_eq!((r.stats.seed_nodes, r.stats.subgraph_nodes, r.stats.context_nodes), (1, 3, 3));
    assert_eq!((r.stats.total_ms, r.stats.llm_ms), (50, 30));
    assert!(!r.stats.cache_hit, "first query must not be a cache hit");
    assert_eq!(r.subgraph.edges.len(), 2);
}

// ── several hops ─────────────────────────────────────────────────────────────

fn reply(done: bool, follow_ups: &[&str]) -> ReasonResponse {
    ReasonResponse {
        answer: "so far".into(),
        follow_ups: follow_ups.iter().map(|s| s.to_string()).collect(),
        done,
    }
}

#[test]
fn hops_end_when_done_or_used_up() {
    let mut m = Multihop::new(vec![make_node(1)], vec![], 2);
    assert_eq!(m.after_reason(&reply(false, &["Bob"])), HopStep::LookUp);
    assert_eq!(m.after_look_up(&vec![7]), LookUpStep::Expand);
    m.expand(vec![make_node(7)], vec![(1, 7, b(0.5), "r".into())], 10);
    assert_eq!(m.nodes.len(), 2);
    assert_eq!(m.after_reason(&reply(true, &["Eve"])), HopStep::Answer);
    let r = m.finish("so far".to_string(), 40, 45, 10, 5);
    assert_eq!(r.stats.llm_ms, 25);
    assert_eq!(r.stats.context_nodes, 2);
    assert_eq!(r.subgraph.edges.len(), 1);

    let mut last = Multihop::new(vec![], vec![], 1);
    assert_eq!(last.after_reason(&reply(false, &["Bob"])), HopStep::LookUp);
    assert_eq!(last.after_reason(&reply(false, &["Bob"])), HopStep::Generate);
    assert_eq!(last.after_reason(&reply(true, &["Bob"])), HopStep::Answer);
    assert_eq!(last.hops_used, 1);
    let mut idle = Multihop::new(vec![], vec![], 3);
    assert_eq!(idle.after_reason(&reply(false, &[])), HopStep::Generate);
    assert_eq!(idle.after_look_up(&vec![]), LookUpStep::Generate);
}

#[test]
fn expanding_keeps_the_heaviest_nodes() {
    let light = NodeInfo { weight: b(0.1), ..make_node(1) };
    let heavy = NodeInfo { weight: b(0.9), ..make_node(2) };
    let mut m = Multihop::new(vec![light], vec![], 3);
    m.expand(vec![heavy], vec![], 1);
    assert_eq!(m.nodes.iter().map(|n| n.id).collect::<Vec<u32>>(), vec![2]);
}

#[test]
fn names_are_matched_without_case_and_in_part() {
    assert!(lower_names_overlap("acme corp", "acme"));
    assert!(lower_names_overlap("acme", "acme corp"));
    assert!(!lower_names_overlap("acme", "bob"));
    let g = small_graph();
    let found = resolve_entity_names(
        &vec!["ACME CORP".to_string(), "nobody".to_string()],
        &vec![vec![0, 1], vec![2]],
        3,
        &g,
    );
    assert_eq!(found, vec![1]);
}

// ── new nodes ────────────────────────────────────────────────────────────────

#[test]
fn new_nodes_stand_behind_the_graph() {
    let new_nodes = vec![make_node(900), make_node(901)];
    assert_eq!(find_place(&new_nodes, 3, 2), Some(2));
    assert_eq!(find_place(&new_nodes, 3, 901), Some(4));
    assert_eq!(find_place(&new_nodes, 3, 7), None);
    let restored = restore_ids(&vec![scored(1, 0.1), scored(4, 0.2)], &new_nodes, 3);
    assert_eq!(ids(&restored), vec![1, 901]);
    assert_eq!(restored[1].score, b(0.2));
}

#[test]
fn at_most_five_new_nodes_are_seeds() {
    let sims: Vec<u32> = [0.1, 0.9, 0.3, 0.8, 0.2, 0.7, 0.6].iter().map(|x| b(*x)).collect();
    let hits = delta_hits(&sims, 10);
    let places: Vec<u32> = hits.iter().map(|h| h.0).collect();
    assert_eq!(places, vec![11, 13, 15, 16, 12]);
    assert_eq!(hits[0].1, b(0.9));
}

#[test]
fn embeddings_stand_in_the_store_or_with_the_new_nodes() {
    assert_eq!(vector_source(3, 10, 2, 10), VectorSource::Stored(3));
    assert_eq!(vector_source(3, 10, 2, 3), VectorSource::Missing);
    assert_eq!(vector_source(10, 10, 2, 10), VectorSource::New(0));
    assert_eq!(vector_source(11, 10, 2, 50), VectorSource::New(1));
    assert_eq!(vector_source(12, 10, 2, 50), VectorSource::Missing);
}

#[test]
fn repeated_queries_are_served_the_first_answer() {
    let opts = QueryOptions::default();
    let mut cache = QueryCache::new(100, 60);
    let key = text_key("who?", &opts, true, false);
    assert!(cache.recall(&key, 1).is_none());
    let mut first = result("Bob");
    first.stats.embed_ms = 7;
    cache.remember(key, &first);
    let again = text_key("  who? ", &opts, true, false);
    let second = cache.recall(&again, 3).unwrap();
    assert_eq!(second.answer, "Bob");
    assert!(second.stats.cache_hit);
    assert_eq!((second.stats.total_ms, second.stats.embed_ms), (3, 0));
    let hinted = text_key("who?", &opts, true, true);
    assert!(cache.recall(&hinted, 1).is_none());
    cache.invalidate_all();
    assert!(cache.recall(&again, 1).is_none());
}

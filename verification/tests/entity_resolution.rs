//! Linking entities to known nodes.
//!
//! A small graph of four nodes with orthogonal unit vectors, so that similarities are exact.

use ai_graph_engine::delta::DeltaGraph;
use ai_graph_engine::entity_resolution::{
    resolve, resolve_in_batch, ResolutionConfig, ResolutionMode, ResolveResult,
};
use ai_graph_engine::graph::csr::{CsrGraph, NodeInfo};
use serde_json::Value;

fn unit_vec(hot: usize) -> Vec<f32> {
    let mut v = vec![0.0f32; 8];
    v[hot] = 1.0;
    v
}

fn bits(v: &[f32]) -> Vec<u32> {
    v.iter().map(|x| x.to_bits()).collect()
}

fn sim(a: &[f32], b: &[f32]) -> u32 {
    a.iter().zip(b).map(|(x, y)| x * y).sum::<f32>().to_bits()
}

fn make_node(id: u32, name: &str, node_type: &str) -> NodeInfo {
    NodeInfo {
        id,
        name: name.into(),
        node_type: node_type.into(),
        weight: 0,
        props: Value::Null,
        full_context: String::new(),
        embed_context: None,
        external_id: format!("{node_type}:{name}"),
        image_url: None,
    }
}

/// id=0 "Alice" Person, id=1 "Bob" Person, id=2 "Acme" Company, id=3 "Widget" Product, with the
/// vectors along the first four axes.
fn make_graph() -> CsrGraph {
    let nodes = vec![
        make_node(0, "Alice", "Person"),
        make_node(1, "Bob", "Person"),
        make_node(2, "Acme", "Company"),
        make_node(3, "Widget", "Product"),
    ];
    CsrGraph::build(nodes, &[])
}

/// The nodes of the graph with their similarities to a vector.
fn hits(vec: &[f32]) -> Vec<(u32, u32)> {
    (0..4).map(|i| (i as u32, sim(&unit_vec(i), vec))).collect()
}

/// The similarities of the nodes of the delta to a vector.
fn delta_sims(delta: &DeltaGraph, vec: &[f32]) -> Vec<u32> {
    delta
        .new_vecs
        .iter()
        .map(|v| sim(&v.iter().map(|b| f32::from_bits(*b)).collect::<Vec<f32>>(), vec))
        .collect()
}

fn run(entity_type: &str, vec: &[f32], delta: &DeltaGraph, cfg: ResolutionConfig) -> ResolveResult {
    resolve(entity_type, &hits(vec), &delta_sims(delta, vec), &make_graph(), delta, cfg)
}

fn cfg_embedding(threshold: f32, match_type: bool) -> ResolutionConfig {
    ResolutionConfig { mode: ResolutionMode::Embedding, threshold: threshold.to_bits(), match_type }
}

fn cfg_none() -> ResolutionConfig {
    ResolutionConfig { mode: ResolutionMode::Off, threshold: 0.9f32.to_bits(), match_type: false }
}

#[test]
fn resolve_none_mode_always_returns_new() {
    let delta = DeltaGraph::default();
    let result = run("Person", &unit_vec(0), &delta, cfg_none());
    assert!(matches!(result, ResolveResult::New));
}

#[test]
fn resolve_exact_vec_matches_existing_node() {
    let delta = DeltaGraph::default();
    let result = run("Person", &unit_vec(0), &delta, cfg_embedding(0.9, false));
    assert!(matches!(result, ResolveResult::Existing(0)));
}

#[test]
fn resolve_bob_vec_matches_bob() {
    let delta = DeltaGraph::default();
    let result = run("Person", &unit_vec(1), &delta, cfg_embedding(0.9, false));
    assert!(matches!(result, ResolveResult::Existing(1)));
}

#[test]
fn resolve_orthogonal_vec_returns_new() {
    let delta = DeltaGraph::default();
    let result = run("Person", &unit_vec(7), &delta, cfg_embedding(0.9, false));
    assert!(matches!(result, ResolveResult::New));
}

#[test]
fn resolve_match_type_wrong_type_returns_new() {
    let delta = DeltaGraph::default();
    let result = run("Company", &unit_vec(0), &delta, cfg_embedding(0.9, true));
    assert!(matches!(result, ResolveResult::New));
}

#[test]
fn resolve_match_type_same_type_matches() {
    let delta = DeltaGraph::default();
    let result = run("Person", &unit_vec(0), &delta, cfg_embedding(0.9, true));
    assert!(matches!(result, ResolveResult::Existing(0)));
}

#[test]
fn resolve_match_type_false_ignores_type_mismatch() {
    let delta = DeltaGraph::default();
    let result = run("Company", &unit_vec(0), &delta, cfg_embedding(0.9, false));
    assert!(matches!(result, ResolveResult::Existing(0)));
}

#[test]
fn resolve_finds_match_in_delta_buffer() {
    let mut delta = DeltaGraph::default();
    delta.add_node(make_node(99, "DeltaNode", "Person"), bits(&unit_vec(5)));
    let result = run("Person", &unit_vec(5), &delta, cfg_embedding(0.9, false));
    assert!(matches!(result, ResolveResult::Existing(99)));
}

#[test]
fn resolve_delta_match_type_enforced() {
    let mut delta = DeltaGraph::default();
    delta.add_node(make_node(99, "DeltaNode", "Company"), bits(&unit_vec(5)));
    let result = run("Person", &unit_vec(5), &delta, cfg_embedding(0.9, true));
    assert!(matches!(result, ResolveResult::New));
}

#[test]
fn resolve_delta_below_threshold_returns_new() {
    let mut delta = DeltaGraph::default();
    delta.add_node(make_node(99, "Unrelated", "Person"), bits(&unit_vec(6)));
    let result = run("Person", &unit_vec(5), &delta, cfg_embedding(0.9, false));
    assert!(matches!(result, ResolveResult::New));
}

#[test]
fn resolve_takes_the_most_similar_hit() {
    let delta = DeltaGraph::default();
    let near = vec![(1, 0.95f32.to_bits()), (0, 0.99f32.to_bits()), (2, 0.97f32.to_bits())];
    let graph = make_graph();
    let cfg = cfg_embedding(0.9, false);
    let result = resolve("Person", &near, &vec![], &graph, &delta, cfg);
    assert!(matches!(result, ResolveResult::Existing(0)));
    // a hit that is no node of the graph is passed over
    let beyond = vec![(8, 1.0f32.to_bits()), (1, 0.95f32.to_bits())];
    let result = resolve("Person", &beyond, &vec![], &graph, &delta, cfg);
    assert!(matches!(result, ResolveResult::Existing(1)));
}

#[test]
fn default_configuration_matches_by_embedding() {
    let cfg = ResolutionConfig::default();
    assert_eq!(cfg.mode, ResolutionMode::Embedding);
    assert_eq!(f32::from_bits(cfg.threshold), 0.92);
    assert!(!cfg.match_type);
    assert_eq!(ResolutionMode::default(), ResolutionMode::Embedding);
}

// ── within a batch ───────────────────────────────────────────────────────────

fn run_batch(entity_type: &str, vec: &[f32], batch: &[(NodeInfo, Vec<f32>)], cfg: ResolutionConfig) -> Option<u32> {
    let nodes: Vec<NodeInfo> = batch.iter().map(|(n, _)| n.clone()).collect();
    let sims: Vec<u32> = batch.iter().map(|(_, v)| sim(v, vec)).collect();
    resolve_in_batch(entity_type, &nodes, &sims, cfg)
}

#[test]
fn resolve_in_batch_finds_duplicate() {
    let batch = vec![(make_node(10, "Alice", "Person"), unit_vec(0))];
    let result = run_batch("Person", &unit_vec(0), &batch, cfg_embedding(0.9, false));
    assert_eq!(result, Some(10));
}

#[test]
fn resolve_in_batch_orthogonal_vec_returns_none() {
    let batch = vec![(make_node(10, "Alice", "Person"), unit_vec(0))];
    let result = run_batch("Person", &unit_vec(7), &batch, cfg_embedding(0.9, false));
    assert_eq!(result, None);
}

#[test]
fn resolve_in_batch_mode_none_always_returns_none() {
    let batch = vec![(make_node(10, "Alice", "Person"), unit_vec(0))];
    let result = run_batch("Person", &unit_vec(0), &batch, cfg_none());
    assert_eq!(result, None);
}

#[test]
fn resolve_in_batch_match_type_enforced() {
    let batch = vec![(make_node(10, "Alice", "Person"), unit_vec(0))];
    let result = run_batch("Company", &unit_vec(0), &batch, cfg_embedding(0.9, true));
    assert_eq!(result, None);
}

#[test]
fn resolve_in_batch_empty_batch_returns_none() {
    let result = run_batch("Person", &unit_vec(0), &[], cfg_embedding(0.9, false));
    assert_eq!(result, None);
}

#[test]
fn resolve_in_batch_returns_first_match() {
    let batch = vec![
        (make_node(10, "Alice", "Person"), unit_vec(0)),
        (make_node(20, "Alicia", "Person"), unit_vec(0)),
    ];
    let result = run_batch("Person", &unit_vec(0), &batch, cfg_embedding(0.9, false));
    assert_eq!(result, Some(10));
}

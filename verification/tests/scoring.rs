//! Weights, options and the parts of a score.

use ai_graph_engine::query::{QueryOptions, ScoringWeights};

/// The weights as numbers.
struct W {
    alpha: f32,
    beta: f32,
    gamma: f32,
}

fn w(weights: ScoringWeights) -> W {
    W {
        alpha: f32::from_bits(weights.alpha),
        beta: f32::from_bits(weights.beta),
        gamma: f32::from_bits(weights.gamma),
    }
}

fn presets() -> [W; 4] {
    [
        w(ScoringWeights::balanced()),
        w(ScoringWeights::semantic_search()),
        w(ScoringWeights::relationship()),
        w(ScoringWeights::entity_lookup()),
    ]
}

#[test]
fn balanced_weights_sum_to_one() {
    let w = w(ScoringWeights::balanced());
    let sum = w.alpha + w.beta + w.gamma;
    assert!((sum - 1.0).abs() < 1e-6, "balanced weights must sum to 1, got {sum}");
}

#[test]
fn semantic_weights_alpha_dominant() {
    let w = w(ScoringWeights::semantic_search());
    assert!(w.alpha > w.beta && w.alpha > w.gamma);
}

#[test]
fn relationship_weights_beta_dominant() {
    let w = w(ScoringWeights::relationship());
    assert!(w.beta > w.alpha && w.beta > w.gamma);
}

#[test]
fn entity_weights_gamma_not_minimal() {
    let w = w(ScoringWeights::entity_lookup());
    assert!(w.gamma >= w.alpha, "gamma should be at least as large as alpha");
    assert!(w.gamma > w.beta, "gamma should dominate beta");
}

#[test]
fn all_weights_sum_to_1() {
    for w in &presets() {
        let sum = w.alpha + w.beta + w.gamma;
        assert!(
            (sum - 1.0).abs() < 1e-5,
            "weights don't sum to 1: α={} β={} γ={} sum={}",
            w.alpha,
            w.beta,
            w.gamma,
            sum
        );
    }
}

#[test]
fn all_preset_weights_sum_to_1() {
    for w in &presets() {
        let sum = w.alpha + w.beta + w.gamma;
        assert!((sum - 1.0).abs() < 1e-5, "α+β+γ = {sum}");
    }
}

#[test]
fn semantic_mode_has_highest_alpha() {
    let s = w(ScoringWeights::semantic_search());
    assert!(s.alpha > s.beta);
    assert!(s.alpha > s.gamma);
}

#[test]
fn semantic_mode_highest_alpha() {
    let s = w(ScoringWeights::semantic_search());
    assert!(s.alpha > s.beta && s.alpha > s.gamma);
}

#[test]
fn relationship_mode_has_highest_beta() {
    let r = w(ScoringWeights::relationship());
    assert!(r.beta > r.alpha);
    assert!(r.beta > r.gamma);
}

#[test]
fn relationship_mode_highest_beta() {
    let r = w(ScoringWeights::relationship());
    assert!(r.beta > r.alpha && r.beta > r.gamma);
}

#[test]
fn entity_mode_has_highest_gamma() {
    let e = w(ScoringWeights::entity_lookup());
    assert!(e.gamma > e.beta);
}

#[test]
fn entity_mode_highest_gamma() {
    let e = w(ScoringWeights::entity_lookup());
    assert!(e.gamma > e.beta);
}

#[test]
fn preset_weights_are_exact() {
    let expected =
        [(0.5, 0.3, 0.2), (0.7, 0.2, 0.1), (0.3, 0.6, 0.1), (0.4, 0.2, 0.4)];
    for (w, (a, b, g)) in presets().iter().zip(expected) {
        assert_eq!((w.alpha, w.beta, w.gamma), (a, b, g));
    }
}

// ── the formula ──────────────────────────────────────────────────────────────

fn score(vsim: f32, hop: u8, path_weight: f32, node_weight: f32, w: &W) -> f32 {
    let proximity = path_weight / (hop as f32 + 1.0);
    w.alpha * vsim + w.beta * proximity + w.gamma * node_weight
}

#[test]
fn seed_node_scores_higher_than_distant_node() {
    let w = w(ScoringWeights::balanced());
    let seed_score = score(0.9, 0, 1.0, 0.8, &w);
    let dist_score = score(0.3, 2, 1.0, 0.2, &w);
    assert!(seed_score > dist_score, "seed={seed_score}, distant={dist_score}");
}

#[test]
fn high_vsim_dominates_in_semantic_mode() {
    let w = w(ScoringWeights::semantic_search());
    let high_vsim = score(0.95, 2, 1.0, 0.1, &w);
    let low_vsim = score(0.20, 0, 1.0, 1.0, &w);
    assert!(high_vsim > low_vsim);
}

#[test]
fn edge_weight_affects_proximity() {
    let w = w(ScoringWeights::balanced());
    let strong = score(0.5, 1, 1.0, 0.5, &w); // edge weight 1.0
    let weak = score(0.5, 1, 0.3, 0.5, &w); // edge weight 0.3
    assert!(strong > weak, "strong edge (w=1.0) should score higher than weak (w=0.3)");
}

#[test]
fn seed_node_scores_higher_than_distant() {
    let w = w(ScoringWeights::balanced());
    let seed = score(0.9, 0, 1.0, 0.8, &w);
    let distant = score(0.3, 2, 0.3, 0.2, &w);
    assert!(seed > distant);
}

#[test]
fn score_always_in_valid_range() {
    let w = w(ScoringWeights::balanced());
    let min_score = score(-1.0, 10, 1.0, 0.0, &w);
    let max_score = score(1.0, 0, 1.0, 1.0, &w);
    assert!(min_score <= max_score);
    // max score should be ≤ 1 when all inputs are at their maximum
    assert!(max_score <= 1.0 + 1e-5);
}

#[test]
fn hop0_proximity_is_1() {
    let proximity = 1.0f32 / (0u8 as f32 + 1.0);
    assert!((proximity - 1.0).abs() < 1e-6);
}

#[test]
fn test_scoring_proximity_decreases_with_hops() {
    let p: Vec<f32> = (0..4).map(|h| 1.0 / (h as f32 + 1.0)).collect();
    for w in p.windows(2) {
        assert!(w[0] > w[1], "proximity should decrease: {} > {}", w[0], w[1]);
    }
}

#[test]
fn hop0_proximity_is_1_when_path_weight_1() {
    // seed: hop=0, path_weight=1.0 → proximity = 1.0/1 = 1.0
    let proximity = 1.0f32 / (0u8 as f32 + 1.0);
    assert!((proximity - 1.0).abs() < 1e-6);
}

#[test]
fn test_new_features_proximity_decreases_with_hops() {
    let proximities: Vec<f32> = (0..4).map(|h| 1.0f32 / (h as f32 + 1.0)).collect();
    for w in proximities.windows(2) {
        assert!(w[0] > w[1]);
    }
}

// ── options ──────────────────────────────────────────────────────────────────

#[test]
fn test_scoring_default_options_sensible() {
    let opts = QueryOptions::default();
    assert!(opts.hnsw_k > 0);
    assert!(opts.bfs_depth > 0);
    assert!(opts.bfs_max_nodes >= opts.context_top_n);
    assert!(opts.context_top_n > 0);
}

#[test]
fn test_new_features_default_options_sensible() {
    let opts = QueryOptions::default();
    assert!(opts.hnsw_k > 0);
    assert!(opts.bfs_depth > 0);
    assert!(opts.bfs_max_nodes >= opts.context_top_n);
    assert!(!opts.bidirectional, "default should not be bidirectional");
}

#[test]
fn bidirectional_default_is_false() {
    let opts = QueryOptions::default();
    assert!(!opts.bidirectional);
}

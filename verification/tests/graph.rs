//! The graph: structure, reverse edges, node weights, expansion, building and snapshots.

use std::collections::{HashMap, HashSet};

use ai_graph_engine::graph::builder::{
    edges_in_range, from_json_payload, from_json_text, load, read_edges, save, EdgeFiles,
    PayloadError, SnapshotError,
};
use ai_graph_engine::graph::csr::{CsrGraph, EdgeInfo, NodeInfo};

fn f(bits: u32) -> f32 {
    f32::from_bits(bits)
}

fn node(id: u32) -> NodeInfo {
    NodeInfo {
        id,
        name: format!("node_{id}"),
        node_type: "Entity".into(),
        weight: 0,
        props: serde_json::Value::Null,
        full_context: String::new(),
        embed_context: None,
        external_id: format!("node_{id}"),
        image_url: None,
    }
}

fn wedge(from: u32, to: u32, w: f32) -> EdgeInfo {
    EdgeInfo {
        from,
        to,
        edge_type: "rel".into(),
        weight: w.to_bits(),
        full_context: String::new(),
        embed_context: None,
        edge_id: 0,
    }
}

fn edge(from: u32, to: u32) -> EdgeInfo {
    wedge(from, to, 1.0)
}

/// Graph:  0 → 1 (w=1.0), 0 → 2 (w=0.5)
///         1 → 3 (w=0.8)
///         2 → 3, 2 → 4
///         3 → 4
fn make_graph() -> CsrGraph {
    CsrGraph::build(
        (0..5).map(node).collect(),
        &[wedge(0, 1, 1.0), wedge(0, 2, 0.5), wedge(1, 3, 0.8), edge(2, 3), edge(2, 4), edge(3, 4)],
    )
}

/// Graph:  0 → 1 (1.0), 0 → 2 (0.5), 1 → 3 (0.8), 2 → 4 (0.6), 3 → 4 (1.0)
fn make_test_graph() -> CsrGraph {
    let mut edges = vec![
        wedge(0, 1, 1.0),
        wedge(0, 2, 0.5),
        wedge(1, 3, 0.8),
        wedge(2, 4, 0.6),
        wedge(3, 4, 1.0),
    ];
    for (i, e) in edges.iter_mut().enumerate() {
        e.edge_id = i as u64;
    }
    CsrGraph::build((0..5).map(node).collect(), &edges)
}

fn json(text: &str) -> serde_json::Value {
    serde_json::from_str(text).unwrap()
}

#[test]
fn test_neighbors() {
    let g = make_test_graph();
    assert_eq!(g.neighbors(0), &[1, 2]);
    assert_eq!(g.neighbors(1), &[3]);
}

#[test]
fn test_rev_neighbors() {
    let g = make_test_graph();
    let mut rev: Vec<u32> = g.rev_neighbors(4).to_vec();
    rev.sort();
    assert_eq!(rev, &[2, 3]);
    assert_eq!(g.rev_neighbors(1), &[0]);
}

#[test]
fn test_bfs_unidirectional() {
    let g = make_test_graph();
    let result = g.bfs_expand(&[0], 2, 100, false);
    let ids: Vec<u32> = result.iter().map(|(id, _, _)| *id).collect();
    assert!(ids.contains(&0));
    assert!(ids.contains(&3));
    assert!(ids.contains(&4));
}

#[test]
fn test_bfs_path_weights() {
    let g = make_test_graph();
    let result = g.bfs_expand(&[0], 1, 100, false);
    let n1 = result.iter().find(|(id, _, _)| *id == 1).unwrap();
    assert!((f(n1.2) - 1.0).abs() < 1e-6);
    let n2 = result.iter().find(|(id, _, _)| *id == 2).unwrap();
    assert!((f(n2.2) - 0.5).abs() < 1e-6);
}

#[test]
fn test_bfs_bidirectional() {
    let g = make_test_graph();
    let result = g.bfs_expand(&[4], 1, 100, true);
    let ids: Vec<u32> = result.iter().map(|(id, _, _)| *id).collect();
    assert!(ids.contains(&2));
    assert!(ids.contains(&3));
}

#[test]
fn test_node_weight_uses_both_degrees() {
    let g = make_test_graph();
    assert!((f(g.nodes[0].weight) - 1.0).abs() < 1e-6);
    assert!((f(g.nodes[4].weight) - 1.0).abs() < 1e-6);
}

#[test]
fn node_and_edge_counts() {
    let g = make_graph();
    assert_eq!(g.num_nodes(), 5);
    assert_eq!(g.num_edges(), 6);
}

#[test]
fn neighbors_correct() {
    let g = make_graph();
    assert_eq!(g.neighbors(0), &[1, 2]);
    assert_eq!(g.neighbors(1), &[3]);
    assert_eq!(g.neighbors(2), &[3, 4]);
    assert_eq!(g.neighbors(3), &[4]);
    assert_eq!(g.neighbors(4), &[] as &[u32]);
}

#[test]
fn neighbor_weights_parallel() {
    let g = make_graph();
    for id in 0..5u32 {
        assert_eq!(g.neighbors(id).len(), g.neighbor_weights(id).len());
    }
}

#[test]
fn edge_weights_stored_correctly() {
    let g = make_graph();
    let wts = g.neighbor_weights(0);
    assert!((f(wts[0]) - 1.0).abs() < 1e-6, "0→1 weight");
    assert!((f(wts[1]) - 0.5).abs() < 1e-6, "0→2 weight");
}

#[test]
fn rev_neighbors_correct() {
    let g = make_graph();
    let mut rev3: Vec<u32> = g.rev_neighbors(3).to_vec();
    rev3.sort();
    assert_eq!(rev3, &[1, 2]);
    let mut rev4: Vec<u32> = g.rev_neighbors(4).to_vec();
    rev4.sort();
    assert_eq!(rev4, &[2, 3]);
    assert!(g.rev_neighbors(0).is_empty());
}

#[test]
fn node_weights_in_0_1() {
    let g = make_graph();
    for n in &g.nodes {
        let weight = f(n.weight);
        assert!(weight >= 0.0 && weight <= 1.0, "node {} weight={}", n.id, weight);
    }
}

#[test]
fn node_weight_max_is_1() {
    let g = make_graph();
    let max = g.nodes.iter().map(|n| f(n.weight)).fold(0.0f32, f32::max);
    assert!((max - 1.0).abs() < 1e-6);
}

#[test]
fn node_weight_considers_in_degree() {
    let g = make_graph();
    assert!(f(g.nodes[4].weight) > 0.0, "leaf node with in-edges must have weight > 0");
    assert!(
        (f(g.nodes[0].weight) - f(g.nodes[4].weight)).abs() < 1e-6,
        "node 0 (2 out) and node 4 (2 in) should have equal combined weight"
    );
}

#[test]
fn node_weight_is_the_share_of_the_highest_degree() {
    let g = make_graph();
    let expected: Vec<f32> = [2, 2, 3, 3, 2].iter().map(|d| *d as f32 / 3.0).collect();
    let weights: Vec<f32> = g.nodes.iter().map(|n| f(n.weight)).collect();
    assert_eq!(weights, expected);
}

#[test]
fn bfs_depth0_returns_only_seeds() {
    let g = make_graph();
    let r = g.bfs_expand(&[0], 0, 100, false);
    assert_eq!(r.len(), 1);
    assert_eq!((r[0].0, r[0].1), (0, 0));
}

#[test]
fn bfs_depth1_correct_hops() {
    let g = make_graph();
    let hops: HashMap<u32, u8> =
        g.bfs_expand(&[0], 1, 100, false).into_iter().map(|(id, h, _)| (id, h)).collect();
    assert_eq!(hops[&0], 0);
    assert_eq!(hops[&1], 1);
    assert_eq!(hops[&2], 1);
    assert!(!hops.contains_key(&3));
}

#[test]
fn bfs_depth2_reaches_all_nodes() {
    let g = make_graph();
    let ids: Vec<u32> = g.bfs_expand(&[0], 2, 100, false).iter().map(|(id, _, _)| *id).collect();
    for i in 0..5u32 {
        assert!(ids.contains(&i), "node {i} missing");
    }
}

#[test]
fn bfs_respects_max_nodes() {
    let g = make_graph();
    assert!(g.bfs_expand(&[0], 10, 2, false).len() <= 2);
}

#[test]
fn bfs_no_duplicates_with_multiple_seeds() {
    let g = make_graph();
    let result = g.bfs_expand(&[0, 1], 1, 100, false);
    let ids: Vec<u32> = result.iter().map(|(id, _, _)| *id).collect();
    let unique: HashSet<u32> = ids.iter().copied().collect();
    assert_eq!(ids.len(), unique.len());
}

#[test]
fn bfs_seed_has_path_weight_1() {
    let g = make_graph();
    let r = g.bfs_expand(&[0], 1, 100, false);
    let seed = r.iter().find(|(id, _, _)| *id == 0).unwrap();
    assert!((f(seed.2) - 1.0).abs() < 1e-6);
}

#[test]
fn bfs_path_weight_matches_edge_weight() {
    let g = make_graph();
    let r = g.bfs_expand(&[0], 1, 100, false);
    let n1 = r.iter().find(|(id, _, _)| *id == 1).unwrap();
    let n2 = r.iter().find(|(id, _, _)| *id == 2).unwrap();
    assert!((f(n1.2) - 1.0).abs() < 1e-6, "0→1 w=1.0, got {}", f(n1.2));
    assert!((f(n2.2) - 0.5).abs() < 1e-6, "0→2 w=0.5, got {}", f(n2.2));
}

#[test]
fn bidirectional_reaches_upstream_nodes() {
    let g = make_graph();
    let uni_ids: HashSet<u32> =
        g.bfs_expand(&[4], 2, 100, false).iter().map(|(id, _, _)| *id).collect();
    let bi_ids: HashSet<u32> =
        g.bfs_expand(&[4], 2, 100, true).iter().map(|(id, _, _)| *id).collect();

    assert!(!uni_ids.contains(&2), "node 2 unreachable uni from leaf 4");
    assert!(bi_ids.contains(&2), "node 2 reachable via reverse edge");
    assert!(bi_ids.contains(&3), "node 3 reachable via reverse edge");
}

#[test]
fn bidirectional_no_duplicates() {
    let g = make_graph();
    let result = g.bfs_expand(&[2], 2, 100, true);
    let ids: Vec<u32> = result.iter().map(|(id, _, _)| *id).collect();
    let unique: HashSet<u32> = ids.iter().copied().collect();
    assert_eq!(ids.len(), unique.len());
}

fn reached(g: &CsrGraph, seeds: &[u32], depth: u8, bidirectional: bool) -> HashSet<u32> {
    g.bfs_expand(seeds, depth, 100, bidirectional).iter().map(|(id, _, _)| *id).collect()
}

#[test]
fn greater_depth_reaches_no_less() {
    let g = make_graph();
    for depth in 0..4 {
        assert!(reached(&g, &[1], depth, false).is_subset(&reached(&g, &[1], depth + 1, false)));
    }
    assert_eq!(reached(&g, &[1], 1, false), HashSet::from([1, 3]));
    assert_eq!(reached(&g, &[1], 2, false), HashSet::from([1, 3, 4]));
}

#[test]
fn both_ways_reach_no_less_than_forward() {
    let g = make_graph();
    for seed in 0..5 {
        assert!(reached(&g, &[seed], 1, false).is_subset(&reached(&g, &[seed], 1, true)));
    }
    assert_eq!(reached(&g, &[3], 1, false), HashSet::from([3, 4]));
    assert_eq!(reached(&g, &[3], 1, true), HashSet::from([1, 2, 3, 4]));
}

fn loaded(g: &CsrGraph, files: &EdgeFiles) -> CsrGraph {
    load(g.nodes.clone(), files).unwrap_or_else(|e| panic!("{}", e.message()))
}

#[test]
fn save_and_load_roundtrip() {
    let g = make_graph();
    let files = save(&g);
    let g2 = loaded(&g, &files);

    assert_eq!(g2.num_nodes(), g.num_nodes());
    assert_eq!(g2.num_edges(), g.num_edges());
    for id in 0..5u32 {
        assert_eq!(g2.neighbors(id), g.neighbors(id));
    }
    let weights: Vec<f32> = g2.nodes.iter().map(|n| f(n.weight)).collect();
    assert_eq!(weights, g.nodes.iter().map(|n| f(n.weight)).collect::<Vec<f32>>());
}

#[test]
fn missing_and_unreadable_files_count_as_empty() {
    let g = make_graph();
    let files = save(&g);
    assert_eq!(files.edge_types.as_deref(), Some(r#"["rel","rel","rel","rel","rel","rel"]"#));
    assert_eq!(files.edge_ids.as_deref(), Some("[0,0,0,0,0,0]"));
    let older = EdgeFiles {
        edges_bin: files.edges_bin,
        edge_types: Some(r#"["a","b"]"#.into()),
        edge_contexts: Some("not json".into()),
        edge_embed_contexts: Some(r#"[null,"x"]"#.into()),
        edge_ids: None,
    };
    let back = loaded(&g, &older);
    assert_eq!(back.neighbor_types(0), &["a".to_string(), "b".to_string()]);
    assert_eq!(back.neighbor_types(1), &[String::new()]);
    assert_eq!(back.neighbor_full_contexts(0), &[String::new(), String::new()]);
    assert_eq!(back.neighbor_embed_contexts(0), &[None, Some("x".to_string())]);
    assert_eq!(back.neighbor_edge_ids(0), &[0, 0]);
}

#[test]
fn payload_text_is_read() {
    let Ok(g) = from_json_text(r#"{"entities": [{"id": "a", "name": "A"}], "relations": []}"#)
    else {
        panic!("a payload");
    };
    assert_eq!(g.get_by_external_id("a"), Some(0));
    let Err(e) = from_json_text("{") else { panic!("not JSON") };
    assert!(matches!(e, PayloadError::NotJson));
    assert_eq!(e.message(), "payload is not JSON");
}

#[test]
fn rebuilding_from_all_edges_keeps_them() {
    let g = make_graph();
    let edges = g.all_edges();
    assert_eq!(edges.len(), 6);
    let again = CsrGraph::build(g.nodes.clone(), &edges);
    for id in 0..5u32 {
        assert_eq!(again.neighbors(id), g.neighbors(id));
        assert_eq!(again.neighbor_weights(id), g.neighbor_weights(id));
        assert_eq!(again.rev_neighbors(id), g.rev_neighbors(id));
    }
}

#[test]
fn snapshot_keeps_every_field_of_an_edge() {
    let mut e = wedge(0, 1, 0.25);
    e.full_context = "met in Oslo".into();
    e.embed_context = Some("Oslo".into());
    e.edge_id = 77;
    let g = CsrGraph::build((0..2).map(node).collect(), &[e]);
    let files = save(&g);
    assert_eq!(files.edges_bin, [0u32.to_le_bytes(), 1u32.to_le_bytes(), 0.25f32.to_le_bytes()].concat());
    let edges = read_edges(&files);
    assert_eq!(edges.len(), 1);
    assert!(edges_in_range(&edges, 2));
    assert!(!edges_in_range(&edges, 1));
    let back = loaded(&g, &files);
    assert_eq!(back.neighbor_full_contexts(0), &["met in Oslo".to_string()]);
    assert_eq!(back.neighbor_embed_contexts(0), &[Some("Oslo".to_string())]);
    assert_eq!(back.neighbor_edge_ids(0), &[77]);
    assert_eq!(back.neighbor_types(0), &["rel".to_string()]);
    let all = back.all_edges();
    assert_eq!((all[0].from, all[0].to, f(all[0].weight)), (0, 1, 0.25));
}

#[test]
fn snapshot_with_an_unknown_node_is_refused() {
    let g = make_graph();
    let files = save(&g);
    let back = loaded(&g, &files);
    assert_eq!(back.neighbors(0), g.neighbors(0));
    let refused = load(g.nodes[..3].to_vec(), &files);
    let Err(e) = refused else { panic!("node 4 is missing") };
    assert!(matches!(e, SnapshotError::UnknownNode));
    assert_eq!(e.message(), "edges.bin names a node that nodes.json does not hold");
    assert_eq!(SnapshotError::TooLarge.message(), "graph snapshot is too large");
}

#[test]
fn from_json_payload_parses_correctly() {
    let g = from_json_payload(&json(
        r#"{
        "entities": [
            {"id":"a","name":"Alice","type":"Person","props":{}},
            {"id":"b","name":"Bob",  "type":"Person","props":{}},
            {"id":"c","name":"Acme", "type":"Company","props":{}}
        ],
        "relations": [
            {"from":"a","to":"c","type":"works_at","weight":1.0},
            {"from":"b","to":"c","type":"works_at","weight":1.0}
        ]
    }"#,
    ))
    .unwrap_or_else(|e| panic!("{}", e.message()));

    assert_eq!(g.num_nodes(), 3);
    assert_eq!(g.num_edges(), 2);
    assert_eq!(g.neighbors(0), &[2]);
    assert_eq!(g.neighbors(1), &[2]);
    assert!(g.neighbors(2).is_empty());
}

#[test]
fn from_json_payload_ignores_unknown_refs() {
    let g = from_json_payload(&json(
        r#"{
        "entities": [{"id":"a","name":"A","type":"X","props":{}}],
        "relations": [{"from":"a","to":"GHOST","type":"r","weight":1.0}]
    }"#,
    ))
    .unwrap_or_else(|e| panic!("{}", e.message()));

    assert_eq!(g.num_nodes(), 1);
    assert_eq!(g.num_edges(), 0);
}

#[test]
fn payload_without_lists_is_refused() {
    let no_entities = from_json_payload(&json(r#"{"relations": []}"#));
    assert!(matches!(no_entities, Err(PayloadError::MissingEntities)));
    let no_relations = from_json_payload(&json(r#"{"entities": []}"#));
    assert!(matches!(no_relations, Err(PayloadError::MissingRelations)));
}

#[test]
fn payload_fields_have_defaults() {
    let g = from_json_payload(&json(
        r#"{
        "entities": [{"id":"a"}, {"id":"b","name":"B","type":"T","full_context":"ctx","props":{"k":1}}],
        "relations": [{"from":"a","to":"b"}]
    }"#,
    ))
    .unwrap_or_else(|e| panic!("{}", e.message()));
    assert_eq!(g.num_nodes(), 2);
    assert_eq!(g.nodes[1].full_context, "ctx");
    assert_eq!(g.nodes[1].props["k"].as_u64(), Some(1));
    assert_eq!(f(g.neighbor_weights(0)[0]), 1.0);
    assert_eq!(g.get_by_external_id("b"), Some(1));
    assert_eq!(g.get_by_external_id("c"), None);
}

#[test]
fn edges_between_stay_inside_the_set() {
    let g = make_graph();
    let set: HashSet<u32> = [0, 1, 3].into_iter().collect();
    let found: Vec<(u32, u32)> = g.edges_between(&set).iter().map(|e| (e.0, e.1)).collect();
    let mut sorted = found.clone();
    sorted.sort();
    assert_eq!(sorted, vec![(0, 1), (1, 3)]);
}

#[test]
fn edges_between_take_the_heaviest_of_parallel_edges() {
    let g = CsrGraph::build(
        (0..2).map(node).collect(),
        &[wedge(0, 1, 0.2), wedge(0, 1, 0.9), wedge(0, 1, 0.4)],
    );
    let between = g.edges_between(&HashSet::from([0, 1]));
    assert_eq!(between.len(), 1);
    assert_eq!((between[0].0, between[0].1, f(between[0].2)), (0, 1, 0.9));
}

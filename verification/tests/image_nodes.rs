//! Nodes with images.

use ai_graph_engine::api::handlers::ingest::{image_source, split_embeds};
use ai_graph_engine::graph::builder::{from_json_payload, load, save};
use ai_graph_engine::graph::csr::{CsrGraph, EdgeInfo, NodeInfo};
use serde_json::Value;

fn text_node(id: u32, name: &str) -> NodeInfo {
    NodeInfo {
        id,
        external_id: format!("Entity:{name}"),
        name: name.into(),
        node_type: "Entity".into(),
        weight: 0,
        props: Value::Null,
        full_context: String::new(),
        embed_context: None,
        image_url: None,
    }
}

fn image_node(id: u32, name: &str, url: &str) -> NodeInfo {
    NodeInfo {
        external_id: format!("Image:{name}"),
        node_type: "Image".into(),
        image_url: Some(url.into()),
        ..text_node(id, name)
    }
}

fn edge(from: u32, to: u32, edge_type: &str, weight: f32, edge_id: u64) -> EdgeInfo {
    EdgeInfo {
        from,
        to,
        edge_type: edge_type.into(),
        weight: weight.to_bits(),
        full_context: String::new(),
        embed_context: None,
        edge_id,
    }
}

fn build(text: &str) -> CsrGraph {
    let payload: Value = serde_json::from_str(text).unwrap();
    from_json_payload(&payload).unwrap_or_else(|e| panic!("{}", e.message()))
}

#[test]
fn builder_parses_image_url_from_entity_json() {
    let partial = build(
        r#"{
        "entities": [
            {"id": "img1", "name": "Landscape", "type": "Image",  "image_url": "https://cdn.example.com/landscape.jpg"},
            {"id": "txt1", "name": "Alice",     "type": "Person"}
        ],
        "relations": []
    }"#,
    );
    assert_eq!(partial.nodes.len(), 2);

    let img = partial.nodes.iter().find(|n| n.name == "Landscape").unwrap();
    assert_eq!(img.image_url.as_deref(), Some("https://cdn.example.com/landscape.jpg"));
    assert_eq!(img.node_type, "Image");

    let txt = partial.nodes.iter().find(|n| n.name == "Alice").unwrap();
    assert!(txt.image_url.is_none());
}

#[test]
fn builder_empty_image_url_becomes_none() {
    let partial = build(
        r#"{
        "entities": [{"id": "e1", "name": "Alice", "type": "Person", "image_url": ""}],
        "relations": []
    }"#,
    );
    assert!(partial.nodes[0].image_url.is_none());
}

#[test]
fn builder_base64_data_uri_preserved() {
    let partial = build(
        r#"{
        "entities": [{"id": "img2", "name": "Diagram", "type": "Image", "image_url": "data:image/png;base64,abc123=="}],
        "relations": []
    }"#,
    );
    assert_eq!(partial.nodes[0].image_url.as_deref(), Some("data:image/png;base64,abc123=="));
}

#[test]
fn image_node_indices_split_correctly() {
    let nodes = vec![
        text_node(0, "Alice"),
        image_node(1, "photo_01", "https://example.com/a.jpg"),
        text_node(2, "Bob"),
        image_node(3, "photo_02", "data:image/png;base64,abc"),
    ];

    let mut text_indices: Vec<usize> = Vec::new();
    let mut image_indices: Vec<usize> = Vec::new();
    for (i, n) in nodes.iter().enumerate() {
        if n.image_url.is_some() {
            image_indices.push(i);
        } else {
            text_indices.push(i);
        }
    }

    assert_eq!(text_indices, vec![0, 2]);
    assert_eq!(image_indices, vec![1, 3]);

    let (texts, images) = split_embeds(&nodes);
    assert_eq!(texts, vec!["Alice", "Bob"]);
    assert_eq!(images, vec!["https://example.com/a.jpg", "data:image/png;base64,abc"]);
}

#[test]
fn all_text_nodes_means_no_image_indices() {
    let nodes = vec![text_node(0, "Alice"), text_node(1, "Bob")];
    let image_indices: Vec<usize> = nodes
        .iter()
        .enumerate()
        .filter(|(_, n)| n.image_url.is_some())
        .map(|(i, _)| i)
        .collect();
    assert!(image_indices.is_empty());
    assert!(split_embeds(&nodes).1.is_empty());
}

#[test]
fn all_image_nodes_means_no_text_embed_needed() {
    let nodes =
        vec![image_node(0, "photo_a", "https://a.jpg"), image_node(1, "photo_b", "https://b.jpg")];
    let text_indices: Vec<usize> = nodes
        .iter()
        .enumerate()
        .filter(|(_, n)| n.image_url.is_none())
        .map(|(i, _)| i)
        .collect();
    assert!(text_indices.is_empty());
    assert!(split_embeds(&nodes).0.is_empty());
}

#[test]
fn csr_build_preserves_image_url() {
    let nodes =
        vec![text_node(0, "Alice"), image_node(1, "photo_01", "https://example.com/img.jpg")];
    let g = CsrGraph::build(nodes, &[edge(0, 1, "depicted_in", 1.0, 0)]);

    assert!(g.nodes[0].image_url.is_none());
    assert_eq!(g.nodes[1].image_url.as_deref(), Some("https://example.com/img.jpg"));
    assert_eq!(g.num_edges(), 1);
}

#[test]
fn csr_image_node_included_in_bfs() {
    let nodes = vec![
        text_node(0, "Alice"),
        image_node(1, "photo_01", "https://example.com/img.jpg"),
        text_node(2, "Bob"),
    ];
    let edges = [edge(0, 1, "has_photo", 1.0, 0), edge(1, 2, "depicts", 0.8, 1)];
    let g = CsrGraph::build(nodes, &edges);
    let reachable: Vec<u32> =
        g.bfs_expand(&[0], 2, 100, false).into_iter().map(|(id, _, _)| id).collect();

    assert!(reachable.contains(&0));
    assert!(reachable.contains(&1));
    assert!(reachable.contains(&2));
}

#[test]
fn save_load_roundtrip_preserves_image_url() {
    let nodes =
        vec![text_node(0, "Alice"), image_node(1, "photo_01", "https://example.com/img.jpg")];
    let graph = CsrGraph::build(nodes, &[edge(0, 1, "has_photo", 0.9, 0)]);

    let files = save(&graph);
    let loaded =
        load(graph.nodes.clone(), &files).unwrap_or_else(|e| panic!("{}", e.message()));

    let img = loaded.nodes.iter().find(|n| n.name == "photo_01").unwrap();
    assert_eq!(img.image_url.as_deref(), Some("https://example.com/img.jpg"));
    assert_eq!(img.node_type, "Image");

    let txt = loaded.nodes.iter().find(|n| n.name == "Alice").unwrap();
    assert!(txt.image_url.is_none());
}

#[test]
fn stored_image_takes_the_place_of_inline_data() {
    assert_eq!(image_source("data:image/png;base64,abc", Some("s3://b/k")), "s3://b/k");
    assert_eq!(image_source("data:image/png;base64,abc", None), "data:image/png;base64,abc");
}

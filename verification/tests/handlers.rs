//! What the endpoints do: options, lookup, search, export, import and ingestion.

use ai_graph_engine::api::dto::export::{ExportEdge, ExportNode, GraphExport, NdjsonLine};
use ai_graph_engine::api::dto::ingest::{IngestResponse, ResolutionOverride};
use ai_graph_engine::api::dto::query::{OptionsOverride, PipelineControl, WeightsOverride};
use ai_graph_engine::api::error::ApiError;
use ai_graph_engine::api::handlers::admin::{
    edge_type_matches, get_node, graph_stats, search_edges, search_nodes, EdgeSearchParams, NodeSearchParams,
};
use ai_graph_engine::api::handlers::export::{
    apply_import, collect_export_data, default_format, epoch_to_ymd_hms, export_json,
    export_ndjson, is_ndjson, join_lines, parse_ndjson, rfc3339, split_records,
};
use ai_graph_engine::api::handlers::ingest::{
    admit_ingest, build_resolution_cfg, count_named, draft_json_nodes, draft_text_nodes,
    edge_embed_text, entity_texts, fail_ingest, ingest_json, ingest_text, merge_vectors,
    node_embed_text, nothing_ingested, place_entities, record_ingest, relation_texts, Similarities,
};
use ai_graph_engine::api::handlers::query::{
    admit_query, fail_query, needs_plugin, node_query_options, prompt_of, query_options,
    record_metrics, resolve_weights, wants_answer,
};
use ai_graph_engine::config::{IngestConfig, QueryConfig};
use ai_graph_engine::delta::{DeltaGraph, DeltaStore};
use ai_graph_engine::entity_resolution::{ResolutionConfig, ResolutionMode};
use ai_graph_engine::graph::builder::{from_json_payload, read_entities};
use ai_graph_engine::graph::csr::{CsrGraph, EdgeInfo, NodeInfo};
use ai_graph_engine::metrics::Metrics;
use ai_graph_engine::plugin::{build_context, build_edges, ExtractResponse};
use ai_graph_engine::query::{QueryStats, ScoringWeights};
use serde_json::Value;

fn b(x: f32) -> u32 {
    x.to_bits()
}

fn json(text: &str) -> Value {
    serde_json::from_str(text).unwrap()
}

fn list(text: &str) -> Vec<Value> {
    json(text).as_array().unwrap().clone()
}

fn node(id: u32, name: &str, node_type: &str) -> NodeInfo {
    NodeInfo {
        id,
        external_id: format!("{node_type}:{name}"),
        name: name.into(),
        node_type: node_type.into(),
        weight: 0,
        props: Value::Null,
        full_context: String::new(),
        embed_context: None,
        image_url: None,
    }
}

fn edge(from: u32, to: u32, edge_type: &str, weight: f32) -> EdgeInfo {
    EdgeInfo {
        from,
        to,
        edge_type: edge_type.into(),
        weight: b(weight),
        full_context: String::new(),
        embed_context: None,
        edge_id: 0,
    }
}

/// Alice –leads→ Acme ←works_at– Bob, Acme –builds→ Engine
fn graph() -> CsrGraph {
    CsrGraph::build(
        vec![
            node(0, "Alice", "Person"),
            node(1, "Bob", "Person"),
            node(2, "Acme", "Company"),
            node(3, "Engine", "Product"),
        ],
        &[edge(0, 2, "leads", 1.0), edge(1, 2, "works_at", 0.8), edge(2, 3, "builds", 1.0)],
    )
}

/// A new node Carol, who works at Acme.
fn delta() -> DeltaGraph {
    let mut d = DeltaGraph::default();
    d.add_node(node(900, "Carol", "Person"), vec![]);
    d.add_edge(edge(900, 2, "works_at", 0.5), vec![]);
    d
}

// ── query options ────────────────────────────────────────────────────────────

fn query_cfg() -> QueryConfig {
    QueryConfig {
        hnsw_k: 10,
        bfs_depth: 2,
        bfs_max_nodes: 200,
        context_top_n: 20,
        context_min_score: b(0.3),
        hnsw_m: 16,
        hnsw_ef_construction: 100,
    }
}

#[test]
fn modes_choose_weights() {
    assert_eq!(resolve_weights(Some("semantic")).0, ScoringWeights::semantic_search());
    assert_eq!(resolve_weights(Some("relationship")).0, ScoringWeights::relationship());
    assert_eq!(resolve_weights(Some("entity")).0, ScoringWeights::entity_lookup());
    assert_eq!(resolve_weights(None).0, ScoringWeights::balanced());
    assert!(resolve_weights(Some("relationship")).1);
    assert!(!resolve_weights(Some("semantic")).1);
}

#[test]
fn options_override_settings_one_by_one() {
    let none = query_options(None, None, &query_cfg());
    assert_eq!((none.hnsw_k, none.bfs_depth), (10, 2));
    assert_eq!(none.context_min_score, b(0.3));
    let some = OptionsOverride {
        hnsw_k: Some(3),
        bfs_depth: None,
        bfs_max_nodes: None,
        context_top_n: None,
        context_min_score: None,
        weights: Some(WeightsOverride { alpha: Some(b(0.9)), beta: None, gamma: None }),
        bidirectional: Some(true),
    };
    let o = query_options(Some(some), Some("semantic"), &query_cfg());
    assert_eq!((o.hnsw_k, o.bfs_depth, o.bidirectional), (3, 2, true));
    assert_eq!(f32::from_bits(o.weights.alpha), 0.9);
    assert_eq!(f32::from_bits(o.weights.beta), 0.2);
    assert_eq!(node_query_options(None, None, &query_cfg()).context_min_score, 0);
}

#[test]
fn plugin_is_needed_for_texts_and_answers() {
    assert!(wants_answer(&None));
    let quiet = Some(PipelineControl {
        llm_generate: false,
        prompt: Some("why?".into()),
        hints: None,
    });
    assert!(!wants_answer(&quiet));
    assert_eq!(prompt_of(&quiet), "why?");
    assert_eq!(prompt_of(&None), "");
    assert!(needs_plugin(false, false));
    assert!(needs_plugin(true, true));
    assert!(!needs_plugin(true, false));
}

#[test]
fn queries_are_recorded() {
    let mut m = Metrics::new();
    let mut stats = QueryStats {
        seed_nodes: 1,
        subgraph_nodes: 1,
        context_nodes: 1,
        total_ms: 30,
        embed_ms: 10,
        search_ms: 1,
        bfs_ms: 1,
        score_ms: 1,
        llm_ms: 15,
        cache_hit: false,
    };
    record_metrics(&mut m, 30, &stats);
    stats.cache_hit = true;
    record_metrics(&mut m, 1, &stats);
    assert_eq!((m.cache_hits.get(), m.cache_misses.get()), (1, 1));
    assert_eq!((m.query_latency.count, m.query_latency.sum), (2, 31));
}

#[test]
fn requests_wait_for_the_plugin_they_need() {
    let mut m = Metrics::new();
    assert!(admit_query(&mut m, true, true).is_ok());
    assert!(admit_query(&mut m, false, false).is_ok());
    let Err(e) = admit_query(&mut m, true, false) else { panic!("the plugin is not ready") };
    let reply = e.reply();
    assert_eq!((reply.status, reply.message.as_str()), (503, "plugin not available"));
    assert_eq!((m.queries_total.get(), m.queries_failed_total.get()), (3, 1));

    assert!(admit_ingest(&mut m, true).is_ok());
    assert!(admit_ingest(&mut m, false).is_err());
    assert_eq!((m.ingest_total.get(), m.ingest_failed_total.get()), (2, 1));
}

#[test]
fn failures_are_counted_and_answered() {
    let mut m = Metrics::new();
    let reply = fail_query(&mut m, ApiError::failed("query", "no answer")).reply();
    assert_eq!((reply.status, reply.message.as_str()), (500, "query failed: no answer"));
    let reply = fail_ingest(&mut m, ApiError::plugin("embed", "timeout")).reply();
    assert_eq!((reply.status, reply.message.as_str()), (502, "embed failed: timeout"));
    assert_eq!((m.queries_failed_total.get(), m.ingest_failed_total.get()), (1, 1));
}

// ── lookup and search ────────────────────────────────────────────────────────

#[test]
fn nodes_are_found_in_graph_and_delta() {
    let (g, d) = (graph(), delta());
    assert_eq!(get_node(&g, &d, 1).ok().unwrap().name, "Bob");
    assert_eq!(get_node(&g, &d, 900).ok().unwrap().name, "Carol");
    let reply = get_node(&g, &d, 77).err().unwrap().reply();
    assert_eq!(reply.status, 404);
    let stats = graph_stats(&g, &d, true);
    assert_eq!((stats.nodes, stats.edges), (4, 3));
    assert_eq!((stats.delta_nodes, stats.delta_edges), (1, 1));
    assert!(stats.delta_pending_merge);
}

fn asked() -> NodeSearchParams {
    NodeSearchParams {
        q: None,
        node_type: None,
        related_to: None,
        direction: None,
        edge_type: None,
        limit: None,
    }
}

fn names(params: NodeSearchParams) -> Vec<String> {
    let found = search_nodes(&params, &graph(), &delta());
    found.ok().unwrap().into_iter().map(|n| n.name).collect()
}

#[test]
fn nodes_are_searched_by_name_and_type() {
    assert_eq!(names(NodeSearchParams { q: Some("AL".into()), ..asked() }), vec!["Alice"]);
    let persons = names(NodeSearchParams { node_type: Some("Person".into()), ..asked() });
    assert_eq!(persons, vec!["Alice", "Bob", "Carol"]);
    let lower = names(NodeSearchParams { node_type: Some("person".into()), ..asked() });
    assert!(lower.is_empty());
    let two = names(NodeSearchParams { limit: Some(2), ..asked() });
    assert_eq!(two, vec!["Alice", "Bob"]);
}

#[test]
fn edges_match_by_ends_and_type() {
    let g = graph();
    let e = &g.all_edges()[0];
    assert!(edge_type_matches(&g, e.from, e.to, None));
    assert!(edge_type_matches(&g, e.from, e.to, Some(&e.edge_type.to_uppercase())));
    assert!(!edge_type_matches(&g, e.from, e.to, Some("no such type")));
    assert!(!edge_type_matches(&g, e.from, e.from, None));
}

#[test]
fn nodes_are_searched_by_relation() {
    let mut near = names(NodeSearchParams {
        related_to: Some(2),
        direction: Some("both".into()),
        ..asked()
    });
    near.sort();
    assert_eq!(near, vec!["Alice", "Bob", "Carol", "Engine"]);
    let out = names(NodeSearchParams {
        related_to: Some(2),
        ..asked()
    });
    assert_eq!(out, vec!["Engine"]);
    let workers = names(NodeSearchParams {
        related_to: Some(2),
        direction: Some("in".into()),
        edge_type: Some("works_at".into()),
        ..asked()
    });
    assert_eq!(workers, vec!["Bob", "Carol"]);
    let unknown = NodeSearchParams { related_to: Some(50), ..asked() };
    assert_eq!(search_nodes(&unknown, &graph(), &delta()).err().unwrap().reply().status, 404);
}

#[test]
fn edges_are_searched_by_ends_and_type() {
    let ask = |from: Option<u32>, to: Option<u32>, edge_type: Option<&str>| EdgeSearchParams {
        from,
        to,
        edge_type: edge_type.map(|s| s.to_string()),
        limit: None,
    };
    let (g, d) = (graph(), delta());
    let into_acme = search_edges(&ask(None, Some(2), None), &g, &d).ok().unwrap();
    let mut from: Vec<String> = into_acme.iter().map(|e| e.from_name.clone()).collect();
    from.sort();
    assert_eq!(from, vec!["Alice", "Bob", "Carol"]);
    let works = search_edges(&ask(None, None, Some("WORKS_AT")), &g, &d).ok().unwrap();
    assert_eq!(works.len(), 2);
    let one = search_edges(&ask(Some(2), Some(3), None), &g, &d).ok().unwrap();
    assert_eq!((one.len(), one[0].to_name.as_str(), one[0].weight), (1, "Engine", b(1.0)));
    assert_eq!(search_edges(&ask(None, None, None), &g, &d).err().unwrap().reply().status, 400);
    assert_eq!(search_edges(&ask(Some(60), None, None), &g, &d).err().unwrap().reply().status, 404);
}

// ── export and import ────────────────────────────────────────────────────────

#[test]
fn export_names_the_ends_of_edges() {
    assert_eq!(default_format(), "json");
    assert!(is_ndjson("ndjson") && !is_ndjson("json"));
    let (nodes, edges) = collect_export_data(&graph(), &delta());
    assert_eq!((nodes.len(), edges.len()), (5, 4));
    assert!(edges.iter().any(|e| e.from == "Carol" && e.to == "Acme"));
    let export = export_json(nodes, edges, rfc3339(0));
    assert_eq!(export.exported_at, "1970-01-01T00:00:00Z");
    assert_eq!((export.stats.nodes, export.stats.edges), (5, 4));
    assert_eq!(export.version, "1");
}

#[test]
fn records_give_back_the_export() {
    let (nodes, edges) = collect_export_data(&graph(), &delta());
    let records = export_ndjson(nodes, edges, "t".to_string());
    assert_eq!(records.len(), 10);
    assert!(matches!(&records[0], NdjsonLine::Meta { nodes: 5, edges: 4, .. }));
    let back = parse_ndjson(records.into_iter().map(Ok).collect()).unwrap_or_else(|e| panic!("{e}"));
    assert_eq!((back.nodes.len(), back.edges.len()), (5, 4));
    assert_eq!(back.nodes[4].name, "Carol");
    assert_eq!((back.version.as_str(), back.exported_at.as_str()), ("1", "t"));
}

#[test]
fn records_stand_on_lines() {
    let lines = vec!["{}".to_string(), "[1]".to_string()];
    let text = join_lines(&lines);
    assert_eq!(text, "{}\n[1]\n");
    assert_eq!(split_records(&format!("\n{text}\n  \n")), lines);
}

#[test]
fn joined_lines_come_back() {
    for n in 0..4 {
        let lines: Vec<String> = (0..n).map(|i| format!("{{\"i\": {i}}}")).collect();
        let text = join_lines(&lines);
        assert_eq!(split_records(&text), lines);
        assert_eq!(split_records(text.trim_end()), lines);
        assert_eq!(split_records(&text.replace('\n', "\r\n")), lines);
    }
}

#[test]
fn text_of_an_export_gives_it_back() {
    let (mut nodes, edges) = collect_export_data(&graph(), &delta());
    nodes[1].image_url = Some("http://x/1.png".to_string());
    let records = export_ndjson(nodes, edges, "t".to_string());
    let lines: Vec<String> = (0..records.len()).map(|i| i.to_string()).collect();
    let mut by_line: Vec<Option<NdjsonLine>> = records.into_iter().map(Some).collect();
    let read = split_records(&join_lines(&lines))
        .iter()
        .map(|line| by_line[line.parse::<usize>().unwrap()].take().ok_or("twice".to_string()))
        .collect();
    let back = parse_ndjson(read).unwrap_or_else(|e| panic!("{e}"));
    assert_eq!((back.nodes.len(), back.edges.len(), back.exported_at.as_str()), (5, 4, "t"));
    assert_eq!(back.nodes[1].image_url.as_deref(), Some("http://x/1.png"));
}

#[test]
fn first_unreadable_line_refuses_the_export() {
    let read = vec![
        Ok(NdjsonLine::Node(export_node("a"))),
        Err("expected value at line 1 column 1".to_string()),
        Err("another".to_string()),
    ];
    let message = parse_ndjson(read).err();
    assert_eq!(message.as_deref(), Some("invalid NDJSON line: expected value at line 1 column 1"));
    let nothing = parse_ndjson(vec![]).unwrap_or_else(|e| panic!("{e}"));
    assert_eq!((nothing.version.as_str(), nothing.exported_at.as_str()), ("1", ""));
}

#[test]
fn seconds_become_dates() {
    assert_eq!(epoch_to_ymd_hms(951_782_400), (2000, 2, 29, 0, 0, 0));
    assert_eq!(epoch_to_ymd_hms(1_735_689_599), (2024, 12, 31, 23, 59, 59));
    assert_eq!(rfc3339(1_700_000_000), "2023-11-14T22:13:20Z");
    assert_eq!(rfc3339(4_107_542_400), "2100-03-01T00:00:00Z");
}

fn export_node(name: &str) -> ExportNode {
    ExportNode {
        name: name.into(),
        node_type: "Person".into(),
        props: json("{\"k\":1}"),
        full_context: "ctx".into(),
        embed_context: None,
        image_url: None,
    }
}

fn export_edge(from: &str, to: &str) -> ExportEdge {
    ExportEdge {
        from: from.into(),
        to: to.into(),
        edge_type: "knows".into(),
        weight: b(0.5),
        full_context: String::new(),
        embed_context: None,
    }
}

#[test]
fn import_adds_unknown_nodes_and_known_edges() {
    let g = graph();
    let mut store = DeltaStore::new(None, 100);
    store.init_node_ids(4);
    let payload = GraphExport {
        nodes: vec![export_node("Dave"), export_node("Alice")],
        edges: vec![export_edge("Dave", "Alice"), export_edge("Dave", "Nobody")],
        ..export_json(vec![], vec![], String::new())
    };
    let r = apply_import(&payload, &g, &mut store);
    assert_eq!((r.nodes_added, r.edges_added, r.skipped_edges, r.delta_size), (1, 1, 1, 2));
    let d = store.read();
    assert_eq!((d.new_nodes[0].id, d.new_nodes[0].name.as_str()), (4, "Dave"));
    assert_eq!(d.new_nodes[0].external_id, "Person:Dave");
    assert_eq!(d.new_nodes[0].props["k"].as_u64(), Some(1));
    assert_eq!((d.new_edges[0].from, d.new_edges[0].to, d.new_edges[0].edge_id), (4, 0, 1));
    assert!(d.new_vecs[0].is_empty());
}

#[test]
fn import_gives_back_an_export() {
    let (nodes, edges) = collect_export_data(&graph(), &DeltaGraph::default());
    let export = export_json(nodes, edges, "t".to_string());
    let empty = CsrGraph::build(vec![], &[]);
    let mut store = DeltaStore::new(None, 100);
    let r = apply_import(&export, &empty, &mut store);
    assert_eq!((r.nodes_added, r.edges_added, r.skipped_edges), (4, 3, 0));
    let (again, edges_again) = collect_export_data(&empty, store.read());
    assert_eq!(
        again.iter().map(|n| n.name.as_str()).collect::<Vec<&str>>(),
        vec!["Alice", "Bob", "Acme", "Engine"]
    );
    for (a, e) in edges_again.iter().zip(&export.edges) {
        assert_eq!((&a.from, &a.to, &a.edge_type, a.weight), (&e.from, &e.to, &e.edge_type, e.weight));
    }
}

// ── ingestion ────────────────────────────────────────────────────────────────

fn off() -> ResolutionConfig {
    ResolutionConfig { mode: ResolutionMode::Off, threshold: b(0.9), match_type: false }
}

fn by_embedding() -> ResolutionConfig {
    ResolutionConfig { mode: ResolutionMode::Embedding, threshold: b(0.9), match_type: false }
}

fn dissimilar(n: usize) -> Similarities {
    Similarities {
        graph: vec![vec![]; n],
        delta: vec![vec![]; n],
        batch: vec![vec![b(0.0); n]; n],
    }
}

#[test]
fn resolution_is_configured_by_request_and_settings() {
    let defaults = IngestConfig {
        resolution_mode: "embedding".into(),
        resolution_threshold: b(0.92),
        resolution_match_type: false,
    };
    let c = build_resolution_cfg(&defaults, &None);
    assert_eq!((c.mode, c.threshold), (ResolutionMode::Embedding, b(0.92)));
    let request = Some(ResolutionOverride {
        mode: Some("none".into()),
        threshold: None,
        match_type: Some(true),
    });
    let c = build_resolution_cfg(&defaults, &request);
    assert_eq!((c.mode, c.match_type), (ResolutionMode::Off, true));
}

#[test]
fn texts_to_embed_are_the_shortest_given() {
    let full = json(r#"{"embed_context":" e ","full_context":"f","name":"n","type":"t"}"#);
    assert_eq!(node_embed_text(&full), "e");
    let long = json(r#"{"embed_context":"  ","full_context":"f","name":"n"}"#);
    assert_eq!(node_embed_text(&long), "f");
    assert_eq!(node_embed_text(&json(r#"{"name":"n"}"#)), "n");
    assert_eq!(edge_embed_text(&json(r#"{"type":"t"}"#)), "t");
    assert_eq!(entity_texts(&vec![full.clone(), long]), vec!["e", "f"]);
    assert_eq!(relation_texts(&vec![full]), vec!["e"]);
    assert_eq!(count_named(&list(r#"[{"name":"a"},{"name":7},{}]"#)), 1);
}

#[test]
fn vectors_are_merged_by_kind_of_node() {
    let mut photo = node(1, "p", "Image");
    photo.image_url = Some("u".into());
    let nodes = vec![node(0, "a", "T"), photo, node(2, "c", "T")];
    let merged = merge_vectors(&nodes, &vec![vec![1], vec![2]], &vec![vec![9]]);
    assert_eq!(merged, vec![vec![1], vec![9], vec![2]]);
}

#[test]
fn drafts_are_made_of_extracted_entities() {
    let drafts = draft_text_nodes(&list(
        r#"[{"name":"Eve","type":"Person","full_context":"spy","props":{"x":true}}]"#,
    ));
    assert_eq!(drafts[0].name, "Eve");
    assert_eq!(drafts[0].node_type, "Person");
    assert_eq!(drafts[0].full_context, "spy");
    assert_eq!(drafts[0].props["x"].as_bool(), Some(true));
    assert_eq!(drafts[0].external_id, "Person:Eve");
    let mut photo = node(0, "p", "Image");
    photo.image_url = Some("data:x".into());
    let stored = draft_json_nodes(&vec![photo], &Some(vec!["s3://k".to_string()]));
    assert_eq!(stored[0].image_url.as_deref(), Some("s3://k"));
}

#[test]
fn entities_are_placed_once() {
    let mut store = DeltaStore::new(None, 100);
    store.init_node_ids(4);
    let drafts = vec![node(0, "Alice", "Person"), node(0, "Eve", "Person"), node(0, "Eve2", "Person")];
    let vecs = vec![vec![1], vec![2], vec![3]];
    let similar = Similarities {
        graph: vec![vec![(0, b(0.99))], vec![], vec![]],
        delta: vec![vec![], vec![], vec![]],
        batch: vec![vec![b(0.0); 3], vec![b(0.0); 3], vec![b(0.0), b(0.95), b(0.0)]],
    };
    let placed = place_entities(&drafts, &vecs, &similar, &graph(), &mut store, by_embedding());
    let placed = placed.ok().unwrap();
    assert_eq!(placed.ids, vec![0, 4, 4]);
    assert_eq!(placed.resolved, 2);
    assert_eq!(placed.to_add.len(), 1);
    assert_eq!((placed.to_add[0].0.id, placed.to_add[0].1.clone()), (4, vec![2]));
    let all_new = place_entities(&drafts, &vecs, &similar, &graph(), &mut store, off()).ok().unwrap();
    assert_eq!(all_new.ids, vec![5, 6, 7]);
}

#[test]
fn extracted_text_becomes_nodes_and_edges() {
    let g = graph();
    let mut store = DeltaStore::new(None, 3);
    store.init_node_ids(4);
    let extracted = ExtractResponse {
        entities: list(
            r#"[{"id":"n1","name":"NewNode","type":"Concept","props":{}},
                {"id":"n2","name":"OtherNode","type":"Concept","props":{}}]"#,
        ),
        relations: list(r#"[{"from":"n1","to":"n2","type":"related_to","weight":1.0},
                            {"from":"n1","to":"zz","type":"related_to"}]"#),
    };
    let vecs = vec![vec![b(1.0)], vec![b(0.0)]];
    let rel = vec![vec![b(0.5)], vec![b(0.25)]];
    let r = ingest_text(&extracted, &vecs, &rel, &dissimilar(2), &g, &mut store, off());
    let r = r.ok().unwrap();
    assert_eq!((r.ingested, r.new_nodes, r.resolved, r.delta_size), (2, 2, 0, 3));
    assert!(r.merge_triggered);
    let d = store.read();
    assert_eq!((d.new_edges[0].from, d.new_edges[0].to), (4, 5));
    assert_eq!(d.new_edges[0].edge_type, "related_to");
    assert_eq!(d.new_edge_vecs[0], rel[0]);
    assert_eq!(d.new_vecs[0], vecs[0]);
}

#[test]
fn nothing_extracted_changes_nothing() {
    let mut store = DeltaStore::new(None, 3);
    let none = ExtractResponse { entities: vec![], relations: vec![] };
    let r = ingest_text(&none, &vec![], &vec![], &dissimilar(0), &graph(), &mut store, off());
    let r = r.ok().unwrap();
    assert_eq!((r.ingested, r.delta_size), (0, 0));
    assert_eq!(r.message.as_deref(), Some("no entities found"));
    assert_eq!(nothing_ingested(4, "m").delta_size, 4);
}

#[test]
fn given_entities_become_nodes_and_edges() {
    let g = graph();
    let mut store = DeltaStore::new(None, 100);
    store.init_node_ids(4);
    let entities = list(r#"[{"id":"x","name":"Xeno","type":"Person"},{"id":"a","name":"Alice","type":"Person"}]"#);
    let relations = list(r#"[{"from":"x","to":"a","type":"knows","weight":0.5}]"#);
    let nodes = read_entities(&entities);
    let similar = Similarities {
        graph: vec![vec![], vec![(0, b(0.97))]],
        delta: vec![vec![], vec![]],
        batch: vec![vec![b(0.0); 2]; 2],
    };
    let vecs = vec![vec![7], vec![8]];
    let r = ingest_json(
        &nodes,
        &None,
        &entities,
        &relations,
        &vecs,
        &vec![vec![9]],
        &similar,
        &g,
        &mut store,
        by_embedding(),
    );
    let r = r.ok().unwrap();
    assert_eq!((r.ingested, r.new_nodes, r.resolved, r.delta_size), (2, 1, 1, 2));
    assert!(!r.merge_triggered);
    let d = store.read();
    assert_eq!((d.new_edges[0].from, d.new_edges[0].to, d.new_edges[0].weight), (4, 0, b(0.5)));
}

#[test]
fn used_up_ids_fail_the_ingestion() {
    let mut store = DeltaStore::new(None, 100);
    store.init_node_ids(0xff_ffff);
    let extracted = ExtractResponse { entities: list(r#"[{"name":"A"}]"#), relations: vec![] };
    let r = ingest_text(
        &extracted,
        &vec![vec![1]],
        &vec![],
        &dissimilar(1),
        &graph(),
        &mut store,
        off(),
    );
    assert_eq!(r.err().unwrap().reply().status, 500);
    assert_eq!(store.size(), 0);
}

#[test]
fn ingestions_are_recorded() {
    let mut m = Metrics::new();
    let response = IngestResponse {
        ingested: 3,
        new_nodes: 2,
        resolved: 1,
        delta_size: 9,
        merge_triggered: false,
        message: None,
    };
    record_ingest(&mut m, 120, &response);
    assert_eq!((m.delta_size.get(), m.nodes_ingested_total.get()), (9, 2));
    assert_eq!(m.ingest_latency.sum, 120);
}

// ── what the LLM is shown ────────────────────────────────────────────────────

#[test]
fn context_is_shown_by_name() {
    let g = from_json_payload(&json(
        r#"{"entities":[{"id":"a","name":"A","type":"T","props":{"k":2}},{"id":"b","name":"B","type":"T"}],
            "relations":[{"from":"a","to":"b","type":"r","weight":0.5}]}"#,
    ))
    .unwrap_or_else(|e| panic!("{}", e.message()));
    let shown = build_context(&g.nodes);
    assert_eq!((shown[0].name.as_str(), shown[0].props["k"].as_u64()), ("A", Some(2)));
    let edges = build_edges(&g.nodes, &vec![(0, 1, b(0.5), "r".into()), (0, 9, b(0.5), "r".into())]);
    assert_eq!(edges.len(), 1);
    assert_eq!((edges[0].from_node.as_str(), edges[0].to_node.as_str()), ("A", "B"));
}

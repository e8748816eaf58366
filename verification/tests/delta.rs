//! The delta: batches, the write-ahead log, ids and merging.

use ai_graph_engine::delta::{DeltaGraph, DeltaStore, MergeRefusal, ReplayEntry};
use ai_graph_engine::graph::builder::from_json_payload;
use ai_graph_engine::graph::csr::{CsrGraph, EdgeInfo, NodeInfo};
use ai_graph_engine::wal::{read_log, wal_line, wal_lines, wal_payloads, WalEntry};
use serde_json::Value;

fn make_node(id: u32, name: &str) -> NodeInfo {
    NodeInfo {
        id,
        name: name.into(),
        node_type: "Person".into(),
        weight: 0,
        props: Value::Null,
        full_context: String::new(),
        embed_context: None,
        external_id: format!("Person:{name}"),
        image_url: None,
    }
}

fn image_node(id: u32, name: &str, url: &str) -> NodeInfo {
    let mut n = make_node(id, name);
    n.node_type = "Image".into();
    n.image_url = Some(url.into());
    n
}

fn make_edge(from: u32, to: u32) -> EdgeInfo {
    EdgeInfo {
        from,
        to,
        edge_type: "knows".into(),
        weight: 1.0f32.to_bits(),
        full_context: String::new(),
        embed_context: None,
        edge_id: 0,
    }
}

fn bits(v: &[f32]) -> Vec<u32> {
    v.iter().map(|x| x.to_bits()).collect()
}

/// The unit vector along one axis.
fn unit_vec(hot: usize) -> Vec<u32> {
    let mut v = vec![0.0f32; 8];
    v[hot % 8] = 1.0;
    bits(&v)
}

fn new_store() -> DeltaStore {
    DeltaStore::new(None, 10_000)
}

// ── the log of a store ───────────────────────────────────────────────────────

fn vec_value(vec: &[u32]) -> Value {
    Value::Array(vec.iter().map(|b| Value::from(f32::from_bits(*b) as f64)).collect())
}

fn entry(op: &str, field: &str, item: Value, vec: &[u32]) -> String {
    let mut m = serde_json::Map::new();
    m.insert("op".into(), Value::from(op));
    m.insert(field.into(), item);
    m.insert("vec".into(), vec_value(vec));
    Value::Object(m).to_string()
}

fn node_value(n: &NodeInfo) -> Value {
    let mut m = serde_json::Map::new();
    m.insert("id".into(), Value::from(n.id));
    m.insert("name".into(), Value::from(n.name.clone()));
    m.insert("node_type".into(), Value::from(n.node_type.clone()));
    if let Some(url) = &n.image_url {
        m.insert("image_url".into(), Value::from(url.clone()));
    }
    Value::Object(m)
}

fn node_of(v: &Value) -> Option<NodeInfo> {
    let mut n = make_node(v["id"].as_u64()? as u32, v["name"].as_str()?);
    n.node_type = v["node_type"].as_str()?.into();
    n.image_url = v["image_url"].as_str().map(|s| s.to_string());
    Some(n)
}

fn edge_value(e: &EdgeInfo) -> Value {
    let mut m = serde_json::Map::new();
    m.insert("from".into(), Value::from(e.from));
    m.insert("to".into(), Value::from(e.to));
    Value::Object(m)
}

fn edge_of(v: &Value) -> Option<EdgeInfo> {
    Some(make_edge(v["from"].as_u64()? as u32, v["to"].as_u64()? as u32))
}

fn log_of(nodes: &[(NodeInfo, Vec<u32>)], edges: &[(EdgeInfo, Vec<u32>)]) -> String {
    let mut payloads: Vec<String> = Vec::new();
    for (n, v) in nodes {
        payloads.push(entry("add_node", "node", node_value(n), v));
    }
    for (e, v) in edges {
        payloads.push(entry("add_edge", "edge", edge_value(e), v));
    }
    wal_lines(&payloads)
}

fn replay(store: &mut DeltaStore, log: &str) -> usize {
    let entries = read_log(log.as_bytes())
        .into_iter()
        .map(|e| match e {
            WalEntry::AddNode { node, vec } => ReplayEntry::AddNode { node: node_of(&node), vec },
            WalEntry::AddEdge { edge, vec } => ReplayEntry::AddEdge { edge: edge_of(&edge), vec },
        })
        .collect();
    store.inner.replay(entries)
}

// ── add_nodes_batch ──────────────────────────────────────────────────────────

#[test]
fn add_nodes_batch_commits_correct_count() {
    let mut store = new_store();
    let batch: Vec<(NodeInfo, Vec<u32>)> =
        (0..5).map(|i| (make_node(i, &format!("node{i}")), unit_vec(i as usize))).collect();
    store.add_nodes_batch(batch);
    assert_eq!(store.size(), 5);
}

#[test]
fn add_nodes_batch_same_state_as_sequential() {
    let mut store_batch = new_store();
    let mut store_seq = new_store();
    let items: Vec<(NodeInfo, Vec<u32>)> =
        (0..4).map(|i| (make_node(i, &format!("n{i}")), unit_vec(i as usize))).collect();

    store_batch.add_nodes_batch(items.clone());
    for (node, vec) in items {
        store_seq.add_node(node, vec);
    }

    assert_eq!(store_batch.size(), store_seq.size());
    let snap_batch = store_batch.read();
    let snap_seq = store_seq.read();
    assert_eq!(snap_batch.new_nodes.len(), snap_seq.new_nodes.len());
    for i in 0..snap_batch.new_nodes.len() {
        assert_eq!(snap_batch.new_nodes[i].id, snap_seq.new_nodes[i].id);
        assert_eq!(snap_batch.new_nodes[i].name, snap_seq.new_nodes[i].name);
    }
}

#[test]
fn add_nodes_batch_empty_is_noop() {
    let mut store = new_store();
    store.add_nodes_batch(vec![]);
    assert_eq!(store.size(), 0);
    assert_eq!(log_of(&[], &[]).trim(), "");
}

#[test]
fn add_nodes_batch_wal_replays_all_entries() {
    let mut store = new_store();
    let batch: Vec<(NodeInfo, Vec<u32>)> =
        (0..6).map(|i| (make_node(i, &format!("name{i}")), unit_vec(i as usize))).collect();
    let log = log_of(&batch, &[]);
    store.add_nodes_batch(batch);
    assert_eq!(store.size(), 6);

    drop(store);

    let mut store2 = new_store();
    let replayed = replay(&mut store2, &log);
    assert_eq!(replayed, 6);
    assert_eq!(store2.size(), 6);
}

// ── add_edges_batch ──────────────────────────────────────────────────────────

#[test]
fn add_edges_batch_commits_correct_count() {
    let mut store = new_store();
    let nodes: Vec<(NodeInfo, Vec<u32>)> =
        (0..4).map(|i| (make_node(i, &format!("n{i}")), unit_vec(i as usize))).collect();
    store.add_nodes_batch(nodes);

    let edges: Vec<(EdgeInfo, Vec<u32>)> = vec![
        (make_edge(0, 1), unit_vec(4)),
        (make_edge(1, 2), unit_vec(5)),
        (make_edge(2, 3), unit_vec(6)),
    ];
    store.add_edges_batch(edges);
    assert_eq!(store.size(), 4 + 3);
}

#[test]
fn add_edges_batch_same_state_as_sequential() {
    let mut store_batch = new_store();
    let mut store_seq = new_store();
    let edges: Vec<(EdgeInfo, Vec<u32>)> = vec![
        (make_edge(0, 1), unit_vec(0)),
        (make_edge(1, 2), unit_vec(1)),
        (make_edge(3, 0), unit_vec(2)),
    ];

    store_batch.add_edges_batch(edges.clone());
    for (edge, vec) in edges {
        store_seq.add_edge(edge, vec);
    }

    let snap_b = store_batch.read();
    let snap_s = store_seq.read();
    assert_eq!(snap_b.new_edges.len(), snap_s.new_edges.len());
    for i in 0..snap_b.new_edges.len() {
        assert_eq!(snap_b.new_edges[i].from, snap_s.new_edges[i].from);
        assert_eq!(snap_b.new_edges[i].to, snap_s.new_edges[i].to);
    }
}

#[test]
fn add_edges_batch_wal_replays_all_entries() {
    let mut store = new_store();
    let edges: Vec<(EdgeInfo, Vec<u32>)> =
        (0..4_u32).map(|i| (make_edge(i, i + 1), unit_vec(i as usize))).collect();
    let log = log_of(&[], &edges);
    store.add_edges_batch(edges);
    assert_eq!(store.size(), 4);

    drop(store);

    let mut store2 = new_store();
    let replayed = replay(&mut store2, &log);
    assert_eq!(replayed, 4);
    assert_eq!(store2.size(), 4);
}

#[test]
fn mixed_batch_nodes_and_edges_wal_replays_correctly() {
    let mut store = new_store();
    let nodes: Vec<(NodeInfo, Vec<u32>)> =
        (0..3).map(|i| (make_node(i, &format!("x{i}")), unit_vec(i as usize))).collect();
    let edges: Vec<(EdgeInfo, Vec<u32>)> =
        vec![(make_edge(0, 1), unit_vec(3)), (make_edge(1, 2), unit_vec(4))];
    let log = log_of(&nodes, &edges);

    store.add_nodes_batch(nodes);
    store.add_edges_batch(edges);
    assert_eq!(store.size(), 5);

    drop(store);

    let mut store2 = new_store();
    let replayed = replay(&mut store2, &log);
    assert_eq!(replayed, 5);
    assert_eq!(store2.size(), 5);
    let snap = store2.read();
    assert_eq!(snap.new_nodes.len(), 3);
    assert_eq!(snap.new_edges.len(), 2);
}

// ── the store ────────────────────────────────────────────────────────────────

#[test]
fn starts_empty() {
    let d = DeltaStore::new(None, 100);
    assert_eq!(d.size(), 0);
    assert!(!d.needs_merge());
}

#[test]
fn add_node_increments_size() {
    let mut d = DeltaStore::new(None, 100);
    d.add_node(make_node(10, "A"), unit_vec(0));
    assert_eq!(d.size(), 1);
}

#[test]
fn add_edge_increments_size() {
    let mut d = DeltaStore::new(None, 100);
    d.add_edge(make_edge(0, 1), vec![]);
    assert_eq!(d.size(), 1);
}

#[test]
fn needs_merge_at_threshold() {
    let mut d = DeltaStore::new(None, 3);
    d.add_node(make_node(10, "A"), unit_vec(0));
    d.add_node(make_node(11, "B"), unit_vec(1));
    assert!(!d.needs_merge());
    d.add_node(make_node(12, "C"), unit_vec(2));
    assert!(d.needs_merge());
}

#[test]
fn delta_neighbors_returned() {
    let mut d = DeltaStore::new(None, 100);
    d.add_edge(make_edge(5, 9), vec![]);
    d.add_edge(make_edge(5, 7), vec![]);
    let nb = d.read().neighbors(5).to_vec();
    assert_eq!(nb.len(), 2);
    assert!(nb.iter().any(|(to, _)| *to == 9));
    assert!(nb.iter().any(|(to, _)| *to == 7));
    assert!(d.read().neighbors(6).is_empty());
}

#[test]
fn delta_finds_its_nodes_by_id() {
    let mut d = DeltaGraph::default();
    assert!(d.is_empty());
    d.add_node(make_node(40, "A"), unit_vec(0));
    assert!(!d.is_empty());
    assert_eq!(d.nodes_len(), 1);
    assert_eq!(d.edges_len(), 0);
    assert_eq!(d.get_node(40).unwrap().name, "A");
    assert!(d.get_node(41).is_none());
}

// ── the log ──────────────────────────────────────────────────────────────────

#[test]
fn wal_replay_restores_nodes_after_crash() {
    let log = log_of(
        &[
            (make_node(10, "Recovered_A"), unit_vec(0)),
            (make_node(11, "Recovered_B"), unit_vec(1)),
        ],
        &[],
    );
    let mut d2 = DeltaStore::new(None, 100);
    let replayed = replay(&mut d2, &log);
    assert_eq!(replayed, 2, "should replay 2 entries");
    assert_eq!(d2.size(), 2, "delta should have 2 nodes after replay");
    assert_eq!(d2.read().new_nodes[1].name, "Recovered_B");
    assert_eq!(d2.read().new_vecs[1], unit_vec(1));
}

#[test]
fn wal_replay_restores_edges() {
    let log = log_of(&[], &[(make_edge(0, 1), vec![]), (make_edge(1, 2), vec![])]);
    let mut d2 = DeltaStore::new(None, 100);
    let replayed = replay(&mut d2, &log);
    assert_eq!(replayed, 2);
    assert_eq!(d2.size(), 2);
}

#[test]
fn wal_replay_on_empty_file_returns_zero() {
    let mut d = DeltaStore::new(None, 100);
    assert_eq!(replay(&mut d, ""), 0);
}

#[test]
fn wal_line_is_checksum_and_payload() {
    // FNV-1a, 32 bit: the reference value of "foobar".
    assert_eq!(ai_graph_engine::wal::fnv1a32(b"foobar"), 0xbf9c_f968);
    assert_eq!(ai_graph_engine::wal::fnv1a32(b""), 0x811c_9dc5);
    assert_eq!(wal_line("foobar"), "bf9cf968|foobar\n");
}

#[test]
fn damaged_and_malformed_lines_are_skipped() {
    let good = wal_line(&entry("add_edge", "edge", edge_value(&make_edge(1, 2)), &[]));
    let damaged = good.replace("\"to\":2", "\"to\":3");
    let mut d = DeltaStore::new(None, 100);
    let log = format!("{damaged}not json\n\n{good}{{\"op\":\"other\"}}\n");
    assert_eq!(replay(&mut d, &log), 1);
    assert_eq!(d.read().new_edges[0].to, 2);
}

#[test]
fn lines_without_checksum_are_read() {
    let old = entry("add_edge", "edge", edge_value(&make_edge(4, 5)), &[]);
    assert_eq!(wal_payloads(format!("{old}\n").as_bytes()), vec![old]);
}

#[test]
fn lines_that_are_not_text_are_skipped() {
    let good = wal_line("{\"name\":\"Zoë\"}");
    let mut log = good.clone().into_bytes();
    log.extend_from_slice(b"{\"name\":\"Zo\xff\"}\n");
    log.extend_from_slice(good.as_bytes());
    assert_eq!(wal_payloads(&log), vec!["{\"name\":\"Zoë\"}"; 2]);
}

#[test]
fn replay_restores_lists_and_entries() {
    let nodes = vec![(make_node(3, "C"), unit_vec(3)), (make_node(4, "D"), unit_vec(4))];
    let edges = vec![(make_edge(3, 4), unit_vec(1)), (make_edge(9, 3), vec![])];
    let mut lost = new_store();
    lost.add_nodes_batch(nodes.clone());
    for (e, v) in edges.clone() {
        lost.add_edge(e, v);
    }
    let mut restored = new_store();
    assert_eq!(replay(&mut restored, &log_of(&nodes, &edges)), lost.size());
    assert_eq!(restored.read().adj, lost.read().adj);
    let mut keys: Vec<u32> = lost.read().adj.keys().copied().collect();
    keys.sort();
    assert_eq!(keys, vec![3, 4, 9]);
    assert_eq!(restored.read().new_vecs, lost.read().new_vecs);
    assert_eq!(restored.read().new_edge_vecs, lost.read().new_edge_vecs);
}

#[test]
fn batches_leave_the_same_lists_as_single_additions() {
    let nodes: Vec<(NodeInfo, Vec<u32>)> = (5..8).map(|i| (make_node(i, "n"), vec![])).collect();
    let edges: Vec<(EdgeInfo, Vec<u32>)> = (5..8).map(|i| (make_edge(i, 5), vec![])).collect();
    let (mut batch, mut single) = (new_store(), new_store());
    batch.add_nodes_batch(nodes.clone());
    batch.add_edges_batch(edges.clone());
    nodes.into_iter().for_each(|(n, v)| single.add_node(n, v));
    edges.into_iter().for_each(|(e, v)| single.add_edge(e, v));
    assert_eq!(batch.read().adj, single.read().adj);
    assert_eq!(wal_lines(&vec![]), "");
    let (a, b) = ("{\"a\":1}".to_string(), "{\"b\":2}".to_string());
    assert_eq!(wal_lines(&vec![a.clone(), b.clone()]), wal_line(&a) + &wal_line(&b));
}

#[test]
fn node_entry_needs_a_vector_and_edge_entry_does_not() {
    let log = "{\"op\":\"add_node\",\"node\":{\"id\":1,\"name\":\"a\",\"node_type\":\"T\"}}\n\
               {\"op\":\"add_edge\",\"edge\":{\"from\":1,\"to\":2}}\n";
    let mut d = DeltaStore::new(None, 100);
    assert_eq!(replay(&mut d, log), 1);
    assert_eq!(d.read().edges_len(), 1);
    assert!(d.read().new_edge_vecs[0].is_empty());
}

#[test]
fn vector_components_are_read_as_single_precision() {
    let log = "{\"op\":\"add_edge\",\"edge\":{\"from\":1,\"to\":2},\"vec\":[0.1,\"x\",-2,1e300,1e-50]}\n";
    let mut d = DeltaStore::new(None, 100);
    assert_eq!(replay(&mut d, log), 1);
    let expected = bits(&[0.1f64 as f32, -2.0, 1e300f64 as f32, 1e-50f64 as f32]);
    assert_eq!(d.read().new_edge_vecs[0], expected);
}

// ── node ids ─────────────────────────────────────────────────────────────────

#[test]
fn ids_lie_in_the_range_of_the_instance() {
    let mut d = DeltaStore::new(Some("3"), 100);
    assert_eq!(d.alloc_node_id().ok(), Some(3 << 24));
    assert_eq!(d.alloc_node_id().ok(), Some((3 << 24) + 1));
    assert_eq!(DeltaStore::new(Some("256"), 100).instance_id, 0);
    assert_eq!(DeltaStore::new(Some("x"), 100).instance_id, 0);
}

#[test]
fn used_up_ids_are_an_error() {
    let mut d = DeltaStore::new(None, 100);
    d.init_node_ids(0xff_fffe);
    assert_eq!(d.alloc_node_id().ok(), Some(0xff_fffe));
    let e = d.alloc_node_id().err().unwrap();
    assert_eq!(e.message(), "node ID space exhausted for instance 0 (limit: 16777215)");
}

#[test]
fn ids_start_past_graph_and_log() {
    let mut d = DeltaStore::new(None, 100);
    d.add_node(make_node(10, "A"), unit_vec(0));
    assert_eq!(d.first_free_id(10), 11);
    d.add_node(make_node(15, "B"), unit_vec(1));
    assert_eq!(d.first_free_id(10), 16);

    let mut other = DeltaStore::new(Some("1"), 100);
    other.add_node(make_node(1 << 24, "A"), unit_vec(0));
    let start = other.first_free_id(10);
    assert_eq!(start, (1 << 24) + 1);
    other.init_node_ids(start);
    assert_eq!(other.alloc_node_id().ok(), Some((1 << 24) + 1));
}

#[test]
fn edge_ids_count_up_from_one() {
    let mut d = new_store();
    assert_eq!(d.alloc_edge_id(), 1);
    assert_eq!(d.alloc_edge_id(), 2);
}

// ── merging ──────────────────────────────────────────────────────────────────

fn base_graph() -> CsrGraph {
    let payload: Value = serde_json::from_str(
        r#"{
        "entities": [
            {"id":"a","name":"A","type":"X","props":{}},
            {"id":"b","name":"B","type":"X","props":{}}
        ],
        "relations": [{"from":"a","to":"b","type":"r","weight":1.0}]
    }"#,
    )
    .unwrap();
    from_json_payload(&payload).unwrap_or_else(|e| panic!("{}", e.message()))
}

fn base_vecs() -> Vec<Vec<u32>> {
    (0..2).map(unit_vec).collect()
}

#[test]
fn merge_produces_larger_graph() {
    let base = base_graph();
    let mut d = DeltaStore::new(None, 100);
    d.add_node(make_node(2, "C"), unit_vec(2));
    d.add_node(make_node(3, "D"), unit_vec(3));
    d.add_edge(make_edge(2, 3), vec![]);

    assert!(d.inner.has_known_endpoints(base.num_nodes()));
    let merged = d.merge_into(&base, base_vecs(), vec![], vec![]);
    assert_eq!(merged.graph.num_nodes(), 4);
    assert_eq!(merged.node_vecs.len(), 4);
    assert!(merged.graph.num_edges() >= 2);
    assert_eq!(merged.graph.num_edges(), 2);
    assert_eq!(merged.graph.neighbors(2), &[3]);
    assert_eq!(d.size(), 0, "delta should be empty after merge");
}

#[test]
fn merge_numbers_the_nodes_of_other_instances_anew() {
    let base = base_graph();
    let mut d = DeltaStore::new(Some("7"), 100);
    let id = d.alloc_node_id().ok().unwrap();
    d.add_node(make_node(id, "C"), unit_vec(2));
    d.add_edge(make_edge(id, 0), unit_vec(4));
    d.add_edge(make_edge(1, id), vec![]);
    assert!(d.inner.has_known_endpoints(base.num_nodes()));
    let merged = d.merge_into(&base, base_vecs(), vec![], vec![]);
    assert_eq!(merged.graph.nodes[2].id, 2);
    assert_eq!(merged.graph.neighbors(2), &[0]);
    assert_eq!(merged.graph.neighbors(1), &[2]);
    assert_eq!(merged.graph.neighbor_weights(2), &[1.0f32.to_bits()]);
    assert_eq!(merged.edge_vecs, vec![unit_vec(4), vec![]]);
    assert_eq!(merged.edge_endpoints, vec![(2, 0), (1, 2)]);
    assert_eq!(merged.node_vecs[2], unit_vec(2));
}

#[test]
fn unknown_endpoints_are_seen_before_a_merge() {
    let mut d = DeltaStore::new(None, 100);
    d.add_edge(make_edge(0, 9), vec![]);
    assert!(!d.inner.has_known_endpoints(2));
    assert!(d.inner.has_known_endpoints(10));
}

#[test]
fn merged_view_leaves_the_delta_as_it_is() {
    let base = base_graph();
    let mut d = DeltaStore::new(None, 100);
    d.add_node(make_node(2, "C"), unit_vec(2));
    d.add_edge(make_edge(1, 2), vec![]);
    let (view, _) = d.read().merged_graph(&base);
    assert_eq!(view.num_nodes(), 3);
    assert_eq!(view.neighbors(1), &[2]);
    assert_eq!(d.size(), 2);
}

#[test]
fn overlay_is_the_merged_graph_where_there_is_one() {
    let base = base_graph();
    let mut d = DeltaStore::new(None, 100);
    assert!(d.read().overlay(&base).is_none());
    d.add_node(make_node(2, "C"), unit_vec(2));
    d.add_edge(make_edge(1, 2), vec![]);
    let view = d.read().overlay(&base).unwrap();
    assert_eq!(view.neighbors(1), &[2]);
    d.add_edge(make_edge(0, 77), vec![]);
    assert!(d.read().overlay(&base).is_none());
}

#[test]
fn merges_are_checked_beforehand() {
    let base = base_graph();
    let vecs = base_vecs();
    let mut d = DeltaStore::new(None, 100);
    assert!(d.check_merge(&base, &vecs).is_ok());
    d.add_node(make_node(2, "C"), unit_vec(2));
    assert!(d.check_merge(&base, &vecs).is_ok());
    d.add_node(make_node(3, "D"), vec![]);
    let refusal = d.check_merge(&base, &vecs).unwrap_err();
    let dim = vecs[0].len();
    assert!(matches!(refusal, MergeRefusal::WrongDimension { dim: d } if d == dim));
    assert_eq!(
        refusal.message(),
        format!("new nodes without a vector of dimension {dim} cannot be merged")
    );
    d.add_edge(make_edge(0, 77), vec![]);
    let refusal = d.check_merge(&base, &vecs).unwrap_err();
    assert_eq!(refusal.message(), "a new edge names an unknown node");
    assert_eq!(MergeRefusal::TooLarge.message(), "the merged graph would be too large");
}

#[test]
fn room_ends_with_the_edge_ids() {
    let mut d = new_store();
    assert!(d.has_room(1000, 1000));
    assert!(!d.has_room(usize::MAX, 1));
    d.next_edge_id = u64::MAX - 5;
    assert!(d.has_room(10, 5));
    assert!(!d.has_room(10, 6));
}

#[test]
fn external_ids_lead_to_places_after_a_merge() {
    let base = base_graph();
    let known = base.nodes[1].external_id.clone();
    let mut d = DeltaStore::new(Some("1"), 100);
    d.add_node(make_node(16_777_216, "C"), unit_vec(2));
    let merged = d.merge_into(&base, base_vecs(), vec![], vec![]);
    assert!(known.is_empty() || merged.graph.get_by_external_id(&known) == Some(1));
    assert_eq!(merged.graph.get_by_external_id("Person:C"), Some(base.num_nodes() as u32));
    let own = CsrGraph::build(vec![make_node(7, "x")], &[]);
    assert_eq!(own.get_by_external_id("Person:x"), Some(0));
    assert_eq!(own.get_by_external_id(""), None);
}

#[test]
fn delta_store_ingest_and_merge_flow() {
    let payload: Value = serde_json::from_str(
        r#"{
        "entities": [
            {"id":"e1","name":"Alice","type":"Person","props":{}},
            {"id":"e2","name":"Bob",  "type":"Person","props":{}}
        ],
        "relations": [{"from":"e1","to":"e2","type":"knows","weight":1.0}]
    }"#,
    )
    .unwrap();
    let base = from_json_payload(&payload).unwrap_or_else(|e| panic!("{}", e.message()));

    let mut delta = DeltaStore::new(None, 10);
    assert_eq!(delta.size(), 0);
    delta.add_node(make_node(2, "NewNode"), unit_vec(2));
    assert_eq!(delta.size(), 1);
    assert!(!delta.needs_merge()); // threshold = 10

    let merged = delta.merge_into(&base, base_vecs(), vec![], vec![]);
    assert_eq!(merged.graph.num_nodes(), 3);
    assert_eq!(merged.node_vecs.len(), 3);
    assert_eq!(delta.size(), 0); // drained after merge
}

// ── image nodes ──────────────────────────────────────────────────────────────

#[test]
fn delta_wal_roundtrip_preserves_image_url() {
    let mut delta = DeltaStore::new(None, 100);
    let id = delta.alloc_node_id().ok().unwrap();
    let vec = bits(&[0.1f32; 8]);
    let n = image_node(id, "photo_01", "https://example.com/img.jpg");
    let log = log_of(&[(n.clone(), vec.clone())], &[]);
    delta.add_node(n, vec);

    assert_eq!(delta.size(), 1);
    assert_eq!(
        delta.read().new_nodes[0].image_url.as_deref(),
        Some("https://example.com/img.jpg")
    );

    let mut delta2 = DeltaStore::new(None, 100);
    replay(&mut delta2, &log);
    assert_eq!(delta2.size(), 1);
    assert_eq!(
        delta2.read().new_nodes[0].image_url.as_deref(),
        Some("https://example.com/img.jpg")
    );
}

#[test]
fn merge_preserves_image_url() {
    let mut alice = make_node(0, "Alice");
    alice.node_type = "Entity".into();
    let base = CsrGraph::build(vec![alice], &[]);
    let mut delta = DeltaStore::new(None, 100);
    let id = delta.alloc_node_id().ok().unwrap();
    delta.add_node(
        image_node(id, "photo_01", "https://example.com/img.jpg"),
        bits(&[0.1f32; 8]),
    );

    let merged = delta.merge_into(&base, vec![bits(&[0.1f32; 8])], vec![], vec![]);
    assert_eq!(merged.graph.num_nodes(), 2);
    assert_eq!(merged.node_vecs.len(), 2);

    let img = merged.graph.nodes.iter().find(|n| n.node_type == "Image").unwrap();
    assert_eq!(img.image_url.as_deref(), Some("https://example.com/img.jpg"));
    let txt = merged.graph.nodes.iter().find(|n| n.name == "Alice").unwrap();
    assert!(txt.image_url.is_none());
}

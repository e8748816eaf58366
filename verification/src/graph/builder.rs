//! Building graphs from JSON payloads and from snapshot files.

use crate::float::{narrow, narrow_f64, F32_ONE};
use crate::graph::csr::{
    degree, edge_ids, edge_types, edge_views, embed_contexts, endpoints_in_range, enters,
    full_contexts, importance, leaves, lemma_flat_edges, lemma_graph_size, lemma_listed_filter,
    lemma_out_edges_range, listed_edges, max_degree, node_views, opt_text, targets, weights,
    with_weight, CsrGraph, EdgeInfo, EdgeView, NodeInfo, NodeView,
};
use crate::json::{
    as_items, as_number, as_text, file_numbers, file_opt_texts, file_texts, items_of, json_parse,
    json_tree, json_trees, member, member_of, number_of, opt_texts, optional_numbers,
    optional_opt_texts, optional_texts, parse_value, text_of, write_numbers, write_opt_texts,
    write_texts, JsonTree,
};
use crate::text::{arg_text, texts, trim, trimmed};
use vstd::bytes::*;
use vstd::hash_map::StringHashMap;
use vstd::prelude::*;
use vstd::slice::slice_subrange;

verus! {

// ── records of a payload ─────────────────────────────────────────────────────

/// The text of member `key`: empty if it is not a string.
pub open spec fn field_text(tree: JsonTree, key: Seq<char>) -> Seq<char> {
    match text_of(member_of(tree, key)) {
        Some(s) => s,
        None => Seq::empty(),
    }
}

/// The text of member `key`, unless it is blank or not a string.
pub open spec fn field_nonblank(tree: JsonTree, key: Seq<char>) -> Option<Seq<char>> {
    match text_of(member_of(tree, key)) {
        Some(s) => if trimmed(s).len() == 0 {
            None
        } else {
            Some(s)
        },
        None => None,
    }
}

/// The node of entity number `i` of a payload.
pub open spec fn entity_node(tree: JsonTree, i: int) -> NodeView {
    let node_type = trimmed(field_text(tree, "type"@));
    NodeView {
        id: i as u32,
        name: trimmed(field_text(tree, "name"@)),
        node_type: if node_type.len() == 0 {
            "Entity"@
        } else {
            node_type
        },
        weight: 0,
        props: member_of(tree, "props"@),
        full_context: field_text(tree, "full_context"@),
        embed_context: field_nonblank(tree, "embed_context"@),
        external_id: field_text(tree, "id"@),
        image_url: field_nonblank(tree, "image_url"@),
    }
}

/// The nodes of the entities of a payload, numbered by place.
pub open spec fn entity_nodes(entities: Seq<JsonTree>) -> Seq<NodeView> {
    Seq::new(entities.len(), |i: int| entity_node(entities[i], i))
}

/// From the id of each entity to its number. Of entities with the same id the last one counts.
pub open spec fn entity_index(entities: Seq<JsonTree>) -> Map<Seq<char>, u32>
    decreases entities.len(),
{
    if entities.len() == 0 {
        Map::empty()
    } else {
        entity_index(entities.drop_last()).insert(
            field_text(entities.last(), "id"@),
            (entities.len() - 1) as u32,
        )
    }
}

/// The weight of a relation in single precision, 1.0 if it has none.
pub open spec fn relation_weight(tree: JsonTree) -> u32 {
    match number_of(member_of(tree, "weight"@)) {
        Some(bits) => narrow_f64(bits) as u32,
        None => F32_ONE,
    }
}

/// The edge that a relation stands for, between the nodes `from` and `to`.
pub open spec fn relation_view(tree: JsonTree, from: u32, to: u32, edge_id: u64) -> EdgeView {
    EdgeView {
        from,
        to,
        edge_type: field_text(tree, "type"@),
        weight: relation_weight(tree),
        full_context: field_text(tree, "full_context"@),
        embed_context: field_nonblank(tree, "embed_context"@),
        edge_id,
    }
}

/// The edge of a relation, if both its ends are in the index.
pub open spec fn relation_edge(index: Map<Seq<char>, u32>, tree: JsonTree) -> Option<EdgeView> {
    let from = field_text(tree, "from"@);
    let to = field_text(tree, "to"@);
    if index.contains_key(from) && index.contains_key(to) {
        Some(relation_view(tree, index[from], index[to], 0))
    } else {
        None
    }
}

/// The edges of the relations whose ends are both in the index.
pub open spec fn relation_edges(index: Map<Seq<char>, u32>, relations: Seq<JsonTree>) -> Seq<
    EdgeView,
> {
    relations.filter_map(|t: JsonTree| relation_edge(index, t))
}

/// Reads the text of member `key`.
pub(crate) fn read_text(v: &serde_json::Value, key: &str) -> (r: String)
    ensures
        r@ == field_text(json_tree(*v), key@),
{
    match as_text(member(v, key)) {
        Some(s) => s.to_owned(),
        None => String::new(),
    }
}

/// Reads the text of member `key`, unless it is blank.
pub(crate) fn read_nonblank(v: &serde_json::Value, key: &str) -> (r: Option<String>)
    ensures
        opt_text(r) == field_nonblank(json_tree(*v), key@),
{
    match as_text(member(v, key)) {
        Some(s) => if trim(s).as_str().is_empty() {
            None
        } else {
            Some(s.to_owned())
        },
        None => None,
    }
}

/// Reads the weight of a relation.
pub(crate) fn read_weight(v: &serde_json::Value) -> (r: u32)
    ensures
        r == relation_weight(json_tree(*v)),
{
    match as_number(member(v, "weight")) {
        Some(bits) => narrow(bits),
        None => F32_ONE,
    }
}

/// Reads the edge that a relation stands for.
pub(crate) fn read_relation(v: &serde_json::Value, from: u32, to: u32, edge_id: u64) -> (r:
    EdgeInfo)
    ensures
        r@ == relation_view(json_tree(*v), from, to, edge_id),
{
    EdgeInfo {
        from,
        to,
        edge_type: read_text(v, "type"),
        weight: read_weight(v),
        full_context: read_text(v, "full_context"),
        embed_context: read_nonblank(v, "embed_context"),
        edge_id,
    }
}

fn read_entity(v: &serde_json::Value, i: u32) -> (r: NodeInfo)
    ensures
        r@ == entity_node(json_tree(*v), i as int),
{
    let node_type = trim(read_text(v, "type").as_str());
    NodeInfo {
        id: i,
        name: trim(read_text(v, "name").as_str()),
        node_type: if node_type.as_str().is_empty() {
            "Entity".to_owned()
        } else {
            node_type
        },
        weight: 0,
        props: member(v, "props").clone(),
        full_context: read_text(v, "full_context"),
        embed_context: read_nonblank(v, "embed_context"),
        external_id: read_text(v, "id"),
        image_url: read_nonblank(v, "image_url"),
    }
}

/// Reads the entities of a payload.
pub fn read_entities(entities: &Vec<serde_json::Value>) -> (r: Vec<NodeInfo>)
    requires
        entities@.len() < u32::MAX,
    ensures
        node_views(r@) == entity_nodes(json_trees(entities@)),
{
    let ghost all = json_trees(entities@);
    let mut r: Vec<NodeInfo> = Vec::new();
    let mut i: usize = 0;
    while i < entities.len()
        invariant
            all == json_trees(entities@),
            i <= entities@.len() < u32::MAX,
            r@.len() == i,
            forall|j: int| 0 <= j < i ==> (#[trigger] r@[j])@ == entity_node(all[j], j),
        decreases entities@.len() - i,
    {
        r.push(read_entity(&entities[i], i as u32));
        i += 1;
    }
    proof {
        assert(node_views(r@) =~= entity_nodes(all));
    }
    r
}

/// Reads the index of the entities of a payload.
fn read_index(entities: &Vec<serde_json::Value>) -> (r: StringHashMap<u32>)
    requires
        entities@.len() < u32::MAX,
    ensures
        r@ == entity_index(json_trees(entities@)),
{
    let ghost all = json_trees(entities@);
    let mut r: StringHashMap<u32> = StringHashMap::new();
    let mut i: usize = 0;
    proof {
        assert(all.take(0) =~= Seq::empty());
    }
    while i < entities.len()
        invariant
            all == json_trees(entities@),
            i <= entities@.len() < u32::MAX,
            r@ == entity_index(all.take(i as int)),
        decreases entities@.len() - i,
    {
        proof {
            assert(all.take(i + 1).drop_last() =~= all.take(i as int));
        }
        r.insert(read_text(&entities[i], "id"), i as u32);
        i += 1;
    }
    proof {
        assert(all.take(i as int) =~= all);
    }
    r
}

/// Reads the relations of a payload whose ends are both in the index.
fn read_relations(relations: &Vec<serde_json::Value>, index: &StringHashMap<u32>) -> (r: Vec<
    EdgeInfo,
>)
    ensures
        edge_views(r@) == relation_edges(index@, json_trees(relations@)),
        r@.len() <= relations@.len(),
{
    let ghost all = json_trees(relations@);
    let ghost map = index@;
    let ghost read = |t: JsonTree| relation_edge(map, t);
    let mut r: Vec<EdgeInfo> = Vec::new();
    let mut i: usize = 0;
    proof {
        assert(edge_views(r@) =~= all.take(0).filter_map(read));
    }
    while i < relations.len()
        invariant
            all == json_trees(relations@),
            map == index@,
            read == (|t: JsonTree| relation_edge(map, t)),
            i <= relations@.len(),
            r@.len() <= i,
            edge_views(r@) == all.take(i as int).filter_map(read),
        decreases relations@.len() - i,
    {
        proof {
            assert(all.take(i + 1).drop_last() =~= all.take(i as int));
            assert(all[i as int] == json_tree(relations@[i as int]));
        }
        let v = &relations[i];
        let from_text = read_text(v, "from");
        let to_text = read_text(v, "to");
        let ghost before = edge_views(r@);
        match (index.get(from_text.as_str()), index.get(to_text.as_str())) {
            (Some(from), Some(to)) => {
                let e = read_relation(v, *from, *to, 0);
                r.push(e);
                proof {
                    assert(edge_views(r@) =~= before + seq![e@]);
                }
            },
            _ => {},
        }
        i += 1;
    }
    proof {
        assert(all.take(i as int) =~= all);
    }
    r
}

// ── payloads ─────────────────────────────────────────────────────────────────

/// Why a payload is not a graph.
#[derive(PartialEq, Eq, Structural)]
pub enum PayloadError {
    /// The text is not JSON.
    NotJson,
    MissingEntities,
    MissingRelations,
    /// More records than there are node ids or edge places.
    TooLarge,
}

impl PayloadError {
    /// The error as text.
    pub open spec fn text(self) -> Seq<char> {
        match self {
            PayloadError::NotJson => "payload is not JSON"@,
            PayloadError::MissingEntities => "missing 'entities' array"@,
            PayloadError::MissingRelations => "missing 'relations' array"@,
            PayloadError::TooLarge => "payload too large"@,
        }
    }

    /// The error as text.
    pub fn message(&self) -> (r: String)
        ensures
            r@ == self.text(),
    {
        match self {
            PayloadError::NotJson => "payload is not JSON".to_owned(),
            PayloadError::MissingEntities => "missing 'entities' array".to_owned(),
            PayloadError::MissingRelations => "missing 'relations' array".to_owned(),
            PayloadError::TooLarge => "payload too large".to_owned(),
        }
    }
}

/// The entities of a payload, if they are an array.
pub open spec fn payload_entities(payload: JsonTree) -> Option<Seq<JsonTree>> {
    items_of(member_of(payload, "entities"@))
}

/// The relations of a payload, if they are an array.
pub open spec fn payload_relations(payload: JsonTree) -> Option<Seq<JsonTree>> {
    items_of(member_of(payload, "relations"@))
}

/// The nodes and edges of a graph are those of the payload.
pub open spec fn is_payload_graph(
    g: &CsrGraph,
    entities: Seq<JsonTree>,
    relations: Seq<JsonTree>,
) -> bool {
    exists|nodes: Seq<NodeInfo>, edges: Seq<EdgeInfo>| #[trigger]
        g.holds(nodes, edges) && node_views(nodes) == entity_nodes(entities) && edge_views(edges)
            == relation_edges(entity_index(entities), relations)
}

proof fn lemma_entity_index_range(entities: Seq<JsonTree>, key: Seq<char>)
    requires
        entities.len() < u32::MAX,
        entity_index(entities).contains_key(key),
    ensures
        entity_index(entities)[key] < entities.len(),
    decreases entities.len(),
{
    if entities.len() > 0 && field_text(entities.last(), "id"@) != key {
        lemma_entity_index_range(entities.drop_last(), key);
    }
}

proof fn lemma_relation_range(
    index: Map<Seq<char>, u32>,
    relations: Seq<JsonTree>,
    n: int,
    k: int,
)
    requires
        forall|key: Seq<char>| index.contains_key(key) ==> #[trigger] index[key] < n,
        0 <= k < relation_edges(index, relations).len(),
    ensures
        relation_edges(index, relations)[k].from < n,
        relation_edges(index, relations)[k].to < n,
    decreases relations.len(),
{
    if relations.len() > 0 {
        let rest = relations.drop_last();
        if k < relation_edges(index, rest).len() {
            lemma_relation_range(index, rest, n, k);
        } else {
            let from = field_text(relations.last(), "from"@);
            let to = field_text(relations.last(), "to"@);
            assert(index[from] < n && index[to] < n);
        }
    }
}

/// Builds the graph of entities and relations. Relations whose ends are not entities are left out.
pub fn from_lists(entities: &Vec<serde_json::Value>, relations: &Vec<serde_json::Value>) -> (r:
    Result<CsrGraph, PayloadError>)
    ensures
        ({
            let es = json_trees(entities@);
            let rs = json_trees(relations@);
            if es.len() >= u32::MAX || rs.len() > u32::MAX {
                r == Err::<CsrGraph, PayloadError>(PayloadError::TooLarge)
            } else {
                r matches Ok(g) && is_payload_graph(&g, es, rs)
            }
        }),
{
    if entities.len() >= u32::MAX as usize || relations.len() > u32::MAX as usize {
        return Err(PayloadError::TooLarge);
    }
    let index = read_index(entities);
    let nodes = read_entities(entities);
    let edges = read_relations(relations, &index);
    proof {
        let es = json_trees(entities@);
        let rs = json_trees(relations@);
        assert(node_views(nodes@).len() == nodes@.len());
        assert forall|key: Seq<char>| index@.contains_key(key) implies #[trigger] index@[key]
            < es.len() by {
            lemma_entity_index_range(es, key);
        }
        assert forall|k: int| 0 <= k < edges@.len() implies (#[trigger] edges@[k]).from
            < nodes@.len() && edges@[k].to < nodes@.len() by {
            lemma_relation_range(index@, rs, es.len() as int, k);
            assert(edge_views(edges@)[k] == edges@[k]@);
        }
    }
    Ok(CsrGraph::build(nodes, edges.as_slice()))
}

/// What building the graph of a payload gives.
pub open spec fn is_payload_result(r: Result<CsrGraph, PayloadError>, payload: JsonTree) -> bool {
    match (payload_entities(payload), payload_relations(payload)) {
        (None, _) => r == Err::<CsrGraph, PayloadError>(PayloadError::MissingEntities),
        (Some(_), None) => r == Err::<CsrGraph, PayloadError>(PayloadError::MissingRelations),
        (Some(entities), Some(relations)) => if entities.len() >= u32::MAX || relations.len()
            > u32::MAX {
            r == Err::<CsrGraph, PayloadError>(PayloadError::TooLarge)
        } else {
            r matches Ok(g) && is_payload_graph(&g, entities, relations)
        },
    }
}

/// Builds the graph of an ingestion payload: an object with an array `entities` and an array
/// `relations`. Relations whose ends are not both among the entities are left out.
pub fn from_json_payload(payload: &serde_json::Value) -> (r: Result<CsrGraph, PayloadError>)
    ensures
        is_payload_result(r, json_tree(*payload)),
{
    let entities = match as_items(member(payload, "entities")) {
        Some(list) => list,
        None => {
            return Err(PayloadError::MissingEntities);
        },
    };
    let relations = match as_items(member(payload, "relations")) {
        Some(list) => list,
        None => {
            return Err(PayloadError::MissingRelations);
        },
    };
    from_lists(entities, relations)
}

/// Builds the graph of an ingestion payload that is given as text.
pub fn from_json_text(text: &str) -> (r: Result<CsrGraph, PayloadError>)
    ensures
        match json_parse(text@) {
            Some(payload) => is_payload_result(r, payload),
            None => r == Err::<CsrGraph, PayloadError>(PayloadError::NotJson),
        },
{
    match parse_value(text) {
        Some(payload) => from_json_payload(&payload),
        None => Err(PayloadError::NotJson),
    }
}

// ── snapshots ────────────────────────────────────────────────────────────────

/// The files that hold the edges of a graph, all in the same order. Older snapshots lack some.
pub struct EdgeFiles {
    /// `edges.bin`: start, end and weight of each edge, four little-endian bytes each.
    pub edges_bin: Vec<u8>,
    /// `edge_types.json`
    pub edge_types: Option<String>,
    /// `edge_contexts.json`
    pub edge_contexts: Option<String>,
    /// `edge_embed_contexts.json`
    pub edge_embed_contexts: Option<String>,
    /// `edge_ids.json`
    pub edge_ids: Option<String>,
}

/// What the files of a snapshot hold.
pub ghost struct EdgeLists {
    pub bin: Seq<u8>,
    pub types: Seq<Seq<char>>,
    pub contexts: Seq<Seq<char>>,
    pub embed_contexts: Seq<Option<Seq<char>>>,
    pub ids: Seq<u64>,
}

impl EdgeFiles {
    /// What the files hold. A file that is missing or cannot be read counts as an empty list.
    pub open spec fn lists(&self) -> EdgeLists {
        EdgeLists {
            bin: self.edges_bin@,
            types: file_texts(opt_text(self.edge_types)),
            contexts: file_texts(opt_text(self.edge_contexts)),
            embed_contexts: file_opt_texts(opt_text(self.edge_embed_contexts)),
            ids: file_numbers(opt_text(self.edge_ids)),
        }
    }

    /// All edges as the files hold them.
    pub open spec fn all(&self) -> Seq<EdgeView> {
        self.lists().all()
    }
}

/// The columns of the edges of a graph.
struct EdgeColumns {
    edges_bin: Vec<u8>,
    edge_types: Vec<String>,
    edge_contexts: Vec<String>,
    edge_embed_contexts: Vec<Option<String>>,
    edge_ids: Vec<u64>,
}

/// The twelve bytes of an edge in `edges.bin`.
pub open spec fn edge_record(e: EdgeInfo) -> Seq<u8> {
    spec_u32_to_le_bytes(e.from) + spec_u32_to_le_bytes(e.to) + spec_u32_to_le_bytes(e.weight)
}

/// The bytes of a list of edges in `edges.bin`.
pub open spec fn edge_bytes(edges: Seq<EdgeInfo>) -> Seq<u8>
    decreases edges.len(),
{
    if edges.len() == 0 {
        Seq::empty()
    } else {
        edge_bytes(edges.drop_last()) + edge_record(edges.last())
    }
}

impl EdgeColumns {
    spec fn holds(&self, edges: Seq<EdgeInfo>) -> bool {
        &&& self.edges_bin@ == edge_bytes(edges)
        &&& self.edge_types@ == edge_types(edges)
        &&& self.edge_contexts@ == full_contexts(edges)
        &&& self.edge_embed_contexts@ == embed_contexts(edges)
        &&& self.edge_ids@ == edge_ids(edges)
    }
}

impl EdgeLists {
    /// The files hold exactly `edges`.
    pub open spec fn holds(self, edges: Seq<EdgeInfo>) -> bool {
        &&& self.bin == edge_bytes(edges)
        &&& self.types == texts(edge_types(edges))
        &&& self.contexts == texts(full_contexts(edges))
        &&& self.embed_contexts == opt_texts(embed_contexts(edges))
        &&& self.ids == edge_ids(edges)
    }

    /// Edge number `i` as the files hold it. What a file does not reach is empty: files that an
    /// older snapshot lacks are empty lists.
    pub open spec fn edge_at(self, i: int) -> EdgeView {
        let b = self.bin;
        EdgeView {
            from: spec_u32_from_le_bytes(b.subrange(12 * i, 12 * i + 4)),
            to: spec_u32_from_le_bytes(b.subrange(12 * i + 4, 12 * i + 8)),
            edge_type: if i < self.types.len() {
                self.types[i]
            } else {
                Seq::empty()
            },
            weight: spec_u32_from_le_bytes(b.subrange(12 * i + 8, 12 * i + 12)),
            full_context: if i < self.contexts.len() {
                self.contexts[i]
            } else {
                Seq::empty()
            },
            embed_context: if i < self.embed_contexts.len() {
                self.embed_contexts[i]
            } else {
                None
            },
            edge_id: if i < self.ids.len() {
                self.ids[i]
            } else {
                0
            },
        }
    }

    /// All edges as the files hold them. A torn record at the end of `edges.bin` is left out.
    pub open spec fn all(self) -> Seq<EdgeView> {
        Seq::new((self.bin.len() / 12) as nat, |i: int| self.edge_at(i))
    }
}

/// Writes the edges of a graph to its snapshot files.
pub fn save(graph: &CsrGraph) -> (r: EdgeFiles)
    requires
        graph.wf(),
    ensures
        r.lists().holds(listed_edges(graph, graph.nodes@.len() as int)),
{
    let columns = edge_columns(graph);
    EdgeFiles {
        edge_types: Some(write_texts(&columns.edge_types)),
        edge_contexts: Some(write_texts(&columns.edge_contexts)),
        edge_embed_contexts: Some(write_opt_texts(&columns.edge_embed_contexts)),
        edge_ids: Some(write_numbers(&columns.edge_ids)),
        edges_bin: columns.edges_bin,
    }
}

fn edge_columns(graph: &CsrGraph) -> (r: EdgeColumns)
    requires
        graph.wf(),
    ensures
        r.holds(listed_edges(graph, graph.nodes@.len() as int)),
{
    let n: usize = graph.num_nodes();
    let mut r = EdgeColumns {
        edges_bin: Vec::new(),
        edge_types: Vec::new(),
        edge_contexts: Vec::new(),
        edge_embed_contexts: Vec::new(),
        edge_ids: Vec::new(),
    };
    let mut i: usize = 0;
    proof {
        lemma_graph_size(graph, 0);
        let none = Seq::<EdgeInfo>::empty();
        assert(r.edge_types@ =~= edge_types(none));
        assert(r.edge_contexts@ =~= full_contexts(none));
        assert(r.edge_embed_contexts@ =~= embed_contexts(none));
        assert(r.edge_ids@ =~= edge_ids(none));
    }
    while i < n
        invariant
            graph.wf(),
            i <= n == graph.nodes@.len() < u32::MAX,
            r.holds(listed_edges(graph, i as int)),
        decreases n - i,
    {
        let nid: u32 = i as u32;
        let ghost group = graph.out_edges(i as int);
        let ghost before = listed_edges(graph, i as int);
        let to = graph.neighbors(nid);
        let w = graph.neighbor_weights(nid);
        let types = graph.neighbor_types(nid);
        let full = graph.neighbor_full_contexts(nid);
        let embed = graph.neighbor_embed_contexts(nid);
        let ids = graph.neighbor_edge_ids(nid);
        let mut j: usize = 0;
        proof {
            assert(before + group.take(0) =~= before);
        }
        while j < to.len()
            invariant
                graph.wf(),
                i < n == graph.nodes@.len() < u32::MAX,
                nid == i,
                group == graph.out_edges(i as int),
                to@ == targets(group),
                w@ == weights(group),
                types@ == edge_types(group),
                full@ == full_contexts(group),
                embed@ == embed_contexts(group),
                ids@ == edge_ids(group),
                j <= to@.len(),
                r.holds(before + group.take(j as int)),
            decreases to@.len() - j,
        {
            let ghost done = before + group.take(j as int);
            let ghost next = before + group.take(j + 1);
            proof {
                lemma_out_edges_range(graph, i as int, j as int);
                assert(next.drop_last() =~= done);
                assert(next.last() == group[j as int]);
            }
            let mut a = u32_to_le_bytes(nid);
            let mut b = u32_to_le_bytes(to[j]);
            let mut c = u32_to_le_bytes(w[j]);
            let ghost was = r.edges_bin@;
            r.edges_bin.append(&mut a);
            r.edges_bin.append(&mut b);
            r.edges_bin.append(&mut c);
            r.edge_types.push(types[j].clone());
            r.edge_contexts.push(full[j].clone());
            r.edge_embed_contexts.push(embed[j].clone());
            r.edge_ids.push(ids[j]);
            proof {
                assert(r.edges_bin@ =~= was + edge_record(group[j as int]));
                assert(r.edge_types@ =~= edge_types(next));
                assert(r.edge_contexts@ =~= full_contexts(next));
                assert(r.edge_embed_contexts@ =~= embed_contexts(next));
                assert(r.edge_ids@ =~= edge_ids(next));
            }
            j += 1;
        }
        proof {
            assert(group.take(j as int) =~= group);
        }
        i += 1;
    }
    r
}

fn opt_str(s: &Option<String>) -> (r: Option<&str>)
    ensures
        arg_text(r) == opt_text(*s),
{
    match s {
        Some(t) => Some(t.as_str()),
        None => None,
    }
}

/// Reads the edges of snapshot files.
pub fn read_edges(files: &EdgeFiles) -> (r: Vec<EdgeInfo>)
    ensures
        edge_views(r@) == files.all(),
{
    let types = optional_texts(opt_str(&files.edge_types));
    let contexts = optional_texts(opt_str(&files.edge_contexts));
    let embed_contexts = optional_opt_texts(opt_str(&files.edge_embed_contexts));
    let ids = optional_numbers(opt_str(&files.edge_ids));
    let ghost lists = files.lists();
    let count: usize = files.edges_bin.len() / 12;
    let bytes = files.edges_bin.as_slice();
    let mut r: Vec<EdgeInfo> = Vec::new();
    let mut i: usize = 0;
    while i < count
        invariant
            i <= count,
            lists == files.lists(),
            12 * count <= files.edges_bin@.len() <= usize::MAX,
            bytes@ == files.edges_bin@,
            texts(types@) == lists.types,
            texts(contexts@) == lists.contexts,
            opt_texts(embed_contexts@) == lists.embed_contexts,
            ids@ == lists.ids,
            r@.len() == i,
            forall|j: int| 0 <= j < i ==> (#[trigger] r@[j])@ == lists.edge_at(j),
        decreases count - i,
    {
        let at: usize = 12 * i;
        proof {
            assert(texts(types@).len() == types@.len());
            assert(texts(contexts@).len() == contexts@.len());
            assert(opt_texts(embed_contexts@).len() == embed_contexts@.len());
        }
        let e = EdgeInfo {
            from: u32_from_le_bytes(slice_subrange(bytes, at, at + 4)),
            to: u32_from_le_bytes(slice_subrange(bytes, at + 4, at + 8)),
            edge_type: if i < types.len() {
                types[i].clone()
            } else {
                String::new()
            },
            weight: u32_from_le_bytes(slice_subrange(bytes, at + 8, at + 12)),
            full_context: if i < contexts.len() {
                contexts[i].clone()
            } else {
                String::new()
            },
            embed_context: if i < embed_contexts.len() {
                embed_contexts[i].clone()
            } else {
                None
            },
            edge_id: if i < ids.len() {
                ids[i]
            } else {
                0
            },
        };
        proof {
            if i < types@.len() {
                assert(texts(types@)[i as int] == types@[i as int]@);
            }
            if i < contexts@.len() {
                assert(texts(contexts@)[i as int] == contexts@[i as int]@);
            }
            if i < embed_contexts@.len() {
                assert(opt_texts(embed_contexts@)[i as int] == opt_text(embed_contexts@[i as int]));
            }
            assert(e@ == lists.edge_at(i as int));
        }
        r.push(e);
        i += 1;
    }
    proof {
        assert(edge_views(r@) =~= files.all());
    }
    r
}

/// Whether every edge runs between two of `n` nodes.
pub fn edges_in_range(edges: &Vec<EdgeInfo>, n: usize) -> (r: bool)
    ensures
        r == endpoints_in_range(edges@, n as int),
{
    let mut k: usize = 0;
    while k < edges.len()
        invariant
            k <= edges@.len(),
            forall|j: int| 0 <= j < k ==> (#[trigger] edges@[j]).from < n && edges@[j].to < n,
        decreases edges@.len() - k,
    {
        if edges[k].from as usize >= n || edges[k].to as usize >= n {
            return false;
        }
        k += 1;
    }
    true
}

/// All edges run between the first `n` nodes.
pub open spec fn runs_among(edges: Seq<EdgeView>, n: int) -> bool {
    forall|i: int|
        0 <= i < edges.len() ==> (#[trigger] edges[i]).from < n && edges[i].to < n
}

/// The graph has these nodes, and the edges of the files.
pub open spec fn is_snapshot_graph(g: &CsrGraph, nodes: Seq<NodeInfo>, files: &EdgeFiles) -> bool {
    exists|edges: Seq<EdgeInfo>| #[trigger]
        g.holds(nodes, edges) && edge_views(edges) == files.all()
}

/// Why snapshot files hold no graph.
pub enum SnapshotError {
    /// More nodes than there are ids, or more edges than there are places.
    TooLarge,
    /// An edge names a node that is not there.
    UnknownNode,
}

impl SnapshotError {
    pub open spec fn text(self) -> Seq<char> {
        match self {
            SnapshotError::TooLarge => "graph snapshot is too large"@,
            SnapshotError::UnknownNode => "edges.bin names a node that nodes.json does not hold"@,
        }
    }

    /// The error as text.
    pub fn message(&self) -> (r: String)
        ensures
            r@ == self.text(),
    {
        match self {
            SnapshotError::TooLarge => "graph snapshot is too large".to_owned(),
            SnapshotError::UnknownNode => {
                "edges.bin names a node that nodes.json does not hold".to_owned()
            },
        }
    }
}

/// There are ids for so many nodes, and places for the edges of the files.
pub open spec fn fits_graph(nodes: nat, files: &EdgeFiles) -> bool {
    nodes < u32::MAX && files.all().len() <= u32::MAX
}

/// Builds the graph of snapshot files, if they hold one.
pub fn load(nodes: Vec<NodeInfo>, files: &EdgeFiles) -> (r: Result<CsrGraph, SnapshotError>)
    ensures
        ({
            let small = fits_graph(nodes@.len(), files);
            match r {
                Ok(g) => {
                    &&& small
                    &&& runs_among(files.all(), nodes@.len() as int)
                    &&& is_snapshot_graph(&g, nodes@, files)
                },
                Err(SnapshotError::TooLarge) => !small,
                Err(SnapshotError::UnknownNode) => small && !runs_among(
                    files.all(),
                    nodes@.len() as int,
                ),
            }
        }),
{
    let edges = read_edges(files);
    proof {
        assert(edge_views(edges@).len() == edges@.len());
        assert forall|k: int| 0 <= k < edges@.len() implies edges@[k]@ == #[trigger] files.all()[k] by {
            assert(edge_views(edges@)[k] == edges@[k]@);
        }
    }
    if nodes.len() >= u32::MAX as usize || edges.len() > u32::MAX as usize {
        return Err(SnapshotError::TooLarge);
    }
    if !edges_in_range(&edges, nodes.len()) {
        proof {
            let k = choose|k: int|
                0 <= k < edges@.len() && !((#[trigger] edges@[k]).from < nodes@.len()
                    && edges@[k].to < nodes@.len());
            assert(files.all()[k] == edges@[k]@);
        }
        return Err(SnapshotError::UnknownNode);
    }
    proof {
        assert forall|k: int| 0 <= k < files.all().len() implies (#[trigger] files.all()[k]).from
            < nodes@.len() && files.all()[k].to < nodes@.len() by {
            assert(edges@[k].from < nodes@.len());
        }
        assert(runs_among(files.all(), nodes@.len() as int));
    }
    let ghost all = nodes@;
    let g = CsrGraph::build(nodes, edges.as_slice());
    proof {
        assert(g.holds(all, edges@));
        assert(is_snapshot_graph(&g, all, files));
    }
    Ok(g)
}

proof fn lemma_edge_bytes(edges: Seq<EdgeInfo>, i: int)
    requires
        0 <= i < edges.len(),
    ensures
        edge_bytes(edges).len() == 12 * edges.len(),
        edge_bytes(edges).subrange(12 * i, 12 * i + 12) == edge_record(edges[i]),
    decreases edges.len(),
{
    lemma_auto_spec_u32_to_from_le_bytes();
    let rest = edges.drop_last();
    let b = edge_bytes(edges);
    lemma_edge_bytes_len(rest);
    if i < rest.len() {
        lemma_edge_bytes(rest, i);
        assert(b.subrange(12 * i, 12 * i + 12) =~= edge_bytes(rest).subrange(12 * i, 12 * i + 12));
    } else {
        assert(b.subrange(12 * i, 12 * i + 12) =~= edge_record(edges[i]));
    }
}

proof fn lemma_edge_bytes_len(edges: Seq<EdgeInfo>)
    ensures
        edge_bytes(edges).len() == 12 * edges.len(),
    decreases edges.len(),
{
    lemma_auto_spec_u32_to_from_le_bytes();
    if edges.len() > 0 {
        lemma_edge_bytes_len(edges.drop_last());
    }
}

/// Reading snapshot files gives back the edges that were written to them.
pub proof fn law_snapshot_gives_back_edges(files: EdgeLists, edges: Seq<EdgeInfo>)
    requires
        files.holds(edges),
    ensures
        files.all() == edge_views(edges),
{
    lemma_auto_spec_u32_to_from_le_bytes();
    lemma_edge_bytes_len(edges);
    assert forall|i: int| 0 <= i < edges.len() implies files.edge_at(i) == #[trigger] edges[i]@ by {
        lemma_edge_bytes(edges, i);
        let b = files.bin;
        let record = edge_record(edges[i]);
        assert(b.subrange(12 * i, 12 * i + 4) =~= record.subrange(0, 4));
        assert(b.subrange(12 * i + 4, 12 * i + 8) =~= record.subrange(4, 8));
        assert(b.subrange(12 * i + 8, 12 * i + 12) =~= record.subrange(8, 12));
        assert(record.subrange(0, 4) =~= spec_u32_to_le_bytes(edges[i].from));
        assert(record.subrange(4, 8) =~= spec_u32_to_le_bytes(edges[i].to));
        assert(record.subrange(8, 12) =~= spec_u32_to_le_bytes(edges[i].weight));
    }
    assert(files.all() =~= edge_views(edges));
}

/// Saving a graph and loading it gives back the out-edges of every node, in order.
pub proof fn law_save_and_load_keep_edges(
    g: &CsrGraph,
    files: &EdgeFiles,
    loaded: &CsrGraph,
    i: int,
)
    requires
        g.wf(),
        files.lists().holds(listed_edges(g, g.nodes@.len() as int)),
        is_snapshot_graph(loaded, g.nodes@, files),
        0 <= i < g.nodes@.len(),
    ensures
        edge_views(loaded.out_edges(i)) == edge_views(g.out_edges(i)),
        loaded.topology.edge_count() == g.topology.edge_count(),
{
    let n = g.nodes@.len() as int;
    let edges = choose|edges: Seq<EdgeInfo>| #[trigger]
        loaded.holds(g.nodes@, edges) && edge_views(edges) == files.all();
    let all = listed_edges(g, n);
    law_snapshot_gives_back_edges(files.lists(), all);
    lemma_listed_filter(g, n, i);
    lemma_flat_edges(g);
    assert(edge_views(edges).len() == edges.len());
    assert(edge_views(all).len() == all.len());
    lemma_views_filter(edges, all, i);
}

/// The files to which a graph was saved can be loaded with its nodes.
pub proof fn law_saved_graph_can_be_loaded(g: &CsrGraph, files: &EdgeFiles)
    requires
        g.wf(),
        files.lists().holds(listed_edges(g, g.nodes@.len() as int)),
    ensures
        fits_graph(g.nodes@.len(), files),
        runs_among(files.all(), g.nodes@.len() as int),
{
    let n = g.nodes@.len() as int;
    let all = listed_edges(g, n);
    law_snapshot_gives_back_edges(files.lists(), all);
    lemma_listed_filter(g, n, 0);
    lemma_flat_edges(g);
    lemma_graph_size(g, 0);
    assert(edge_views(all).len() == all.len());
    assert forall|i: int| 0 <= i < files.all().len() implies (#[trigger] files.all()[i]).from < n
        && files.all()[i].to < n by {
        assert(edge_views(all)[i] == all[i]@);
        assert(all[i].from < n);
    }
}

/// How many edges enter node `i` from one of the first `k` nodes.
spec fn entering_from(edges: Seq<EdgeInfo>, i: int, k: int) -> nat
    decreases edges.len(),
{
    if edges.len() == 0 {
        0
    } else {
        let before = entering_from(edges.drop_last(), i, k);
        if edges.last().to == i && edges.last().from < k {
            before + 1
        } else {
            before
        }
    }
}

proof fn lemma_entering_step(edges: Seq<EdgeInfo>, i: int, k: int)
    ensures
        entering_from(edges, i, k + 1) == entering_from(edges, i, k) + edges.filter(
            leaves(k),
        ).filter(enters(i)).len(),
    decreases edges.len(),
{
    reveal(Seq::filter);
    if edges.len() > 0 {
        lemma_entering_step(edges.drop_last(), i, k);
        let before = edges.drop_last().filter(leaves(k));
        if edges.last().from == k {
            assert(before.push(edges.last()).drop_last() =~= before);
        }
    }
}

proof fn lemma_entering_all(edges: Seq<EdgeInfo>, i: int, n: int)
    requires
        endpoints_in_range(edges, n),
    ensures
        entering_from(edges, i, n) == edges.filter(enters(i)).len(),
        entering_from(edges, i, 0) == 0,
    decreases edges.len(),
{
    reveal(Seq::filter);
    if edges.len() > 0 {
        let rest = edges.drop_last();
        assert forall|k: int| 0 <= k < rest.len() implies (#[trigger] rest[k]).from < n && rest[k].to
            < n by {
            assert(edges[k].from < n);
        }
        assert(edges[edges.len() - 1].from < n);
        lemma_entering_all(rest, i, n);
    }
}

/// The listing of a graph's edges has as many that enter a node as the list it was built from.
proof fn lemma_listed_enters(g: &CsrGraph, edges: Seq<EdgeInfo>, i: int, k: int)
    requires
        0 <= k <= g.nodes@.len(),
        endpoints_in_range(edges, g.nodes@.len() as int),
        forall|u: int|
            0 <= u < g.nodes@.len() ==> #[trigger] g.out_edges(u) == edges.filter(leaves(u)),
    ensures
        listed_edges(g, k).filter(enters(i)).len() == entering_from(edges, i, k),
    decreases k,
{
    lemma_entering_all(edges, i, g.nodes@.len() as int);
    if k > 0 {
        lemma_listed_enters(g, edges, i, k - 1);
        lemma_entering_step(edges, i, k - 1);
        Seq::filter_distributes_over_add(
            listed_edges(g, k - 1),
            g.out_edges(k - 1),
            enters(i),
        );
    } else {
        reveal(Seq::filter);
    }
}

proof fn lemma_views_enters(a: Seq<EdgeInfo>, b: Seq<EdgeInfo>, i: int)
    requires
        edge_views(a) == edge_views(b),
    ensures
        a.filter(enters(i)).len() == b.filter(enters(i)).len(),
    decreases a.len(),
{
    reveal(Seq::filter);
    assert(edge_views(a).len() == a.len());
    assert(edge_views(b).len() == b.len());
    if a.len() > 0 {
        assert(edge_views(a.drop_last()) =~= edge_views(a).drop_last());
        assert(edge_views(b.drop_last()) =~= edge_views(b).drop_last());
        lemma_views_enters(a.drop_last(), b.drop_last(), i);
        assert(edge_views(a).last() == a.last()@);
        assert(edge_views(b).last() == b.last()@);
        assert(a.last().to == b.last().to);
    }
}

proof fn lemma_same_degrees(a: Seq<EdgeInfo>, b: Seq<EdgeInfo>, n: int)
    requires
        forall|i: int| 0 <= i < n ==> #[trigger] degree(a, i) == degree(b, i),
    ensures
        max_degree(a, n) == max_degree(b, n),
    decreases n,
{
    if n > 0 {
        lemma_same_degrees(a, b, n - 1);
        assert(degree(a, n - 1) == degree(b, n - 1));
    }
}

/// Saving a graph and loading it with its nodes gives back every node, its weight included.
pub proof fn law_save_and_load_keep_nodes(
    g: &CsrGraph,
    nodes: Seq<NodeInfo>,
    given: Seq<EdgeInfo>,
    files: &EdgeFiles,
    loaded: &CsrGraph,
)
    requires
        g.holds(nodes, given),
        endpoints_in_range(given, nodes.len() as int),
        files.lists().holds(listed_edges(g, nodes.len() as int)),
        is_snapshot_graph(loaded, g.nodes@, files),
    ensures
        loaded.nodes@ == g.nodes@,
{
    let n = nodes.len() as int;
    let edges = choose|edges: Seq<EdgeInfo>| #[trigger]
        loaded.holds(g.nodes@, edges) && edge_views(edges) == files.all();
    let all = listed_edges(g, n);
    law_snapshot_gives_back_edges(files.lists(), all);
    assert forall|i: int| 0 <= i < n implies #[trigger] degree(given, i) == degree(edges, i) by {
        lemma_listed_filter(g, n, i);
        lemma_views_filter(edges, all, i);
        let a = edges.filter(leaves(i));
        let b = all.filter(leaves(i));
        assert(edge_views(a).len() == a.len());
        assert(edge_views(b).len() == b.len());
        assert(g.out_edges(i) == given.filter(leaves(i)));
        lemma_listed_enters(g, given, i, n);
        lemma_entering_all(given, i, n);
        lemma_views_enters(edges, all, i);
    }
    lemma_same_degrees(given, edges, n);
    assert forall|i: int| 0 <= i < n implies #[trigger] loaded.nodes@[i] == g.nodes@[i] by {
        assert(degree(given, i) == degree(edges, i));
        assert(g.nodes@[i] == with_weight(nodes[i], importance(given, n, i)));
    }
    assert(loaded.nodes@ =~= g.nodes@);
}

proof fn lemma_views_filter(a: Seq<EdgeInfo>, b: Seq<EdgeInfo>, i: int)
    requires
        edge_views(a) == edge_views(b),
    ensures
        edge_views(a.filter(leaves(i))) == edge_views(b.filter(leaves(i))),
    decreases a.len(),
{
    reveal(Seq::filter);
    assert(edge_views(a).len() == a.len());
    assert(edge_views(b).len() == b.len());
    if a.len() > 0 {
        assert(edge_views(a.drop_last()) =~= edge_views(a).drop_last());
        assert(edge_views(b.drop_last()) =~= edge_views(b).drop_last());
        lemma_views_filter(a.drop_last(), b.drop_last(), i);
        assert(edge_views(a).last() == a.last()@);
        assert(edge_views(b).last() == b.last()@);
        assert(a.last().from == b.last().from);
        let x = a.drop_last().filter(leaves(i));
        let y = b.drop_last().filter(leaves(i));
        assert(edge_views(x.push(a.last())) =~= edge_views(x).push(a.last()@));
        assert(edge_views(y.push(b.last())) =~= edge_views(y).push(b.last()@));
    } else {
        assert(edge_views(a.filter(leaves(i))) =~= edge_views(b.filter(leaves(i))));
    }
}

// ── what a payload and a snapshot say ────────────────────────────────────────

/// A graph made of a payload has a node for each entity, in its place and numbered by it: with its
/// name and type trimmed (`Entity` for a blank type), its properties, contexts, image and id.
pub proof fn law_payload_graph_has_its_entities(
    g: &CsrGraph,
    entities: Seq<JsonTree>,
    relations: Seq<JsonTree>,
    i: int,
)
    requires
        is_payload_graph(g, entities, relations),
        0 <= i < entities.len(),
    ensures
        g.nodes@.len() == entities.len(),
        ({
            let n = g.nodes@[i]@;
            let t = entities[i];
            let own_type = trimmed(field_text(t, "type"@));
            &&& n.id == i as u32
            &&& n.name == trimmed(field_text(t, "name"@))
            &&& n.node_type == (if own_type.len() > 0 {
                own_type
            } else {
                "Entity"@
            })
            &&& n.props == member_of(t, "props"@)
            &&& n.full_context == field_text(t, "full_context"@)
            &&& n.embed_context == field_nonblank(t, "embed_context"@)
            &&& n.external_id == field_text(t, "id"@)
            &&& n.image_url == field_nonblank(t, "image_url"@)
        }),
{
    let (nodes, edges) = choose|nodes: Seq<NodeInfo>, edges: Seq<EdgeInfo>| #[trigger]
        g.holds(nodes, edges) && node_views(nodes) == entity_nodes(entities) && edge_views(edges)
            == relation_edges(entity_index(entities), relations);
    assert(node_views(nodes).len() == nodes.len());
    assert(node_views(nodes)[i] == nodes[i]@);
    assert(entity_nodes(entities)[i] == entity_node(entities[i], i));
    crate::graph::csr::law_graph_keeps_its_nodes(g, nodes, edges, i);
}

/// An id leads to the place of the last entity with it, and is known exactly when an entity has it.
pub proof fn law_entity_ids_lead_to_places(entities: Seq<JsonTree>, id: Seq<char>)
    requires
        entities.len() <= u32::MAX,
    ensures
        entity_index(entities).contains_key(id) <==> exists|i: int|
            0 <= i < entities.len() && field_text(#[trigger] entities[i], "id"@) == id,
        entity_index(entities).contains_key(id) ==> {
            let i = entity_index(entities)[id] as int;
            &&& i < entities.len()
            &&& field_text(entities[i], "id"@) == id
            &&& forall|j: int|
                i < j < entities.len() ==> field_text(#[trigger] entities[j], "id"@) != id
        },
    decreases entities.len(),
{
    if entities.len() > 0 {
        let rest = entities.drop_last();
        let last = entities.len() - 1;
        law_entity_ids_lead_to_places(rest, id);
        if field_text(entities[last], "id"@) != id {
            if entity_index(rest).contains_key(id) {
                let i = entity_index(rest)[id] as int;
                assert(field_text(entities[i], "id"@) == id) by {
                    assert(rest[i] == entities[i]);
                }
                assert forall|j: int| i < j < entities.len() implies field_text(
                    #[trigger] entities[j],
                    "id"@,
                ) != id by {
                    if j < last {
                        assert(rest[j] == entities[j]);
                    }
                }
            }
            if exists|i: int|
                0 <= i < entities.len() && field_text(#[trigger] entities[i], "id"@) == id {
                let i = choose|i: int|
                    0 <= i < entities.len() && field_text(#[trigger] entities[i], "id"@) == id;
                assert(rest[i] == entities[i]);
            }
        }
    }
}

/// Both ends of the relation are ids of entities.
pub open spec fn joins_entities(entities: Seq<JsonTree>) -> spec_fn(JsonTree) -> bool {
    |t: JsonTree|
        {
            &&& exists|i: int|
                0 <= i < entities.len() && field_text(#[trigger] entities[i], "id"@) == field_text(
                    t,
                    "from"@,
                )
            &&& exists|i: int|
                0 <= i < entities.len() && field_text(#[trigger] entities[i], "id"@) == field_text(
                    t,
                    "to"@,
                )
        }
}

/// A graph made of a payload is built of one edge for each relation between entities of the
/// payload, in order: between entities with the ids that it names, with its type, its contexts, and
/// its weight, which is 1.0 where it gives none.
pub proof fn law_payload_graph_has_its_relations(
    g: &CsrGraph,
    entities: Seq<JsonTree>,
    relations: Seq<JsonTree>,
) -> (r: (Seq<NodeInfo>, Seq<EdgeInfo>))
    requires
        is_payload_graph(g, entities, relations),
        entities.len() <= u32::MAX,
    ensures
        g.holds(r.0, r.1),
        ({
            let kept = relations.filter(joins_entities(entities));
            &&& r.1.len() == kept.len()
            &&& forall|k: int|
                0 <= k < kept.len() ==> {
                    let e = #[trigger] r.1[k];
                    let t = kept[k];
                    &&& e.from < entities.len()
                    &&& e.to < entities.len()
                    &&& field_text(entities[e.from as int], "id"@) == field_text(t, "from"@)
                    &&& field_text(entities[e.to as int], "id"@) == field_text(t, "to"@)
                    &&& e.edge_type@ == field_text(t, "type"@)
                    &&& e.weight == (match number_of(member_of(t, "weight"@)) {
                        Some(bits) => narrow_f64(bits) as u32,
                        None => 0x3f80_0000u32,
                    })
                    &&& e.full_context@ == field_text(t, "full_context"@)
                    &&& opt_text(e.embed_context) == field_nonblank(t, "embed_context"@)
                    &&& e.edge_id == 0
                }
        }),
{
    let (nodes, edges) = choose|nodes: Seq<NodeInfo>, edges: Seq<EdgeInfo>| #[trigger]
        g.holds(nodes, edges) && node_views(nodes) == entity_nodes(entities) && edge_views(edges)
            == relation_edges(entity_index(entities), relations);
    let kept = relations.filter(joins_entities(entities));
    lemma_relation_edges(entities, relations);
    assert(edge_views(edges).len() == edges.len());
    assert forall|k: int| 0 <= k < kept.len() implies {
        let e = #[trigger] edges[k];
        let t = kept[k];
        &&& e.from < entities.len()
        &&& e.to < entities.len()
        &&& field_text(entities[e.from as int], "id"@) == field_text(t, "from"@)
        &&& field_text(entities[e.to as int], "id"@) == field_text(t, "to"@)
        &&& e.edge_type@ == field_text(t, "type"@)
        &&& e.weight == (match number_of(member_of(t, "weight"@)) {
            Some(bits) => narrow_f64(bits) as u32,
            None => 0x3f80_0000u32,
        })
        &&& e.full_context@ == field_text(t, "full_context"@)
        &&& opt_text(e.embed_context) == field_nonblank(t, "embed_context"@)
        &&& e.edge_id == 0
    } by {
        assert(edge_views(edges)[k] == edges[k]@);
        assert(relation_edges(entity_index(entities), relations)[k] == relation_edge(
            entity_index(entities),
            kept[k],
        )->0);
        assert(relation_edge(entity_index(entities), kept[k]) is Some);
        law_entity_ids_lead_to_places(entities, field_text(kept[k], "from"@));
        law_entity_ids_lead_to_places(entities, field_text(kept[k], "to"@));
    }
    (nodes, edges)
}

proof fn lemma_relation_edges(entities: Seq<JsonTree>, relations: Seq<JsonTree>)
    requires
        entities.len() <= u32::MAX,
    ensures
        ({
            let index = entity_index(entities);
            let kept = relations.filter(joins_entities(entities));
            let r = relation_edges(index, relations);
            &&& r.len() == kept.len()
            &&& forall|k: int|
                0 <= k < r.len() ==> relation_edge(index, kept[k]) == Some(#[trigger] r[k])
        }),
    decreases relations.len(),
{
    reveal(Seq::filter);
    let index = entity_index(entities);
    let read = |t: JsonTree| relation_edge(index, t);
    if relations.len() > 0 {
        let rest = relations.drop_last();
        let t = relations.last();
        lemma_relation_edges(entities, rest);
        law_entity_ids_lead_to_places(entities, field_text(t, "from"@));
        law_entity_ids_lead_to_places(entities, field_text(t, "to"@));
        assert(joins_entities(entities)(t) <==> relation_edge(index, t) is Some);
        let before = relation_edges(index, rest);
        let r = relation_edges(index, relations);
        assert(rest.push(t) =~= relations);
        if joins_entities(entities)(t) {
            assert(r =~= before.push(relation_edge(index, t)->0));
        } else {
            assert(r =~= before);
        }
    } else {
        assert(relation_edges(index, relations) =~= Seq::empty());
    }
}

/// In the file of edges each edge takes twelve bytes: its start, its end and the bits of its weight,
/// each in four with the lowest first. The other lists hold at the same place its type, its
/// contexts and its id.
pub proof fn law_edge_files_hold_each_edge_at_its_place(
    files: EdgeLists,
    edges: Seq<EdgeInfo>,
    i: int,
)
    requires
        files.holds(edges),
        0 <= i < edges.len(),
    ensures
        files.bin.len() == 12 * edges.len(),
        files.bin.subrange(12 * i, 12 * i + 4) == spec_u32_to_le_bytes(edges[i].from),
        files.bin.subrange(12 * i + 4, 12 * i + 8) == spec_u32_to_le_bytes(edges[i].to),
        files.bin.subrange(12 * i + 8, 12 * i + 12) == spec_u32_to_le_bytes(edges[i].weight),
        files.types.len() == edges.len(),
        files.contexts.len() == edges.len(),
        files.embed_contexts.len() == edges.len(),
        files.ids.len() == edges.len(),
        files.types[i] == edges[i].edge_type@,
        files.contexts[i] == edges[i].full_context@,
        files.embed_contexts[i] == opt_text(edges[i].embed_context),
        files.ids[i] == edges[i].edge_id,
{
    lemma_auto_spec_u32_to_from_le_bytes();
    lemma_edge_bytes(edges, i);
    let b = files.bin;
    let record = edge_record(edges[i]);
    assert(b.subrange(12 * i, 12 * i + 4) =~= record.subrange(0, 4));
    assert(b.subrange(12 * i + 4, 12 * i + 8) =~= record.subrange(4, 8));
    assert(b.subrange(12 * i + 8, 12 * i + 12) =~= record.subrange(8, 12));
    assert(record.subrange(0, 4) =~= spec_u32_to_le_bytes(edges[i].from));
    assert(record.subrange(4, 8) =~= spec_u32_to_le_bytes(edges[i].to));
    assert(record.subrange(8, 12) =~= spec_u32_to_le_bytes(edges[i].weight));
}

/// Of files that hold less than the file of edges, the edges beyond them have no type, no contexts
/// and the id 0.
pub proof fn law_missing_lists_leave_edges_bare(files: EdgeLists, i: int)
    requires
        0 <= i < files.bin.len() / 12,
    ensures
        files.all().len() == files.bin.len() / 12,
        files.all()[i].edge_type == (if i < files.types.len() {
            files.types[i]
        } else {
            Seq::empty()
        }),
        files.all()[i].full_context == (if i < files.contexts.len() {
            files.contexts[i]
        } else {
            Seq::empty()
        }),
        files.all()[i].embed_context == (if i < files.embed_contexts.len() {
            files.embed_contexts[i]
        } else {
            None
        }),
        files.all()[i].edge_id == (if i < files.ids.len() {
            files.ids[i]
        } else {
            0
        }),
{
}

/// A field that holds a string gives it; any other gives the empty text, or nothing where blank
/// texts count for nothing.
pub proof fn law_fields_give_their_texts(tree: JsonTree, key: Seq<char>)
    ensures
        match member_of(tree, key) {
            JsonTree::Text(s) => {
                &&& field_text(tree, key) == s
                &&& trimmed(s).len() > 0 ==> field_nonblank(tree, key) == Some(s)
                &&& trimmed(s).len() == 0 ==> field_nonblank(tree, key) is None
            },
            _ => field_text(tree, key).len() == 0 && field_nonblank(tree, key) is None,
        },
{
}

/// A payload without a list of entities is refused for that, one with it but without a list of
/// relations for that, and one with more than fits for its size. Any other gives a graph.
pub proof fn law_payload_is_refused_for_what_it_lacks(
    r: Result<CsrGraph, PayloadError>,
    payload: JsonTree,
)
    requires
        is_payload_result(r, payload),
    ensures
        ({
            let entities = member_of(payload, "entities"@);
            let relations = member_of(payload, "relations"@);
            let large = entities->Array_0.len() >= u32::MAX || relations->Array_0.len() > u32::MAX;
            if !(entities is Array) {
                r == Err::<CsrGraph, PayloadError>(PayloadError::MissingEntities)
            } else if !(relations is Array) {
                r == Err::<CsrGraph, PayloadError>(PayloadError::MissingRelations)
            } else if large {
                r == Err::<CsrGraph, PayloadError>(PayloadError::TooLarge)
            } else {
                r is Ok && is_payload_graph(&r->Ok_0, entities->Array_0, relations->Array_0)
            }
        }),
{
}

/// A snapshot is refused where an end of an edge is no node, and only there.
pub proof fn law_edges_run_among_nodes(edges: Seq<EdgeView>, n: int)
    ensures
        !runs_among(edges, n) <==> exists|i: int|
            0 <= i < edges.len() && ((#[trigger] edges[i]).from >= n || edges[i].to >= n),
{
}

} // verus!

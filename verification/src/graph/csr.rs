//! Compressed Sparse Row graph.

use crate::float::{
    f32_part, lemma_part_in_unit_range, lemma_part_of_itself, part_of_whole, F32_ONE,
};
use crate::graph::layout::{
    group_by_key, is_layout, lemma_below_ends, lemma_below_monotone, lemma_below_step, lemma_places,
    below, places,
};
use crate::json::{json_tree, JsonTree};
use vstd::hash_map::StringHashMap;
use vstd::prelude::*;
use vstd::slice::slice_subrange;

verus! {

/// Node metadata stored alongside the graph structure.
pub struct NodeInfo {
    pub id: u32,
    pub name: String,
    pub node_type: String,
    /// Combined in- and out-degree importance, as the bits of a single-precision number in 0..1.
    pub weight: u32,
    pub props: serde_json::Value,
    /// Verbose description passed to the LLM during answer generation.
    pub full_context: String,
    /// Short dense text used for embedding.
    pub embed_context: Option<String>,
    /// Stable public identifier set at ingest time, never reassigned at merge.
    pub external_id: String,
    /// URL or base64 data-URI of the image associated with this node.
    pub image_url: Option<String>,
}

/// A node as its fields read.
#[verifier::ext_equal]
pub struct NodeView {
    pub id: u32,
    pub name: Seq<char>,
    pub node_type: Seq<char>,
    pub weight: u32,
    pub props: JsonTree,
    pub full_context: Seq<char>,
    pub embed_context: Option<Seq<char>>,
    pub external_id: Seq<char>,
    pub image_url: Option<Seq<char>>,
}

/// The text in an optional string.
pub open spec fn opt_text(s: Option<String>) -> Option<Seq<char>> {
    match s {
        Some(t) => Some(t@),
        None => None,
    }
}

impl View for NodeInfo {
    type V = NodeView;

    open spec fn view(&self) -> NodeView {
        NodeView {
            id: self.id,
            name: self.name@,
            node_type: self.node_type@,
            weight: self.weight,
            props: json_tree(self.props),
            full_context: self.full_context@,
            embed_context: opt_text(self.embed_context),
            external_id: self.external_id@,
            image_url: opt_text(self.image_url),
        }
    }
}

impl Clone for NodeInfo {
    fn clone(&self) -> (r: Self)
        ensures
            r == *self,
    {
        NodeInfo {
            id: self.id,
            name: self.name.clone(),
            node_type: self.node_type.clone(),
            weight: self.weight,
            props: self.props.clone(),
            full_context: self.full_context.clone(),
            embed_context: self.embed_context.clone(),
            external_id: self.external_id.clone(),
            image_url: self.image_url.clone(),
        }
    }
}

/// Edge with its weight, label and texts.
pub struct EdgeInfo {
    pub from: u32,
    pub to: u32,
    pub edge_type: String,
    /// The bits of a single-precision number.
    pub weight: u32,
    /// Verbose description passed to the LLM during answer generation.
    pub full_context: String,
    /// Short dense text used for embedding.
    pub embed_context: Option<String>,
    /// Monotonic edge id allocated at ingest time, 0 when there is none.
    pub edge_id: u64,
}

/// An edge as its fields read.
#[verifier::ext_equal]
pub struct EdgeView {
    pub from: u32,
    pub to: u32,
    pub edge_type: Seq<char>,
    pub weight: u32,
    pub full_context: Seq<char>,
    pub embed_context: Option<Seq<char>>,
    pub edge_id: u64,
}

impl View for EdgeInfo {
    type V = EdgeView;

    open spec fn view(&self) -> EdgeView {
        EdgeView {
            from: self.from,
            to: self.to,
            edge_type: self.edge_type@,
            weight: self.weight,
            full_context: self.full_context@,
            embed_context: opt_text(self.embed_context),
            edge_id: self.edge_id,
        }
    }
}

/// A list of nodes as their fields read.
pub open spec fn node_views(nodes: Seq<NodeInfo>) -> Seq<NodeView> {
    nodes.map_values(|n: NodeInfo| n@)
}

/// A list of edges as their fields read.
pub open spec fn edge_views(edges: Seq<EdgeInfo>) -> Seq<EdgeView> {
    edges.map_values(|e: EdgeInfo| e@)
}

impl Clone for EdgeInfo {
    fn clone(&self) -> (r: Self)
        ensures
            r == *self,
    {
        EdgeInfo {
            from: self.from,
            to: self.to,
            edge_type: self.edge_type.clone(),
            weight: self.weight,
            full_context: self.full_context.clone(),
            embed_context: self.embed_context.clone(),
            edge_id: self.edge_id,
        }
    }
}

// ── what a graph is made from ────────────────────────────────────────────────

/// Holds of the edges that leave node `i`.
pub open spec fn leaves(i: int) -> spec_fn(EdgeInfo) -> bool {
    |e: EdgeInfo| e.from == i
}

/// Holds of the edges that enter node `i`.
pub open spec fn enters(i: int) -> spec_fn(EdgeInfo) -> bool {
    |e: EdgeInfo| e.to == i
}

/// The starts of a list of edges.
pub open spec fn sources(edges: Seq<EdgeInfo>) -> Seq<u32> {
    edges.map_values(|e: EdgeInfo| e.from)
}

/// The ends of a list of edges.
pub open spec fn targets(edges: Seq<EdgeInfo>) -> Seq<u32> {
    edges.map_values(|e: EdgeInfo| e.to)
}

pub open spec fn weights(edges: Seq<EdgeInfo>) -> Seq<u32> {
    edges.map_values(|e: EdgeInfo| e.weight)
}

pub open spec fn edge_types(edges: Seq<EdgeInfo>) -> Seq<String> {
    edges.map_values(|e: EdgeInfo| e.edge_type)
}

pub open spec fn full_contexts(edges: Seq<EdgeInfo>) -> Seq<String> {
    edges.map_values(|e: EdgeInfo| e.full_context)
}

pub open spec fn embed_contexts(edges: Seq<EdgeInfo>) -> Seq<Option<String>> {
    edges.map_values(|e: EdgeInfo| e.embed_context)
}

pub open spec fn edge_ids(edges: Seq<EdgeInfo>) -> Seq<u64> {
    edges.map_values(|e: EdgeInfo| e.edge_id)
}

/// Every edge runs between two of `n` nodes.
pub open spec fn endpoints_in_range(edges: Seq<EdgeInfo>, n: int) -> bool {
    forall|k: int| 0 <= k < edges.len() ==> (#[trigger] edges[k]).from < n && edges[k].to < n
}

/// How many edges leave or enter node `i`.
pub open spec fn degree(edges: Seq<EdgeInfo>, i: int) -> nat {
    edges.filter(leaves(i)).len() + edges.filter(enters(i)).len()
}

/// The largest degree among the first `n` nodes, 0 without nodes.
pub open spec fn max_degree(edges: Seq<EdgeInfo>, n: int) -> nat
    decreases n,
{
    if n <= 0 {
        0
    } else if degree(edges, n - 1) > max_degree(edges, n - 1) {
        degree(edges, n - 1)
    } else {
        max_degree(edges, n - 1)
    }
}

/// The importance of node `i`: its degree as a part of the largest degree, 0 without edges.
pub open spec fn importance(edges: Seq<EdgeInfo>, n: int, i: int) -> int {
    if max_degree(edges, n) == 0 {
        0
    } else {
        f32_part(degree(edges, i), max_degree(edges, n))
    }
}

/// `node` with another weight.
pub open spec fn with_weight(node: NodeInfo, weight: int) -> NodeInfo {
    NodeInfo { weight: weight as u32, ..node }
}

/// From each non-empty external id to the place of the last node that has it.
pub open spec fn external_ids(nodes: Seq<NodeInfo>) -> Map<Seq<char>, u32>
    decreases nodes.len(),
{
    if nodes.len() == 0 {
        Map::empty()
    } else {
        let before = external_ids(nodes.drop_last());
        if nodes.last().external_id@.len() == 0 {
            before
        } else {
            before.insert(nodes.last().external_id@, (nodes.len() - 1) as u32)
        }
    }
}

// ── the graph ────────────────────────────────────────────────────────────────

/// The edges of a graph in Compressed Sparse Row form: the out-edges of node `i` are packed at
/// `offsets[i]..offsets[i + 1]`, its in-neighbours at `rev_offsets[i]..rev_offsets[i + 1]`.
pub struct Topology {
    offsets: Vec<u32>,
    edges: Vec<u32>,
    edge_weights: Vec<u32>,
    edge_types: Vec<String>,
    edge_full_contexts: Vec<String>,
    edge_embed_contexts: Vec<Option<String>>,
    edge_ids: Vec<u64>,
    rev_offsets: Vec<u32>,
    rev_edges: Vec<u32>,
}

/// Offsets of `n` groups that partition `0..len`, in order.
spec fn offsets_partition(offsets: Seq<u32>, n: int, len: int) -> bool {
    &&& offsets.len() == n + 1
    &&& offsets[0] == 0
    &&& offsets[n] == len
    &&& forall|i: int, j: int| 0 <= i <= j <= n ==> #[trigger] offsets[i] <= #[trigger] offsets[j]
}

impl Topology {
    /// The parallel arrays agree and every id is one of `n` nodes.
    pub closed spec fn wf(&self, n: int) -> bool {
        let m = self.edges@.len() as int;
        &&& 0 <= n < u32::MAX
        &&& m <= u32::MAX
        &&& offsets_partition(self.offsets@, n, m)
        &&& offsets_partition(self.rev_offsets@, n, m)
        &&& self.edge_weights@.len() == m
        &&& self.edge_types@.len() == m
        &&& self.edge_full_contexts@.len() == m
        &&& self.edge_embed_contexts@.len() == m
        &&& self.edge_ids@.len() == m
        &&& self.rev_edges@.len() == m
        &&& forall|k: int| 0 <= k < m ==> #[trigger] self.edges@[k] < n
        &&& forall|k: int| 0 <= k < m ==> #[trigger] self.rev_edges@[k] < n
    }

    /// The edge packed at place `k` of node `i`'s group.
    spec fn packed_edge(&self, i: int, k: int) -> EdgeInfo {
        EdgeInfo {
            from: i as u32,
            to: self.edges@[k],
            edge_type: self.edge_types@[k],
            weight: self.edge_weights@[k],
            full_context: self.edge_full_contexts@[k],
            embed_context: self.edge_embed_contexts@[k],
            edge_id: self.edge_ids@[k],
        }
    }

    /// The edges that leave node `i`, in the order in which they were given.
    pub closed spec fn out_edges(&self, i: int) -> Seq<EdgeInfo> {
        if 0 <= i && i + 1 < self.offsets@.len() {
            Seq::new(
                (self.offsets@[i + 1] - self.offsets@[i]) as nat,
                |j: int| self.packed_edge(i, self.offsets@[i] + j),
            )
        } else {
            Seq::empty()
        }
    }

    /// The starts of the edges that enter node `i`, in the order in which they were given.
    pub closed spec fn in_nodes(&self, i: int) -> Seq<u32> {
        if 0 <= i && i + 1 < self.rev_offsets@.len() {
            self.rev_edges@.subrange(self.rev_offsets@[i] as int, self.rev_offsets@[i + 1] as int)
        } else {
            Seq::empty()
        }
    }

    /// How many edges there are.
    pub closed spec fn edge_count(&self) -> nat {
        self.edges@.len()
    }
}

/// A graph: its nodes, its edges, and an index of its nodes by external id.
pub struct CsrGraph {
    /// Node metadata, separate from the topology.
    pub nodes: Vec<NodeInfo>,
    pub topology: Topology,
    /// From external id to the place of the node, for the nodes whose external id is not empty.
    pub external_id_index: StringHashMap<u32>,
}

impl CsrGraph {
    /// Every edge runs between two of the graph's nodes.
    pub open spec fn wf(&self) -> bool {
        self.topology.wf(self.nodes@.len() as int)
    }

    /// The edges that leave node `i`, in the order in which they were given.
    pub open spec fn out_edges(&self, i: int) -> Seq<EdgeInfo> {
        self.topology.out_edges(i)
    }

    /// The starts of the edges that enter node `i`, in the order in which they were given.
    pub open spec fn in_nodes(&self, i: int) -> Seq<u32> {
        self.topology.in_nodes(i)
    }

    /// The graph holds exactly `edges`, between `nodes` weighted by importance.
    pub open spec fn holds(&self, nodes: Seq<NodeInfo>, edges: Seq<EdgeInfo>) -> bool {
        let n = nodes.len() as int;
        &&& self.wf()
        &&& self.nodes@.len() == n
        &&& forall|i: int|
            0 <= i < n ==> #[trigger] self.nodes@[i] == with_weight(
                nodes[i],
                importance(edges, n, i),
            )
        &&& self.topology.edge_count() == edges.len()
        &&& forall|i: int| 0 <= i < n ==> #[trigger] self.out_edges(i) == edges.filter(leaves(i))
        &&& forall|i: int|
            0 <= i < n ==> #[trigger] self.in_nodes(i) == sources(edges.filter(enters(i)))
        &&& self.external_id_index@ == external_ids(nodes)
    }
}

/// The edges at the places of key `i` are the edges with that start, in order.
proof fn lemma_places_sources(edges: Seq<EdgeInfo>, i: int)
    ensures
        edges.filter(leaves(i)) == places(sources(edges), i).map_values(|k: int| edges[k]),
    decreases edges.len(),
{
    reveal(Seq::filter);
    if edges.len() > 0 {
        lemma_places_sources(edges.drop_last(), i);
        assert(sources(edges).drop_last() =~= sources(edges.drop_last()));
        lemma_places(sources(edges.drop_last()), i);
        let a = places(sources(edges.drop_last()), i);
        assert(a.map_values(|k: int| edges[k]) =~= a.map_values(|k: int| edges.drop_last()[k]));
    }
    assert(edges.filter(leaves(i)) =~= places(sources(edges), i).map_values(|k: int| edges[k]));
}

proof fn lemma_places_targets(edges: Seq<EdgeInfo>, i: int)
    ensures
        edges.filter(enters(i)) == places(targets(edges), i).map_values(|k: int| edges[k]),
    decreases edges.len(),
{
    reveal(Seq::filter);
    if edges.len() > 0 {
        lemma_places_targets(edges.drop_last(), i);
        assert(targets(edges).drop_last() =~= targets(edges.drop_last()));
        lemma_places(targets(edges.drop_last()), i);
        let a = places(targets(edges.drop_last()), i);
        assert(a.map_values(|k: int| edges[k]) =~= a.map_values(|k: int| edges.drop_last()[k]));
    }
    assert(edges.filter(enters(i)) =~= places(targets(edges), i).map_values(|k: int| edges[k]));
}

/// A layout's offsets partition its order.
proof fn lemma_layout_partition(keys: Seq<u32>, n: int, offsets: Seq<u32>, order: Seq<usize>)
    requires
        0 <= n,
        forall|k: int| 0 <= k < keys.len() ==> #[trigger] keys[k] < n,
        is_layout(keys, n, offsets, order),
    ensures
        offsets_partition(offsets, n, keys.len() as int),
        forall|i: int|
            0 <= i < n ==> #[trigger] offsets[i] + places(keys, i).len() == offsets[i + 1],
        forall|p: int| 0 <= p < order.len() ==> #[trigger] order[p] < keys.len(),
{
    lemma_below_ends(keys, n);
    assert forall|i: int, j: int| 0 <= i <= j <= n implies #[trigger] offsets[i]
        <= #[trigger] offsets[j] by {
        lemma_below_monotone(keys, i, j);
    }
    assert forall|i: int| 0 <= i < n implies #[trigger] offsets[i] + places(keys, i).len()
        == offsets[i + 1] by {
        lemma_below_step(keys, i);
    }
    assert forall|p: int| 0 <= p < order.len() implies #[trigger] order[p] < keys.len() by {
        lemma_group_of(keys, n, p);
        let i = choose|i: int| 0 <= i < n && #[trigger] below(keys, i) <= p < below(keys, i + 1);
        lemma_below_step(keys, i);
        lemma_places(keys, i);
        assert(order[below(keys, i) + (p - below(keys, i))] == places(keys, i)[p - below(keys, i)]);
    }
}

/// Every place of the order lies in some group.
proof fn lemma_group_of(keys: Seq<u32>, n: int, p: int)
    requires
        0 <= n,
        0 <= p < below(keys, n),
        below(keys, 0) == 0,
    ensures
        exists|i: int| 0 <= i < n && #[trigger] below(keys, i) <= p < below(keys, i + 1),
    decreases n,
{
    if n > 0 {
        if p < below(keys, n - 1) {
            lemma_group_of(keys, n - 1, p);
            let i = choose|i: int|
                0 <= i < n - 1 && #[trigger] below(keys, i) <= p < below(keys, i + 1);
            assert(0 <= i < n && below(keys, i) <= p < below(keys, i + 1));
        } else {
            assert(below(keys, n - 1) <= p < below(keys, (n - 1) + 1));
        }
    }
}

/// The fields of a list of edges, each in a list of its own.
struct Columns {
    to: Vec<u32>,
    weight: Vec<u32>,
    edge_type: Vec<String>,
    full_context: Vec<String>,
    embed_context: Vec<Option<String>>,
    edge_id: Vec<u64>,
}

impl Columns {
    spec fn len_is(&self, m: int) -> bool {
        &&& self.to@.len() == m
        &&& self.weight@.len() == m
        &&& self.edge_type@.len() == m
        &&& self.full_context@.len() == m
        &&& self.embed_context@.len() == m
        &&& self.edge_id@.len() == m
    }

    spec fn row_is(&self, q: int, e: EdgeInfo) -> bool {
        &&& self.to@[q] == e.to
        &&& self.weight@[q] == e.weight
        &&& self.edge_type@[q] == e.edge_type
        &&& self.full_context@[q] == e.full_context
        &&& self.embed_context@[q] == e.embed_context
        &&& self.edge_id@[q] == e.edge_id
    }

    fn push(&mut self, e: &EdgeInfo, Ghost(m): Ghost<int>)
        requires
            old(self).len_is(m),
        ensures
            final(self).len_is(m + 1),
            final(self).row_is(m, *e),
            forall|q: int, x: EdgeInfo|
                0 <= q < m && old(self).row_is(q, x) ==> #[trigger] final(self).row_is(q, x),
    {
        self.to.push(e.to);
        self.weight.push(e.weight);
        self.edge_type.push(e.edge_type.clone());
        self.full_context.push(e.full_context.clone());
        self.embed_context.push(e.embed_context.clone());
        self.edge_id.push(e.edge_id);
    }

    /// The fields of `edges` in the order `order`.
    fn pack(edges: &[EdgeInfo], order: &Vec<usize>) -> (r: Columns)
        requires
            forall|p: int| 0 <= p < order@.len() ==> #[trigger] order@[p] < edges@.len(),
        ensures
            r.len_is(order@.len() as int),
            forall|q: int|
                0 <= q < order@.len() ==> r.row_is(q, edges@[#[trigger] order@[q] as int]),
    {
        let mut r = Columns {
            to: Vec::new(),
            weight: Vec::new(),
            edge_type: Vec::new(),
            full_context: Vec::new(),
            embed_context: Vec::new(),
            edge_id: Vec::new(),
        };
        let mut p: usize = 0;
        while p < order.len()
            invariant
                p <= order@.len(),
                forall|p: int| 0 <= p < order@.len() ==> #[trigger] order@[p] < edges@.len(),
                r.len_is(p as int),
                forall|q: int| 0 <= q < p ==> r.row_is(q, edges@[#[trigger] order@[q] as int]),
            decreases order@.len() - p,
        {
            r.push(&edges[order[p]], Ghost(p as int));
            p += 1;
        }
        r
    }
}

impl Topology {
    /// Packs `edges` by start and by end, keeping their order within each node.
    fn build(n: usize, edges: &[EdgeInfo]) -> (r: Self)
        requires
            n < u32::MAX,
            edges@.len() <= u32::MAX,
            endpoints_in_range(edges@, n as int),
        ensures
            r.wf(n as int),
            r.edge_count() == edges@.len(),
            forall|i: int| 0 <= i < n ==> #[trigger] r.out_edges(i) == edges@.filter(leaves(i)),
            forall|i: int|
                0 <= i < n ==> #[trigger] r.in_nodes(i) == sources(edges@.filter(enters(i))),
    {
        let m: usize = edges.len();
        let mut from_keys: Vec<u32> = Vec::new();
        let mut to_keys: Vec<u32> = Vec::new();
        let mut k: usize = 0;
        while k < m
            invariant
                k <= m == edges@.len(),
                from_keys@ == sources(edges@.take(k as int)),
                to_keys@ == targets(edges@.take(k as int)),
            decreases m - k,
        {
            from_keys.push(edges[k].from);
            to_keys.push(edges[k].to);
            k += 1;
            proof {
                assert(edges@.take(k as int) =~= edges@.take(k - 1).push(edges@[k - 1]));
            }
        }
        proof {
            assert(edges@.take(k as int) =~= edges@);
        }
        let (offsets, order) = group_by_key(&from_keys, n);
        let (rev_offsets, rev_order) = group_by_key(&to_keys, n);
        proof {
            lemma_layout_partition(from_keys@, n as int, offsets@, order@);
            lemma_layout_partition(to_keys@, n as int, rev_offsets@, rev_order@);
        }
        let columns = Columns::pack(edges, &order);
        let mut rev_edges: Vec<u32> = Vec::new();
        let mut p: usize = 0;
        while p < m
            invariant
                p <= m == edges@.len(),
                rev_order@.len() == m,
                forall|p: int| 0 <= p < m ==> #[trigger] rev_order@[p] < m,
                rev_edges@.len() == p,
                forall|q: int|
                    0 <= q < p ==> #[trigger] rev_edges@[q] == edges@[rev_order@[q] as int].from,
            decreases m - p,
        {
            rev_edges.push(edges[rev_order[p]].from);
            p += 1;
        }
        let r = Topology {
            offsets,
            edges: columns.to,
            edge_weights: columns.weight,
            edge_types: columns.edge_type,
            edge_full_contexts: columns.full_context,
            edge_embed_contexts: columns.embed_context,
            edge_ids: columns.edge_id,
            rev_offsets,
            rev_edges,
        };
        proof {
            assert forall|k: int| 0 <= k < m implies #[trigger] r.edges@[k] < n by {
                assert(columns.row_is(k, edges@[order@[k] as int]));
            }
            assert forall|i: int| 0 <= i < n implies #[trigger] r.out_edges(i) == edges@.filter(
                leaves(i),
            ) by {
                lemma_places_sources(edges@, i);
                lemma_places(from_keys@, i);
                let group = places(from_keys@, i);
                assert forall|j: int| 0 <= j < group.len() implies r.out_edges(i)[j]
                    == edges@[group[j]] by {
                    assert(r.offsets@[i] == below(from_keys@, i));
                    assert(order@[below(from_keys@, i) + j] == group[j]);
                    assert(from_keys@[group[j]] == i);
                    assert(columns.row_is(
                        below(from_keys@, i) + j,
                        edges@[order@[below(from_keys@, i) + j] as int],
                    ));
                }
                assert(r.out_edges(i) =~= edges@.filter(leaves(i)));
            }
            assert forall|i: int| 0 <= i < n implies #[trigger] r.in_nodes(i) == sources(
                edges@.filter(enters(i)),
            ) by {
                lemma_places_targets(edges@, i);
                lemma_places(to_keys@, i);
                let group = places(to_keys@, i);
                assert forall|j: int| 0 <= j < group.len() implies r.in_nodes(i)[j]
                    == edges@[group[j]].from by {
                    assert(r.rev_offsets@[i] == below(to_keys@, i));
                    assert(rev_order@[below(to_keys@, i) + j] == group[j]);
                    assert(r.rev_edges@[below(to_keys@, i) + j] == edges@[group[j]].from);
                }
                assert(r.in_nodes(i) =~= sources(edges@.filter(enters(i))));
            }
        }
        r
    }
}

impl Topology {
    fn out_degree(&self, i: usize, Ghost(n): Ghost<int>) -> (r: u32)
        requires
            self.wf(n),
            i < n,
        ensures
            r == self.out_edges(i as int).len(),
    {
        self.offsets[i + 1] - self.offsets[i]
    }

    fn in_degree(&self, i: usize, Ghost(n): Ghost<int>) -> (r: u32)
        requires
            self.wf(n),
            i < n,
        ensures
            r == self.in_nodes(i as int).len(),
    {
        self.rev_offsets[i + 1] - self.rev_offsets[i]
    }
}

proof fn lemma_max_degree(edges: Seq<EdgeInfo>, n: int, i: int)
    requires
        0 <= i < n,
    ensures
        degree(edges, i) <= max_degree(edges, n),
    decreases n,
{
    if i < n - 1 {
        lemma_max_degree(edges, n - 1, i);
    }
}

proof fn lemma_degree_bound(edges: Seq<EdgeInfo>, i: int)
    ensures
        degree(edges, i) <= 2 * edges.len(),
{
    edges.lemma_filter_len(leaves(i));
    edges.lemma_filter_len(enters(i));
}

impl CsrGraph {
    /// Builds the graph of a flat list of edges, with forward and reverse indices, node weights
    /// from both degrees, and the index by external id.
    pub fn build(nodes: Vec<NodeInfo>, edge_list: &[EdgeInfo]) -> (r: Self)
        requires
            nodes@.len() < u32::MAX,
            edge_list@.len() <= u32::MAX,
            endpoints_in_range(edge_list@, nodes@.len() as int),
        ensures
            r.holds(nodes@, edge_list@),
    {
        let n: usize = nodes.len();
        let topology = Topology::build(n, edge_list);
        let ghost edges = edge_list@;
        let ghost given = nodes@;
        let mut degrees: Vec<u64> = Vec::new();
        let mut most: u64 = 0;
        let mut i: usize = 0;
        while i < n
            invariant
                i <= n < u32::MAX,
                edges.len() <= u32::MAX,
                topology.wf(n as int),
                forall|i: int|
                    0 <= i < n ==> #[trigger] topology.out_edges(i) == edges.filter(leaves(i)),
                forall|i: int|
                    0 <= i < n ==> #[trigger] topology.in_nodes(i) == sources(
                        edges.filter(enters(i)),
                    ),
                degrees@.len() == i,
                forall|j: int| 0 <= j < i ==> #[trigger] degrees@[j] == degree(edges, j),
                most == max_degree(edges, i as int),
            decreases n - i,
        {
            proof {
                lemma_degree_bound(edges, i as int);
                assert(topology.out_edges(i as int).len() == edges.filter(leaves(i as int)).len());
                assert(topology.in_nodes(i as int).len() == edges.filter(enters(i as int)).len());
            }
            let leaving: u32 = topology.out_degree(i, Ghost(n as int));
            let entering: u32 = topology.in_degree(i, Ghost(n as int));
            let d: u64 = leaving as u64 + entering as u64;
            degrees.push(d);
            if d > most {
                most = d;
            }
            i += 1;
        }
        let mut nodes = nodes;
        let mut external_id_index: StringHashMap<u32> = StringHashMap::new();
        let mut i: usize = 0;
        while i < n
            invariant
                i <= n < u32::MAX,
                n == given.len(),
                edges.len() <= u32::MAX,
                nodes@.len() == n,
                degrees@.len() == n,
                forall|j: int| 0 <= j < n ==> #[trigger] degrees@[j] == degree(edges, j),
                most == max_degree(edges, n as int),
                forall|j: int|
                    0 <= j < i ==> #[trigger] nodes@[j] == with_weight(
                        given[j],
                        importance(edges, n as int, j),
                    ),
                forall|j: int| i <= j < n ==> #[trigger] nodes@[j] == given[j],
                external_id_index@ == external_ids(given.take(i as int)),
            decreases n - i,
        {
            proof {
                lemma_degree_bound(edges, i as int);
                lemma_max_degree_bound(edges, n as int);
            }
            let weight: u32 = if most == 0 {
                0
            } else {
                part_of_whole(degrees[i], most)
            };
            nodes[i].weight = weight;
            proof {
                assert(given.take(i + 1).drop_last() =~= given.take(i as int));
            }
            if nodes[i].external_id.as_str().is_empty() {
            } else {
                external_id_index.insert(nodes[i].external_id.clone(), i as u32);
            }
            i += 1;
        }
        proof {
            assert(given.take(i as int) =~= given);
        }
        CsrGraph { nodes, topology, external_id_index }
    }
}

impl Topology {
    /// The bounds of node `i`'s group among the packed edges, empty for an id out of range.
    fn span(&self, node: u32, Ghost(n): Ghost<int>) -> (r: (usize, usize))
        requires
            self.wf(n),
        ensures
            r.0 <= r.1 <= self.edges@.len(),
            self.out_edges(node as int).len() == r.1 - r.0,
            forall|j: int|
                0 <= j < r.1 - r.0 ==> #[trigger] self.out_edges(node as int)[j]
                    == self.packed_edge(node as int, r.0 + j),
    {
        let idx: usize = node as usize;
        if idx >= self.offsets.len() - 1 {
            return (0, 0);
        }
        (self.offsets[idx] as usize, self.offsets[idx + 1] as usize)
    }
}

impl CsrGraph {
    /// Out-neighbours of a node; none for an id that is out of range.
    pub fn neighbors(&self, node: u32) -> (r: &[u32])
        requires
            self.wf(),
        ensures
            r@ == targets(self.out_edges(node as int)),
    {
        let (start, end) = self.topology.span(node, Ghost(self.nodes@.len() as int));
        let r = slice_subrange(self.topology.edges.as_slice(), start, end);
        proof {
            assert(r@ =~= targets(self.out_edges(node as int)));
        }
        r
    }

    /// Weights of a node's out-edges, parallel to `neighbors`.
    pub fn neighbor_weights(&self, node: u32) -> (r: &[u32])
        requires
            self.wf(),
        ensures
            r@ == weights(self.out_edges(node as int)),
    {
        let (start, end) = self.topology.span(node, Ghost(self.nodes@.len() as int));
        let r = slice_subrange(self.topology.edge_weights.as_slice(), start, end);
        proof {
            assert(r@ =~= weights(self.out_edges(node as int)));
        }
        r
    }

    /// Labels of a node's out-edges, parallel to `neighbors`.
    pub fn neighbor_types(&self, node: u32) -> (r: &[String])
        requires
            self.wf(),
        ensures
            r@ == edge_types(self.out_edges(node as int)),
    {
        let (start, end) = self.topology.span(node, Ghost(self.nodes@.len() as int));
        let r = slice_subrange(self.topology.edge_types.as_slice(), start, end);
        proof {
            assert(r@ =~= edge_types(self.out_edges(node as int)));
        }
        r
    }

    /// Verbose texts of a node's out-edges, parallel to `neighbors`.
    pub fn neighbor_full_contexts(&self, node: u32) -> (r: &[String])
        requires
            self.wf(),
        ensures
            r@ == full_contexts(self.out_edges(node as int)),
    {
        let (start, end) = self.topology.span(node, Ghost(self.nodes@.len() as int));
        let r = slice_subrange(self.topology.edge_full_contexts.as_slice(), start, end);
        proof {
            assert(r@ =~= full_contexts(self.out_edges(node as int)));
        }
        r
    }

    /// Embedding texts of a node's out-edges, parallel to `neighbors`.
    pub fn neighbor_embed_contexts(&self, node: u32) -> (r: &[Option<String>])
        requires
            self.wf(),
        ensures
            r@ == embed_contexts(self.out_edges(node as int)),
    {
        let (start, end) = self.topology.span(node, Ghost(self.nodes@.len() as int));
        let r = slice_subrange(self.topology.edge_embed_contexts.as_slice(), start, end);
        proof {
            assert(r@ =~= embed_contexts(self.out_edges(node as int)));
        }
        r
    }

    /// Ids of a node's out-edges, parallel to `neighbors`.
    pub fn neighbor_edge_ids(&self, node: u32) -> (r: &[u64])
        requires
            self.wf(),
        ensures
            r@ == edge_ids(self.out_edges(node as int)),
    {
        let (start, end) = self.topology.span(node, Ghost(self.nodes@.len() as int));
        let r = slice_subrange(self.topology.edge_ids.as_slice(), start, end);
        proof {
            assert(r@ =~= edge_ids(self.out_edges(node as int)));
        }
        r
    }

    /// In-neighbours of a node; none for an id that is out of range.
    pub fn rev_neighbors(&self, node: u32) -> (r: &[u32])
        requires
            self.wf(),
        ensures
            r@ == self.in_nodes(node as int),
    {
        let idx: usize = node as usize;
        if idx >= self.topology.rev_offsets.len() - 1 {
            let r = slice_subrange(self.topology.rev_edges.as_slice(), 0, 0);
            proof {
                assert(r@ =~= self.in_nodes(node as int));
            }
            return r;
        }
        let start: usize = self.topology.rev_offsets[idx] as usize;
        let end: usize = self.topology.rev_offsets[idx + 1] as usize;
        slice_subrange(self.topology.rev_edges.as_slice(), start, end)
    }

    pub fn num_nodes(&self) -> (r: usize)
        ensures
            r == self.nodes@.len(),
    {
        self.nodes.len()
    }

    pub fn num_edges(&self) -> (r: usize)
        ensures
            r == self.topology.edge_count(),
    {
        self.topology.edges.len()
    }

    /// The place of the node with this external id.
    pub fn get_by_external_id(&self, external_id: &str) -> (r: Option<u32>)
        ensures
            r == (if self.external_id_index@.contains_key(external_id@) {
                Some(self.external_id_index@[external_id@])
            } else {
                None
            }),
    {
        match self.external_id_index.get(external_id) {
            Some(id) => Some(*id),
            None => None,
        }
    }
}

// ── facts about every well-formed graph ──────────────────────────────────────

/// The out-edges of a node start at it and end at nodes of the graph.
pub broadcast proof fn lemma_out_edges_range(g: &CsrGraph, i: int, j: int)
    requires
        g.wf(),
        0 <= j < g.out_edges(i).len(),
    ensures
        0 <= i < g.nodes@.len(),
        (#[trigger] g.out_edges(i)[j]).from == i,
        g.out_edges(i)[j].to < g.nodes@.len(),
{
}

/// The in-neighbours of a node are nodes of the graph.
pub broadcast proof fn lemma_in_nodes_range(g: &CsrGraph, i: int, j: int)
    requires
        g.wf(),
        0 <= j < g.in_nodes(i).len(),
    ensures
        0 <= i < g.nodes@.len(),
        #[trigger] g.in_nodes(i)[j] < g.nodes@.len(),
{
}

/// A well-formed graph has fewer nodes than there are ids, and at most as many edges at a node as
/// in all.
pub proof fn lemma_graph_size(g: &CsrGraph, i: int)
    requires
        g.wf(),
    ensures
        g.nodes@.len() < u32::MAX,
        g.topology.edge_count() <= u32::MAX,
        g.out_edges(i).len() <= g.topology.edge_count(),
        g.in_nodes(i).len() <= g.topology.edge_count(),
        !(0 <= i < g.nodes@.len()) ==> g.out_edges(i).len() == 0 && g.in_nodes(i).len() == 0,
{
}

// ── the list of all edges ────────────────────────────────────────────────────

/// The edge without its id.
pub open spec fn unnumbered(e: EdgeInfo) -> EdgeInfo {
    EdgeInfo { edge_id: 0, ..e }
}

/// The out-edges of the first `n` nodes, node by node, without their ids.
pub open spec fn flat_edges(g: &CsrGraph, n: int) -> Seq<EdgeInfo>
    decreases n,
{
    if n <= 0 {
        Seq::empty()
    } else {
        flat_edges(g, n - 1) + g.out_edges(n - 1).map_values(|e: EdgeInfo| unnumbered(e))
    }
}

/// The out-edges of the first `n` nodes, node by node.
pub open spec fn listed_edges(g: &CsrGraph, n: int) -> Seq<EdgeInfo>
    decreases n,
{
    if n <= 0 {
        Seq::empty()
    } else {
        listed_edges(g, n - 1) + g.out_edges(n - 1)
    }
}

impl CsrGraph {
    /// All edges as `EdgeInfo`, node by node. The ids of edges do not outlive a rebuild: they come
    /// out as 0.
    pub fn all_edges(&self) -> (r: Vec<EdgeInfo>)
        requires
            self.wf(),
        ensures
            r@ == flat_edges(self, self.nodes@.len() as int),
    {
        let mut result: Vec<EdgeInfo> = Vec::new();
        let n: usize = self.num_nodes();
        let mut i: usize = 0;
        proof {
            lemma_graph_size(self, 0);
        }
        while i < n
            invariant
                self.wf(),
                i <= n == self.nodes@.len() < u32::MAX,
                result@ == flat_edges(self, i as int),
            decreases n - i,
        {
            let nid: u32 = i as u32;
            let ghost group = self.out_edges(i as int);
            let to = self.neighbors(nid);
            let w = self.neighbor_weights(nid);
            let types = self.neighbor_types(nid);
            let full = self.neighbor_full_contexts(nid);
            let embed = self.neighbor_embed_contexts(nid);
            let mut j: usize = 0;
            proof {
                assert(result@ =~= flat_edges(self, i as int) + group.take(0).map_values(
                    |e: EdgeInfo| unnumbered(e),
                ));
            }
            while j < to.len()
                invariant
                    self.wf(),
                    i < n == self.nodes@.len(),
                    nid == i,
                    group == self.out_edges(i as int),
                    to@ == targets(group),
                    w@ == weights(group),
                    types@ == edge_types(group),
                    full@ == full_contexts(group),
                    embed@ == embed_contexts(group),
                    j <= to@.len(),
                    result@ == flat_edges(self, i as int) + group.take(j as int).map_values(
                        |e: EdgeInfo| unnumbered(e),
                    ),
                decreases to@.len() - j,
            {
                broadcast use lemma_out_edges_range;

                let e = EdgeInfo {
                    from: nid,
                    to: to[j],
                    edge_type: types[j].clone(),
                    weight: w[j],
                    full_context: full[j].clone(),
                    embed_context: embed[j].clone(),
                    edge_id: 0,
                };
                result.push(e);
                proof {
                    assert(e == unnumbered(group[j as int]));
                    assert(result@ =~= flat_edges(self, i as int) + group.take(j + 1).map_values(
                        |e: EdgeInfo| unnumbered(e),
                    ));
                }
                j += 1;
            }
            proof {
                assert(group.take(j as int) =~= group);
            }
            i += 1;
        }
        result
    }
}

/// Among the listed edges, those that leave node `i` are its out-edges without their ids.
pub proof fn lemma_flat_filter(g: &CsrGraph, n: int, i: int)
    requires
        g.wf(),
        0 <= n <= g.nodes@.len(),
    ensures
        endpoints_in_range(flat_edges(g, n), g.nodes@.len() as int),
        flat_edges(g, n).filter(leaves(i)) == (if 0 <= i < n {
            g.out_edges(i).map_values(|e: EdgeInfo| unnumbered(e))
        } else {
            Seq::empty()
        }),
    decreases n,
{
    reveal(Seq::filter);
    if n > 0 {
        lemma_flat_filter(g, n - 1, i);
        let group = g.out_edges(n - 1).map_values(|e: EdgeInfo| unnumbered(e));
        Seq::filter_distributes_over_add(flat_edges(g, n - 1), group, leaves(i));
        assert forall|k: int| 0 <= k < group.len() implies (#[trigger] group[k]).from == n - 1
            && group[k].to < g.nodes@.len() by {
            lemma_out_edges_range(g, n - 1, k);
            assert(group[k] == unnumbered(g.out_edges(n - 1)[k]));
        }
        lemma_filter_same_source(group, n - 1, i);
        if i == n - 1 {
            assert(flat_edges(g, n).filter(leaves(i)) =~= group);
        } else {
            assert(flat_edges(g, n).filter(leaves(i)) =~= flat_edges(g, n - 1).filter(leaves(i)));
        }
    }
}

/// Among the listed edges, those that leave node `i` are its out-edges.
pub proof fn lemma_listed_filter(g: &CsrGraph, n: int, i: int)
    requires
        g.wf(),
        0 <= n <= g.nodes@.len(),
    ensures
        endpoints_in_range(listed_edges(g, n), g.nodes@.len() as int),
        listed_edges(g, n).len() == flat_edges(g, n).len(),
        listed_edges(g, n).filter(leaves(i)) == (if 0 <= i < n {
            g.out_edges(i)
        } else {
            Seq::empty()
        }),
    decreases n,
{
    reveal(Seq::filter);
    if n > 0 {
        lemma_listed_filter(g, n - 1, i);
        let group = g.out_edges(n - 1);
        Seq::filter_distributes_over_add(listed_edges(g, n - 1), group, leaves(i));
        assert forall|k: int| 0 <= k < group.len() implies (#[trigger] group[k]).from == n - 1
            && group[k].to < g.nodes@.len() by {
            lemma_out_edges_range(g, n - 1, k);
        }
        lemma_filter_same_source(group, n - 1, i);
        if i == n - 1 {
            assert(listed_edges(g, n).filter(leaves(i)) =~= group);
        } else {
            assert(listed_edges(g, n).filter(leaves(i)) =~= listed_edges(g, n - 1).filter(
                leaves(i),
            ));
        }
    }
}

proof fn lemma_filter_same_source(edges: Seq<EdgeInfo>, from: int, i: int)
    requires
        forall|k: int| 0 <= k < edges.len() ==> (#[trigger] edges[k]).from == from,
    ensures
        edges.filter(leaves(i)) == (if i == from {
            edges
        } else {
            Seq::empty()
        }),
    decreases edges.len(),
{
    reveal(Seq::filter);
    if edges.len() > 0 {
        lemma_filter_same_source(edges.drop_last(), from, i);
        if i == from {
            assert(edges.drop_last().push(edges.last()) =~= edges);
        }
    }
}

proof fn lemma_flat_len(g: &CsrGraph, n: int)
    requires
        g.wf(),
        0 <= n <= g.nodes@.len(),
    ensures
        flat_edges(g, n).len() == g.topology.offsets@[n],
    decreases n,
{
    if n > 0 {
        lemma_flat_len(g, n - 1);
    }
}

/// The edges of a graph are listed once each, and run between its nodes.
pub proof fn lemma_flat_edges(g: &CsrGraph)
    requires
        g.wf(),
    ensures
        endpoints_in_range(flat_edges(g, g.nodes@.len() as int), g.nodes@.len() as int),
        flat_edges(g, g.nodes@.len() as int).len() == g.topology.edge_count(),
{
    lemma_flat_len(g, g.nodes@.len() as int);
    lemma_flat_filter(g, g.nodes@.len() as int, 0);
}

/// Listing the edges of a graph and building a graph from the list gives the same out-edges in the
/// same order, but for the ids of the edges.
pub proof fn law_rebuild_keeps_edges(g: &CsrGraph, rebuilt: &CsrGraph)
    requires
        g.wf(),
        rebuilt.holds(g.nodes@, flat_edges(g, g.nodes@.len() as int)),
    ensures
        endpoints_in_range(flat_edges(g, g.nodes@.len() as int), g.nodes@.len() as int),
        rebuilt.topology.edge_count() == g.topology.edge_count(),
        forall|i: int|
            0 <= i < g.nodes@.len() ==> #[trigger] rebuilt.out_edges(i) == g.out_edges(
                i,
            ).map_values(|e: EdgeInfo| unnumbered(e)),
{
    let n = g.nodes@.len() as int;
    lemma_flat_len(g, n);
    lemma_flat_filter(g, n, 0);
    assert forall|i: int| 0 <= i < n implies #[trigger] rebuilt.out_edges(i) == g.out_edges(
        i,
    ).map_values(|e: EdgeInfo| unnumbered(e)) by {
        lemma_flat_filter(g, n, i);
    }
}

/// The index by external id leads to the last node with that id.
pub proof fn lemma_external_ids(nodes: Seq<NodeInfo>, i: int)
    requires
        0 <= i < nodes.len(),
        nodes[i].external_id@.len() > 0,
        forall|j: int|
            i < j < nodes.len() ==> (#[trigger] nodes[j]).external_id@ != nodes[i].external_id@,
    ensures
        external_ids(nodes).contains_key(nodes[i].external_id@),
        external_ids(nodes)[nodes[i].external_id@] == i as u32,
    decreases nodes.len(),
{
    if i < nodes.len() - 1 {
        lemma_external_ids(nodes.drop_last(), i);
        assert(nodes[nodes.len() - 1].external_id@ != nodes[i].external_id@);
    }
}

// ── laws of building ─────────────────────────────────────────────────────────

/// The weights of a graph's nodes are numbers from 0 to 1.
pub proof fn law_weights_in_unit_range(
    g: &CsrGraph,
    nodes: Seq<NodeInfo>,
    edges: Seq<EdgeInfo>,
    i: int,
)
    requires
        g.holds(nodes, edges),
        0 <= i < nodes.len(),
    ensures
        0 <= g.nodes@[i].weight <= F32_ONE,
{
    let n = nodes.len() as int;
    lemma_graph_size(g, i);
    lemma_degree_bound(edges, i);
    lemma_max_degree(edges, n, i);
    lemma_max_degree_bound(edges, n);
    if max_degree(edges, n) > 0 {
        lemma_part_in_unit_range(degree(edges, i), max_degree(edges, n));
    }
}

proof fn lemma_max_degree_bound(edges: Seq<EdgeInfo>, n: int)
    ensures
        max_degree(edges, n) <= 2 * edges.len(),
    decreases n,
{
    if n > 0 {
        lemma_max_degree_bound(edges, n - 1);
        lemma_degree_bound(edges, n - 1);
    }
}

/// A node of the largest degree has weight 1.0, wherever the graph has an edge.
pub proof fn law_busiest_node_weighs_one(
    g: &CsrGraph,
    nodes: Seq<NodeInfo>,
    edges: Seq<EdgeInfo>,
    i: int,
)
    requires
        g.holds(nodes, edges),
        0 <= i < nodes.len(),
        0 < degree(edges, i) == max_degree(edges, nodes.len() as int),
    ensures
        g.nodes@[i].weight == F32_ONE,
{
    lemma_graph_size(g, i);
    lemma_degree_bound(edges, i);
    lemma_part_of_itself(degree(edges, i));
}

/// The reverse index mirrors the forward index: `a` is an in-neighbour of `b` exactly when some
/// edge leaves `a` for `b`.
pub proof fn law_reverse_mirrors_forward(
    g: &CsrGraph,
    nodes: Seq<NodeInfo>,
    edges: Seq<EdgeInfo>,
    a: u32,
    b: u32,
)
    requires
        g.holds(nodes, edges),
        a < nodes.len(),
        b < nodes.len(),
    ensures
        g.in_nodes(b as int).contains(a) <==> targets(g.out_edges(a as int)).contains(b),
{
    let into = edges.filter(enters(b as int));
    let out = edges.filter(leaves(a as int));
    assert(g.in_nodes(b as int) == sources(into));
    assert(g.out_edges(a as int) == out);
    if sources(into).contains(a) {
        let j = sources(into).index_of(a);
        edges.lemma_filter_pred(enters(b as int), j);
        assert(into.contains(into[j]));
        edges.lemma_filter_contains_rev(enters(b as int), into[j]);
        let k = edges.index_of(into[j]);
        edges.lemma_filter_contains(leaves(a as int), k);
        let q = out.index_of(edges[k]);
        assert(targets(out)[q] == b);
    }
    if targets(out).contains(b) {
        let j = targets(out).index_of(b);
        edges.lemma_filter_pred(leaves(a as int), j);
        assert(out.contains(out[j]));
        edges.lemma_filter_contains_rev(leaves(a as int), out[j]);
        let k = edges.index_of(out[j]);
        edges.lemma_filter_contains(enters(b as int), k);
        let q = into.index_of(edges[k]);
        assert(sources(into)[q] == a);
    }
}

/// A graph holds the edges that it was built from: those that leave a node, in the order given, and
/// for each node the starts of those that enter it, in that order too.
pub proof fn law_graph_holds_its_edges(
    g: &CsrGraph,
    nodes: Seq<NodeInfo>,
    edges: Seq<EdgeInfo>,
    i: int,
)
    requires
        g.holds(nodes, edges),
        0 <= i < nodes.len(),
    ensures
        g.topology.edge_count() == edges.len(),
        g.out_edges(i) == edges.filter(|e: EdgeInfo| e.from == i),
        g.in_nodes(i) == edges.filter(|e: EdgeInfo| e.to == i).map_values(|e: EdgeInfo| e.from),
{
    assert(g.out_edges(i) == edges.filter(leaves(i)));
    assert(g.in_nodes(i) == sources(edges.filter(enters(i))));
    assert(leaves(i) =~= (|e: EdgeInfo| e.from == i));
    assert(enters(i) =~= (|e: EdgeInfo| e.to == i));
}

/// A graph keeps its nodes in their places as they were given, but for their weights.
pub proof fn law_graph_keeps_its_nodes(
    g: &CsrGraph,
    nodes: Seq<NodeInfo>,
    edges: Seq<EdgeInfo>,
    i: int,
)
    requires
        g.holds(nodes, edges),
        0 <= i < nodes.len(),
    ensures
        g.nodes@.len() == nodes.len(),
        g.nodes@[i].id == nodes[i].id,
        g.nodes@[i].name == nodes[i].name,
        g.nodes@[i].node_type == nodes[i].node_type,
        g.nodes@[i].props == nodes[i].props,
        g.nodes@[i].full_context == nodes[i].full_context,
        g.nodes@[i].embed_context == nodes[i].embed_context,
        g.nodes@[i].external_id == nodes[i].external_id,
        g.nodes@[i].image_url == nodes[i].image_url,
{
    assert(g.nodes@[i] == with_weight(nodes[i], importance(edges, nodes.len() as int, i)));
}

proof fn lemma_degree_counts(g: &CsrGraph, nodes: Seq<NodeInfo>, edges: Seq<EdgeInfo>, i: int)
    requires
        g.holds(nodes, edges),
        0 <= i < nodes.len(),
    ensures
        degree(edges, i) == g.out_edges(i).len() + g.in_nodes(i).len(),
{
    assert(g.out_edges(i) == edges.filter(leaves(i)));
    assert(g.in_nodes(i) == sources(edges.filter(enters(i))));
}

proof fn lemma_max_is_reached(
    g: &CsrGraph,
    nodes: Seq<NodeInfo>,
    edges: Seq<EdgeInfo>,
    n: int,
    top: nat,
)
    requires
        g.holds(nodes, edges),
        0 <= n <= nodes.len(),
        forall|j: int|
            0 <= j < n ==> #[trigger] g.out_edges(j).len() + g.in_nodes(j).len() <= top,
    ensures
        max_degree(edges, n) <= top,
    decreases n,
{
    if n > 0 {
        lemma_max_is_reached(g, nodes, edges, n - 1, top);
        lemma_degree_counts(g, nodes, edges, n - 1);
        assert(g.out_edges(n - 1).len() + g.in_nodes(n - 1).len() <= top);
    }
}

/// The weight of a node is the share of its edges, those that leave it and those that enter it, in
/// those of the node `b` that has the most. In a graph without edges every weight is 0.
pub proof fn law_weight_is_the_share_of_the_busiest(
    g: &CsrGraph,
    nodes: Seq<NodeInfo>,
    edges: Seq<EdgeInfo>,
    b: int,
    i: int,
)
    requires
        g.holds(nodes, edges),
        0 <= b < nodes.len(),
        0 <= i < nodes.len(),
        forall|j: int|
            0 <= j < nodes.len() ==> #[trigger] g.out_edges(j).len() + g.in_nodes(j).len()
                <= g.out_edges(b).len() + g.in_nodes(b).len(),
    ensures
        g.nodes@[i].weight == (if g.out_edges(b).len() + g.in_nodes(b).len() == 0 {
            0
        } else {
            f32_part(
                g.out_edges(i).len() + g.in_nodes(i).len(),
                g.out_edges(b).len() + g.in_nodes(b).len(),
            )
        }),
{
    let n = nodes.len() as int;
    let top = g.out_edges(b).len() + g.in_nodes(b).len();
    lemma_degree_counts(g, nodes, edges, b);
    lemma_degree_counts(g, nodes, edges, i);
    lemma_max_degree(edges, n, b);
    lemma_max_is_reached(g, nodes, edges, n, top);
    law_weights_in_unit_range(g, nodes, edges, i);
    assert(g.nodes@[i] == with_weight(nodes[i], importance(edges, n, i)));
    lemma_graph_size(g, i);
    lemma_max_degree(edges, n, i);
    lemma_max_degree_bound(edges, n);
    lemma_degree_bound(edges, i);
    if top > 0 {
        lemma_part_in_unit_range(degree(edges, i), max_degree(edges, n));
    }
}

/// An external id leads to the last node that has it, and is known exactly when a node has it. The
/// empty one is never known.
pub proof fn law_external_id_leads_to_its_node(nodes: Seq<NodeInfo>, id: Seq<char>)
    requires
        nodes.len() <= u32::MAX,
    ensures
        external_ids(nodes).contains_key(id) <==> id.len() > 0 && exists|i: int|
            0 <= i < nodes.len() && (#[trigger] nodes[i]).external_id@ == id,
        external_ids(nodes).contains_key(id) ==> {
            let i = external_ids(nodes)[id] as int;
            &&& i < nodes.len()
            &&& nodes[i].external_id@ == id
            &&& forall|j: int| i < j < nodes.len() ==> (#[trigger] nodes[j]).external_id@ != id
        },
    decreases nodes.len(),
{
    if nodes.len() > 0 {
        let rest = nodes.drop_last();
        let last = nodes.len() - 1;
        law_external_id_leads_to_its_node(rest, id);
        assert forall|i: int| 0 <= i < last implies #[trigger] rest[i] == nodes[i] by {}
        if nodes[last].external_id@ != id {
            if external_ids(rest).contains_key(id) {
                let i = external_ids(rest)[id] as int;
                assert(nodes[i].external_id@ == id);
                assert forall|j: int| i < j < nodes.len() implies (#[trigger] nodes[j]).external_id@
                    != id by {
                    if j < last {
                        assert(rest[j] == nodes[j]);
                    }
                }
            }
            if exists|i: int| 0 <= i < nodes.len() && (#[trigger] nodes[i]).external_id@ == id {
                let i = choose|i: int|
                    0 <= i < nodes.len() && (#[trigger] nodes[i]).external_id@ == id;
                assert(rest[i].external_id@ == id);
            }
        } else if id.len() > 0 {
            assert(nodes[last].external_id@ == id);
        }
    }
}

/// The columns of a node's edges show, at the same place, what one edge says.
pub proof fn law_columns_show_the_edges(edges: Seq<EdgeInfo>, j: int)
    requires
        0 <= j < edges.len(),
    ensures
        targets(edges).len() == edges.len(),
        weights(edges).len() == edges.len(),
        edge_types(edges).len() == edges.len(),
        full_contexts(edges).len() == edges.len(),
        embed_contexts(edges).len() == edges.len(),
        edge_ids(edges).len() == edges.len(),
        targets(edges)[j] == edges[j].to,
        weights(edges)[j] == edges[j].weight,
        edge_types(edges)[j] == edges[j].edge_type,
        full_contexts(edges)[j] == edges[j].full_context,
        embed_contexts(edges)[j] == edges[j].embed_context,
        edge_ids(edges)[j] == edges[j].edge_id,
{
}

/// What a node reads as is what its fields hold, all of them; the same of a list of nodes, in order.
pub proof fn law_nodes_read_as_their_fields(nodes: Seq<NodeInfo>, i: int)
    requires
        0 <= i < nodes.len(),
    ensures
        node_views(nodes).len() == nodes.len(),
        ({
            let n = nodes[i];
            let v = node_views(nodes)[i];
            &&& v.id == n.id
            &&& v.name == n.name@
            &&& v.node_type == n.node_type@
            &&& v.weight == n.weight
            &&& v.props == json_tree(n.props)
            &&& v.full_context == n.full_context@
            &&& v.external_id == n.external_id@
            &&& v.embed_context is Some <==> n.embed_context is Some
            &&& n.embed_context matches Some(s) ==> v.embed_context == Some(s@)
            &&& v.image_url is Some <==> n.image_url is Some
            &&& n.image_url matches Some(s) ==> v.image_url == Some(s@)
        }),
{
}

/// The same of an edge.
pub proof fn law_edges_read_as_their_fields(edges: Seq<EdgeInfo>, i: int)
    requires
        0 <= i < edges.len(),
    ensures
        edge_views(edges).len() == edges.len(),
        ({
            let e = edges[i];
            let v = edge_views(edges)[i];
            &&& v.from == e.from
            &&& v.to == e.to
            &&& v.edge_type == e.edge_type@
            &&& v.weight == e.weight
            &&& v.full_context == e.full_context@
            &&& v.embed_context is Some <==> e.embed_context is Some
            &&& e.embed_context matches Some(s) ==> v.embed_context == Some(s@)
            &&& v.edge_id == e.edge_id
        }),
{
}

} // verus!

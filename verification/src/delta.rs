//! The delta store: new nodes and edges that are not yet part of the graph.

use crate::digits::{decimal, decimal_text, parse_unsigned, unsigned_of};
use crate::graph::csr::{
    edge_views, endpoints_in_range, flat_edges, leaves, lemma_graph_size, node_views, CsrGraph,
    EdgeInfo, EdgeView, NodeInfo, NodeView,
};
use crate::json::JsonTree;
use crate::text::arg_text;
use crate::vector::hnsw::first_dim;
use crate::vector::store::{all_of_dim, same_dim};
use crate::wal::{
    fits_line, law_bytes_give_the_payloads_of_text, law_log_gives_back_entries, log_entries,
    payload_entry, wal_text, WalEntryView,
};
use std::collections::HashMap;
use vstd::prelude::*;
use vstd::string::*;
use vstd::utf8::encode_utf8;

verus! {

broadcast use vstd::std_specs::hash::group_hash_axioms;

// ── delta graph ──────────────────────────────────────────────────────────────

/// Mutable adjacency lists for what is not yet part of the graph.
pub struct DeltaGraph {
    /// From node id to its adjacency list of ends and weights.
    pub adj: HashMap<u32, Vec<(u32, u32)>>,
    /// New nodes.
    pub new_nodes: Vec<NodeInfo>,
    /// Embeddings of the new nodes, parallel to `new_nodes`.
    pub new_vecs: Vec<Vec<u32>>,
    /// New edges.
    pub new_edges: Vec<EdgeInfo>,
    /// Embeddings of the new edges, parallel to `new_edges`; empty for an edge without one.
    pub new_edge_vecs: Vec<Vec<u32>>,
}

/// The ends and weights of the edges that leave node `id`.
pub open spec fn adjacency(edges: Seq<EdgeInfo>, id: u32) -> Seq<(u32, u32)> {
    edges.filter(leaves(id as int)).map_values(|e: EdgeInfo| (e.to, e.weight))
}

/// A new node has this id, or a new edge leaves it.
pub open spec fn has_list(nodes: Seq<NodeInfo>, edges: Seq<EdgeInfo>, id: u32) -> bool {
    ||| exists|j: int| 0 <= j < nodes.len() && (#[trigger] nodes[j]).id == id
    ||| exists|j: int| 0 <= j < edges.len() && (#[trigger] edges[j]).from == id
}

impl DeltaGraph {
    /// The parallel lists agree, and there is an adjacency list, that of the new edges, exactly for
    /// each new node and each start of a new edge.
    pub open spec fn wf(&self) -> bool {
        &&& self.new_vecs@.len() == self.new_nodes@.len()
        &&& self.new_edge_vecs@.len() == self.new_edges@.len()
        &&& self.new_nodes@.len() + self.new_edges@.len() <= usize::MAX
        &&& forall|id: u32| #[trigger]
            self.adj@.contains_key(id) ==> self.adj@[id]@ == adjacency(self.new_edges@, id)
        &&& forall|id: u32| #[trigger]
            self.adj@.contains_key(id) <==> has_list(self.new_nodes@, self.new_edges@, id)
    }

    /// The adjacency lists by node id.
    pub open spec fn lists(&self) -> Map<u32, Seq<(u32, u32)>> {
        self.adj@.map_values(|list: Vec<(u32, u32)>| list@)
    }

    /// How many entries there are.
    pub open spec fn entry_count(&self) -> nat {
        self.new_nodes@.len() + self.new_edges@.len()
    }

    /// There is nothing.
    pub open spec fn cleared(&self) -> bool {
        &&& self.wf()
        &&& self.new_nodes@.len() == 0
        &&& self.new_edges@.len() == 0
    }
}

impl Default for DeltaGraph {
    fn default() -> (r: Self)
        ensures
            r.cleared(),
    {
        DeltaGraph {
            adj: HashMap::new(),
            new_nodes: Vec::new(),
            new_vecs: Vec::new(),
            new_edges: Vec::new(),
            new_edge_vecs: Vec::new(),
        }
    }
}

proof fn lemma_no_edges_no_adjacency(edges: Seq<EdgeInfo>, id: u32)
    requires
        forall|j: int| 0 <= j < edges.len() ==> (#[trigger] edges[j]).from != id,
    ensures
        adjacency(edges, id) == Seq::<(u32, u32)>::empty(),
    decreases edges.len(),
{
    reveal(Seq::filter);
    if edges.len() > 0 {
        let rest = edges.drop_last();
        assert forall|j: int| 0 <= j < rest.len() implies (#[trigger] rest[j]).from != id by {
            assert(edges[j].from != id);
        }
        lemma_no_edges_no_adjacency(rest, id);
        assert(edges[edges.len() - 1].from != id);
        assert(edges.filter(leaves(id as int)) == rest.filter(leaves(id as int)));
    }
    assert(adjacency(edges, id) =~= Seq::<(u32, u32)>::empty());
}

proof fn lemma_adjacency_push(edges: Seq<EdgeInfo>, e: EdgeInfo, id: u32)
    ensures
        adjacency(edges.push(e), id) == (if e.from == id {
            adjacency(edges, id).push((e.to, e.weight))
        } else {
            adjacency(edges, id)
        }),
{
    reveal(Seq::filter);
    assert(edges.push(e).drop_last() =~= edges);
    assert(adjacency(edges.push(e), id) =~= (if e.from == id {
        adjacency(edges, id).push((e.to, e.weight))
    } else {
        adjacency(edges, id)
    }));
}

proof fn lemma_has_list_node(nodes: Seq<NodeInfo>, edges: Seq<EdgeInfo>, node: NodeInfo, id: u32)
    ensures
        has_list(nodes.push(node), edges, id) <==> has_list(nodes, edges, id) || node.id == id,
{
    let all = nodes.push(node);
    if has_list(nodes, edges, id) {
        if exists|j: int| 0 <= j < nodes.len() && (#[trigger] nodes[j]).id == id {
            let j = choose|j: int| 0 <= j < nodes.len() && (#[trigger] nodes[j]).id == id;
            assert(all[j].id == id);
        }
    }
    if node.id == id {
        assert(all[nodes.len() as int].id == id);
    }
    if exists|j: int| 0 <= j < all.len() && (#[trigger] all[j]).id == id {
        let j = choose|j: int| 0 <= j < all.len() && (#[trigger] all[j]).id == id;
        if j < nodes.len() {
            assert(nodes[j].id == id);
        }
    }
}

proof fn lemma_has_list_edge(nodes: Seq<NodeInfo>, edges: Seq<EdgeInfo>, e: EdgeInfo, id: u32)
    ensures
        has_list(nodes, edges.push(e), id) <==> has_list(nodes, edges, id) || e.from == id,
{
    let all = edges.push(e);
    if exists|j: int| 0 <= j < edges.len() && (#[trigger] edges[j]).from == id {
        let j = choose|j: int| 0 <= j < edges.len() && (#[trigger] edges[j]).from == id;
        assert(all[j].from == id);
    }
    if e.from == id {
        assert(all[edges.len() as int].from == id);
    }
    if exists|j: int| 0 <= j < all.len() && (#[trigger] all[j]).from == id {
        let j = choose|j: int| 0 <= j < all.len() && (#[trigger] all[j]).from == id;
        if j < edges.len() {
            assert(edges[j].from == id);
        }
    }
}

impl DeltaGraph {
    pub fn is_empty(&self) -> (r: bool)
        ensures
            r == (self.entry_count() == 0),
    {
        self.new_nodes.is_empty() && self.new_edges.is_empty()
    }

    pub fn size(&self) -> (r: usize)
        requires
            self.wf(),
        ensures
            r == self.entry_count(),
    {
        self.new_nodes.len() + self.new_edges.len()
    }

    pub fn nodes_len(&self) -> (r: usize)
        ensures
            r == self.new_nodes@.len(),
    {
        self.new_nodes.len()
    }

    pub fn edges_len(&self) -> (r: usize)
        ensures
            r == self.new_edges@.len(),
    {
        self.new_edges.len()
    }

    /// The first new node with this id.
    pub fn get_node(&self, id: u32) -> (r: Option<&NodeInfo>)
        ensures
            match r {
                Some(n) => find_node(self.new_nodes@, id) == Some(*n),
                None => find_node(self.new_nodes@, id) is None,
            },
    {
        let mut i: usize = 0;
        proof {
            assert(self.new_nodes@.skip(0) =~= self.new_nodes@);
        }
        while i < self.new_nodes.len()
            invariant
                i <= self.new_nodes@.len(),
                find_node(self.new_nodes@, id) == find_node(self.new_nodes@.skip(i as int), id),
            decreases self.new_nodes@.len() - i,
        {
            if self.new_nodes[i].id == id {
                return Some(&self.new_nodes[i]);
            }
            proof {
                assert(self.new_nodes@.skip(i as int).drop_first() =~= self.new_nodes@.skip(i + 1));
            }
            i += 1;
        }
        None
    }

    /// Adjacency list of a node: empty if the delta holds no edge that leaves it.
    pub fn neighbors(&self, node_id: u32) -> (r: &[(u32, u32)])
        requires
            self.wf(),
        ensures
            r@ == adjacency(self.new_edges@, node_id),
    {
        match self.adj.get(&node_id) {
            Some(list) => list.as_slice(),
            None => {
                proof {
                    assert(!has_list(self.new_nodes@, self.new_edges@, node_id));
                    lemma_no_edges_no_adjacency(self.new_edges@, node_id);
                }
                let r: &[(u32, u32)] = &[];
                proof {
                    assert(r@ =~= Seq::<(u32, u32)>::empty());
                }
                r
            },
        }
    }

    pub fn add_node(&mut self, node: NodeInfo, vec: Vec<u32>)
        requires
            old(self).wf(),
            old(self).entry_count() < usize::MAX,
        ensures
            final(self).wf(),
            final(self).new_nodes@ == old(self).new_nodes@.push(node),
            final(self).new_vecs@ == old(self).new_vecs@.push(vec),
            final(self).new_edges == old(self).new_edges,
            final(self).new_edge_vecs == old(self).new_edge_vecs,
    {
        let ghost before = *self;
        let id: u32 = node.id;
        if !self.adj.contains_key(&id) {
            proof {
                assert(!has_list(self.new_nodes@, self.new_edges@, id));
                lemma_no_edges_no_adjacency(self.new_edges@, id);
            }
            self.adj.insert(id, Vec::new());
        }
        self.new_nodes.push(node);
        self.new_vecs.push(vec);
        proof {
            assert forall|other: u32| #[trigger] self.adj@.contains_key(other) <==> has_list(
                self.new_nodes@,
                self.new_edges@,
                other,
            ) by {
                lemma_has_list_node(before.new_nodes@, before.new_edges@, node, other);
                assert(before.adj@.contains_key(other) <==> has_list(
                    before.new_nodes@,
                    before.new_edges@,
                    other,
                ));
            }
        }
    }

    pub fn add_edge(&mut self, edge: EdgeInfo, vec: Vec<u32>)
        requires
            old(self).wf(),
            old(self).entry_count() < usize::MAX,
        ensures
            final(self).wf(),
            final(self).new_nodes == old(self).new_nodes,
            final(self).new_vecs == old(self).new_vecs,
            final(self).new_edges@ == old(self).new_edges@.push(edge),
            final(self).new_edge_vecs@ == old(self).new_edge_vecs@.push(vec),
    {
        let ghost was = *self;
        let ghost before = self.new_edges@;
        let from: u32 = edge.from;
        let mut list: Vec<(u32, u32)> = match self.adj.remove(&from) {
            Some(list) => list,
            None => {
                proof {
                    assert(!was.adj@.contains_key(from));
                    assert(!has_list(self.new_nodes@, self.new_edges@, from));
                    lemma_no_edges_no_adjacency(self.new_edges@, from);
                }
                Vec::new()
            },
        };
        list.push((edge.to, edge.weight));
        self.adj.insert(from, list);
        proof {
            assert forall|id: u32| #[trigger] self.adj@.contains_key(id) implies self.adj@[id]@
                == adjacency(before.push(edge), id) by {
                lemma_adjacency_push(before, edge, id);
                if id != from {
                    assert(was.adj@.contains_key(id));
                }
            }
            assert forall|id: u32| #[trigger] self.adj@.contains_key(id) <==> has_list(
                self.new_nodes@,
                before.push(edge),
                id,
            ) by {
                lemma_has_list_edge(self.new_nodes@, before, edge, id);
                assert(was.adj@.contains_key(id) <==> has_list(self.new_nodes@, before, id));
            }
        }
        self.new_edges.push(edge);
        self.new_edge_vecs.push(vec);
    }
}

/// The first of `nodes` with this id.
pub open spec fn find_node(nodes: Seq<NodeInfo>, id: u32) -> Option<NodeInfo>
    decreases nodes.len(),
{
    if nodes.len() == 0 {
        None
    } else if nodes[0].id == id {
        Some(nodes[0])
    } else {
        find_node(nodes.drop_first(), id)
    }
}

// ── replaying the log ────────────────────────────────────────────────────────

/// A log entry whose node or edge has been read from its JSON, where that was possible.
pub enum ReplayEntry {
    AddNode { node: Option<NodeInfo>, vec: Vec<u32> },
    AddEdge { edge: Option<EdgeInfo>, vec: Vec<u32> },
}

/// The nodes of a list of entries, in order.
pub open spec fn replayed_nodes(entries: Seq<ReplayEntry>) -> Seq<NodeInfo> {
    entries.filter_map(
        |e: ReplayEntry|
            match e {
                ReplayEntry::AddNode { node, .. } => node,
                ReplayEntry::AddEdge { .. } => None,
            },
    )
}

/// The embeddings of the nodes of a list of entries, in order.
pub open spec fn replayed_vecs(entries: Seq<ReplayEntry>) -> Seq<Vec<u32>> {
    entries.filter_map(
        |e: ReplayEntry|
            match e {
                ReplayEntry::AddNode { node: Some(n), vec } => Some(vec),
                _ => None,
            },
    )
}

/// The edges of a list of entries, in order.
pub open spec fn replayed_edges(entries: Seq<ReplayEntry>) -> Seq<EdgeInfo> {
    entries.filter_map(
        |e: ReplayEntry|
            match e {
                ReplayEntry::AddEdge { edge, .. } => edge,
                ReplayEntry::AddNode { .. } => None,
            },
    )
}

/// The embeddings of the edges of a list of entries, in order.
pub open spec fn replayed_edge_vecs(entries: Seq<ReplayEntry>) -> Seq<Vec<u32>> {
    entries.filter_map(
        |e: ReplayEntry|
            match e {
                ReplayEntry::AddEdge { edge: Some(x), vec } => Some(vec),
                _ => None,
            },
    )
}

impl DeltaGraph {
    /// Adds the entries of a log, skipping those that could not be read. Returns how many were
    /// added.
    pub fn replay(&mut self, entries: Vec<ReplayEntry>) -> (count: usize)
        requires
            old(self).wf(),
            old(self).entry_count() + entries@.len() <= usize::MAX,
        ensures
            final(self).wf(),
            final(self).new_nodes@ == old(self).new_nodes@ + replayed_nodes(entries@),
            final(self).new_vecs@ == old(self).new_vecs@ + replayed_vecs(entries@),
            final(self).new_edges@ == old(self).new_edges@ + replayed_edges(entries@),
            final(self).new_edge_vecs@ == old(self).new_edge_vecs@ + replayed_edge_vecs(entries@),
            count == replayed_nodes(entries@).len() + replayed_edges(entries@).len(),
    {
        let ghost all = entries@;
        let ghost before = *self;
        let mut count: usize = 0;
        proof {
            assert(self.new_nodes@ =~= before.new_nodes@ + replayed_nodes(all.take(0)));
            assert(self.new_vecs@ =~= before.new_vecs@ + replayed_vecs(all.take(0)));
            assert(self.new_edges@ =~= before.new_edges@ + replayed_edges(all.take(0)));
            assert(self.new_edge_vecs@ =~= before.new_edge_vecs@ + replayed_edge_vecs(all.take(0)));
        }
        for entry in it: entries
            invariant
                it.seq() == all,
                self.wf(),
                before.entry_count() + all.len() <= usize::MAX,
                self.entry_count() == before.entry_count() + count,
                count <= it.index(),
                self.new_nodes@ == before.new_nodes@ + replayed_nodes(all.take(it.index())),
                self.new_vecs@ == before.new_vecs@ + replayed_vecs(all.take(it.index())),
                self.new_edges@ == before.new_edges@ + replayed_edges(all.take(it.index())),
                self.new_edge_vecs@ == before.new_edge_vecs@ + replayed_edge_vecs(
                    all.take(it.index()),
                ),
                count == replayed_nodes(all.take(it.index())).len() + replayed_edges(
                    all.take(it.index()),
                ).len(),
        {
            let ghost k = it.index();
            proof {
                assert(all.take(k + 1).drop_last() =~= all.take(k));
                assert(all.take(k + 1).last() == entry);
            }
            match entry {
                ReplayEntry::AddNode { node, vec } => match node {
                    Some(n) => {
                        self.add_node(n, vec);
                        count += 1;
                        proof {
                            assert(self.new_nodes@ =~= before.new_nodes@ + replayed_nodes(
                                all.take(k + 1),
                            ));
                            assert(self.new_vecs@ =~= before.new_vecs@ + replayed_vecs(
                                all.take(k + 1),
                            ));
                        }
                    },
                    None => {},
                },
                ReplayEntry::AddEdge { edge, vec } => match edge {
                    Some(e) => {
                        self.add_edge(e, vec);
                        count += 1;
                        proof {
                            assert(self.new_edges@ =~= before.new_edges@ + replayed_edges(
                                all.take(k + 1),
                            ));
                            assert(self.new_edge_vecs@ =~= before.new_edge_vecs@
                                + replayed_edge_vecs(all.take(k + 1)));
                        }
                    },
                    None => {},
                },
            }
        }
        proof {
            assert(all.take(all.len() as int) =~= all);
        }
        count
    }
}

// ── delta store ──────────────────────────────────────────────────────────────

/// How many ids one instance can hand out, with the one that marks the end of its range.
pub const INSTANCE_RANGE: u32 = 0x100_0000;

/// The ids of an instance are used up.
pub struct IdSpaceExhausted {
    pub instance_id: u32,
    pub limit: u32,
}

impl IdSpaceExhausted {
    pub open spec fn text(self) -> Seq<char> {
        "node ID space exhausted for instance "@ + decimal_text(self.instance_id as nat)
            + " (limit: "@ + decimal_text(self.limit as nat) + ")"@
    }

    /// The error as text.
    pub fn message(&self) -> (r: String)
        ensures
            r@ == self.text(),
    {
        let mut r: String = "node ID space exhausted for instance ".to_owned();
        r.append(decimal(self.instance_id as u64).as_str());
        r.append(" (limit: ");
        r.append(decimal(self.limit as u64).as_str());
        r.append(")");
        r
    }
}

/// The delta graph with its id allocators.
pub struct DeltaStore {
    pub inner: DeltaGraph,
    /// A merge is due at this many entries.
    pub merge_threshold: usize,
    /// The instance, 0 to 255: the upper 8 bits of the node ids it hands out.
    pub instance_id: u32,
    pub next_node_id: u32,
    pub next_edge_id: u64,
}

/// The first id of an instance's range.
pub open spec fn instance_floor(instance_id: u32) -> int {
    instance_id * 0x100_0000
}

/// The last id of an instance's range, which is never handed out.
pub open spec fn instance_limit(instance_id: u32) -> int {
    instance_floor(instance_id) + 0xff_ffff
}

/// Whether an instance may hand out this node id.
pub open spec fn is_id_of(instance_id: u32, id: u32) -> bool {
    instance_floor(instance_id) <= id < instance_limit(instance_id)
}

/// The instance that the text of a setting names: 0 without one, or if it is not a number up to
/// 255.
pub open spec fn instance_of(setting: Option<Seq<char>>) -> nat {
    match setting {
        Some(s) => match unsigned_of(s, 255) {
            Some(n) => n,
            None => 0,
        },
        None => 0,
    }
}

/// The pairs of a list.
pub open spec fn firsts<A, B>(pairs: Seq<(A, B)>) -> Seq<A> {
    pairs.map_values(|p: (A, B)| p.0)
}

pub open spec fn seconds<A, B>(pairs: Seq<(A, B)>) -> Seq<B> {
    pairs.map_values(|p: (A, B)| p.1)
}

/// One past the highest of an instance's own ids, or 0 if there is none.
pub open spec fn past_ids(nodes: Seq<NodeInfo>, instance_id: u32) -> int
    decreases nodes.len(),
{
    if nodes.len() == 0 {
        0
    } else {
        let before = past_ids(nodes.drop_last(), instance_id);
        let id = nodes.last().id;
        if is_id_of(instance_id, id) && id >= before {
            id + 1
        } else {
            before
        }
    }
}

/// Where an instance's ids start: past as many nodes as are known, counted from the end of the base
/// graph or the start of the instance's range, and past every id of the range that is in use.
pub open spec fn free_id(nodes: Seq<NodeInfo>, instance_id: u32, base_nodes: u32) -> int {
    let first = if base_nodes > instance_floor(instance_id) {
        base_nodes as int
    } else {
        instance_floor(instance_id)
    };
    let behind = if first + nodes.len() > u32::MAX {
        u32::MAX as int
    } else {
        first + nodes.len() as int
    };
    if past_ids(nodes, instance_id) > behind {
        past_ids(nodes, instance_id)
    } else {
        behind
    }
}

proof fn lemma_past_ids(nodes: Seq<NodeInfo>, instance_id: u32, i: int)
    requires
        0 <= i < nodes.len(),
        is_id_of(instance_id, nodes[i].id),
    ensures
        nodes[i].id < past_ids(nodes, instance_id),
    decreases nodes.len(),
{
    if i < nodes.len() - 1 {
        lemma_past_ids(nodes.drop_last(), instance_id, i);
    }
}

/// Ids start past every node of the base graph and every new node that has an id of the instance:
/// an id that is handed out is in use nowhere.
pub proof fn law_ids_start_past_known_nodes(
    nodes: Seq<NodeInfo>,
    instance_id: u32,
    base_nodes: u32,
    i: int,
)
    requires
        0 <= i < nodes.len(),
        is_id_of(instance_id, nodes[i].id),
    ensures
        base_nodes <= free_id(nodes, instance_id, base_nodes),
        nodes[i].id < free_id(nodes, instance_id, base_nodes),
{
    lemma_past_ids(nodes, instance_id, i);
}

impl DeltaStore {
    pub open spec fn wf(&self) -> bool {
        &&& self.inner.wf()
        &&& self.instance_id <= 255
        &&& instance_floor(self.instance_id) <= self.next_node_id
    }

    /// Everything but the delta graph is as in `other`.
    pub open spec fn same_allocators(&self, other: &DeltaStore) -> bool {
        &&& self.merge_threshold == other.merge_threshold
        &&& self.instance_id == other.instance_id
        &&& self.next_node_id == other.next_node_id
        &&& self.next_edge_id == other.next_edge_id
    }

    /// An empty store for the instance that `instance_setting` names.
    pub fn new(instance_setting: Option<&str>, merge_threshold: usize) -> (r: Self)
        ensures
            r.wf(),
            r.inner.cleared(),
            r.merge_threshold == merge_threshold,
            r.instance_id == instance_of(arg_text(instance_setting)),
            r.next_node_id == instance_floor(r.instance_id),
            r.next_edge_id == 1,
    {
        let instance_id: u32 = match instance_setting {
            Some(s) => match parse_unsigned(s, 255) {
                Some(n) => n as u32,
                None => 0,
            },
            None => 0,
        };
        DeltaStore {
            inner: DeltaGraph::default(),
            merge_threshold,
            instance_id,
            next_node_id: instance_id * INSTANCE_RANGE,
            next_edge_id: 1,
        }
    }

    /// Sets the starting point of node ids, once the base graph is loaded and the log replayed:
    /// past all known nodes, and not below the instance's range.
    pub fn init_node_ids(&mut self, base: u32)
        requires
            old(self).wf(),
        ensures
            final(self).wf(),
            final(self).inner == old(self).inner,
            final(self).merge_threshold == old(self).merge_threshold,
            final(self).instance_id == old(self).instance_id,
            final(self).next_edge_id == old(self).next_edge_id,
            final(self).next_node_id == (if base > instance_floor(old(self).instance_id) {
                base as int
            } else {
                instance_floor(old(self).instance_id)
            }),
    {
        let floor: u32 = self.instance_id * INSTANCE_RANGE;
        self.next_node_id = if base > floor {
            base
        } else {
            floor
        };
    }

    /// Where node ids start once the base graph is loaded and the log replayed: past every known
    /// node of the graph and of this instance's range.
    pub fn first_free_id(&self, base_nodes: u32) -> (r: u32)
        requires
            self.wf(),
        ensures
            r == free_id(self.inner.new_nodes@, self.instance_id, base_nodes),
    {
        let floor: u32 = self.instance_id * INSTANCE_RANGE;
        let limit: u32 = floor + 0xff_ffff;
        let first: u32 = if base_nodes > floor {
            base_nodes
        } else {
            floor
        };
        let mut past: u32 = 0;
        let mut i: usize = 0;
        while i < self.inner.new_nodes.len()
            invariant
                i <= self.inner.new_nodes@.len(),
                floor == instance_floor(self.instance_id),
                limit == instance_limit(self.instance_id),
                past == past_ids(self.inner.new_nodes@.take(i as int), self.instance_id),
                past <= limit,
            decreases self.inner.new_nodes@.len() - i,
        {
            let id: u32 = self.inner.new_nodes[i].id;
            proof {
                let seen = self.inner.new_nodes@.take(i + 1);
                assert(seen.drop_last() =~= self.inner.new_nodes@.take(i as int));
                assert(seen.last() == self.inner.new_nodes@[i as int]);
            }
            if floor <= id && id < limit && id >= past {
                past = id + 1;
            }
            i += 1;
        }
        proof {
            assert(self.inner.new_nodes@.take(i as int) =~= self.inner.new_nodes@);
        }
        let replayed: usize = self.inner.new_nodes.len();
        let behind: u32 = if replayed > (u32::MAX - first) as usize {
            u32::MAX
        } else {
            first + replayed as u32
        };
        if past > behind {
            past
        } else {
            behind
        }
    }

    /// Hands out the next node id of this instance's range, if one is left.
    pub fn alloc_node_id(&mut self) -> (r: Result<u32, IdSpaceExhausted>)
        requires
            old(self).wf(),
        ensures
            final(self).wf(),
            match r {
                Ok(id) => {
                    &&& is_id_of(old(self).instance_id, id)
                    &&& id == old(self).next_node_id
                    &&& final(self).next_node_id == id + 1
                    &&& final(self).inner == old(self).inner
                    &&& final(self).merge_threshold == old(self).merge_threshold
                    &&& final(self).instance_id == old(self).instance_id
                    &&& final(self).next_edge_id == old(self).next_edge_id
                },
                Err(e) => {
                    &&& old(self).next_node_id >= instance_limit(old(self).instance_id)
                    &&& e.instance_id == old(self).instance_id
                    &&& e.limit == instance_limit(old(self).instance_id)
                    &&& *final(self) == *old(self)
                },
            },
    {
        let id: u32 = self.next_node_id;
        let limit: u32 = self.instance_id * INSTANCE_RANGE + 0xff_ffff;
        if id >= limit {
            return Err(IdSpaceExhausted { instance_id: self.instance_id, limit });
        }
        self.next_node_id = id + 1;
        Ok(id)
    }

    /// Hands out the next edge id.
    pub fn alloc_edge_id(&mut self) -> (id: u64)
        requires
            old(self).wf(),
            old(self).next_edge_id < u64::MAX,
        ensures
            final(self).wf(),
            id == old(self).next_edge_id,
            final(self).next_edge_id == id + 1,
            final(self).inner == old(self).inner,
            final(self).merge_threshold == old(self).merge_threshold,
            final(self).instance_id == old(self).instance_id,
            final(self).next_node_id == old(self).next_node_id,
    {
        let id: u64 = self.next_edge_id;
        self.next_edge_id = id + 1;
        id
    }

    pub fn add_node(&mut self, node: NodeInfo, vec: Vec<u32>)
        requires
            old(self).wf(),
            old(self).inner.entry_count() < usize::MAX,
        ensures
            final(self).wf(),
            final(self).same_allocators(old(self)),
            final(self).inner.new_nodes@ == old(self).inner.new_nodes@.push(node),
            final(self).inner.new_vecs@ == old(self).inner.new_vecs@.push(vec),
            final(self).inner.new_edges == old(self).inner.new_edges,
            final(self).inner.new_edge_vecs == old(self).inner.new_edge_vecs,
    {
        self.inner.add_node(node, vec);
    }

    pub fn add_edge(&mut self, edge: EdgeInfo, vec: Vec<u32>)
        requires
            old(self).wf(),
            old(self).inner.entry_count() < usize::MAX,
        ensures
            final(self).wf(),
            final(self).same_allocators(old(self)),
            final(self).inner.new_nodes == old(self).inner.new_nodes,
            final(self).inner.new_vecs == old(self).inner.new_vecs,
            final(self).inner.new_edges@ == old(self).inner.new_edges@.push(edge),
            final(self).inner.new_edge_vecs@ == old(self).inner.new_edge_vecs@.push(vec),
    {
        self.inner.add_edge(edge, vec);
    }

    /// Adds a batch of nodes: the store is then as if they had been added one by one.
    pub fn add_nodes_batch(&mut self, nodes: Vec<(NodeInfo, Vec<u32>)>)
        requires
            old(self).wf(),
            old(self).inner.entry_count() + nodes@.len() <= usize::MAX,
        ensures
            final(self).wf(),
            final(self).same_allocators(old(self)),
            final(self).inner.new_nodes@ == old(self).inner.new_nodes@ + firsts(nodes@),
            final(self).inner.new_vecs@ == old(self).inner.new_vecs@ + seconds(nodes@),
            final(self).inner.new_edges == old(self).inner.new_edges,
            final(self).inner.new_edge_vecs == old(self).inner.new_edge_vecs,
    {
        let ghost all = nodes@;
        let ghost before = *self;
        proof {
            assert(before.inner.new_nodes@ + firsts(all.take(0)) =~= before.inner.new_nodes@);
            assert(before.inner.new_vecs@ + seconds(all.take(0)) =~= before.inner.new_vecs@);
        }
        for pair in it: nodes
            invariant
                it.seq() == all,
                self.wf(),
                self.same_allocators(&before),
                before.inner.entry_count() + all.len() <= usize::MAX,
                self.inner.entry_count() == before.inner.entry_count() + it.index(),
                self.inner.new_nodes@ == before.inner.new_nodes@ + firsts(all.take(it.index())),
                self.inner.new_vecs@ == before.inner.new_vecs@ + seconds(all.take(it.index())),
                self.inner.new_edges == before.inner.new_edges,
                self.inner.new_edge_vecs == before.inner.new_edge_vecs,
        {
            let ghost k = it.index();
            let (node, vec) = pair;
            self.add_node(node, vec);
            proof {
                assert(all.take(k + 1) =~= all.take(k).push(all[k]));
                assert(self.inner.new_nodes@ =~= before.inner.new_nodes@ + firsts(all.take(k + 1)));
                assert(self.inner.new_vecs@ =~= before.inner.new_vecs@ + seconds(all.take(k + 1)));
            }
        }
        proof {
            assert(all.take(all.len() as int) =~= all);
        }
    }

    /// Adds a batch of edges: the store is then as if they had been added one by one.
    pub fn add_edges_batch(&mut self, edges: Vec<(EdgeInfo, Vec<u32>)>)
        requires
            old(self).wf(),
            old(self).inner.entry_count() + edges@.len() <= usize::MAX,
        ensures
            final(self).wf(),
            final(self).same_allocators(old(self)),
            final(self).inner.new_nodes == old(self).inner.new_nodes,
            final(self).inner.new_vecs == old(self).inner.new_vecs,
            final(self).inner.new_edges@ == old(self).inner.new_edges@ + firsts(edges@),
            final(self).inner.new_edge_vecs@ == old(self).inner.new_edge_vecs@ + seconds(edges@),
    {
        let ghost all = edges@;
        let ghost before = *self;
        proof {
            assert(before.inner.new_edges@ + firsts(all.take(0)) =~= before.inner.new_edges@);
            assert(before.inner.new_edge_vecs@ + seconds(all.take(0))
                =~= before.inner.new_edge_vecs@);
        }
        for pair in it: edges
            invariant
                it.seq() == all,
                self.wf(),
                self.same_allocators(&before),
                before.inner.entry_count() + all.len() <= usize::MAX,
                self.inner.entry_count() == before.inner.entry_count() + it.index(),
                self.inner.new_nodes == before.inner.new_nodes,
                self.inner.new_vecs == before.inner.new_vecs,
                self.inner.new_edges@ == before.inner.new_edges@ + firsts(all.take(it.index())),
                self.inner.new_edge_vecs@ == before.inner.new_edge_vecs@ + seconds(
                    all.take(it.index()),
                ),
        {
            let ghost k = it.index();
            let (edge, vec) = pair;
            self.add_edge(edge, vec);
            proof {
                assert(all.take(k + 1) =~= all.take(k).push(all[k]));
                assert(self.inner.new_edges@ =~= before.inner.new_edges@ + firsts(all.take(k + 1)));
                assert(self.inner.new_edge_vecs@ =~= before.inner.new_edge_vecs@ + seconds(
                    all.take(k + 1),
                ));
            }
        }
        proof {
            assert(all.take(all.len() as int) =~= all);
        }
    }

    pub fn size(&self) -> (r: usize)
        requires
            self.wf(),
        ensures
            r == self.inner.entry_count(),
    {
        self.inner.size()
    }

    /// Whether this many more nodes and edges can be added.
    pub fn has_room(&self, nodes: usize, edges: usize) -> (r: bool)
        requires
            self.wf(),
        ensures
            r == (self.inner.entry_count() + nodes + edges <= usize::MAX && self.next_edge_id
                + edges <= u64::MAX),
    {
        let size: usize = self.inner.size();
        nodes <= usize::MAX - size && edges <= usize::MAX - size - nodes && edges as u64 <= u64::MAX
            - self.next_edge_id
    }

    /// A merge is due.
    pub fn needs_merge(&self) -> (r: bool)
        requires
            self.wf(),
        ensures
            r == (self.inner.entry_count() >= self.merge_threshold),
    {
        self.size() >= self.merge_threshold
    }

    /// The delta graph, for queries.
    pub fn read(&self) -> (r: &DeltaGraph)
        ensures
            *r == self.inner,
    {
        &self.inner
    }
}

/// Two instances never hand out the same node id: the ids of each lie in its own range.
pub proof fn law_instances_share_no_ids(a: u32, b: u32, x: u32, y: u32)
    requires
        a != b,
        is_id_of(a, x),
        is_id_of(b, y),
    ensures
        x != y,
{
}

// ── merge ────────────────────────────────────────────────────────────────────

/// What a merge makes: the graph, and the vectors and endpoints that the indices are rebuilt from.
pub struct MergeOutput {
    pub graph: CsrGraph,
    pub node_vecs: Vec<Vec<u32>>,
    pub edge_vecs: Vec<Vec<u32>>,
    pub edge_endpoints: Vec<(u32, u32)>,
}

/// From the id that each new node has in the delta to the id it gets behind `base` nodes. Of nodes
/// with the same id the last one counts.
pub open spec fn id_remap(nodes: Seq<NodeInfo>, base: int) -> Map<u32, u32>
    decreases nodes.len(),
{
    if nodes.len() == 0 {
        Map::empty()
    } else {
        id_remap(nodes.drop_last(), base).insert(
            nodes.last().id,
            (base + nodes.len() - 1) as u32,
        )
    }
}

/// The id that `id` has after a merge: ids of nodes outside the delta stay.
pub open spec fn remapped_id(nodes: Seq<NodeInfo>, base: int, id: u32) -> u32 {
    if id_remap(nodes, base).contains_key(id) {
        id_remap(nodes, base)[id]
    } else {
        id
    }
}

/// The edge between the nodes as they are numbered after a merge.
pub open spec fn remapped_edge(nodes: Seq<NodeInfo>, base: int, e: EdgeInfo) -> EdgeInfo {
    EdgeInfo {
        from: remapped_id(nodes, base, e.from),
        to: remapped_id(nodes, base, e.to),
        ..e
    }
}

/// The edges between the nodes as they are numbered after a merge.
pub open spec fn remapped_edges(nodes: Seq<NodeInfo>, base: int, edges: Seq<EdgeInfo>) -> Seq<
    EdgeInfo,
> {
    edges.map_values(|e: EdgeInfo| remapped_edge(nodes, base, e))
}

/// The starts and ends of a list of edges.
pub open spec fn endpoint_pairs(edges: Seq<EdgeInfo>) -> Seq<(u32, u32)> {
    edges.map_values(|e: EdgeInfo| (e.from, e.to))
}

/// The nodes numbered from `base` on.
pub open spec fn renumbered(nodes: Seq<NodeInfo>, base: int) -> Seq<NodeInfo> {
    Seq::new(nodes.len(), |i: int| NodeInfo { id: (base + i) as u32, ..nodes[i] })
}

/// `id` is a node of the base graph or of the delta.
pub open spec fn known_id(nodes: Seq<NodeInfo>, base: int, id: u32) -> bool {
    id < base || exists|j: int| 0 <= j < nodes.len() && (#[trigger] nodes[j]).id == id
}

/// Why a delta cannot be merged.
pub enum MergeRefusal {
    /// More nodes than there are ids, or more edges than there are places.
    TooLarge,
    /// An edge names a node that is neither in the graph nor in the delta.
    UnknownNode,
    /// A new node has a vector of another dimension.
    WrongDimension { dim: usize },
}

impl MergeRefusal {
    pub open spec fn text(self) -> Seq<char> {
        match self {
            MergeRefusal::TooLarge => "the merged graph would be too large"@,
            MergeRefusal::UnknownNode => "a new edge names an unknown node"@,
            MergeRefusal::WrongDimension { dim } => "new nodes without a vector of dimension "@
                + decimal_text(dim as nat) + " cannot be merged"@,
        }
    }

    /// The reason as text.
    pub fn message(&self) -> (r: String)
        ensures
            r@ == self.text(),
    {
        match self {
            MergeRefusal::TooLarge => "the merged graph would be too large".to_owned(),
            MergeRefusal::UnknownNode => "a new edge names an unknown node".to_owned(),
            MergeRefusal::WrongDimension { dim } => {
                let mut r: String = "new nodes without a vector of dimension ".to_owned();
                r.append(decimal(*dim as u64).as_str());
                r.append(" cannot be merged");
                r
            },
        }
    }
}

impl DeltaGraph {
    /// Every new edge runs between nodes of the base graph or of the delta.
    pub open spec fn endpoints_known(&self, base: int) -> bool {
        forall|j: int|
            0 <= j < self.new_edges@.len() ==> known_id(
                self.new_nodes@,
                base,
                (#[trigger] self.new_edges@[j]).from,
            ) && known_id(self.new_nodes@, base, self.new_edges@[j].to)
    }

    /// The nodes of a graph of `base` nodes after this delta is merged into it.
    pub open spec fn merged_nodes(&self, base: &CsrGraph) -> Seq<NodeInfo> {
        base.nodes@ + renumbered(self.new_nodes@, base.nodes@.len() as int)
    }

    /// The edges of the graph after this delta is merged into it.
    pub open spec fn merged_edges(&self, base: &CsrGraph) -> Seq<EdgeInfo> {
        let n = base.nodes@.len() as int;
        flat_edges(base, n) + remapped_edges(self.new_nodes@, n, self.new_edges@)
    }
}

proof fn lemma_remap(nodes: Seq<NodeInfo>, base: int, id: u32)
    requires
        0 <= base,
        base + nodes.len() < u32::MAX,
    ensures
        id_remap(nodes, base).contains_key(id) <==> exists|j: int|
            0 <= j < nodes.len() && (#[trigger] nodes[j]).id == id,
        id_remap(nodes, base).contains_key(id) ==> {
            let v = id_remap(nodes, base)[id];
            &&& base <= v < base + nodes.len()
            &&& nodes[v - base].id == id
        },
    decreases nodes.len(),
{
    if nodes.len() > 0 {
        let rest = nodes.drop_last();
        lemma_remap(rest, base, id);
        if nodes.last().id == id {
            assert(nodes[nodes.len() - 1].id == id);
        }
        if exists|j: int| 0 <= j < nodes.len() && (#[trigger] nodes[j]).id == id {
            let j = choose|j: int| 0 <= j < nodes.len() && (#[trigger] nodes[j]).id == id;
            if j < rest.len() {
                assert(rest[j].id == id);
            }
        }
        if id_remap(rest, base).contains_key(id) {
            let v = id_remap(rest, base)[id];
            assert(rest[v - base] == nodes[v - base]);
        }
    }
}

/// Every known id is that of a node after the merge.
proof fn lemma_remap_in_range(nodes: Seq<NodeInfo>, base: int, id: u32)
    requires
        0 <= base,
        base + nodes.len() < u32::MAX,
        known_id(nodes, base, id),
    ensures
        remapped_id(nodes, base, id) < base + nodes.len(),
{
    lemma_remap(nodes, base, id);
}

impl DeltaGraph {
    /// Whether every new edge runs between nodes of a graph of `base_nodes` nodes or of the delta.
    pub fn has_known_endpoints(&self, base_nodes: usize) -> (r: bool)
        ensures
            r == self.endpoints_known(base_nodes as int),
    {
        let mut j: usize = 0;
        while j < self.new_edges.len()
            invariant
                j <= self.new_edges@.len(),
                forall|i: int|
                    0 <= i < j ==> known_id(
                        self.new_nodes@,
                        base_nodes as int,
                        (#[trigger] self.new_edges@[i]).from,
                    ) && known_id(
                        self.new_nodes@,
                        base_nodes as int,
                        self.new_edges@[i].to,
                    ),
            decreases self.new_edges@.len() - j,
        {
            let from: u32 = self.new_edges[j].from;
            let to: u32 = self.new_edges[j].to;
            proof {
                lemma_find_node(self.new_nodes@, from);
                lemma_find_node(self.new_nodes@, to);
            }
            let from_known: bool = (from as usize) < base_nodes || self.get_node(from).is_some();
            let to_known: bool = (to as usize) < base_nodes || self.get_node(to).is_some();
            if !from_known || !to_known {
                proof {
                    assert(!known_id(
                        self.new_nodes@,
                        base_nodes as int,
                        self.new_edges@[j as int].from,
                    ) || !known_id(
                        self.new_nodes@,
                        base_nodes as int,
                        self.new_edges@[j as int].to,
                    ));
                }
                return false;
            }
            j += 1;
        }
        true
    }
}

/// A node is found exactly when the list holds its id.
pub proof fn lemma_find_node(nodes: Seq<NodeInfo>, id: u32)
    ensures
        find_node(nodes, id) is Some <==> exists|j: int|
            0 <= j < nodes.len() && (#[trigger] nodes[j]).id == id,
        find_node(nodes, id) matches Some(n) ==> n.id == id && nodes.contains(n),
    decreases nodes.len(),
{
    if nodes.len() > 0 {
        let rest = nodes.drop_first();
        lemma_find_node(rest, id);
        if nodes[0].id != id {
            if find_node(rest, id) is Some {
                let n = find_node(rest, id)->0;
                let j = rest.index_of(n);
                assert(nodes[j + 1] == n);
            }
            if exists|j: int| 0 <= j < nodes.len() && (#[trigger] nodes[j]).id == id {
                let j = choose|j: int| 0 <= j < nodes.len() && (#[trigger] nodes[j]).id == id;
                assert(rest[j - 1].id == id);
            }
        } else {
            assert(nodes[0] == find_node(nodes, id)->0);
        }
    }
}

impl DeltaGraph {
    /// The delta and the graph can be put together: there are ids for all nodes and places for all
    /// edges, and the new edges run between nodes of the two.
    pub open spec fn joins(&self, base: &CsrGraph) -> bool {
        &&& self.fits(base)
        &&& self.endpoints_known(base.nodes@.len() as int)
    }

    /// There are ids for all nodes and places for all edges of the delta and the graph.
    pub open spec fn fits(&self, base: &CsrGraph) -> bool {
        &&& base.nodes@.len() + self.new_nodes@.len() < u32::MAX
        &&& base.topology.edge_count() + self.new_edges@.len() <= u32::MAX
    }

    fn is_small_enough(&self, base: &CsrGraph) -> (r: bool)
        ensures
            r == self.fits(base),
    {
        let nodes: usize = base.num_nodes();
        let edges: usize = base.num_edges();
        nodes < u32::MAX as usize && self.new_nodes.len() < u32::MAX as usize - nodes && edges
            <= u32::MAX as usize && self.new_edges.len() <= u32::MAX as usize - edges
    }

    /// The graph that this delta and the base graph are together; nothing where the delta is empty
    /// or the two cannot be put together.
    pub fn overlay(&self, base: &CsrGraph) -> (r: Option<CsrGraph>)
        requires
            base.wf(),
        ensures
            match r {
                Some(g) => {
                    &&& self.entry_count() > 0
                    &&& self.joins(base)
                    &&& g.holds(self.merged_nodes(base), self.merged_edges(base))
                },
                None => self.entry_count() == 0 || !self.joins(base),
            },
    {
        if self.is_empty() || !self.is_small_enough(base) || !self.has_known_endpoints(
            base.num_nodes(),
        ) {
            return None;
        }
        Some(self.merged_graph(base).0)
    }

    /// The graph that this delta and the base graph are together, with the ends of the new edges in
    /// it: new nodes are numbered behind the existing ones, and the ends of new edges follow them.
    pub fn merged_graph(&self, base_graph: &CsrGraph) -> (r: (CsrGraph, Vec<(u32, u32)>))
        requires
            base_graph.wf(),
            base_graph.nodes@.len() + self.new_nodes@.len() < u32::MAX,
            base_graph.topology.edge_count() + self.new_edges@.len() <= u32::MAX,
            self.endpoints_known(base_graph.nodes@.len() as int),
        ensures
            r.0.holds(self.merged_nodes(base_graph), self.merged_edges(base_graph)),
            r.1@ == endpoint_pairs(
                remapped_edges(
                    self.new_nodes@,
                    base_graph.nodes@.len() as int,
                    self.new_edges@,
                ),
            ),
    {
        let ghost base = base_graph.nodes@.len() as int;
        let ghost news = self.new_nodes@;
        proof {
            lemma_graph_size(base_graph, 0);
            crate::graph::csr::lemma_flat_edges(base_graph);
        }
        let base_count: usize = base_graph.num_nodes();

        let mut nodes: Vec<NodeInfo> = Vec::new();
        let mut i: usize = 0;
        while i < base_count
            invariant
                i <= base_count == base_graph.nodes@.len(),
                nodes@ == base_graph.nodes@.take(i as int),
            decreases base_count - i,
        {
            nodes.push(base_graph.nodes[i].clone());
            i += 1;
            proof {
                assert(base_graph.nodes@.take(i as int) =~= base_graph.nodes@.take(i - 1).push(
                    base_graph.nodes@[i - 1],
                ));
            }
        }
        let mut remap: HashMap<u32, u32> = HashMap::new();
        let mut i: usize = 0;
        proof {
            assert(nodes@ =~= base_graph.nodes@ + renumbered(news, base).take(0));
            assert(remap@ =~= id_remap(news.take(0), base));
        }
        while i < self.new_nodes.len()
            invariant
                news == self.new_nodes@,
                base == base_count == base_graph.nodes@.len(),
                base + news.len() < u32::MAX,
                i <= news.len(),
                nodes@ == base_graph.nodes@ + renumbered(news, base).take(i as int),
                remap@ == id_remap(news.take(i as int), base),
            decreases news.len() - i,
        {
            let mut node = self.new_nodes[i].clone();
            let new_id: u32 = (base_count + i) as u32;
            remap.insert(node.id, new_id);
            node.id = new_id;
            nodes.push(node);
            proof {
                assert(news.take(i + 1).drop_last() =~= news.take(i as int));
                assert(renumbered(news, base).take(i + 1) =~= renumbered(news, base).take(
                    i as int,
                ).push(renumbered(news, base)[i as int]));
                assert(nodes@ =~= base_graph.nodes@ + renumbered(news, base).take(i + 1));
            }
            i += 1;
        }
        proof {
            assert(news.take(i as int) =~= news);
            assert(renumbered(news, base).take(i as int) =~= renumbered(news, base));
        }
        let mut endpoints: Vec<(u32, u32)> = Vec::new();
        let mut edges: Vec<EdgeInfo> = base_graph.all_edges();
        let ghost moved = remapped_edges(news, base, self.new_edges@);
        let mut j: usize = 0;
        proof {
            assert(edges@ =~= flat_edges(base_graph, base) + moved.take(0));
            assert(endpoints@ =~= endpoint_pairs(moved.take(0)));
        }
        while j < self.new_edges.len()
            invariant
                news == self.new_nodes@,
                base == base_graph.nodes@.len(),
                base + news.len() < u32::MAX,
                self.endpoints_known(base),
                moved == remapped_edges(news, base, self.new_edges@),
                remap@ == id_remap(news, base),
                j <= self.new_edges@.len(),
                edges@ == flat_edges(base_graph, base) + moved.take(j as int),
                endpoints@ == endpoint_pairs(moved.take(j as int)),
                forall|k: int|
                    0 <= k < j ==> (#[trigger] moved[k]).from < base + news.len() && moved[k].to
                        < base + news.len(),
            decreases self.new_edges@.len() - j,
        {
            let mut e = self.new_edges[j].clone();
            let ghost from_id = e.from;
            let ghost to_id = e.to;
            let from: u32 = match remap.get(&e.from) {
                Some(id) => *id,
                None => e.from,
            };
            let to: u32 = match remap.get(&e.to) {
                Some(id) => *id,
                None => e.to,
            };
            e.from = from;
            e.to = to;
            endpoints.push((from, to));
            edges.push(e);
            proof {
                assert(e == moved[j as int]);
                lemma_remap_in_range(news, base, from_id);
                lemma_remap_in_range(news, base, to_id);
                assert(moved.take(j + 1) =~= moved.take(j as int).push(moved[j as int]));
                assert(edges@ =~= flat_edges(base_graph, base) + moved.take(j + 1));
                assert(endpoints@ =~= endpoint_pairs(moved.take(j + 1)));
            }
            j += 1;
        }
        proof {
            assert(moved.take(j as int) =~= moved);
            assert(endpoints_in_range(edges@, nodes@.len() as int));
        }
        (CsrGraph::build(nodes, edges.as_slice()), endpoints)
    }
}

impl DeltaStore {
    /// Whether the delta can be merged into a graph whose nodes have these vectors.
    pub fn check_merge(&self, base_graph: &CsrGraph, node_vecs: &Vec<Vec<u32>>) -> (r: Result<
        (),
        MergeRefusal,
    >)
        ensures
            ({
                let dim = first_dim(node_vecs@ + self.inner.new_vecs@);
                let same = all_of_dim(dim, self.inner.new_vecs@);
                match r {
                    Ok(()) => self.inner.joins(base_graph) && same,
                    Err(MergeRefusal::TooLarge) => !self.inner.fits(base_graph),
                    Err(MergeRefusal::UnknownNode) => self.inner.fits(base_graph)
                        && !self.inner.joins(base_graph),
                    Err(MergeRefusal::WrongDimension { dim: d }) => self.inner.joins(base_graph)
                        && !same && d == dim,
                }
            }),
    {
        if !self.inner.is_small_enough(base_graph) {
            return Err(MergeRefusal::TooLarge);
        }
        if !self.inner.has_known_endpoints(base_graph.num_nodes()) {
            return Err(MergeRefusal::UnknownNode);
        }
        let dim: usize = if node_vecs.len() > 0 {
            node_vecs[0].len()
        } else if self.inner.new_vecs.len() > 0 {
            self.inner.new_vecs[0].len()
        } else {
            0
        };
        if same_dim(dim, &self.inner.new_vecs) {
            Ok(())
        } else {
            Err(MergeRefusal::WrongDimension { dim })
        }
    }

    /// Drains the delta and merges it into the base graph.
    pub fn merge_into(
        &mut self,
        base_graph: &CsrGraph,
        node_vecs: Vec<Vec<u32>>,
        edge_vecs: Vec<Vec<u32>>,
        edge_endpoints: Vec<(u32, u32)>,
    ) -> (r: MergeOutput)
        requires
            old(self).wf(),
            base_graph.wf(),
            base_graph.nodes@.len() + old(self).inner.new_nodes@.len() < u32::MAX,
            base_graph.topology.edge_count() + old(self).inner.new_edges@.len() <= u32::MAX,
            old(self).inner.endpoints_known(base_graph.nodes@.len() as int),
        ensures
            final(self).wf(),
            final(self).inner.cleared(),
            final(self).same_allocators(old(self)),
            r.graph.holds(
                old(self).inner.merged_nodes(base_graph),
                old(self).inner.merged_edges(base_graph),
            ),
            r.node_vecs@ == node_vecs@ + old(self).inner.new_vecs@,
            r.edge_vecs@ == edge_vecs@ + old(self).inner.new_edge_vecs@,
            r.edge_endpoints@ == edge_endpoints@ + endpoint_pairs(
                remapped_edges(
                    old(self).inner.new_nodes@,
                    base_graph.nodes@.len() as int,
                    old(self).inner.new_edges@,
                ),
            ),
    {
        let mut delta = DeltaGraph::default();
        std::mem::swap(&mut delta, &mut self.inner);
        let (graph, mut new_endpoints) = delta.merged_graph(base_graph);
        let mut node_vecs = node_vecs;
        let mut edge_vecs = edge_vecs;
        let mut edge_endpoints = edge_endpoints;
        node_vecs.append(&mut delta.new_vecs);
        edge_vecs.append(&mut delta.new_edge_vecs);
        edge_endpoints.append(&mut new_endpoints);
        MergeOutput { graph, node_vecs, edge_vecs, edge_endpoints }
    }
}

// ── laws of merging ──────────────────────────────────────────────────────────

/// A merge keeps what a node is: everything but its number and its weight. Nodes of the base graph
/// keep their place, and new nodes follow them, numbered by their place.
pub proof fn law_merge_keeps_nodes(delta: &DeltaGraph, base: &CsrGraph, merged: &CsrGraph, i: int)
    requires
        merged.holds(delta.merged_nodes(base), delta.merged_edges(base)),
        0 <= i < base.nodes@.len() + delta.new_nodes@.len(),
    ensures
        merged.nodes@.len() == base.nodes@.len() + delta.new_nodes@.len(),
        ({
            let n = base.nodes@.len();
            let was = if i < n {
                base.nodes@[i]
            } else {
                delta.new_nodes@[i - n]
            };
            let id = if i < n {
                was.id
            } else {
                i as u32
            };
            merged.nodes@[i] == NodeInfo { id, weight: merged.nodes@[i].weight, ..was }
        }),
{
    assert(merged.nodes@[i] == crate::graph::csr::with_weight(
        delta.merged_nodes(base)[i],
        crate::graph::csr::importance(
            delta.merged_edges(base),
            delta.merged_nodes(base).len() as int,
            i,
        ),
    ));
}

/// A merge keeps the edges of the base graph in place, without their ids, and puts the new edges
/// that leave a node behind them.
pub proof fn law_merge_keeps_edges(delta: &DeltaGraph, base: &CsrGraph, merged: &CsrGraph, i: int)
    requires
        base.wf(),
        merged.holds(delta.merged_nodes(base), delta.merged_edges(base)),
        0 <= i < merged.nodes@.len(),
    ensures
        merged.out_edges(i) == base.out_edges(i).map_values(
            |e: EdgeInfo| crate::graph::csr::unnumbered(e),
        ) + remapped_edges(delta.new_nodes@, base.nodes@.len() as int, delta.new_edges@).filter(
            leaves(i),
        ),
{
    let n = base.nodes@.len() as int;
    let added = remapped_edges(delta.new_nodes@, n, delta.new_edges@);
    assert(merged.out_edges(i) == delta.merged_edges(base).filter(leaves(i)));
    crate::graph::csr::lemma_flat_filter(base, n, i);
    Seq::filter_distributes_over_add(flat_edges(base, n), added, leaves(i));
    lemma_graph_size(base, i);
    assert(base.out_edges(i).map_values(|e: EdgeInfo| crate::graph::csr::unnumbered(e))
        =~= flat_edges(base, n).filter(leaves(i)));
}

/// After a merge a new edge joins the nodes that its ends had named in the delta, whatever numbers
/// the instance had given them.
pub proof fn law_merge_joins_named_nodes(
    delta: &DeltaGraph,
    base: &CsrGraph,
    merged: &CsrGraph,
    k: int,
)
    requires
        base.wf(),
        merged.holds(delta.merged_nodes(base), delta.merged_edges(base)),
        base.nodes@.len() + delta.new_nodes@.len() < u32::MAX,
        delta.endpoints_known(base.nodes@.len() as int),
        0 <= k < delta.new_edges@.len(),
    ensures
        ({
            let n = base.nodes@.len() as int;
            let given = delta.new_edges@[k];
            let e = remapped_edge(delta.new_nodes@, n, given);
            &&& merged.out_edges(e.from as int).contains(e)
            &&& names_node(delta, n, given.from, e.from)
            &&& names_node(delta, n, given.to, e.to)
        }),
{
    let n = base.nodes@.len() as int;
    let added = remapped_edges(delta.new_nodes@, n, delta.new_edges@);
    let e = added[k];
    let given = delta.new_edges@[k];
    lemma_remap(delta.new_nodes@, n, given.from);
    lemma_remap(delta.new_nodes@, n, given.to);
    lemma_remap_in_range(delta.new_nodes@, n, given.from);
    law_merge_keeps_edges(delta, base, merged, e.from as int);
    added.lemma_filter_contains(leaves(e.from as int), k);
    let mine = added.filter(leaves(e.from as int));
    let j = mine.index_of(e);
    let before = base.out_edges(e.from as int).map_values(
        |e: EdgeInfo| crate::graph::csr::unnumbered(e),
    );
    assert((before + mine)[before.len() + j] == e);
}

/// `id` names in the delta the node that is at place `place` after a merge.
pub open spec fn names_node(delta: &DeltaGraph, base: int, id: u32, place: u32) -> bool {
    if place < base {
        place == id
    } else {
        place < base + delta.new_nodes@.len() && delta.new_nodes@[place - base].id == id
    }
}

/// After a merge the external id of every node, of the graph and of the delta, is what it was, and
/// leads to the node, unless a later node has the same.
pub proof fn law_merge_keeps_external_ids(
    delta: &DeltaGraph,
    base: &CsrGraph,
    merged: &CsrGraph,
    i: int,
)
    requires
        merged.holds(delta.merged_nodes(base), delta.merged_edges(base)),
        base.nodes@.len() + delta.new_nodes@.len() < u32::MAX,
        0 <= i < merged.nodes@.len(),
    ensures
        merged.nodes@[i].external_id == (if i < base.nodes@.len() {
            base.nodes@[i].external_id
        } else {
            delta.new_nodes@[i - base.nodes@.len()].external_id
        }),
        ({
            let id = merged.nodes@[i].external_id@;
            let latest = forall|j: int|
                i < j < merged.nodes@.len() ==> (#[trigger] merged.nodes@[j]).external_id@ != id;
            id.len() > 0 && latest ==> merged.external_id_index@.contains_key(id)
                && merged.external_id_index@[id] == i
        }),
{
    let all = delta.merged_nodes(base);
    let id = merged.nodes@[i].external_id@;
    assert(merged.nodes@[i].external_id == all[i].external_id);
    if id.len() > 0 && forall|j: int|
        i < j < merged.nodes@.len() ==> (#[trigger] merged.nodes@[j]).external_id@ != id {
        assert forall|j: int| i < j < all.len() implies (#[trigger] all[j]).external_id@
            != all[i].external_id@ by {
            assert(merged.nodes@[j].external_id == all[j].external_id);
        }
        crate::graph::csr::lemma_external_ids(all, i);
    }
}

// ── equal deltas ─────────────────────────────────────────────────────────────

/// What each of a list of embeddings holds.
pub open spec fn vec_views(list: Seq<Vec<u32>>) -> Seq<Seq<u32>> {
    list.map_values(|v: Vec<u32>| v@)
}

/// The entries of two deltas agree, in order and in every field.
pub open spec fn same_entries(a: &DeltaGraph, b: &DeltaGraph) -> bool {
    &&& node_views(a.new_nodes@) == node_views(b.new_nodes@)
    &&& vec_views(a.new_vecs@) == vec_views(b.new_vecs@)
    &&& edge_views(a.new_edges@) == edge_views(b.new_edges@)
    &&& vec_views(a.new_edge_vecs@) == vec_views(b.new_edge_vecs@)
}

proof fn lemma_adjacency_views(a: Seq<EdgeInfo>, b: Seq<EdgeInfo>, id: u32)
    requires
        edge_views(a) == edge_views(b),
    ensures
        adjacency(a, id) == adjacency(b, id),
    decreases a.len(),
{
    assert(edge_views(a).len() == a.len());
    assert(edge_views(b).len() == b.len());
    if a.len() > 0 {
        let x = a.drop_last();
        let y = b.drop_last();
        assert(edge_views(x) =~= edge_views(a).drop_last());
        assert(edge_views(y) =~= edge_views(b).drop_last());
        lemma_adjacency_views(x, y, id);
        assert(edge_views(a).last() == a.last()@);
        assert(edge_views(b).last() == b.last()@);
        lemma_adjacency_push(x, a.last(), id);
        lemma_adjacency_push(y, b.last(), id);
        assert(x.push(a.last()) =~= a);
        assert(y.push(b.last()) =~= b);
    } else {
        assert(a =~= b);
    }
}

proof fn lemma_has_list_views(
    nodes: Seq<NodeInfo>,
    edges: Seq<EdgeInfo>,
    nodes2: Seq<NodeInfo>,
    edges2: Seq<EdgeInfo>,
    id: u32,
)
    requires
        node_views(nodes) == node_views(nodes2),
        edge_views(edges) == edge_views(edges2),
        has_list(nodes, edges, id),
    ensures
        has_list(nodes2, edges2, id),
{
    assert(node_views(nodes).len() == nodes.len());
    assert(node_views(nodes2).len() == nodes2.len());
    assert(edge_views(edges).len() == edges.len());
    assert(edge_views(edges2).len() == edges2.len());
    if exists|j: int| 0 <= j < nodes.len() && (#[trigger] nodes[j]).id == id {
        let j = choose|j: int| 0 <= j < nodes.len() && (#[trigger] nodes[j]).id == id;
        assert(node_views(nodes)[j] == nodes[j]@);
        assert(node_views(nodes2)[j] == nodes2[j]@);
        assert(nodes2[j].id == id);
    } else {
        let j = choose|j: int| 0 <= j < edges.len() && (#[trigger] edges[j]).from == id;
        assert(edge_views(edges)[j] == edges[j]@);
        assert(edge_views(edges2)[j] == edges2[j]@);
        assert(edges2[j].from == id);
    }
}

/// Deltas with the same entries have the same adjacency lists.
pub proof fn law_entries_determine_the_lists(a: &DeltaGraph, b: &DeltaGraph)
    requires
        a.wf(),
        b.wf(),
        same_entries(a, b),
    ensures
        a.lists() == b.lists(),
{
    assert forall|id: u32| a.lists().contains_key(id) <==> #[trigger] b.lists().contains_key(id) by {
        assert(a.adj@.contains_key(id) <==> has_list(a.new_nodes@, a.new_edges@, id));
        assert(b.adj@.contains_key(id) <==> has_list(b.new_nodes@, b.new_edges@, id));
        if has_list(a.new_nodes@, a.new_edges@, id) {
            lemma_has_list_views(a.new_nodes@, a.new_edges@, b.new_nodes@, b.new_edges@, id);
        }
        if has_list(b.new_nodes@, b.new_edges@, id) {
            lemma_has_list_views(b.new_nodes@, b.new_edges@, a.new_nodes@, a.new_edges@, id);
        }
    }
    assert forall|id: u32| #[trigger] a.lists().contains_key(id) implies a.lists()[id]
        == b.lists()[id] by {
        assert(b.lists().contains_key(id));
        assert(a.adj@.contains_key(id));
        assert(b.adj@.contains_key(id));
        lemma_adjacency_views(a.new_edges@, b.new_edges@, id);
    }
    assert(a.lists() =~= b.lists());
}

// ── batches ──────────────────────────────────────────────────────────────────

/// `after` is `before` with one more node.
pub open spec fn node_added(before: &DeltaGraph, after: &DeltaGraph, item: (NodeInfo, Vec<u32>)) -> bool {
    &&& after.wf()
    &&& after.new_nodes@ == before.new_nodes@.push(item.0)
    &&& after.new_vecs@ == before.new_vecs@.push(item.1)
    &&& after.new_edges == before.new_edges
    &&& after.new_edge_vecs == before.new_edge_vecs
}

/// `after` is `before` with one more edge.
pub open spec fn edge_added(before: &DeltaGraph, after: &DeltaGraph, item: (EdgeInfo, Vec<u32>)) -> bool {
    &&& after.wf()
    &&& after.new_nodes == before.new_nodes
    &&& after.new_vecs == before.new_vecs
    &&& after.new_edges@ == before.new_edges@.push(item.0)
    &&& after.new_edge_vecs@ == before.new_edge_vecs@.push(item.1)
}

proof fn lemma_nodes_one_by_one(steps: Seq<DeltaGraph>, items: Seq<(NodeInfo, Vec<u32>)>, k: int)
    requires
        steps.len() == items.len() + 1,
        forall|i: int| 0 <= i < items.len() ==> node_added(
            &steps[i],
            &steps[i + 1],
            #[trigger] items[i],
        ),
        0 <= k <= items.len(),
    ensures
        steps[k].new_nodes@ == steps[0].new_nodes@ + firsts(items.take(k)),
        steps[k].new_vecs@ == steps[0].new_vecs@ + seconds(items.take(k)),
        steps[k].new_edges == steps[0].new_edges,
        steps[k].new_edge_vecs == steps[0].new_edge_vecs,
    decreases k,
{
    if k > 0 {
        lemma_nodes_one_by_one(steps, items, k - 1);
        assert(node_added(&steps[k - 1], &steps[k], items[k - 1]));
        assert(firsts(items.take(k)) =~= firsts(items.take(k - 1)).push(items[k - 1].0));
        assert(seconds(items.take(k)) =~= seconds(items.take(k - 1)).push(items[k - 1].1));
    }
    assert(steps[k].new_nodes@ =~= steps[0].new_nodes@ + firsts(items.take(k)));
    assert(steps[k].new_vecs@ =~= steps[0].new_vecs@ + seconds(items.take(k)));
}

/// Adding a batch of nodes gives the same delta as adding them one by one.
pub proof fn law_node_batch_is_one_by_one(
    batch: &DeltaGraph,
    steps: Seq<DeltaGraph>,
    items: Seq<(NodeInfo, Vec<u32>)>,
)
    requires
        steps.len() == items.len() + 1,
        forall|i: int| 0 <= i < items.len() ==> node_added(
            &steps[i],
            &steps[i + 1],
            #[trigger] items[i],
        ),
        steps[0].wf(),
        batch.wf(),
        batch.new_nodes@ == steps[0].new_nodes@ + firsts(items),
        batch.new_vecs@ == steps[0].new_vecs@ + seconds(items),
        batch.new_edges == steps[0].new_edges,
        batch.new_edge_vecs == steps[0].new_edge_vecs,
    ensures
        same_entries(batch, &steps.last()),
        batch.lists() == steps.last().lists(),
{
    let n = items.len() as int;
    lemma_nodes_one_by_one(steps, items, n);
    assert(items.take(n) =~= items);
    if n > 0 {
        assert(node_added(&steps[n - 1], &steps[n], items[n - 1]));
    }
    law_entries_determine_the_lists(batch, &steps.last());
}

proof fn lemma_edges_one_by_one(steps: Seq<DeltaGraph>, items: Seq<(EdgeInfo, Vec<u32>)>, k: int)
    requires
        steps.len() == items.len() + 1,
        forall|i: int| 0 <= i < items.len() ==> edge_added(
            &steps[i],
            &steps[i + 1],
            #[trigger] items[i],
        ),
        0 <= k <= items.len(),
    ensures
        steps[k].new_edges@ == steps[0].new_edges@ + firsts(items.take(k)),
        steps[k].new_edge_vecs@ == steps[0].new_edge_vecs@ + seconds(items.take(k)),
        steps[k].new_nodes == steps[0].new_nodes,
        steps[k].new_vecs == steps[0].new_vecs,
    decreases k,
{
    if k > 0 {
        lemma_edges_one_by_one(steps, items, k - 1);
        assert(edge_added(&steps[k - 1], &steps[k], items[k - 1]));
        assert(firsts(items.take(k)) =~= firsts(items.take(k - 1)).push(items[k - 1].0));
        assert(seconds(items.take(k)) =~= seconds(items.take(k - 1)).push(items[k - 1].1));
    }
    assert(steps[k].new_edges@ =~= steps[0].new_edges@ + firsts(items.take(k)));
    assert(steps[k].new_edge_vecs@ =~= steps[0].new_edge_vecs@ + seconds(items.take(k)));
}

/// Adding a batch of edges gives the same delta as adding them one by one.
pub proof fn law_edge_batch_is_one_by_one(
    batch: &DeltaGraph,
    steps: Seq<DeltaGraph>,
    items: Seq<(EdgeInfo, Vec<u32>)>,
)
    requires
        steps.len() == items.len() + 1,
        forall|i: int| 0 <= i < items.len() ==> edge_added(
            &steps[i],
            &steps[i + 1],
            #[trigger] items[i],
        ),
        steps[0].wf(),
        batch.wf(),
        batch.new_edges@ == steps[0].new_edges@ + firsts(items),
        batch.new_edge_vecs@ == steps[0].new_edge_vecs@ + seconds(items),
        batch.new_nodes == steps[0].new_nodes,
        batch.new_vecs == steps[0].new_vecs,
    ensures
        same_entries(batch, &steps.last()),
        batch.lists() == steps.last().lists(),
{
    let n = items.len() as int;
    lemma_edges_one_by_one(steps, items, n);
    assert(items.take(n) =~= items);
    if n > 0 {
        assert(edge_added(&steps[n - 1], &steps[n], items[n - 1]));
    }
    law_entries_determine_the_lists(batch, &steps.last());
}

// ── recovery ─────────────────────────────────────────────────────────────────

/// An entry is what the log says, once its node or edge has been read from its JSON.
pub open spec fn is_read_entry(
    said: WalEntryView,
    entry: ReplayEntry,
    read_node: spec_fn(JsonTree) -> Option<NodeView>,
    read_edge: spec_fn(JsonTree) -> Option<EdgeView>,
) -> bool {
    match (said, entry) {
        (WalEntryView::AddNode { node: t, vec: v }, ReplayEntry::AddNode { node, vec }) => {
            &&& v == vec@
            &&& match node {
                Some(n) => read_node(t) == Some(n@),
                None => read_node(t) is None,
            }
        },
        (WalEntryView::AddEdge { edge: t, vec: v }, ReplayEntry::AddEdge { edge, vec }) => {
            &&& v == vec@
            &&& match edge {
                Some(e) => read_edge(t) == Some(e@),
                None => read_edge(t) is None,
            }
        },
        _ => false,
    }
}

/// The entry has its node or its edge.
pub open spec fn is_readable(entry: ReplayEntry) -> bool {
    match entry {
        ReplayEntry::AddNode { node, .. } => node is Some,
        ReplayEntry::AddEdge { edge, .. } => edge is Some,
    }
}

/// The delta holds the nodes and the edges of the entries, and nothing else.
pub open spec fn holds_entries(delta: &DeltaGraph, entries: Seq<ReplayEntry>) -> bool {
    &&& delta.wf()
    &&& delta.new_nodes@ == replayed_nodes(entries)
    &&& delta.new_vecs@ == replayed_vecs(entries)
    &&& delta.new_edges@ == replayed_edges(entries)
    &&& delta.new_edge_vecs@ == replayed_edge_vecs(entries)
}

proof fn lemma_equal_replays(
    a: Seq<ReplayEntry>,
    b: Seq<ReplayEntry>,
    said: Seq<WalEntryView>,
    read_node: spec_fn(JsonTree) -> Option<NodeView>,
    read_edge: spec_fn(JsonTree) -> Option<EdgeView>,
)
    requires
        a.len() == b.len() == said.len(),
        forall|i: int| 0 <= i < said.len() ==> is_read_entry(
            #[trigger] said[i],
            a[i],
            read_node,
            read_edge,
        ) && is_read_entry(said[i], b[i], read_node, read_edge),
    ensures
        node_views(replayed_nodes(a)) == node_views(replayed_nodes(b)),
        vec_views(replayed_vecs(a)) == vec_views(replayed_vecs(b)),
        edge_views(replayed_edges(a)) == edge_views(replayed_edges(b)),
        vec_views(replayed_edge_vecs(a)) == vec_views(replayed_edge_vecs(b)),
    decreases a.len(),
{
    if a.len() > 0 {
        let n = a.len() - 1;
        let x = a.drop_last();
        let y = b.drop_last();
        let rest = said.drop_last();
        assert forall|i: int| 0 <= i < rest.len() implies is_read_entry(
            #[trigger] rest[i],
            x[i],
            read_node,
            read_edge,
        ) && is_read_entry(rest[i], y[i], read_node, read_edge) by {
            assert(rest[i] == said[i]);
        }
        lemma_equal_replays(x, y, rest, read_node, read_edge);
        assert(is_read_entry(said[n], a[n], read_node, read_edge));
        assert(is_read_entry(said[n], b[n], read_node, read_edge));
        lemma_replayed_last(a);
        lemma_replayed_last(b);
        assert(node_views(replayed_nodes(a)) =~= node_views(replayed_nodes(b)));
        assert(vec_views(replayed_vecs(a)) =~= vec_views(replayed_vecs(b)));
        assert(edge_views(replayed_edges(a)) =~= edge_views(replayed_edges(b)));
        assert(vec_views(replayed_edge_vecs(a)) =~= vec_views(replayed_edge_vecs(b)));
    } else {
        assert(a =~= b);
    }
}

/// What the last of a list of entries adds.
proof fn lemma_replayed_last(entries: Seq<ReplayEntry>)
    requires
        entries.len() > 0,
    ensures
        match entries.last() {
            ReplayEntry::AddNode { node: Some(n), vec } => {
                &&& node_views(replayed_nodes(entries)) == node_views(
                    replayed_nodes(entries.drop_last()),
                ).push(n@)
                &&& vec_views(replayed_vecs(entries)) == vec_views(
                    replayed_vecs(entries.drop_last()),
                ).push(vec@)
                &&& replayed_edges(entries) == replayed_edges(entries.drop_last())
                &&& replayed_edge_vecs(entries) == replayed_edge_vecs(entries.drop_last())
                &&& replayed_nodes(entries).len() == replayed_nodes(entries.drop_last()).len() + 1
            },
            ReplayEntry::AddEdge { edge: Some(e), vec } => {
                &&& edge_views(replayed_edges(entries)) == edge_views(
                    replayed_edges(entries.drop_last()),
                ).push(e@)
                &&& vec_views(replayed_edge_vecs(entries)) == vec_views(
                    replayed_edge_vecs(entries.drop_last()),
                ).push(vec@)
                &&& replayed_nodes(entries) == replayed_nodes(entries.drop_last())
                &&& replayed_vecs(entries) == replayed_vecs(entries.drop_last())
                &&& replayed_edges(entries).len() == replayed_edges(entries.drop_last()).len() + 1
            },
            _ => {
                &&& replayed_nodes(entries) == replayed_nodes(entries.drop_last())
                &&& replayed_vecs(entries) == replayed_vecs(entries.drop_last())
                &&& replayed_edges(entries) == replayed_edges(entries.drop_last())
                &&& replayed_edge_vecs(entries) == replayed_edge_vecs(entries.drop_last())
            },
        },
{
    let rest = entries.drop_last();
    match entries.last() {
        ReplayEntry::AddNode { node: Some(n), vec } => {
            assert(node_views(replayed_nodes(entries)) =~= node_views(replayed_nodes(rest)).push(n@));
            assert(vec_views(replayed_vecs(entries)) =~= vec_views(replayed_vecs(rest)).push(vec@));
        },
        ReplayEntry::AddEdge { edge: Some(e), vec } => {
            assert(edge_views(replayed_edges(entries)) =~= edge_views(replayed_edges(rest)).push(e@));
            assert(vec_views(replayed_edge_vecs(entries)) =~= vec_views(
                replayed_edge_vecs(rest),
            ).push(vec@));
        },
        _ => {},
    }
}

proof fn lemma_all_read(payloads: Seq<Seq<char>>, said: Seq<WalEntryView>)
    requires
        payloads.len() == said.len(),
        forall|i: int| 0 <= i < payloads.len() ==> payload_entry(#[trigger] payloads[i]) == Some(
            said[i],
        ),
    ensures
        payloads.filter_map(|p: Seq<char>| payload_entry(p)) == said,
    decreases payloads.len(),
{
    let read = |p: Seq<char>| payload_entry(p);
    if payloads.len() > 0 {
        let n = payloads.len() - 1;
        let rest = payloads.drop_last();
        assert forall|i: int| 0 <= i < rest.len() implies payload_entry(#[trigger] rest[i]) == Some(
            said.drop_last()[i],
        ) by {
            assert(payload_entry(payloads[i]) == Some(said[i]));
        }
        lemma_all_read(rest, said.drop_last());
        assert(payload_entry(payloads[n]) == Some(said[n]));
        assert(payloads.filter_map(read) == rest.filter_map(read) + seq![said[n]]);
        assert(said.drop_last() + seq![said[n]] =~= said);
    } else {
        assert(payloads.filter_map(read) =~= said);
    }
}

proof fn lemma_readable_count(entries: Seq<ReplayEntry>)
    requires
        forall|i: int| 0 <= i < entries.len() ==> is_readable(#[trigger] entries[i]),
    ensures
        replayed_nodes(entries).len() + replayed_edges(entries).len() == entries.len(),
    decreases entries.len(),
{
    if entries.len() > 0 {
        let rest = entries.drop_last();
        assert forall|i: int| 0 <= i < rest.len() implies is_readable(#[trigger] rest[i]) by {
            assert(is_readable(entries[i]));
        }
        lemma_readable_count(rest);
        assert(is_readable(entries[entries.len() - 1]));
        lemma_replayed_last(entries);
    }
}

/// A delta whose entries were written to a log is restored from it: where each payload says what
/// was added, and reading a node or an edge from its JSON gives back what was written, replaying
/// the bytes of the log gives a delta with the same entries in the same order and the same
/// adjacency lists.
pub proof fn law_replay_restores_the_delta(
    added: Seq<ReplayEntry>,
    lost: &DeltaGraph,
    payloads: Seq<Seq<char>>,
    said: Seq<WalEntryView>,
    read_node: spec_fn(JsonTree) -> Option<NodeView>,
    read_edge: spec_fn(JsonTree) -> Option<EdgeView>,
    replayed: Seq<ReplayEntry>,
    restored: &DeltaGraph,
)
    requires
        added.len() == payloads.len() == said.len(),
        forall|i: int| 0 <= i < added.len() ==> is_readable(#[trigger] added[i]),
        forall|i: int|
            0 <= i < payloads.len() ==> fits_line(#[trigger] payloads[i]) && payload_entry(
                payloads[i],
            ) == Some(said[i]),
        forall|i: int|
            0 <= i < said.len() ==> is_read_entry(
                #[trigger] said[i],
                added[i],
                read_node,
                read_edge,
            ),
        holds_entries(lost, added),
        replayed.len() == log_entries(encode_utf8(wal_text(payloads))).len(),
        forall|i: int|
            0 <= i < replayed.len() ==> is_read_entry(
                #[trigger] log_entries(encode_utf8(wal_text(payloads)))[i],
                replayed[i],
                read_node,
                read_edge,
            ),
        holds_entries(restored, replayed),
    ensures
        log_entries(encode_utf8(wal_text(payloads))) == said,
        same_entries(lost, restored),
        lost.lists() == restored.lists(),
        lost.entry_count() == added.len(),
        replayed_nodes(replayed).len() + replayed_edges(replayed).len() == lost.entry_count(),
{
    law_log_gives_back_entries(payloads);
    law_bytes_give_the_payloads_of_text(wal_text(payloads));
    lemma_all_read(payloads, said);
    let read = log_entries(encode_utf8(wal_text(payloads)));
    assert(read == said);
    assert forall|i: int| 0 <= i < said.len() implies is_read_entry(
        #[trigger] said[i],
        added[i],
        read_node,
        read_edge,
    ) && is_read_entry(said[i], replayed[i], read_node, read_edge) by {
        assert(is_read_entry(read[i], replayed[i], read_node, read_edge));
    }
    lemma_equal_replays(added, replayed, said, read_node, read_edge);
    law_entries_determine_the_lists(lost, restored);
    lemma_readable_count(added);
    assert(node_views(lost.new_nodes@).len() == lost.new_nodes@.len());
    assert(node_views(restored.new_nodes@).len() == restored.new_nodes@.len());
    assert(edge_views(lost.new_edges@).len() == lost.new_edges@.len());
    assert(edge_views(restored.new_edges@).len() == restored.new_edges@.len());
}

// ── what the delta holds ─────────────────────────────────────────────────────

/// The list of a node holds the ends and the weights of the new edges that leave it, in the order
/// in which they were added.
pub proof fn law_lists_hold_the_edges(delta: &DeltaGraph, id: u32)
    requires
        delta.wf(),
    ensures
        adjacency(delta.new_edges@, id) == delta.new_edges@.filter(
            |e: EdgeInfo| e.from == id,
        ).map_values(|e: EdgeInfo| (e.to, e.weight)),
        delta.adj@.contains_key(id) ==> delta.adj@[id]@ == adjacency(delta.new_edges@, id),
        delta.adj@.contains_key(id) <==> (exists|j: int|
            0 <= j < delta.new_nodes@.len() && (#[trigger] delta.new_nodes@[j]).id == id) || (
        exists|j: int|
            0 <= j < delta.new_edges@.len() && (#[trigger] delta.new_edges@[j]).from == id),
{
    assert(leaves(id as int) =~= (|e: EdgeInfo| e.from == id));
    assert(delta.adj@.contains_key(id) <==> has_list(delta.new_nodes@, delta.new_edges@, id));
}

/// Replaying one entry more adds its node or its edge with its vector behind the others, where it
/// could be read, and nothing where it could not.
pub proof fn law_replay_adds_each_readable_entry(entries: Seq<ReplayEntry>, e: ReplayEntry)
    ensures
        ({
            let all = entries.push(e);
            match e {
                ReplayEntry::AddNode { node: Some(n), vec } => {
                    &&& replayed_nodes(all) == replayed_nodes(entries).push(n)
                    &&& replayed_vecs(all) == replayed_vecs(entries).push(vec)
                    &&& replayed_edges(all) == replayed_edges(entries)
                    &&& replayed_edge_vecs(all) == replayed_edge_vecs(entries)
                },
                ReplayEntry::AddEdge { edge: Some(x), vec } => {
                    &&& replayed_nodes(all) == replayed_nodes(entries)
                    &&& replayed_vecs(all) == replayed_vecs(entries)
                    &&& replayed_edges(all) == replayed_edges(entries).push(x)
                    &&& replayed_edge_vecs(all) == replayed_edge_vecs(entries).push(vec)
                },
                _ => {
                    &&& replayed_nodes(all) == replayed_nodes(entries)
                    &&& replayed_vecs(all) == replayed_vecs(entries)
                    &&& replayed_edges(all) == replayed_edges(entries)
                    &&& replayed_edge_vecs(all) == replayed_edge_vecs(entries)
                },
            }
        }),
        replayed_nodes(Seq::empty()).len() == 0,
        replayed_vecs(Seq::empty()).len() == 0,
        replayed_edges(Seq::empty()).len() == 0,
        replayed_edge_vecs(Seq::empty()).len() == 0,
{
    let all = entries.push(e);
    assert(all.drop_last() =~= entries);
    match e {
        ReplayEntry::AddNode { node: Some(n), vec } => {
            assert(replayed_nodes(all) =~= replayed_nodes(entries).push(n));
            assert(replayed_vecs(all) =~= replayed_vecs(entries).push(vec));
        },
        ReplayEntry::AddEdge { edge: Some(x), vec } => {
            assert(replayed_edges(all) =~= replayed_edges(entries).push(x));
            assert(replayed_edge_vecs(all) =~= replayed_edge_vecs(entries).push(vec));
        },
        _ => {},
    }
}

/// The ids of an instance are those whose upper eight bits are the instance and whose lower ones are
/// not all set.
pub proof fn law_ids_carry_their_instance(instance_id: u32, id: u32)
    requires
        instance_id <= 255,
    ensures
        is_id_of(instance_id, id) <==> id / 0x100_0000 == instance_id && id % 0x100_0000
            != 0xff_ffff,
{
}

/// Where no new node has an id of the instance beyond them, ids go on behind the nodes of the graph
/// or the first id of the instance, whichever is more, past as many as there are new nodes.
pub proof fn law_ids_go_on_behind_the_new_nodes(
    nodes: Seq<NodeInfo>,
    instance_id: u32,
    base_nodes: u32,
)
    requires
        instance_id <= 255,
        ({
            let first = if base_nodes > instance_id * 0x100_0000 {
                base_nodes as int
            } else {
                instance_id * 0x100_0000
            };
            &&& first + nodes.len() <= u32::MAX
            &&& forall|i: int|
                0 <= i < nodes.len() && (#[trigger] nodes[i]).id / 0x100_0000 == instance_id
                    ==> nodes[i].id < first + nodes.len()
        }),
    ensures
        free_id(nodes, instance_id, base_nodes) == (if base_nodes > instance_id * 0x100_0000 {
            base_nodes as int
        } else {
            instance_id * 0x100_0000
        }) + nodes.len(),
{
    let first = if base_nodes > instance_id * 0x100_0000 {
        base_nodes as int
    } else {
        instance_id * 0x100_0000
    };
    lemma_past_ids_bound(nodes, instance_id, first + nodes.len());
}

proof fn lemma_past_ids_bound(nodes: Seq<NodeInfo>, instance_id: u32, bound: int)
    requires
        instance_id <= 255,
        0 <= bound,
        forall|i: int|
            0 <= i < nodes.len() && (#[trigger] nodes[i]).id / 0x100_0000 == instance_id
                ==> nodes[i].id < bound,
    ensures
        past_ids(nodes, instance_id) <= bound,
    decreases nodes.len(),
{
    if nodes.len() > 0 {
        let rest = nodes.drop_last();
        assert forall|i: int|
            0 <= i < rest.len() && (#[trigger] rest[i]).id / 0x100_0000
                == instance_id implies rest[i].id < bound by {
            assert(rest[i] == nodes[i]);
        }
        lemma_past_ids_bound(rest, instance_id, bound);
        let last = nodes[nodes.len() - 1];
        if is_id_of(instance_id, last.id) {
            law_ids_carry_their_instance(instance_id, last.id);
        }
    }
}

/// The node at `place` after a merge is the one that `id` meant before it: the new node with that
/// id, or else the node of the graph at that place.
pub open spec fn is_meant(nodes: Seq<NodeInfo>, base: int, id: u32, place: u32) -> bool {
    ||| base <= place < base + nodes.len() && nodes[place - base].id == id
    ||| place < base && place == id && forall|j: int|
        0 <= j < nodes.len() ==> (#[trigger] nodes[j]).id != id
}

/// After a merge every new edge is there, between the nodes that its ends meant, with its own type,
/// weight, contexts and id; and the index of edge vectors has it between the same places.
pub proof fn law_merge_keeps_new_edges(
    delta: &DeltaGraph,
    base: &CsrGraph,
    merged: &CsrGraph,
    k: int,
) -> (e: EdgeInfo)
    requires
        base.wf(),
        merged.holds(delta.merged_nodes(base), delta.merged_edges(base)),
        base.nodes@.len() + delta.new_nodes@.len() < u32::MAX,
        delta.endpoints_known(base.nodes@.len() as int),
        0 <= k < delta.new_edges@.len(),
    ensures
        ({
            let n = base.nodes@.len() as int;
            let given = delta.new_edges@[k];
            &&& merged.out_edges(e.from as int).contains(e)
            &&& is_meant(delta.new_nodes@, n, given.from, e.from)
            &&& is_meant(delta.new_nodes@, n, given.to, e.to)
            &&& e.edge_type == given.edge_type
            &&& e.weight == given.weight
            &&& e.full_context == given.full_context
            &&& e.embed_context == given.embed_context
            &&& e.edge_id == given.edge_id
            &&& endpoint_pairs(remapped_edges(delta.new_nodes@, n, delta.new_edges@)).len()
                == delta.new_edges@.len()
            &&& endpoint_pairs(remapped_edges(delta.new_nodes@, n, delta.new_edges@))[k] == (
                e.from,
                e.to,
            )
        }),
{
    let n = base.nodes@.len() as int;
    let given = delta.new_edges@[k];
    let e = remapped_edge(delta.new_nodes@, n, given);
    law_merge_joins_named_nodes(delta, base, merged, k);
    lemma_meant(delta.new_nodes@, n, given.from);
    lemma_meant(delta.new_nodes@, n, given.to);
    assert(known_id(delta.new_nodes@, n, given.from) && known_id(delta.new_nodes@, n, given.to));
    e
}

proof fn lemma_meant(nodes: Seq<NodeInfo>, base: int, id: u32)
    requires
        0 <= base,
        base + nodes.len() < u32::MAX,
    ensures
        known_id(nodes, base, id) ==> is_meant(nodes, base, id, remapped_id(nodes, base, id)),
        id_remap(nodes, base).contains_key(id) <==> exists|j: int|
            0 <= j < nodes.len() && (#[trigger] nodes[j]).id == id,
        id_remap(nodes, base).contains_key(id) ==> base <= id_remap(nodes, base)[id] < base
            + nodes.len() && nodes[id_remap(nodes, base)[id] - base].id == id,
    decreases nodes.len(),
{
    if nodes.len() > 0 {
        let rest = nodes.drop_last();
        lemma_meant(rest, base, id);
        assert forall|j: int| 0 <= j < rest.len() implies #[trigger] rest[j] == nodes[j] by {}
        if nodes.last().id == id {
            assert(nodes[nodes.len() - 1].id == id);
        } else {
            if exists|j: int| 0 <= j < nodes.len() && (#[trigger] nodes[j]).id == id {
                let j = choose|j: int| 0 <= j < nodes.len() && (#[trigger] nodes[j]).id == id;
                assert(rest[j].id == id);
            }
            if exists|j: int| 0 <= j < rest.len() && (#[trigger] rest[j]).id == id {
                let j = choose|j: int| 0 <= j < rest.len() && (#[trigger] rest[j]).id == id;
                assert(nodes[j].id == id);
            }
        }
    }
}

/// A merge keeps every edge of the graph in its place among those that leave its node, with its end,
/// type, weight and contexts; it has as many edges as the graph and the delta together.
pub proof fn law_merge_keeps_old_edges(
    delta: &DeltaGraph,
    base: &CsrGraph,
    merged: &CsrGraph,
    i: int,
    j: int,
)
    requires
        base.wf(),
        merged.holds(delta.merged_nodes(base), delta.merged_edges(base)),
        0 <= i < base.nodes@.len(),
        0 <= j < base.out_edges(i).len(),
    ensures
        j < merged.out_edges(i).len(),
        merged.out_edges(i)[j].to == base.out_edges(i)[j].to,
        merged.out_edges(i)[j].edge_type == base.out_edges(i)[j].edge_type,
        merged.out_edges(i)[j].weight == base.out_edges(i)[j].weight,
        merged.out_edges(i)[j].full_context == base.out_edges(i)[j].full_context,
        merged.out_edges(i)[j].embed_context == base.out_edges(i)[j].embed_context,
        merged.topology.edge_count() == base.topology.edge_count() + delta.new_edges@.len(),
{
    law_merge_keeps_edges(delta, base, merged, i);
    crate::graph::csr::lemma_flat_edges(base);
}

/// A delta can be put together with a graph exactly when there are places for all nodes and edges
/// and every end of a new edge is a node of the graph or a new one.
pub proof fn law_delta_joins_where_all_ends_are_known(delta: &DeltaGraph, base: &CsrGraph)
    ensures
        delta.joins(base) <==> {
            let known = |id: u32|
                id < base.nodes@.len() || exists|j: int|
                    0 <= j < delta.new_nodes@.len() && (#[trigger] delta.new_nodes@[j]).id == id;
            &&& base.nodes@.len() + delta.new_nodes@.len() < u32::MAX
            &&& base.topology.edge_count() + delta.new_edges@.len() <= u32::MAX
            &&& forall|k: int|
                0 <= k < delta.new_edges@.len() ==> known((#[trigger] delta.new_edges@[k]).from)
                    && known(delta.new_edges@[k].to)
        },
{
    let known = |id: u32|
        id < base.nodes@.len() || exists|j: int|
            0 <= j < delta.new_nodes@.len() && (#[trigger] delta.new_nodes@[j]).id == id;
    assert forall|id: u32| known(id) == #[trigger] known_id(
        delta.new_nodes@,
        base.nodes@.len() as int,
        id,
    ) by {}
    if delta.joins(base) {
        assert forall|k: int| 0 <= k < delta.new_edges@.len() implies known(
            (#[trigger] delta.new_edges@[k]).from,
        ) && known(delta.new_edges@[k].to) by {
            assert(known_id(
                delta.new_nodes@,
                base.nodes@.len() as int,
                delta.new_edges@[k].from,
            ));
            assert(known_id(delta.new_nodes@, base.nodes@.len() as int, delta.new_edges@[k].to));
        }
    }
}

/// A batch adds the first of each pair with the second for its vector.
pub proof fn law_pairs_come_apart<A, B>(pairs: Seq<(A, B)>, i: int)
    requires
        0 <= i < pairs.len(),
    ensures
        firsts(pairs).len() == pairs.len(),
        seconds(pairs).len() == pairs.len(),
        firsts(pairs)[i] == pairs[i].0,
        seconds(pairs)[i] == pairs[i].1,
{
}

/// An instance is named by a number from 0 to 255; any other setting, or none, names 0.
pub proof fn law_bad_instance_counts_as_none(setting: Option<Seq<char>>)
    ensures
        instance_of(setting) <= 255,
        setting is None ==> instance_of(setting) == 0,
        setting matches Some(s) ==> instance_of(setting) == (if unsigned_of(s, 255) is Some {
            unsigned_of(s, 255)->0
        } else {
            0
        }),
{
}

/// A new node is found by its id: the first one that was added with it.
pub proof fn law_new_node_is_found_by_its_id(nodes: Seq<NodeInfo>, id: u32)
    ensures
        match find_node(nodes, id) {
            Some(n) => exists|i: int|
                0 <= i < nodes.len() && #[trigger] nodes[i] == n && n.id == id && forall|j: int|
                    0 <= j < i ==> (#[trigger] nodes[j]).id != id,
            None => forall|i: int| 0 <= i < nodes.len() ==> (#[trigger] nodes[i]).id != id,
        },
    decreases nodes.len(),
{
    if nodes.len() > 0 && nodes[0].id != id {
        let rest = nodes.drop_first();
        law_new_node_is_found_by_its_id(rest, id);
        match find_node(rest, id) {
            Some(n) => {
                let i = choose|i: int|
                    0 <= i < rest.len() && #[trigger] rest[i] == n && n.id == id && forall|j: int|
                        0 <= j < i ==> (#[trigger] rest[j]).id != id;
                assert(nodes[i + 1] == n);
                assert forall|j: int| 0 <= j < i + 1 implies (#[trigger] nodes[j]).id != id by {
                    if j > 0 {
                        assert(rest[j - 1] == nodes[j]);
                    }
                }
            },
            None => {
                assert forall|i: int| 0 <= i < nodes.len() implies (#[trigger] nodes[i]).id
                    != id by {
                    if i > 0 {
                        assert(rest[i - 1] == nodes[i]);
                    }
                }
            },
        }
    } else if nodes.len() > 0 {
        assert(nodes[0] == find_node(nodes, id)->0);
    }
}

} // verus!

//! Looking at the graph: counts, single nodes, searches for nodes and edges.

use crate::api::error::ApiError;
use crate::delta::{find_node, lemma_find_node, DeltaGraph};
use crate::digits::{decimal, decimal_text};
use crate::graph::csr::{
    edge_types, law_reverse_mirrors_forward, lemma_graph_size, opt_text, targets, weights, CsrGraph,
    EdgeInfo, NodeInfo,
};
use crate::query::{at_most, first_occurrences, has_id, lemma_first_occurrences};
use crate::text::{
    arg_text, contains, eq_ignore_case, has_substring, lowercase, same_ignoring_case, same_text,
    to_lower,
};
use std::collections::HashSet;
use vstd::prelude::*;
use vstd::string::*;

verus! {

broadcast use vstd::std_specs::hash::group_hash_axioms;

// ── counts ───────────────────────────────────────────────────────────────────

/// `GET /graph/stats`
pub struct GraphStats {
    pub nodes: usize,
    pub edges: usize,
    pub delta_nodes: usize,
    pub delta_edges: usize,
    /// A merge is running.
    pub delta_pending_merge: bool,
}

pub fn graph_stats(graph: &CsrGraph, delta: &DeltaGraph, merge_running: bool) -> (r: GraphStats)
    ensures
        r.nodes == graph.nodes@.len(),
        r.edges == graph.topology.edge_count(),
        r.delta_nodes == delta.new_nodes@.len(),
        r.delta_edges == delta.new_edges@.len(),
        r.delta_pending_merge == merge_running,
{
    GraphStats {
        nodes: graph.num_nodes(),
        edges: graph.num_edges(),
        delta_nodes: delta.nodes_len(),
        delta_edges: delta.edges_len(),
        delta_pending_merge: merge_running,
    }
}

// ── single nodes ─────────────────────────────────────────────────────────────

/// The node with this id: of the graph, or else of the delta.
pub open spec fn node_with_id(graph: &CsrGraph, delta: &DeltaGraph, id: u32) -> Option<NodeInfo> {
    if id < graph.nodes@.len() {
        Some(graph.nodes@[id as int])
    } else {
        find_node(delta.new_nodes@, id)
    }
}

/// That a node is unknown, as text.
pub open spec fn not_found_text(id: u32) -> Seq<char> {
    "node "@ + decimal_text(id as nat) + " not found"@
}

/// The error for an unknown node.
pub fn node_not_found(id: u32) -> (r: ApiError)
    ensures
        r matches ApiError::NotFound(m) && m@ == not_found_text(id),
{
    let mut m: String = "node ".to_owned();
    m.append(decimal(id as u64).as_str());
    m.append(" not found");
    ApiError::NotFound(m)
}

fn look_up<'a>(graph: &'a CsrGraph, delta: &'a DeltaGraph, id: u32) -> (r: Option<&'a NodeInfo>)
    ensures
        match r {
            Some(n) => node_with_id(graph, delta, id) == Some(*n),
            None => node_with_id(graph, delta, id) is None,
        },
{
    if (id as usize) < graph.nodes.len() {
        Some(&graph.nodes[id as usize])
    } else {
        delta.get_node(id)
    }
}

/// `GET /nodes/:id`
pub fn get_node(graph: &CsrGraph, delta: &DeltaGraph, id: u32) -> (r: Result<NodeInfo, ApiError>)
    ensures
        match node_with_id(graph, delta, id) {
            Some(n) => r matches Ok(found) && found == n,
            None => r matches Err(ApiError::NotFound(m)) && m@ == not_found_text(id),
        },
{
    match look_up(graph, delta, id) {
        Some(n) => Ok(n.clone()),
        None => Err(node_not_found(id)),
    }
}

// ── node search ──────────────────────────────────────────────────────────────

/// `GET /nodes`
pub struct NodeSearchParams {
    /// Part of the name, whatever the case of its letters.
    pub q: Option<String>,
    /// The exact entity type.
    pub node_type: Option<String>,
    /// Only nodes connected to this one.
    pub related_to: Option<u32>,
    /// Direction of the connection: `out`, `in` or `both`.
    pub direction: Option<String>,
    /// Type of the connection.
    pub edge_type: Option<String>,
    /// Most results: 50 by default, at most 500.
    pub limit: Option<usize>,
}

/// What is asked of a name and a type.
pub ghost struct NodeQuery {
    /// Part of the name in lower case.
    pub part: Option<Seq<char>>,
    pub node_type: Option<Seq<char>>,
}

impl NodeQuery {
    /// The node has the name and the type that are asked for.
    pub open spec fn accepts(self, n: NodeInfo) -> bool {
        &&& self.part matches Some(part) ==> has_substring(lowercase(n.name@), part)
        &&& self.node_type matches Some(t) ==> n.node_type@ == t
    }
}

impl NodeSearchParams {
    pub open spec fn query(&self) -> NodeQuery {
        NodeQuery {
            part: match opt_text(self.q) {
                Some(q) => Some(lowercase(q)),
                None => None,
            },
            node_type: opt_text(self.node_type),
        }
    }

    pub open spec fn page(&self) -> nat {
        match self.limit {
            Some(n) => if n < 500 {
                n as nat
            } else {
                500
            },
            None => 50,
        }
    }
}

/// A filter on names and types, with the part of the name in lower case.
struct NodeFilter<'a> {
    part: Option<String>,
    node_type: Option<&'a str>,
}

impl<'a> NodeFilter<'a> {
    spec fn query(&self) -> NodeQuery {
        NodeQuery { part: opt_text(self.part), node_type: arg_text(self.node_type) }
    }

    fn accepts(&self, n: &NodeInfo) -> (r: bool)
        ensures
            r == self.query().accepts(*n),
    {
        let name_ok: bool = match &self.part {
            Some(part) => contains(to_lower(n.name.as_str()).as_str(), part.as_str()),
            None => true,
        };
        let type_ok: bool = match self.node_type {
            Some(t) => same_text(n.node_type.as_str(), t),
            None => true,
        };
        name_ok && type_ok
    }
}

/// A type of an edge is the one asked for, if one is.
pub open spec fn type_accepted(edge_type: Seq<char>, asked: Option<Seq<char>>) -> bool {
    asked matches Some(t) ==> same_ignoring_case(edge_type, t)
}

fn accepts_type(edge_type: &str, asked: Option<&str>) -> (r: bool)
    ensures
        r == type_accepted(edge_type@, arg_text(asked)),
{
    match asked {
        Some(t) => eq_ignore_case(edge_type, t),
        None => true,
    }
}

/// The accepted ones of the nodes at these places.
pub open spec fn accepted_at(nodes: Seq<NodeInfo>, places: Seq<u32>, q: NodeQuery) -> Seq<NodeInfo>
    decreases places.len(),
{
    if places.len() == 0 {
        Seq::empty()
    } else {
        let before = accepted_at(nodes, places.drop_last(), q);
        let p = places.last();
        if p < nodes.len() && q.accepts(nodes[p as int]) {
            before.push(nodes[p as int])
        } else {
            before
        }
    }
}

/// The ends of the edges of an accepted type.
pub open spec fn ends_of_type(edges: Seq<EdgeInfo>, asked: Option<Seq<char>>) -> Seq<u32>
    decreases edges.len(),
{
    if edges.len() == 0 {
        Seq::empty()
    } else {
        let before = ends_of_type(edges.drop_last(), asked);
        if type_accepted(edges.last().edge_type@, asked) {
            before.push(edges.last().to)
        } else {
            before
        }
    }
}

/// Some edge leads from `from` to `to`, of the type asked for, if one is.
pub open spec fn joined_by_type(g: &CsrGraph, from: u32, to: u32, asked: Option<Seq<char>>) -> bool {
    exists|j: int|
        0 <= j < g.out_edges(from as int).len() && (#[trigger] g.out_edges(from as int)[j]).to == to
            && type_accepted(g.out_edges(from as int)[j].edge_type@, asked)
}

/// Those of the starts from which an edge of an accepted type leads to `to`, without those in
/// `known`.
pub open spec fn starts_of_type(
    g: &CsrGraph,
    starts: Seq<u32>,
    to: u32,
    asked: Option<Seq<char>>,
    known: Seq<u32>,
) -> Seq<u32>
    decreases starts.len(),
{
    if starts.len() == 0 {
        Seq::empty()
    } else {
        let before = starts_of_type(g, starts.drop_last(), to, asked, known);
        let u = starts.last();
        if !known.contains(u) && joined_by_type(g, u, to, asked) {
            before.push(u)
        } else {
            before
        }
    }
}

/// The places of the nodes connected to `root`.
pub open spec fn connected(g: &CsrGraph, root: u32, direction: Seq<char>, asked: Option<Seq<char>>) -> Seq<
    u32,
> {
    let out = ends_of_type(g.out_edges(root as int), asked);
    if direction == "in"@ {
        starts_of_type(g, g.in_nodes(root as int), root, asked, Seq::empty())
    } else if direction == "both"@ {
        out + starts_of_type(g, g.in_nodes(root as int), root, asked, out)
    } else {
        out
    }
}

/// Whether an edge of an accepted type leads from one node to another.
pub fn edge_type_matches(graph: &CsrGraph, from_id: u32, to_id: u32, asked: Option<&str>) -> (r:
    bool)
    requires
        graph.wf(),
    ensures
        r == joined_by_type(graph, from_id, to_id, arg_text(asked)),
{
    let ghost edges = graph.out_edges(from_id as int);
    let to = graph.neighbors(from_id);
    let types = graph.neighbor_types(from_id);
    let mut i: usize = 0;
    while i < to.len()
        invariant
            i <= to@.len(),
            edges == graph.out_edges(from_id as int),
            to@ == targets(edges),
            types@ == edge_types(edges),
            forall|j: int|
                0 <= j < i ==> !((#[trigger] edges[j]).to == to_id && type_accepted(
                    edges[j].edge_type@,
                    arg_text(asked),
                )),
        decreases to@.len() - i,
    {
        if to[i] == to_id && accepts_type(types[i].as_str(), asked) {
            proof {
                assert(edges[i as int].to == to_id);
            }
            return true;
        }
        i += 1;
    }
    false
}

fn collect_ends(graph: &CsrGraph, root: u32, asked: Option<&str>) -> (r: Vec<u32>)
    requires
        graph.wf(),
    ensures
        r@ == ends_of_type(graph.out_edges(root as int), arg_text(asked)),
{
    let ghost edges = graph.out_edges(root as int);
    let to = graph.neighbors(root);
    let types = graph.neighbor_types(root);
    let mut ends: Vec<u32> = Vec::new();
    let mut i: usize = 0;
    proof {
        assert(ends@ =~= ends_of_type(edges.take(0), arg_text(asked)));
    }
    while i < to.len()
        invariant
            i <= to@.len(),
            to@ == targets(edges),
            types@ == edge_types(edges),
            ends@ == ends_of_type(edges.take(i as int), arg_text(asked)),
        decreases to@.len() - i,
    {
        proof {
            assert(edges.take(i + 1).drop_last() =~= edges.take(i as int));
            assert(edges.take(i + 1).last() == edges[i as int]);
        }
        if accepts_type(types[i].as_str(), asked) {
            ends.push(to[i]);
        }
        i += 1;
    }
    proof {
        assert(edges.take(i as int) =~= edges);
    }
    ends
}

fn in_list(list: &Vec<u32>, id: u32) -> (r: bool)
    ensures
        r == list@.contains(id),
{
    let mut i: usize = 0;
    while i < list.len()
        invariant
            i <= list@.len(),
            forall|j: int| 0 <= j < i ==> #[trigger] list@[j] != id,
        decreases list@.len() - i,
    {
        if list[i] == id {
            return true;
        }
        i += 1;
    }
    false
}

fn collect_starts(graph: &CsrGraph, root: u32, asked: Option<&str>, known: &Vec<u32>) -> (r: Vec<
    u32,
>)
    requires
        graph.wf(),
    ensures
        r@ == starts_of_type(graph, graph.in_nodes(root as int), root, arg_text(asked), known@),
{
    let starts = graph.rev_neighbors(root);
    let mut r: Vec<u32> = Vec::new();
    let mut i: usize = 0;
    proof {
        assert(r@ =~= starts_of_type(graph, starts@.take(0), root, arg_text(asked), known@));
    }
    while i < starts.len()
        invariant
            graph.wf(),
            i <= starts@.len(),
            r@ == starts_of_type(graph, starts@.take(i as int), root, arg_text(asked), known@),
        decreases starts@.len() - i,
    {
        proof {
            assert(starts@.take(i + 1).drop_last() =~= starts@.take(i as int));
            assert(starts@.take(i + 1).last() == starts@[i as int]);
        }
        let u: u32 = starts[i];
        if !in_list(known, u) && edge_type_matches(graph, u, root, asked) {
            r.push(u);
        }
        i += 1;
    }
    proof {
        assert(starts@.take(i as int) =~= starts@);
    }
    r
}

fn collect_connected(graph: &CsrGraph, root: u32, direction: &str, asked: Option<&str>) -> (r: Vec<
    u32,
>)
    requires
        graph.wf(),
    ensures
        r@ == connected(graph, root, direction@, arg_text(asked)),
{
    if same_text(direction, "in") {
        let none: Vec<u32> = Vec::new();
        proof {
            assert(none@ =~= Seq::<u32>::empty());
        }
        collect_starts(graph, root, asked, &none)
    } else {
        let mut out = collect_ends(graph, root, asked);
        if same_text(direction, "both") {
            let mut starts = collect_starts(graph, root, asked, &out);
            out.append(&mut starts);
        }
        out
    }
}

fn collect_accepted(nodes: &Vec<NodeInfo>, places: &Vec<u32>, filter: &NodeFilter, limit: usize) -> (r:
    Vec<NodeInfo>)
    ensures
        r@ == at_most(accepted_at(nodes@, places@, filter.query()), limit as nat),
{
    let ghost q = filter.query();
    let mut r: Vec<NodeInfo> = Vec::new();
    let mut i: usize = 0;
    proof {
        assert(r@ =~= accepted_at(nodes@, places@.take(0), q));
    }
    while i < places.len() && r.len() < limit
        invariant
            i <= places@.len(),
            q == filter.query(),
            r@.len() <= limit,
            r@ == accepted_at(nodes@, places@.take(i as int), q),
        decreases places@.len() - i,
    {
        proof {
            assert(places@.take(i + 1).drop_last() =~= places@.take(i as int));
            assert(places@.take(i + 1).last() == places@[i as int]);
        }
        let p: u32 = places[i];
        if (p as usize) < nodes.len() && filter.accepts(&nodes[p as usize]) {
            r.push(nodes[p as usize].clone());
        }
        i += 1;
    }
    proof {
        lemma_accepted_prefix(nodes@, places@, q, i as int);
        if i == places@.len() {
            assert(places@.take(i as int) =~= places@);
        } else {
            assert(accepted_at(nodes@, places@, q).take(limit as int) =~= r@);
        }
    }
    r
}

proof fn lemma_accepted_prefix(nodes: Seq<NodeInfo>, places: Seq<u32>, q: NodeQuery, i: int)
    requires
        0 <= i <= places.len(),
    ensures
        accepted_at(nodes, places.take(i), q).is_prefix_of(accepted_at(nodes, places, q)),
    decreases places.len(),
{
    if i < places.len() {
        assert(places.drop_last().take(i) =~= places.take(i));
        lemma_accepted_prefix(nodes, places.drop_last(), q, i);
    } else {
        assert(places.take(i) =~= places);
    }
}

/// The ends of the new edges that leave `root`.
pub open spec fn new_ends(edges: Seq<EdgeInfo>, root: u32) -> Seq<u32>
    decreases edges.len(),
{
    if edges.len() == 0 {
        Seq::empty()
    } else if edges.last().from == root {
        new_ends(edges.drop_last(), root).push(edges.last().to)
    } else {
        new_ends(edges.drop_last(), root)
    }
}

/// The starts of the new edges that enter `root`, without those in `known`.
pub open spec fn new_starts(edges: Seq<EdgeInfo>, root: u32, known: Seq<u32>) -> Seq<u32>
    decreases edges.len(),
{
    if edges.len() == 0 {
        Seq::empty()
    } else if edges.last().to == root && !known.contains(edges.last().from) {
        new_starts(edges.drop_last(), root, known).push(edges.last().from)
    } else {
        new_starts(edges.drop_last(), root, known)
    }
}

/// The ids that new edges connect to `root`.
pub open spec fn newly_connected(edges: Seq<EdgeInfo>, root: u32, direction: Seq<char>) -> Seq<u32> {
    let out = new_ends(edges, root);
    if direction == "in"@ {
        new_starts(edges, root, Seq::empty())
    } else if direction == "both"@ {
        out + new_starts(edges, root, out)
    } else {
        out
    }
}

/// Some new edge of an accepted type runs between two nodes, in either direction, or no type is
/// asked for.
pub open spec fn newly_joined(edges: Seq<EdgeInfo>, a: u32, b: u32, asked: Option<Seq<char>>) -> bool {
    asked is Some ==> exists|j: int|
        0 <= j < edges.len() && joins(#[trigger] edges[j], a, b) && type_accepted(
            edges[j].edge_type@,
            asked,
        )
}

/// The edge runs between two nodes.
pub open spec fn joins(e: EdgeInfo, a: u32, b: u32) -> bool {
    (e.from == a && e.to == b) || (e.to == a && e.from == b)
}

/// The accepted ones of the new nodes with these ids.
pub open spec fn accepted_new(
    delta: &DeltaGraph,
    ids: Seq<u32>,
    root: u32,
    asked: Option<Seq<char>>,
    q: NodeQuery,
) -> Seq<NodeInfo>
    decreases ids.len(),
{
    if ids.len() == 0 {
        Seq::empty()
    } else {
        let before = accepted_new(delta, ids.drop_last(), root, asked, q);
        match find_node(delta.new_nodes@, ids.last()) {
            Some(n) => if newly_joined(delta.new_edges@, root, n.id, asked) && q.accepts(n) {
                before.push(n)
            } else {
                before
            },
            None => before,
        }
    }
}

fn collect_new_ends(edges: &Vec<EdgeInfo>, root: u32) -> (r: Vec<u32>)
    ensures
        r@ == new_ends(edges@, root),
{
    let mut r: Vec<u32> = Vec::new();
    let mut i: usize = 0;
    proof {
        assert(r@ =~= new_ends(edges@.take(0), root));
    }
    while i < edges.len()
        invariant
            i <= edges@.len(),
            r@ == new_ends(edges@.take(i as int), root),
        decreases edges@.len() - i,
    {
        proof {
            assert(edges@.take(i + 1).drop_last() =~= edges@.take(i as int));
            assert(edges@.take(i + 1).last() == edges@[i as int]);
        }
        if edges[i].from == root {
            r.push(edges[i].to);
        }
        i += 1;
    }
    proof {
        assert(edges@.take(i as int) =~= edges@);
    }
    r
}

fn collect_new_starts(edges: &Vec<EdgeInfo>, root: u32, known: &Vec<u32>) -> (r: Vec<u32>)
    ensures
        r@ == new_starts(edges@, root, known@),
{
    let mut r: Vec<u32> = Vec::new();
    let mut i: usize = 0;
    proof {
        assert(r@ =~= new_starts(edges@.take(0), root, known@));
    }
    while i < edges.len()
        invariant
            i <= edges@.len(),
            r@ == new_starts(edges@.take(i as int), root, known@),
        decreases edges@.len() - i,
    {
        proof {
            assert(edges@.take(i + 1).drop_last() =~= edges@.take(i as int));
            assert(edges@.take(i + 1).last() == edges@[i as int]);
        }
        if edges[i].to == root && !in_list(known, edges[i].from) {
            r.push(edges[i].from);
        }
        i += 1;
    }
    proof {
        assert(edges@.take(i as int) =~= edges@);
    }
    r
}

fn collect_newly_connected(edges: &Vec<EdgeInfo>, root: u32, direction: &str) -> (r: Vec<u32>)
    ensures
        r@ == newly_connected(edges@, root, direction@),
{
    if same_text(direction, "in") {
        let none: Vec<u32> = Vec::new();
        proof {
            assert(none@ =~= Seq::<u32>::empty());
        }
        collect_new_starts(edges, root, &none)
    } else {
        let mut out = collect_new_ends(edges, root);
        if same_text(direction, "both") {
            let mut starts = collect_new_starts(edges, root, &out);
            out.append(&mut starts);
        }
        out
    }
}

fn is_newly_joined(edges: &Vec<EdgeInfo>, a: u32, b: u32, asked: Option<&str>) -> (r: bool)
    ensures
        r == newly_joined(edges@, a, b, arg_text(asked)),
{
    if asked.is_none() {
        return true;
    }
    let mut i: usize = 0;
    while i < edges.len()
        invariant
            i <= edges@.len(),
            forall|j: int|
                0 <= j < i ==> !(joins(#[trigger] edges@[j], a, b) && type_accepted(
                    edges@[j].edge_type@,
                    arg_text(asked),
                )),
        decreases edges@.len() - i,
    {
        let e = &edges[i];
        if ((e.from == a && e.to == b) || (e.to == a && e.from == b)) && accepts_type(
            e.edge_type.as_str(),
            asked,
        ) {
            proof {
                assert(joins(edges@[i as int], a, b));
            }
            return true;
        }
        i += 1;
    }
    false
}

fn collect_accepted_new(
    delta: &DeltaGraph,
    ids: &Vec<u32>,
    root: u32,
    asked: Option<&str>,
    filter: &NodeFilter,
    limit: usize,
) -> (r: Vec<NodeInfo>)
    ensures
        r@ == at_most(
            accepted_new(delta, ids@, root, arg_text(asked), filter.query()),
            limit as nat,
        ),
{
    let ghost q = filter.query();
    let ghost t = arg_text(asked);
    let mut r: Vec<NodeInfo> = Vec::new();
    let mut i: usize = 0;
    proof {
        assert(r@ =~= accepted_new(delta, ids@.take(0), root, t, q));
    }
    while i < ids.len() && r.len() < limit
        invariant
            i <= ids@.len(),
            q == filter.query(),
            t == arg_text(asked),
            r@.len() <= limit,
            r@ == accepted_new(delta, ids@.take(i as int), root, t, q),
        decreases ids@.len() - i,
    {
        proof {
            assert(ids@.take(i + 1).drop_last() =~= ids@.take(i as int));
            assert(ids@.take(i + 1).last() == ids@[i as int]);
        }
        match delta.get_node(ids[i]) {
            Some(n) => if is_newly_joined(&delta.new_edges, root, n.id, asked) && filter.accepts(n) {
                r.push(n.clone());
            },
            None => {},
        }
        i += 1;
    }
    proof {
        lemma_accepted_new_prefix(delta, ids@, root, t, q, i as int);
        if i == ids@.len() {
            assert(ids@.take(i as int) =~= ids@);
        } else {
            assert(accepted_new(delta, ids@, root, t, q).take(limit as int) =~= r@);
        }
    }
    r
}

proof fn lemma_accepted_new_prefix(
    delta: &DeltaGraph,
    ids: Seq<u32>,
    root: u32,
    asked: Option<Seq<char>>,
    q: NodeQuery,
    i: int,
)
    requires
        0 <= i <= ids.len(),
    ensures
        accepted_new(delta, ids.take(i), root, asked, q).is_prefix_of(
            accepted_new(delta, ids, root, asked, q),
        ),
    decreases ids.len(),
{
    if i < ids.len() {
        assert(ids.drop_last().take(i) =~= ids.take(i));
        lemma_accepted_new_prefix(delta, ids.drop_last(), root, asked, q, i);
    } else {
        assert(ids.take(i) =~= ids);
    }
}

/// Results from the graph, then from the delta, together at most `limit`.
pub open spec fn filled<A>(found: Seq<A>, extra: Seq<A>, limit: nat) -> Seq<A> {
    let first = at_most(found, limit);
    first + at_most(extra, (limit - first.len()) as nat)
}

/// The nodes connected to `root`: of the graph, then new ones.
pub open spec fn related_nodes(
    graph: &CsrGraph,
    delta: &DeltaGraph,
    root: u32,
    direction: Seq<char>,
    asked: Option<Seq<char>>,
    q: NodeQuery,
    limit: nat,
) -> Seq<NodeInfo> {
    filled(
        accepted_at(graph.nodes@, connected(graph, root, direction, asked), q),
        accepted_new(
            delta,
            newly_connected(delta.new_edges@, root, direction),
            root,
            asked,
            q,
        ),
        limit,
    )
}

fn find_related(
    graph: &CsrGraph,
    delta: &DeltaGraph,
    root: u32,
    direction: &str,
    asked: Option<&str>,
    filter: &NodeFilter,
    limit: usize,
) -> (r: Vec<NodeInfo>)
    requires
        graph.wf(),
    ensures
        r@ == related_nodes(
            graph,
            delta,
            root,
            direction@,
            arg_text(asked),
            filter.query(),
            limit as nat,
        ),
{
    let places = collect_connected(graph, root, direction, asked);
    let mut results = collect_accepted(&graph.nodes, &places, filter, limit);
    let room: usize = limit - results.len();
    let ids = collect_newly_connected(&delta.new_edges, root, direction);
    let mut extra = collect_accepted_new(delta, &ids, root, asked, filter, room);
    results.append(&mut extra);
    results
}

// ── nodes by the type of their edges ─────────────────────────────────────────

/// Some edge of this type leaves the node.
pub open spec fn has_edge_of_type(edges: Seq<EdgeInfo>, edge_type: Seq<char>) -> bool {
    exists|j: int|
        0 <= j < edges.len() && same_ignoring_case((#[trigger] edges[j]).edge_type@, edge_type)
}

/// The accepted nodes among the first `n` of the graph that an edge of this type leaves, each id
/// once.
pub open spec fn nodes_by_edge_type(g: &CsrGraph, edge_type: Seq<char>, q: NodeQuery, n: int) -> Seq<
    NodeInfo,
>
    decreases n,
{
    if n <= 0 {
        Seq::empty()
    } else {
        let before = nodes_by_edge_type(g, edge_type, q, n - 1);
        let node = g.nodes@[n - 1];
        if has_edge_of_type(g.out_edges(n - 1), edge_type) && q.accepts(node) && !has_id(
            before,
            node.id,
        ) {
            before.push(node)
        } else {
            before
        }
    }
}

/// Some new edge of this type leaves the node with this id.
pub open spec fn has_new_edge_of_type(edges: Seq<EdgeInfo>, id: u32, edge_type: Seq<char>) -> bool {
    exists|j: int|
        0 <= j < edges.len() && (#[trigger] edges[j]).from == id && same_ignoring_case(
            edges[j].edge_type@,
            edge_type,
        )
}

/// The accepted new nodes, not among `known`, that a new edge of this type leaves.
pub open spec fn new_nodes_by_edge_type(
    nodes: Seq<NodeInfo>,
    edges: Seq<EdgeInfo>,
    edge_type: Seq<char>,
    q: NodeQuery,
    known: Seq<NodeInfo>,
) -> Seq<NodeInfo>
    decreases nodes.len(),
{
    if nodes.len() == 0 {
        Seq::empty()
    } else {
        let before = new_nodes_by_edge_type(nodes.drop_last(), edges, edge_type, q, known);
        let n = nodes.last();
        if !has_id(known, n.id) && has_new_edge_of_type(edges, n.id, edge_type) && q.accepts(n) {
            before.push(n)
        } else {
            before
        }
    }
}

fn any_of_type(types: &[String], edge_type: &str, Ghost(edges): Ghost<Seq<EdgeInfo>>) -> (r: bool)
    requires
        types@ == edge_types(edges),
    ensures
        r == has_edge_of_type(edges, edge_type@),
{
    let mut i: usize = 0;
    while i < types.len()
        invariant
            i <= types@.len(),
            types@ == edge_types(edges),
            forall|j: int|
                0 <= j < i ==> !same_ignoring_case((#[trigger] edges[j]).edge_type@, edge_type@),
        decreases types@.len() - i,
    {
        if eq_ignore_case(types[i].as_str(), edge_type) {
            proof {
                assert(same_ignoring_case(edges[i as int].edge_type@, edge_type@));
            }
            return true;
        }
        i += 1;
    }
    false
}

fn any_new_of_type(edges: &Vec<EdgeInfo>, id: u32, edge_type: &str) -> (r: bool)
    ensures
        r == has_new_edge_of_type(edges@, id, edge_type@),
{
    let mut i: usize = 0;
    while i < edges.len()
        invariant
            i <= edges@.len(),
            forall|j: int|
                0 <= j < i ==> !((#[trigger] edges@[j]).from == id && same_ignoring_case(
                    edges@[j].edge_type@,
                    edge_type@,
                )),
        decreases edges@.len() - i,
    {
        if edges[i].from == id && eq_ignore_case(edges[i].edge_type.as_str(), edge_type) {
            return true;
        }
        i += 1;
    }
    false
}

fn knows_id(nodes: &Vec<NodeInfo>, id: u32) -> (r: bool)
    ensures
        r == has_id(nodes@, id),
{
    let mut i: usize = 0;
    while i < nodes.len()
        invariant
            i <= nodes@.len(),
            forall|j: int| 0 <= j < i ==> (#[trigger] nodes@[j]).id != id,
        decreases nodes@.len() - i,
    {
        if nodes[i].id == id {
            return true;
        }
        i += 1;
    }
    false
}

proof fn lemma_by_edge_type_prefix(g: &CsrGraph, edge_type: Seq<char>, q: NodeQuery, i: int, n: int)
    requires
        0 <= i <= n,
    ensures
        nodes_by_edge_type(g, edge_type, q, i).is_prefix_of(
            nodes_by_edge_type(g, edge_type, q, n),
        ),
    decreases n,
{
    if i < n {
        lemma_by_edge_type_prefix(g, edge_type, q, i, n - 1);
    }
}

fn find_by_edge_type(
    graph: &CsrGraph,
    delta: &DeltaGraph,
    edge_type: &str,
    filter: &NodeFilter,
    limit: usize,
) -> (r: Vec<NodeInfo>)
    requires
        graph.wf(),
    ensures
        r@ == edge_type_nodes(graph, delta, edge_type@, filter.query(), limit as nat),
{
    let n: usize = graph.num_nodes();
    let ghost q = filter.query();
    let ghost all = nodes_by_edge_type(graph, edge_type@, q, n as int);
    proof {
        lemma_graph_size(graph, 0);
    }
    let mut results: Vec<NodeInfo> = Vec::new();
    let mut i: usize = 0;
    while i < n && results.len() < limit
        invariant
            graph.wf(),
            i <= n == graph.nodes@.len() < u32::MAX,
            q == filter.query(),
            results@.len() <= limit,
            results@ == nodes_by_edge_type(graph, edge_type@, q, i as int),
        decreases n - i,
    {
        let node = &graph.nodes[i];
        let types = graph.neighbor_types(i as u32);
        if any_of_type(types, edge_type, Ghost(graph.out_edges(i as int))) && filter.accepts(node)
            && !knows_id(&results, node.id) {
            results.push(node.clone());
        }
        i += 1;
    }
    proof {
        lemma_by_edge_type_prefix(graph, edge_type@, q, i as int, n as int);
        if i < n {
            assert(all.take(limit as int) =~= results@);
        }
        assert(results@ == at_most(all, limit as nat));
    }
    let room: usize = limit - results.len();
    let mut extra: Vec<NodeInfo> = Vec::new();
    let ghost news = delta.new_nodes@;
    let ghost wanted = new_nodes_by_edge_type(
        news,
        delta.new_edges@,
        edge_type@,
        q,
        results@,
    );
    let mut j: usize = 0;
    proof {
        assert(extra@ =~= new_nodes_by_edge_type(
            news.take(0),
            delta.new_edges@,
            edge_type@,
            q,
            results@,
        ));
    }
    while j < delta.new_nodes.len() && extra.len() < room
        invariant
            j <= news.len(),
            news == delta.new_nodes@,
            q == filter.query(),
            extra@.len() <= room,
            extra@ == new_nodes_by_edge_type(
                news.take(j as int),
                delta.new_edges@,
                edge_type@,
                q,
                results@,
            ),
        decreases news.len() - j,
    {
        proof {
            assert(news.take(j + 1).drop_last() =~= news.take(j as int));
            assert(news.take(j + 1).last() == news[j as int]);
        }
        let node = &delta.new_nodes[j];
        if !knows_id(&results, node.id) && any_new_of_type(&delta.new_edges, node.id, edge_type)
            && filter.accepts(node) {
            extra.push(node.clone());
        }
        j += 1;
    }
    proof {
        lemma_new_by_edge_type_prefix(
            news,
            delta.new_edges@,
            edge_type@,
            q,
            results@,
            j as int,
        );
        if j < news.len() {
            assert(wanted.take(room as int) =~= extra@);
        } else {
            assert(news.take(j as int) =~= news);
        }
        assert(extra@ == at_most(wanted, room as nat));
    }
    results.append(&mut extra);
    results
}

proof fn lemma_new_by_edge_type_prefix(
    nodes: Seq<NodeInfo>,
    edges: Seq<EdgeInfo>,
    edge_type: Seq<char>,
    q: NodeQuery,
    known: Seq<NodeInfo>,
    i: int,
)
    requires
        0 <= i <= nodes.len(),
    ensures
        new_nodes_by_edge_type(nodes.take(i), edges, edge_type, q, known).is_prefix_of(
            new_nodes_by_edge_type(nodes, edges, edge_type, q, known),
        ),
    decreases nodes.len(),
{
    if i < nodes.len() {
        assert(nodes.drop_last().take(i) =~= nodes.take(i));
        lemma_new_by_edge_type_prefix(nodes.drop_last(), edges, edge_type, q, known, i);
    } else {
        assert(nodes.take(i) =~= nodes);
    }
}

/// The nodes that an edge of this type leaves: of the graph, then new ones.
pub open spec fn edge_type_nodes(
    graph: &CsrGraph,
    delta: &DeltaGraph,
    edge_type: Seq<char>,
    q: NodeQuery,
    limit: nat,
) -> Seq<NodeInfo> {
    let first = at_most(
        nodes_by_edge_type(graph, edge_type, q, graph.nodes@.len() as int),
        limit,
    );
    first + at_most(
        new_nodes_by_edge_type(delta.new_nodes@, delta.new_edges@, edge_type, q, first),
        (limit - first.len()) as nat,
    )
}

// ── nodes by name and type ───────────────────────────────────────────────────

/// The accepted nodes.
pub open spec fn accepted(nodes: Seq<NodeInfo>, q: NodeQuery) -> Seq<NodeInfo>
    decreases nodes.len(),
{
    if nodes.len() == 0 {
        Seq::empty()
    } else if q.accepts(nodes.last()) {
        accepted(nodes.drop_last(), q).push(nodes.last())
    } else {
        accepted(nodes.drop_last(), q)
    }
}

proof fn lemma_accepted_part(nodes: Seq<NodeInfo>, q: NodeQuery, i: int)
    requires
        0 <= i <= nodes.len(),
    ensures
        accepted(nodes.take(i), q).is_prefix_of(accepted(nodes, q)),
    decreases nodes.len(),
{
    if i < nodes.len() {
        assert(nodes.drop_last().take(i) =~= nodes.take(i));
        lemma_accepted_part(nodes.drop_last(), q, i);
    } else {
        assert(nodes.take(i) =~= nodes);
    }
}

fn find_accepted(nodes: &Vec<NodeInfo>, filter: &NodeFilter, limit: usize) -> (r: Vec<NodeInfo>)
    ensures
        r@ == at_most(accepted(nodes@, filter.query()), limit as nat),
{
    let ghost q = filter.query();
    let mut r: Vec<NodeInfo> = Vec::new();
    let mut i: usize = 0;
    proof {
        assert(r@ =~= accepted(nodes@.take(0), q));
    }
    while i < nodes.len() && r.len() < limit
        invariant
            i <= nodes@.len(),
            q == filter.query(),
            r@.len() <= limit,
            r@ == accepted(nodes@.take(i as int), q),
        decreases nodes@.len() - i,
    {
        proof {
            assert(nodes@.take(i + 1).drop_last() =~= nodes@.take(i as int));
            assert(nodes@.take(i + 1).last() == nodes@[i as int]);
        }
        if filter.accepts(&nodes[i]) {
            r.push(nodes[i].clone());
        }
        i += 1;
    }
    proof {
        lemma_accepted_part(nodes@, q, i as int);
        if i < nodes@.len() {
            assert(accepted(nodes@, q).take(limit as int) =~= r@);
        } else {
            assert(nodes@.take(i as int) =~= nodes@);
        }
    }
    r
}

/// The direction that is asked for, `out` by default.
pub open spec fn direction_of(params: &NodeSearchParams) -> Seq<char> {
    match opt_text(params.direction) {
        Some(d) => d,
        None => "out"@,
    }
}

/// The nodes that are searched for.
pub open spec fn found_nodes(params: &NodeSearchParams, graph: &CsrGraph, delta: &DeltaGraph) -> Seq<
    NodeInfo,
> {
    let q = params.query();
    let limit = params.page();
    let asked = opt_text(params.edge_type);
    match (params.related_to, asked) {
        (Some(root), _) => related_nodes(
            graph,
            delta,
            root,
            direction_of(params),
            asked,
            q,
            limit,
        ),
        (None, Some(t)) => edge_type_nodes(graph, delta, t, q, limit),
        (None, None) => filled(
            accepted(graph.nodes@, q),
            accepted(delta.new_nodes@, q),
            limit,
        ),
    }
}

/// `GET /nodes`: by connection, by the type of edges, or by name and type alone.
pub fn search_nodes(params: &NodeSearchParams, graph: &CsrGraph, delta: &DeltaGraph) -> (r: Result<
    Vec<NodeInfo>,
    ApiError,
>)
    requires
        graph.wf(),
    ensures
        match params.related_to {
            Some(root) if root >= graph.nodes@.len() => r matches Err(ApiError::NotFound(m)) && m@
                == not_found_text(root),
            _ => r matches Ok(nodes) && nodes@ == found_nodes(params, graph, delta),
        },
{
    let limit: usize = match params.limit {
        Some(n) => if n < 500 {
            n
        } else {
            500
        },
        None => 50,
    };
    let filter = NodeFilter {
        part: match &params.q {
            Some(q) => Some(to_lower(q.as_str())),
            None => None,
        },
        node_type: match &params.node_type {
            Some(t) => Some(t.as_str()),
            None => None,
        },
    };
    let asked: Option<&str> = match &params.edge_type {
        Some(t) => Some(t.as_str()),
        None => None,
    };
    match params.related_to {
        Some(root) => {
            if root as usize >= graph.num_nodes() {
                return Err(node_not_found(root));
            }
            let direction: &str = match &params.direction {
                Some(d) => d.as_str(),
                None => "out",
            };
            Ok(find_related(graph, delta, root, direction, asked, &filter, limit))
        },
        None => match asked {
            Some(t) => Ok(find_by_edge_type(graph, delta, t, &filter, limit)),
            None => {
                let mut results = find_accepted(&graph.nodes, &filter, limit);
                let room: usize = limit - results.len();
                let mut extra = find_accepted(&delta.new_nodes, &filter, room);
                results.append(&mut extra);
                Ok(results)
            },
        },
    }
}

proof fn lemma_accepted_at_accepts(nodes: Seq<NodeInfo>, places: Seq<u32>, q: NodeQuery)
    ensures
        forall|i: int|
            0 <= i < accepted_at(nodes, places, q).len() ==> q.accepts(
                #[trigger] accepted_at(nodes, places, q)[i],
            ),
    decreases places.len(),
{
    if places.len() > 0 {
        lemma_accepted_at_accepts(nodes, places.drop_last(), q);
        let before = accepted_at(nodes, places.drop_last(), q);
        let all = accepted_at(nodes, places, q);
        assert forall|i: int| 0 <= i < all.len() implies q.accepts(#[trigger] all[i]) by {
            if i < before.len() {
                assert(all[i] == before[i]);
            }
        }
    }
}

proof fn lemma_accepted_new_accepts(
    delta: &DeltaGraph,
    ids: Seq<u32>,
    root: u32,
    asked: Option<Seq<char>>,
    q: NodeQuery,
)
    ensures
        forall|i: int|
            0 <= i < accepted_new(delta, ids, root, asked, q).len() ==> q.accepts(
                #[trigger] accepted_new(delta, ids, root, asked, q)[i],
            ),
    decreases ids.len(),
{
    if ids.len() > 0 {
        lemma_accepted_new_accepts(delta, ids.drop_last(), root, asked, q);
        let before = accepted_new(delta, ids.drop_last(), root, asked, q);
        let all = accepted_new(delta, ids, root, asked, q);
        assert forall|i: int| 0 <= i < all.len() implies q.accepts(#[trigger] all[i]) by {
            if i < before.len() {
                assert(all[i] == before[i]);
            }
        }
    }
}

proof fn lemma_by_edge_type_accepts(g: &CsrGraph, edge_type: Seq<char>, q: NodeQuery, n: int)
    ensures
        forall|i: int|
            0 <= i < nodes_by_edge_type(g, edge_type, q, n).len() ==> q.accepts(
                #[trigger] nodes_by_edge_type(g, edge_type, q, n)[i],
            ),
    decreases n,
{
    if n > 0 {
        lemma_by_edge_type_accepts(g, edge_type, q, n - 1);
        let before = nodes_by_edge_type(g, edge_type, q, n - 1);
        let all = nodes_by_edge_type(g, edge_type, q, n);
        assert forall|i: int| 0 <= i < all.len() implies q.accepts(#[trigger] all[i]) by {
            if i < before.len() {
                assert(all[i] == before[i]);
            }
        }
    }
}

proof fn lemma_new_by_edge_type_accepts(
    nodes: Seq<NodeInfo>,
    edges: Seq<EdgeInfo>,
    edge_type: Seq<char>,
    q: NodeQuery,
    known: Seq<NodeInfo>,
)
    ensures
        forall|i: int|
            0 <= i < new_nodes_by_edge_type(nodes, edges, edge_type, q, known).len() ==> q.accepts(
                #[trigger] new_nodes_by_edge_type(nodes, edges, edge_type, q, known)[i],
            ),
    decreases nodes.len(),
{
    if nodes.len() > 0 {
        lemma_new_by_edge_type_accepts(nodes.drop_last(), edges, edge_type, q, known);
        let before = new_nodes_by_edge_type(nodes.drop_last(), edges, edge_type, q, known);
        let all = new_nodes_by_edge_type(nodes, edges, edge_type, q, known);
        assert forall|i: int| 0 <= i < all.len() implies q.accepts(#[trigger] all[i]) by {
            if i < before.len() {
                assert(all[i] == before[i]);
            }
        }
    }
}

proof fn lemma_accepted_accepts(nodes: Seq<NodeInfo>, q: NodeQuery)
    ensures
        forall|i: int|
            0 <= i < accepted(nodes, q).len() ==> q.accepts(#[trigger] accepted(nodes, q)[i]),
    decreases nodes.len(),
{
    if nodes.len() > 0 {
        lemma_accepted_accepts(nodes.drop_last(), q);
        let before = accepted(nodes.drop_last(), q);
        let all = accepted(nodes, q);
        assert forall|i: int| 0 <= i < all.len() implies q.accepts(#[trigger] all[i]) by {
            if i < before.len() {
                assert(all[i] == before[i]);
            }
        }
    }
}

/// A search gives at most a page of nodes, and each has the name and the type that are asked for.
pub proof fn law_found_nodes_are_asked_for(
    params: &NodeSearchParams,
    graph: &CsrGraph,
    delta: &DeltaGraph,
)
    ensures
        found_nodes(params, graph, delta).len() <= params.page(),
        params.page() <= 500,
        forall|i: int|
            0 <= i < found_nodes(params, graph, delta).len() ==> params.query().accepts(
                #[trigger] found_nodes(params, graph, delta)[i],
            ),
{
    let q = params.query();
    let asked = opt_text(params.edge_type);
    match (params.related_to, asked) {
        (Some(root), _) => {
            let direction = direction_of(params);
            lemma_accepted_at_accepts(graph.nodes@, connected(graph, root, direction, asked), q);
            lemma_accepted_new_accepts(
                delta,
                newly_connected(delta.new_edges@, root, direction),
                root,
                asked,
                q,
            );
        },
        (None, Some(t)) => {
            let n = graph.nodes@.len() as int;
            lemma_by_edge_type_accepts(graph, t, q, n);
            lemma_new_by_edge_type_accepts(
                delta.new_nodes@,
                delta.new_edges@,
                t,
                q,
                at_most(nodes_by_edge_type(graph, t, q, n), params.page()),
            );
        },
        (None, None) => {
            lemma_accepted_accepts(graph.nodes@, q);
            lemma_accepted_accepts(delta.new_nodes@, q);
        },
    }
}

// ── edge search ──────────────────────────────────────────────────────────────

/// `GET /edges`
pub struct EdgeSearchParams {
    /// Only edges that leave this node.
    pub from: Option<u32>,
    /// Only edges that enter this node.
    pub to: Option<u32>,
    /// Only edges of this type, whatever the case of its letters.
    pub edge_type: Option<String>,
    /// Most results: 100 by default, at most 1000.
    pub limit: Option<usize>,
}

impl EdgeSearchParams {
    pub open spec fn page(&self) -> nat {
        match self.limit {
            Some(n) => if n < 1_000 {
                n as nat
            } else {
                1_000
            },
            None => 100,
        }
    }
}

/// An edge with the names of its nodes.
pub struct EdgeEntry {
    pub from_id: u32,
    pub from_name: String,
    pub to_id: u32,
    pub to_name: String,
    /// The bits of a single-precision number.
    pub weight: u32,
    pub edge_type: String,
}

/// The name of the node with this id; empty for an unknown one.
pub open spec fn name_by_id(graph: &CsrGraph, delta: &DeltaGraph, id: u32) -> Seq<char> {
    match node_with_id(graph, delta, id) {
        Some(n) => n.name@,
        None => Seq::empty(),
    }
}

/// The entry shows the edge.
pub open spec fn shows_edge(entry: EdgeEntry, e: EdgeInfo, graph: &CsrGraph, delta: &DeltaGraph) -> bool {
    &&& entry.from_id == e.from
    &&& entry.from_name@ == name_by_id(graph, delta, e.from)
    &&& entry.to_id == e.to
    &&& entry.to_name@ == name_by_id(graph, delta, e.to)
    &&& entry.weight == e.weight
    &&& entry.edge_type@ == e.edge_type@
}

/// The edge is asked for.
pub open spec fn edge_accepted(
    e: EdgeInfo,
    from: Option<u32>,
    to: Option<u32>,
    asked: Option<Seq<char>>,
) -> bool {
    &&& from matches Some(f) ==> e.from == f
    &&& to matches Some(t) ==> e.to == t
    &&& type_accepted(e.edge_type@, asked)
}

/// The edges that are asked for.
pub open spec fn accepted_edges(
    edges: Seq<EdgeInfo>,
    from: Option<u32>,
    to: Option<u32>,
    asked: Option<Seq<char>>,
) -> Seq<EdgeInfo>
    decreases edges.len(),
{
    if edges.len() == 0 {
        Seq::empty()
    } else if edge_accepted(edges.last(), from, to, asked) {
        accepted_edges(edges.drop_last(), from, to, asked).push(edges.last())
    } else {
        accepted_edges(edges.drop_last(), from, to, asked)
    }
}

/// The edges that are asked for among those that leave the given nodes.
pub open spec fn edges_leaving(
    g: &CsrGraph,
    nodes: Seq<u32>,
    to: Option<u32>,
    asked: Option<Seq<char>>,
) -> Seq<EdgeInfo>
    decreases nodes.len(),
{
    if nodes.len() == 0 {
        Seq::empty()
    } else {
        edges_leaving(g, nodes.drop_last(), to, asked) + accepted_edges(
            g.out_edges(nodes.last() as int),
            None,
            to,
            asked,
        )
    }
}

/// The nodes from which the edges that are asked for can leave: the given start; or those from
/// which an edge leads to the given end, in the order in which the edges were given; or all.
pub open spec fn edge_starts(g: &CsrGraph, from: Option<u32>, to: Option<u32>) -> Seq<u32> {
    match (from, to) {
        (Some(f), _) => seq![f],
        (None, Some(t)) => first_occurrences(g.in_nodes(t as int)),
        (None, None) => Seq::new(g.nodes@.len(), |i: int| i as u32),
    }
}

/// The edges that are searched for: of the graph, then new ones.
pub open spec fn found_edges(params: &EdgeSearchParams, graph: &CsrGraph, delta: &DeltaGraph) -> Seq<
    EdgeInfo,
> {
    let asked = opt_text(params.edge_type);
    filled(
        edges_leaving(graph, edge_starts(graph, params.from, params.to), params.to, asked),
        accepted_edges(delta.new_edges@, params.from, params.to, asked),
        params.page(),
    )
}

/// The first node that is named in the search and unknown.
pub open spec fn unknown_end(params: &EdgeSearchParams, graph: &CsrGraph, delta: &DeltaGraph) -> Option<
    u32,
> {
    match (params.from, params.to) {
        (Some(f), _) if node_with_id(graph, delta, f) is None => Some(f),
        (_, Some(t)) if node_with_id(graph, delta, t) is None => Some(t),
        _ => None,
    }
}

fn read_name(graph: &CsrGraph, delta: &DeltaGraph, id: u32) -> (r: String)
    ensures
        r@ == name_by_id(graph, delta, id),
{
    match look_up(graph, delta, id) {
        Some(n) => n.name.clone(),
        None => String::new(),
    }
}

fn collect_edge_starts(graph: &CsrGraph, from: Option<u32>, to: Option<u32>) -> (r: Vec<u32>)
    requires
        graph.wf(),
    ensures
        r@ == edge_starts(graph, from, to),
{
    proof {
        lemma_graph_size(graph, 0);
    }
    let mut starts: Vec<u32> = Vec::new();
    match from {
        Some(f) => {
            starts.push(f);
            proof {
                assert(starts@ =~= edge_starts(graph, from, to));
            }
        },
        None => match to {
            Some(t) => {
                let into = graph.rev_neighbors(t);
                let mut seen: HashSet<u32> = HashSet::new();
                let mut i: usize = 0;
                proof {
                    assert(starts@ =~= first_occurrences(into@.take(0)));
                }
                while i < into.len()
                    invariant
                        i <= into@.len(),
                        starts@ == first_occurrences(into@.take(i as int)),
                        forall|x: u32| seen@.contains(x) <==> #[trigger] starts@.contains(x),
                    decreases into@.len() - i,
                {
                    proof {
                        assert(into@.take(i + 1).drop_last() =~= into@.take(i as int));
                        assert(into@.take(i + 1).last() == into@[i as int]);
                    }
                    let u: u32 = into[i];
                    let ghost before = starts@;
                    if seen.insert(u) {
                        starts.push(u);
                        proof {
                            assert forall|x: u32| seen@.contains(x) <==> #[trigger] starts@.contains(
                                x,
                            ) by {
                                if before.contains(x) {
                                    let j = before.index_of(x);
                                    assert(starts@[j] == x);
                                }
                                assert(starts@[before.len() as int] == u);
                            }
                        }
                    }
                    i += 1;
                }
                proof {
                    assert(into@.take(i as int) =~= into@);
                }
            },
            None => {
                let n: usize = graph.num_nodes();
                let mut i: usize = 0;
                while i < n
                    invariant
                        i <= n < u32::MAX,
                        starts@.len() == i,
                        forall|j: int| 0 <= j < i ==> #[trigger] starts@[j] == j,
                    decreases n - i,
                {
                    starts.push(i as u32);
                    i += 1;
                }
                proof {
                    assert(starts@ =~= edge_starts(graph, from, to));
                }
            },
        },
    }
    starts
}

/// The entries show the edges, in their order.
pub open spec fn show_edges(
    entries: Seq<EdgeEntry>,
    edges: Seq<EdgeInfo>,
    graph: &CsrGraph,
    delta: &DeltaGraph,
) -> bool {
    &&& entries.len() == edges.len()
    &&& forall|i: int|
        0 <= i < edges.len() ==> shows_edge(#[trigger] entries[i], edges[i], graph, delta)
}

proof fn lemma_accepted_edges_prefix(
    edges: Seq<EdgeInfo>,
    from: Option<u32>,
    to: Option<u32>,
    asked: Option<Seq<char>>,
    i: int,
)
    requires
        0 <= i <= edges.len(),
    ensures
        accepted_edges(edges.take(i), from, to, asked).is_prefix_of(
            accepted_edges(edges, from, to, asked),
        ),
    decreases edges.len(),
{
    if i < edges.len() {
        assert(edges.drop_last().take(i) =~= edges.take(i));
        lemma_accepted_edges_prefix(edges.drop_last(), from, to, asked, i);
    } else {
        assert(edges.take(i) =~= edges);
    }
}

proof fn lemma_edges_leaving_prefix(
    g: &CsrGraph,
    nodes: Seq<u32>,
    to: Option<u32>,
    asked: Option<Seq<char>>,
    i: int,
)
    requires
        0 <= i <= nodes.len(),
    ensures
        edges_leaving(g, nodes.take(i), to, asked).is_prefix_of(edges_leaving(g, nodes, to, asked)),
    decreases nodes.len(),
{
    if i < nodes.len() {
        assert(nodes.drop_last().take(i) =~= nodes.take(i));
        lemma_edges_leaving_prefix(g, nodes.drop_last(), to, asked, i);
    } else {
        assert(nodes.take(i) =~= nodes);
    }
}

/// Adds the edges that are asked for among those that leave `node`, up to the limit.
fn add_leaving(
    entries: &mut Vec<EdgeEntry>,
    graph: &CsrGraph,
    delta: &DeltaGraph,
    node: u32,
    to: Option<u32>,
    asked: Option<&str>,
    limit: usize,
    Ghost(shown): Ghost<Seq<EdgeInfo>>,
)
    requires
        graph.wf(),
        shown.len() <= limit,
        show_edges(old(entries)@, shown, graph, delta),
    ensures
        show_edges(
            final(entries)@,
            at_most(
                shown + accepted_edges(
                    graph.out_edges(node as int),
                    None,
                    to,
                    arg_text(asked),
                ),
                limit as nat,
            ),
            graph,
            delta,
        ),
{
    let ghost edges = graph.out_edges(node as int);
    let ghost t = arg_text(asked);
    let ends = graph.neighbors(node);
    let w = graph.neighbor_weights(node);
    let types = graph.neighbor_types(node);
    let mut i: usize = 0;
    proof {
        assert(shown + accepted_edges(edges.take(0), None, to, t) =~= shown);
    }
    while i < ends.len() && entries.len() < limit
        invariant
            graph.wf(),
            edges == graph.out_edges(node as int),
            t == arg_text(asked),
            i <= ends@.len(),
            ends@ == targets(edges),
            w@ == weights(edges),
            types@ == edge_types(edges),
            entries@.len() <= limit,
            show_edges(
                entries@,
                shown + accepted_edges(edges.take(i as int), None, to, t),
                graph,
                delta,
            ),
        decreases ends@.len() - i,
    {
        let ghost e = edges[i as int];
        proof {
            crate::graph::csr::lemma_out_edges_range(graph, node as int, i as int);
            assert(edges.take(i + 1).drop_last() =~= edges.take(i as int));
            assert(edges.take(i + 1).last() == e);
        }
        let end_ok: bool = match to {
            Some(id) => ends[i] == id,
            None => true,
        };
        if end_ok && accepts_type(types[i].as_str(), asked) {
            let entry = EdgeEntry {
                from_id: node,
                from_name: read_name(graph, delta, node),
                to_id: ends[i],
                to_name: read_name(graph, delta, ends[i]),
                weight: w[i],
                edge_type: types[i].clone(),
            };
            proof {
                assert(shows_edge(entry, e, graph, delta));
                assert(shown + accepted_edges(edges.take(i + 1), None, to, t) =~= (shown
                    + accepted_edges(edges.take(i as int), None, to, t)).push(e));
            }
            entries.push(entry);
        }
        i += 1;
    }
    proof {
        let so_far = shown + accepted_edges(edges.take(i as int), None, to, t);
        let all = shown + accepted_edges(edges, None, to, t);
        lemma_accepted_edges_prefix(edges, None, to, t, i as int);
        if i == ends@.len() {
            assert(edges.take(i as int) =~= edges);
        } else {
            assert(all.take(limit as int) =~= so_far);
        }
        assert(at_most(all, limit as nat) =~= so_far);
    }
}

/// The edges of the graph that are asked for, up to the limit.
fn graph_edges(
    graph: &CsrGraph,
    delta: &DeltaGraph,
    from: Option<u32>,
    to: Option<u32>,
    asked: Option<&str>,
    limit: usize,
) -> (entries: Vec<EdgeEntry>)
    requires
        graph.wf(),
    ensures
        show_edges(
            entries@,
            at_most(
                edges_leaving(graph, edge_starts(graph, from, to), to, arg_text(asked)),
                limit as nat,
            ),
            graph,
            delta,
        ),
{
    let ghost t = arg_text(asked);
    let starts = collect_edge_starts(graph, from, to);
    let mut entries: Vec<EdgeEntry> = Vec::new();
    let mut i: usize = 0;
    while i < starts.len() && entries.len() < limit
        invariant
            graph.wf(),
            i <= starts@.len(),
            t == arg_text(asked),
            entries@.len() <= limit,
            show_edges(
                entries@,
                at_most(edges_leaving(graph, starts@.take(i as int), to, t), limit as nat),
                graph,
                delta,
            ),
        decreases starts@.len() - i,
    {
        let ghost before = edges_leaving(graph, starts@.take(i as int), to, t);
        proof {
            assert(starts@.take(i + 1).drop_last() =~= starts@.take(i as int));
            assert(starts@.take(i + 1).last() == starts@[i as int]);
            assert(at_most(before, limit as nat) =~= before);
        }
        add_leaving(&mut entries, graph, delta, starts[i], to, asked, limit, Ghost(before));
        i += 1;
    }
    proof {
        let found = edges_leaving(graph, starts@, to, t);
        lemma_edges_leaving_prefix(graph, starts@, to, t, i as int);
        if i == starts@.len() {
            assert(starts@.take(i as int) =~= starts@);
        } else {
            let part = edges_leaving(graph, starts@.take(i as int), to, t);
            assert(at_most(found, limit as nat) =~= at_most(part, limit as nat));
        }
    }
    entries
}

/// Adds the new edges that are asked for, up to the limit.
fn add_new_edges(
    entries: &mut Vec<EdgeEntry>,
    graph: &CsrGraph,
    delta: &DeltaGraph,
    from: Option<u32>,
    to: Option<u32>,
    asked: Option<&str>,
    limit: usize,
    Ghost(shown): Ghost<Seq<EdgeInfo>>,
)
    requires
        shown.len() <= limit,
        show_edges(old(entries)@, shown, graph, delta),
    ensures
        show_edges(
            final(entries)@,
            at_most(
                shown + accepted_edges(delta.new_edges@, from, to, arg_text(asked)),
                limit as nat,
            ),
            graph,
            delta,
        ),
{
    let ghost t = arg_text(asked);
    let ghost news = delta.new_edges@;
    let mut j: usize = 0;
    proof {
        assert(shown + accepted_edges(news.take(0), from, to, t) =~= shown);
    }
    while j < delta.new_edges.len() && entries.len() < limit
        invariant
            j <= news.len(),
            news == delta.new_edges@,
            t == arg_text(asked),
            entries@.len() <= limit,
            show_edges(
                entries@,
                shown + accepted_edges(news.take(j as int), from, to, t),
                graph,
                delta,
            ),
        decreases news.len() - j,
    {
        let e = &delta.new_edges[j];
        proof {
            assert(news.take(j + 1).drop_last() =~= news.take(j as int));
            assert(news.take(j + 1).last() == *e);
        }
        let start_ok: bool = match from {
            Some(f) => e.from == f,
            None => true,
        };
        let end_ok: bool = match to {
            Some(id) => e.to == id,
            None => true,
        };
        if start_ok && end_ok && accepts_type(e.edge_type.as_str(), asked) {
            let entry = EdgeEntry {
                from_id: e.from,
                from_name: read_name(graph, delta, e.from),
                to_id: e.to,
                to_name: read_name(graph, delta, e.to),
                weight: e.weight,
                edge_type: e.edge_type.clone(),
            };
            proof {
                assert(shows_edge(entry, *e, graph, delta));
                assert(shown + accepted_edges(news.take(j + 1), from, to, t) =~= (shown
                    + accepted_edges(news.take(j as int), from, to, t)).push(*e));
            }
            entries.push(entry);
        }
        j += 1;
    }
    proof {
        let so_far = shown + accepted_edges(news.take(j as int), from, to, t);
        let all = shown + accepted_edges(news, from, to, t);
        lemma_accepted_edges_prefix(news, from, to, t, j as int);
        if j == news.len() {
            assert(news.take(j as int) =~= news);
        }
        assert(at_most(all, limit as nat) =~= so_far);
    }
}

/// `GET /edges`: an error without any filter or with an unknown node, or else a page of edges.
pub fn search_edges(params: &EdgeSearchParams, graph: &CsrGraph, delta: &DeltaGraph) -> (r: Result<
    Vec<EdgeEntry>,
    ApiError,
>)
    requires
        graph.wf(),
    ensures
        if params.from is None && params.to is None && params.edge_type is None {
            r matches Err(ApiError::BadRequest(m)) && m@
                == "at least one filter required: from, to, or type"@
        } else {
            match unknown_end(params, graph, delta) {
                Some(id) => r matches Err(ApiError::NotFound(m)) && m@ == not_found_text(id),
                None => r matches Ok(entries) && show_edges(
                    entries@,
                    found_edges(params, graph, delta),
                    graph,
                    delta,
                ),
            }
        },
{
    if params.from.is_none() && params.to.is_none() && params.edge_type.is_none() {
        return Err(ApiError::bad_request("at least one filter required: from, to, or type"));
    }
    match params.from {
        Some(f) => if look_up(graph, delta, f).is_none() {
            return Err(node_not_found(f));
        },
        None => {},
    }
    match params.to {
        Some(t) => if look_up(graph, delta, t).is_none() {
            return Err(node_not_found(t));
        },
        None => {},
    }
    let limit: usize = match params.limit {
        Some(n) => if n < 1_000 {
            n
        } else {
            1_000
        },
        None => 100,
    };
    let asked: Option<&str> = match &params.edge_type {
        Some(t) => Some(t.as_str()),
        None => None,
    };
    let mut entries = graph_edges(graph, delta, params.from, params.to, asked, limit);
    let ghost found = edges_leaving(
        graph,
        edge_starts(graph, params.from, params.to),
        params.to,
        arg_text(asked),
    );
    let ghost shown = at_most(found, limit as nat);
    add_new_edges(
        &mut entries,
        graph,
        delta,
        params.from,
        params.to,
        asked,
        limit,
        Ghost(shown),
    );
    proof {
        let news = accepted_edges(delta.new_edges@, params.from, params.to, arg_text(asked));
        assert(at_most(shown + news, limit as nat) =~= found_edges(params, graph, delta));
    }
    Ok(entries)
}

proof fn lemma_accepted_edges_accepted(
    edges: Seq<EdgeInfo>,
    from: Option<u32>,
    to: Option<u32>,
    asked: Option<Seq<char>>,
)
    ensures
        forall|i: int|
            0 <= i < accepted_edges(edges, from, to, asked).len() ==> edge_accepted(
                #[trigger] accepted_edges(edges, from, to, asked)[i],
                from,
                to,
                asked,
            ) && edges.contains(accepted_edges(edges, from, to, asked)[i]),
    decreases edges.len(),
{
    if edges.len() > 0 {
        let rest = edges.drop_last();
        lemma_accepted_edges_accepted(rest, from, to, asked);
        let before = accepted_edges(rest, from, to, asked);
        let all = accepted_edges(edges, from, to, asked);
        assert forall|i: int| 0 <= i < all.len() implies edge_accepted(
            #[trigger] all[i],
            from,
            to,
            asked,
        ) && edges.contains(all[i]) by {
            if i < before.len() {
                assert(all[i] == before[i]);
                let j = rest.index_of(before[i]);
                assert(edges[j] == all[i]);
            } else {
                assert(edges[edges.len() - 1] == all[i]);
            }
        }
    }
}

proof fn lemma_edges_leaving_accepted(
    g: &CsrGraph,
    nodes: Seq<u32>,
    to: Option<u32>,
    asked: Option<Seq<char>>,
)
    requires
        g.wf(),
    ensures
        forall|i: int|
            0 <= i < edges_leaving(g, nodes, to, asked).len() ==> edge_accepted(
                #[trigger] edges_leaving(g, nodes, to, asked)[i],
                None,
                to,
                asked,
            ) && nodes.contains(edges_leaving(g, nodes, to, asked)[i].from),
    decreases nodes.len(),
{
    if nodes.len() > 0 {
        let rest = nodes.drop_last();
        lemma_edges_leaving_accepted(g, rest, to, asked);
        let out = g.out_edges(nodes.last() as int);
        lemma_accepted_edges_accepted(out, None, to, asked);
        let before = edges_leaving(g, rest, to, asked);
        let here = accepted_edges(out, None, to, asked);
        let all = edges_leaving(g, nodes, to, asked);
        assert forall|i: int| 0 <= i < all.len() implies edge_accepted(
            #[trigger] all[i],
            None,
            to,
            asked,
        ) && nodes.contains(all[i].from) by {
            if i < before.len() {
                assert(all[i] == before[i]);
                let j = rest.index_of(before[i].from);
                assert(nodes[j] == all[i].from);
            } else {
                assert(all[i] == here[i - before.len()]);
                let j = out.index_of(all[i]);
                crate::graph::csr::lemma_out_edges_range(g, nodes.last() as int, j);
                assert(nodes[nodes.len() - 1] == all[i].from);
            }
        }
    }
}

/// A search gives at most a page of edges, and each has the ends and the type that are asked for.
pub proof fn law_found_edges_are_asked_for(
    params: &EdgeSearchParams,
    graph: &CsrGraph,
    delta: &DeltaGraph,
)
    requires
        graph.wf(),
    ensures
        found_edges(params, graph, delta).len() <= params.page(),
        params.page() <= 1_000,
        forall|i: int|
            0 <= i < found_edges(params, graph, delta).len() ==> edge_accepted(
                #[trigger] found_edges(params, graph, delta)[i],
                params.from,
                params.to,
                opt_text(params.edge_type),
            ),
{
    let asked = opt_text(params.edge_type);
    let starts = edge_starts(graph, params.from, params.to);
    let found = edges_leaving(graph, starts, params.to, asked);
    let news = accepted_edges(delta.new_edges@, params.from, params.to, asked);
    lemma_edges_leaving_accepted(graph, starts, params.to, asked);
    lemma_accepted_edges_accepted(delta.new_edges@, params.from, params.to, asked);
    let all = found_edges(params, graph, delta);
    let first = at_most(found, params.page());
    assert forall|i: int| 0 <= i < all.len() implies edge_accepted(
        #[trigger] all[i],
        params.from,
        params.to,
        asked,
    ) by {
        if i < first.len() {
            assert(all[i] == found[i]);
        } else {
            assert(all[i] == news[i - first.len()]);
        }
    }
}

// ── what a search for nodes gives ────────────────────────────────────────────

/// The node has the name and the type that are asked for: its name contains the text in lower case,
/// and its type is the one given.
pub open spec fn is_asked_for(params: &NodeSearchParams, n: NodeInfo) -> bool {
    &&& params.q matches Some(q) ==> has_substring(lowercase(n.name@), lowercase(q@))
    &&& params.node_type matches Some(t) ==> n.node_type@ == t@
}

/// How many nodes a search gives at most: as many as are asked for, up to 500, and 50 by default.
pub open spec fn most_nodes(params: &NodeSearchParams) -> nat {
    match params.limit {
        Some(n) if n <= 500 => n as nat,
        Some(_) => 500,
        None => 50,
    }
}

proof fn lemma_filter_add<A>(a: Seq<A>, b: Seq<A>, pred: spec_fn(A) -> bool)
    ensures
        (a + b).filter(pred) == a.filter(pred) + b.filter(pred),
    decreases b.len(),
{
    reveal(Seq::filter);
    if b.len() == 0 {
        assert(a + b =~= a);
        assert(a.filter(pred) + b.filter(pred) =~= a.filter(pred));
    } else {
        lemma_filter_add(a, b.drop_last(), pred);
        assert((a + b).drop_last() =~= a + b.drop_last());
        assert((a + b).filter(pred) =~= a.filter(pred) + b.filter(pred));
    }
}

proof fn lemma_accepted_filters(params: &NodeSearchParams, nodes: Seq<NodeInfo>)
    ensures
        accepted(nodes, params.query()) == nodes.filter(|n: NodeInfo| is_asked_for(params, n)),
    decreases nodes.len(),
{
    reveal(Seq::filter);
    if nodes.len() > 0 {
        lemma_accepted_filters(params, nodes.drop_last());
        assert(params.query().accepts(nodes.last()) == is_asked_for(params, nodes.last()));
    } else {
        assert(accepted(nodes, params.query()) =~= nodes.filter(
            |n: NodeInfo| is_asked_for(params, n),
        ));
    }
}

/// A search by name and type alone gives the first nodes that are asked for, those of the graph in
/// their order and then the new ones in theirs, up to a page.
pub proof fn law_search_gives_the_nodes_asked_for(
    params: &NodeSearchParams,
    graph: &CsrGraph,
    delta: &DeltaGraph,
)
    requires
        params.related_to is None,
        params.edge_type is None,
    ensures
        ({
            let all = (graph.nodes@ + delta.new_nodes@).filter(
                |n: NodeInfo| is_asked_for(params, n),
            );
            found_nodes(params, graph, delta) == (if all.len() <= most_nodes(params) {
                all
            } else {
                all.take(most_nodes(params) as int)
            })
        }),
{
    let asked = |n: NodeInfo| is_asked_for(params, n);
    lemma_accepted_filters(params, graph.nodes@);
    lemma_accepted_filters(params, delta.new_nodes@);
    lemma_filter_add(graph.nodes@, delta.new_nodes@, asked);
    let all = (graph.nodes@ + delta.new_nodes@).filter(asked);
    assert(found_nodes(params, graph, delta) =~= (if all.len() <= most_nodes(params) {
        all
    } else {
        all.take(most_nodes(params) as int)
    }));
}

proof fn lemma_by_edge_type(g: &CsrGraph, edge_type: Seq<char>, q: NodeQuery, n: int)
    requires
        0 <= n <= g.nodes@.len(),
    ensures
        forall|i: int|
            0 <= i < nodes_by_edge_type(g, edge_type, q, n).len() ==> exists|p: int, k: int|
                0 <= p < n && 0 <= k < g.out_edges(p).len() && g.nodes@[p]
                    == #[trigger] nodes_by_edge_type(g, edge_type, q, n)[i] && same_ignoring_case(
                    (#[trigger] g.out_edges(p)[k]).edge_type@,
                    edge_type,
                ),
        forall|p: int, k: int|
            0 <= p < n && 0 <= k < g.out_edges(p).len() && q.accepts(g.nodes@[p])
                && same_ignoring_case((#[trigger] g.out_edges(p)[k]).edge_type@, edge_type)
                ==> has_id(nodes_by_edge_type(g, edge_type, q, n), g.nodes@[p].id),
    decreases n,
{
    if n > 0 {
        let before = nodes_by_edge_type(g, edge_type, q, n - 1);
        let all = nodes_by_edge_type(g, edge_type, q, n);
        lemma_by_edge_type(g, edge_type, q, n - 1);
        assert forall|i: int| 0 <= i < all.len() implies exists|p: int, k: int|
            0 <= p < n && 0 <= k < g.out_edges(p).len() && g.nodes@[p] == #[trigger] all[i]
                && same_ignoring_case((#[trigger] g.out_edges(p)[k]).edge_type@, edge_type) by {
            if i < before.len() {
                assert(all[i] == before[i]);
                let (p, k) = choose|p: int, k: int|
                    0 <= p < n - 1 && 0 <= k < g.out_edges(p).len() && g.nodes@[p] == before[i]
                        && same_ignoring_case((#[trigger] g.out_edges(p)[k]).edge_type@, edge_type);
                assert(same_ignoring_case(g.out_edges(p)[k].edge_type@, edge_type));
            } else {
                assert(all[i] == g.nodes@[n - 1]);
                let k = choose|k: int|
                    0 <= k < g.out_edges(n - 1).len() && same_ignoring_case(
                        (#[trigger] g.out_edges(n - 1)[k]).edge_type@,
                        edge_type,
                    );
                assert(same_ignoring_case(g.out_edges(n - 1)[k].edge_type@, edge_type));
            }
        }
        assert forall|p: int, k: int|
            0 <= p < n && 0 <= k < g.out_edges(p).len() && q.accepts(g.nodes@[p])
                && same_ignoring_case(
                (#[trigger] g.out_edges(p)[k]).edge_type@,
                edge_type,
            ) implies has_id(all, g.nodes@[p].id) by {
            if p < n - 1 {
                assert(has_id(before, g.nodes@[p].id));
                let j = choose|j: int|
                    0 <= j < before.len() && (#[trigger] before[j]).id == g.nodes@[p].id;
                assert(all[j].id == g.nodes@[p].id);
            } else if has_id(before, g.nodes@[p].id) {
                let j = choose|j: int|
                    0 <= j < before.len() && (#[trigger] before[j]).id == g.nodes@[p].id;
                assert(all[j].id == g.nodes@[p].id);
            } else {
                assert(has_edge_of_type(g.out_edges(p), edge_type));
                assert(all[before.len() as int] == g.nodes@[p]);
            }
        }
    }
}

proof fn lemma_new_by_edge_type(
    nodes: Seq<NodeInfo>,
    edges: Seq<EdgeInfo>,
    edge_type: Seq<char>,
    q: NodeQuery,
    known: Seq<NodeInfo>,
)
    ensures
        forall|i: int|
            0 <= i < new_nodes_by_edge_type(nodes, edges, edge_type, q, known).len() ==> exists|
                p: int,
                k: int,
            |
                0 <= p < nodes.len() && 0 <= k < edges.len() && #[trigger] nodes[p]
                    == #[trigger] new_nodes_by_edge_type(nodes, edges, edge_type, q, known)[i] && (
                #[trigger] edges[k]).from == nodes[p].id && same_ignoring_case(
                    edges[k].edge_type@,
                    edge_type,
                ),
        forall|p: int, k: int|
            0 <= p < nodes.len() && 0 <= k < edges.len() && q.accepts(#[trigger] nodes[p]) && (
            #[trigger] edges[k]).from == nodes[p].id && same_ignoring_case(
                edges[k].edge_type@,
                edge_type,
            ) ==> has_id(known, nodes[p].id) || has_id(
                new_nodes_by_edge_type(nodes, edges, edge_type, q, known),
                nodes[p].id,
            ),
    decreases nodes.len(),
{
    if nodes.len() > 0 {
        let rest = nodes.drop_last();
        let last = nodes.len() - 1;
        let before = new_nodes_by_edge_type(rest, edges, edge_type, q, known);
        let all = new_nodes_by_edge_type(nodes, edges, edge_type, q, known);
        lemma_new_by_edge_type(rest, edges, edge_type, q, known);
        assert forall|i: int| 0 <= i < all.len() implies exists|p: int, k: int|
            0 <= p < nodes.len() && 0 <= k < edges.len() && #[trigger] nodes[p]
                == #[trigger] all[i] && (#[trigger] edges[k]).from == nodes[p].id
                && same_ignoring_case(edges[k].edge_type@, edge_type) by {
            if i < before.len() {
                assert(all[i] == before[i]);
                let (p, k) = choose|p: int, k: int|
                    0 <= p < rest.len() && 0 <= k < edges.len() && #[trigger] rest[p] == before[i]
                        && (#[trigger] edges[k]).from == rest[p].id && same_ignoring_case(
                        edges[k].edge_type@,
                        edge_type,
                    );
                assert(nodes[p] == all[i] && edges[k].from == nodes[p].id);
            } else {
                assert(all[i] == nodes[last]);
                let k = choose|k: int|
                    0 <= k < edges.len() && (#[trigger] edges[k]).from == nodes[last].id
                        && same_ignoring_case(edges[k].edge_type@, edge_type);
                assert(edges[k].from == nodes[last].id);
            }
        }
        assert forall|p: int, k: int|
            0 <= p < nodes.len() && 0 <= k < edges.len() && q.accepts(#[trigger] nodes[p]) && (
            #[trigger] edges[k]).from == nodes[p].id && same_ignoring_case(
                edges[k].edge_type@,
                edge_type,
            ) implies has_id(known, nodes[p].id) || has_id(all, nodes[p].id) by {
            if p < last {
                assert(rest[p] == nodes[p]);
                if !has_id(known, nodes[p].id) {
                    assert(has_id(before, nodes[p].id));
                    let j = choose|j: int|
                        0 <= j < before.len() && (#[trigger] before[j]).id == nodes[p].id;
                    assert(all[j].id == nodes[p].id);
                }
            } else if !has_id(known, nodes[p].id) {
                assert(has_new_edge_of_type(edges, nodes[p].id, edge_type));
                assert(all[before.len() as int] == nodes[p]);
            }
        }
    }
}

/// A search by the type of an edge gives only nodes that an edge of that type leaves, whatever the
/// case of its letters: in the graph, or for new nodes in the delta. Where the page is not full, it
/// gives all of them that have the name and the type asked for, by their ids.
pub proof fn law_search_by_edge_type_gives_its_starts(
    params: &NodeSearchParams,
    graph: &CsrGraph,
    delta: &DeltaGraph,
    t: Seq<char>,
)
    requires
        params.related_to is None,
        opt_text(params.edge_type) == Some(t),
    ensures
        ({
            let r = found_nodes(params, graph, delta);
            let edges = delta.new_edges@;
            let nodes = delta.new_nodes@;
            &&& r.len() <= most_nodes(params)
            &&& forall|i: int|
                0 <= i < r.len() ==> is_asked_for(params, #[trigger] r[i]) && ((exists|
                    p: int,
                    k: int,
                |
                    0 <= p < graph.nodes@.len() && 0 <= k < graph.out_edges(p).len()
                        && graph.nodes@[p] == r[i] && same_ignoring_case(
                        (#[trigger] graph.out_edges(p)[k]).edge_type@,
                        t,
                    )) || (exists|p: int, k: int|
                    0 <= p < nodes.len() && 0 <= k < edges.len() && #[trigger] nodes[p] == r[i] && (
                    #[trigger] edges[k]).from == nodes[p].id && same_ignoring_case(
                        edges[k].edge_type@,
                        t,
                    )))
            &&& r.len() < most_nodes(params) ==> forall|p: int, k: int|
                0 <= p < graph.nodes@.len() && 0 <= k < graph.out_edges(p).len() && is_asked_for(
                    params,
                    graph.nodes@[p],
                ) && same_ignoring_case((#[trigger] graph.out_edges(p)[k]).edge_type@, t)
                    ==> exists|i: int|
                    0 <= i < r.len() && (#[trigger] r[i]).id == graph.nodes@[p].id
            &&& r.len() < most_nodes(params) ==> forall|p: int, k: int|
                0 <= p < nodes.len() && 0 <= k < edges.len() && is_asked_for(
                    params,
                    #[trigger] nodes[p],
                ) && (#[trigger] edges[k]).from == nodes[p].id && same_ignoring_case(
                    edges[k].edge_type@,
                    t,
                ) ==> exists|i: int| 0 <= i < r.len() && (#[trigger] r[i]).id == nodes[p].id
        }),
{
    let q = params.query();
    let n = graph.nodes@.len() as int;
    let edges = delta.new_edges@;
    let nodes = delta.new_nodes@;
    let by_type = nodes_by_edge_type(graph, t, q, n);
    let first = at_most(by_type, params.page());
    let news = new_nodes_by_edge_type(nodes, edges, t, q, first);
    let r = found_nodes(params, graph, delta);
    assert forall|x: NodeInfo| #[trigger] is_asked_for(params, x) == q.accepts(x) by {}
    lemma_by_edge_type(graph, t, q, n);
    lemma_new_by_edge_type(nodes, edges, t, q, first);
    law_found_nodes_are_asked_for(params, graph, delta);
    assert forall|i: int| 0 <= i < r.len() implies is_asked_for(params, #[trigger] r[i]) && ((exists|
        p: int,
        k: int,
    |
        0 <= p < n && 0 <= k < graph.out_edges(p).len() && graph.nodes@[p] == r[i]
            && same_ignoring_case((#[trigger] graph.out_edges(p)[k]).edge_type@, t)) || (exists|
        p: int,
        k: int,
    |
        0 <= p < nodes.len() && 0 <= k < edges.len() && #[trigger] nodes[p] == r[i] && (
        #[trigger] edges[k]).from == nodes[p].id && same_ignoring_case(edges[k].edge_type@, t))) by {
        if i < first.len() {
            assert(r[i] == by_type[i]);
        } else {
            assert(r[i] == news[i - first.len()]);
        }
    }
    if r.len() < most_nodes(params) {
        assert(first =~= by_type);
        assert(r =~= first + news);
        assert forall|p: int, k: int|
            0 <= p < n && 0 <= k < graph.out_edges(p).len() && is_asked_for(params, graph.nodes@[p])
                && same_ignoring_case((#[trigger] graph.out_edges(p)[k]).edge_type@, t) implies exists|
            i: int,
        |
            0 <= i < r.len() && (#[trigger] r[i]).id == graph.nodes@[p].id by {
            assert(has_id(by_type, graph.nodes@[p].id));
            let i = choose|i: int|
                0 <= i < by_type.len() && (#[trigger] by_type[i]).id == graph.nodes@[p].id;
            assert(r[i] == by_type[i]);
        }
        assert forall|p: int, k: int|
            0 <= p < nodes.len() && 0 <= k < edges.len() && is_asked_for(params, #[trigger] nodes[p])
                && (#[trigger] edges[k]).from == nodes[p].id && same_ignoring_case(
                edges[k].edge_type@,
                t,
            ) implies exists|i: int| 0 <= i < r.len() && (#[trigger] r[i]).id == nodes[p].id by {
            if has_id(first, nodes[p].id) {
                let i = choose|i: int|
                    0 <= i < first.len() && (#[trigger] first[i]).id == nodes[p].id;
                assert(r[i] == first[i]);
            } else {
                let i = choose|i: int|
                    0 <= i < news.len() && (#[trigger] news[i]).id == nodes[p].id;
                assert(r[first.len() + i] == news[i]);
            }
        }
    }
}

proof fn lemma_ends(edges: Seq<EdgeInfo>, asked: Option<Seq<char>>, x: u32)
    ensures
        ends_of_type(edges, asked).contains(x) <==> exists|k: int|
            0 <= k < edges.len() && (#[trigger] edges[k]).to == x && type_accepted(
                edges[k].edge_type@,
                asked,
            ),
    decreases edges.len(),
{
    if edges.len() > 0 {
        let rest = edges.drop_last();
        let last = edges.len() - 1;
        let before = ends_of_type(rest, asked);
        let all = ends_of_type(edges, asked);
        lemma_ends(rest, asked, x);
        if all.contains(x) {
            let i = all.index_of(x);
            if i < before.len() {
                assert(before[i] == x);
                let k = choose|k: int|
                    0 <= k < rest.len() && (#[trigger] rest[k]).to == x && type_accepted(
                        rest[k].edge_type@,
                        asked,
                    );
                assert(edges[k].to == x);
            } else {
                assert(edges[last].to == x);
            }
        }
        if exists|k: int|
            0 <= k < edges.len() && (#[trigger] edges[k]).to == x && type_accepted(
                edges[k].edge_type@,
                asked,
            ) {
            let k = choose|k: int|
                0 <= k < edges.len() && (#[trigger] edges[k]).to == x && type_accepted(
                    edges[k].edge_type@,
                    asked,
                );
            if k < last {
                assert(rest[k].to == x);
                let i = before.index_of(x);
                assert(all[i] == x);
            } else {
                assert(all[before.len() as int] == x);
            }
        }
    }
}

proof fn lemma_starts(
    g: &CsrGraph,
    starts: Seq<u32>,
    to: u32,
    asked: Option<Seq<char>>,
    known: Seq<u32>,
    x: u32,
)
    ensures
        starts_of_type(g, starts, to, asked, known).contains(x) <==> starts.contains(x)
            && !known.contains(x) && joined_by_type(g, x, to, asked),
    decreases starts.len(),
{
    if starts.len() > 0 {
        let rest = starts.drop_last();
        let before = starts_of_type(g, rest, to, asked, known);
        let all = starts_of_type(g, starts, to, asked, known);
        lemma_starts(g, rest, to, asked, known, x);
        if all.contains(x) {
            let i = all.index_of(x);
            if i < before.len() {
                assert(before[i] == x);
                let j = rest.index_of(x);
                assert(starts[j] == x);
            } else {
                assert(starts[starts.len() - 1] == x);
            }
        }
        if starts.contains(x) && !known.contains(x) && joined_by_type(g, x, to, asked) {
            let j = starts.index_of(x);
            if j < rest.len() {
                assert(rest[j] == x);
                let i = before.index_of(x);
                assert(all[i] == x);
            } else {
                assert(all[before.len() as int] == x);
            }
        }
    }
}

proof fn lemma_accepted_at(nodes: Seq<NodeInfo>, places: Seq<u32>, q: NodeQuery)
    ensures
        forall|i: int|
            0 <= i < accepted_at(nodes, places, q).len() ==> q.accepts(
                #[trigger] accepted_at(nodes, places, q)[i],
            ) && exists|p: u32| #[trigger]
                places.contains(p) && p < nodes.len() && nodes[p as int] == accepted_at(
                    nodes,
                    places,
                    q,
                )[i],
        forall|p: u32|
            #[trigger] places.contains(p) && p < nodes.len() && q.accepts(nodes[p as int])
                ==> accepted_at(nodes, places, q).contains(nodes[p as int]),
    decreases places.len(),
{
    if places.len() > 0 {
        let rest = places.drop_last();
        let before = accepted_at(nodes, rest, q);
        let all = accepted_at(nodes, places, q);
        lemma_accepted_at(nodes, rest, q);
        assert(places[places.len() - 1] == places.last());
        assert forall|i: int| 0 <= i < all.len() implies q.accepts(#[trigger] all[i]) && exists|p: u32|
         #[trigger]
            places.contains(p) && p < nodes.len() && nodes[p as int] == all[i] by {
            if i < before.len() {
                assert(all[i] == before[i]);
                let p = choose|p: u32|
                    #[trigger] rest.contains(p) && p < nodes.len() && nodes[p as int] == before[i];
                let j = rest.index_of(p);
                assert(places[j] == p);
                assert(places.contains(p));
            } else {
                assert(places.contains(places.last()));
            }
        }
        assert forall|p: u32|
            #[trigger] places.contains(p) && p < nodes.len() && q.accepts(
                nodes[p as int],
            ) implies all.contains(nodes[p as int]) by {
            let j = places.index_of(p);
            if j < rest.len() {
                assert(rest[j] == p);
                assert(rest.contains(p));
                let i = before.index_of(nodes[p as int]);
                assert(all[i] == nodes[p as int]);
            } else {
                assert(all[before.len() as int] == nodes[p as int]);
            }
        }
    }
}

proof fn lemma_new_connected(edges: Seq<EdgeInfo>, root: u32, known: Seq<u32>, x: u32)
    ensures
        new_ends(edges, root).contains(x) <==> exists|k: int|
            0 <= k < edges.len() && (#[trigger] edges[k]).from == root && edges[k].to == x,
        new_starts(edges, root, known).contains(x) <==> !known.contains(x) && exists|k: int|
            0 <= k < edges.len() && (#[trigger] edges[k]).to == root && edges[k].from == x,
    decreases edges.len(),
{
    if edges.len() > 0 {
        let rest = edges.drop_last();
        let last = edges.len() - 1;
        lemma_new_connected(rest, root, known, x);
        assert forall|k: int| 0 <= k < rest.len() implies #[trigger] rest[k] == edges[k] by {}
        let ends = new_ends(rest, root);
        let all_ends = new_ends(edges, root);
        let starts = new_starts(rest, root, known);
        let all_starts = new_starts(edges, root, known);
        if all_ends.contains(x) {
            let i = all_ends.index_of(x);
            if i < ends.len() {
                assert(ends[i] == x);
                let k = choose|k: int|
                    0 <= k < rest.len() && (#[trigger] rest[k]).from == root && rest[k].to == x;
                assert(edges[k].from == root);
            } else {
                assert(edges[last].from == root);
            }
        }
        if exists|k: int| 0 <= k < edges.len() && (#[trigger] edges[k]).from == root && edges[k].to == x {
            let k = choose|k: int|
                0 <= k < edges.len() && (#[trigger] edges[k]).from == root && edges[k].to == x;
            if k < last {
                assert(rest[k].from == root);
                let i = ends.index_of(x);
                assert(all_ends[i] == x);
            } else {
                assert(all_ends[ends.len() as int] == x);
            }
        }
        if all_starts.contains(x) {
            let i = all_starts.index_of(x);
            if i < starts.len() {
                assert(starts[i] == x);
                let k = choose|k: int|
                    0 <= k < rest.len() && (#[trigger] rest[k]).to == root && rest[k].from == x;
                assert(edges[k].to == root);
            } else {
                assert(edges[last].to == root);
            }
        }
        if !known.contains(x) && exists|k: int|
            0 <= k < edges.len() && (#[trigger] edges[k]).to == root && edges[k].from == x {
            let k = choose|k: int|
                0 <= k < edges.len() && (#[trigger] edges[k]).to == root && edges[k].from == x;
            if k < last {
                assert(rest[k].to == root);
                let i = starts.index_of(x);
                assert(all_starts[i] == x);
            } else {
                assert(all_starts[starts.len() as int] == x);
            }
        }
    }
}

proof fn lemma_accepted_new(
    delta: &DeltaGraph,
    ids: Seq<u32>,
    root: u32,
    asked: Option<Seq<char>>,
    q: NodeQuery,
)
    ensures
        forall|i: int|
            0 <= i < accepted_new(delta, ids, root, asked, q).len() ==> {
                let n = #[trigger] accepted_new(delta, ids, root, asked, q)[i];
                &&& find_node(delta.new_nodes@, n.id) == Some(n)
                &&& ids.contains(n.id)
                &&& newly_joined(delta.new_edges@, root, n.id, asked)
            },
        forall|id: u32|
            #[trigger] ids.contains(id) && (find_node(delta.new_nodes@, id) matches Some(n)
                && newly_joined(delta.new_edges@, root, id, asked) && q.accepts(n))
                ==> accepted_new(delta, ids, root, asked, q).contains(
                find_node(delta.new_nodes@, id)->0,
            ),
    decreases ids.len(),
{
    if ids.len() > 0 {
        let rest = ids.drop_last();
        let before = accepted_new(delta, rest, root, asked, q);
        let all = accepted_new(delta, ids, root, asked, q);
        lemma_accepted_new(delta, rest, root, asked, q);
        lemma_find_node(delta.new_nodes@, ids.last());
        assert(ids[ids.len() - 1] == ids.last());
        assert forall|i: int| 0 <= i < all.len() implies {
            let n = #[trigger] all[i];
            &&& find_node(delta.new_nodes@, n.id) == Some(n)
            &&& ids.contains(n.id)
            &&& newly_joined(delta.new_edges@, root, n.id, asked)
        } by {
            if i < before.len() {
                assert(all[i] == before[i]);
                let j = rest.index_of(before[i].id);
                assert(ids[j] == before[i].id);
            }
        }
        assert forall|id: u32|
            #[trigger] ids.contains(id) && (find_node(delta.new_nodes@, id) matches Some(n)
                && newly_joined(delta.new_edges@, root, id, asked) && q.accepts(n)) implies all.contains(
            find_node(delta.new_nodes@, id)->0,
        ) by {
            let n = find_node(delta.new_nodes@, id)->0;
            lemma_find_node(delta.new_nodes@, id);
            let j = ids.index_of(id);
            if j < rest.len() {
                assert(rest[j] == id);
                assert(rest.contains(id));
                let i = before.index_of(n);
                assert(all[i] == n);
            } else {
                assert(all[before.len() as int] == n);
            }
        }
    }
}

/// The direction of a search: `in`, `both`, or else along the edges.
pub open spec fn goes_along(params: &NodeSearchParams) -> bool {
    !(params.direction matches Some(d) && d@ == "in"@)
}

pub open spec fn goes_against(params: &NodeSearchParams) -> bool {
    params.direction matches Some(d) && (d@ == "in"@ || d@ == "both"@)
}

/// An edge of the type that is asked for, if one is, runs between the root and the node at `p`, in a
/// direction that is asked for.
pub open spec fn is_related(params: &NodeSearchParams, g: &CsrGraph, root: u32, p: int) -> bool {
    ||| goes_along(params) && exists|k: int|
        0 <= k < g.out_edges(root as int).len() && (#[trigger] g.out_edges(root as int)[k]).to == p
            && (params.edge_type matches Some(t) ==> same_ignoring_case(
            g.out_edges(root as int)[k].edge_type@,
            t@,
        ))
    ||| goes_against(params) && exists|k: int|
        0 <= k < g.out_edges(p).len() && (#[trigger] g.out_edges(p)[k]).to == root && (
        params.edge_type matches Some(t) ==> same_ignoring_case(g.out_edges(p)[k].edge_type@, t@))
}

/// A new edge runs between the root and the node with this id, in a direction that is asked for;
/// and where a type is asked for, one between them has it.
pub open spec fn is_newly_related(
    params: &NodeSearchParams,
    edges: Seq<EdgeInfo>,
    root: u32,
    id: u32,
) -> bool {
    &&& {
        ||| goes_along(params) && exists|k: int|
            0 <= k < edges.len() && (#[trigger] edges[k]).from == root && edges[k].to == id
        ||| goes_against(params) && exists|k: int|
            0 <= k < edges.len() && (#[trigger] edges[k]).to == root && edges[k].from == id
    }
    &&& params.edge_type matches Some(t) ==> exists|k: int|
        0 <= k < edges.len() && ((#[trigger] edges[k]).from == root && edges[k].to == id
            || edges[k].to == root && edges[k].from == id) && same_ignoring_case(
            edges[k].edge_type@,
            t@,
        )
}

/// The new node at `j` is the first with its id.
pub open spec fn is_first_with_id(nodes: Seq<NodeInfo>, j: int) -> bool {
    &&& 0 <= j < nodes.len()
    &&& forall|m: int| 0 <= m < j ==> (#[trigger] nodes[m]).id != nodes[j].id
}

proof fn lemma_connected(params: &NodeSearchParams, g: &CsrGraph, root: u32, p: u32)
    requires
        p < g.nodes@.len(),
        g.in_nodes(root as int).contains(p) <==> targets(g.out_edges(p as int)).contains(root),
    ensures
        connected(g, root, direction_of(params), opt_text(params.edge_type)).contains(p)
            <==> is_related(params, g, root, p as int),
{
    let asked = opt_text(params.edge_type);
    let direction = direction_of(params);
    let out = ends_of_type(g.out_edges(root as int), asked);
    let none = Seq::<u32>::empty();
    reveal_strlit("in");
    reveal_strlit("both");
    reveal_strlit("out");
    assert("in"@.len() != "out"@.len() && "both"@.len() != "out"@.len() && "in"@.len()
        != "both"@.len());
    lemma_ends(g.out_edges(root as int), asked, p);
    lemma_starts(g, g.in_nodes(root as int), root, asked, none, p);
    lemma_starts(g, g.in_nodes(root as int), root, asked, out, p);
    if joined_by_type(g, p, root, asked) {
        let k = choose|k: int|
            0 <= k < g.out_edges(p as int).len() && (#[trigger] g.out_edges(p as int)[k]).to == root
                && type_accepted(g.out_edges(p as int)[k].edge_type@, asked);
        assert(targets(g.out_edges(p as int))[k] == root);
    }
    let starts = starts_of_type(g, g.in_nodes(root as int), root, asked, out);
    lemma_contains_add(out, starts, p);
    assert(is_related(params, g, root, p as int) <==> (goes_along(params) && out.contains(p)) || (
    goes_against(params) && joined_by_type(g, p, root, asked)));
}

proof fn lemma_contains_add(a: Seq<u32>, b: Seq<u32>, x: u32)
    ensures
        (a + b).contains(x) <==> a.contains(x) || b.contains(x),
{
    if a.contains(x) {
        let i = a.index_of(x);
        assert((a + b)[i] == x);
    }
    if b.contains(x) {
        let i = b.index_of(x);
        assert((a + b)[a.len() + i] == x);
    }
    if (a + b).contains(x) {
        let i = (a + b).index_of(x);
        if i < a.len() {
            assert(a[i] == x);
        } else {
            assert(b[i - a.len()] == x);
        }
    }
}

proof fn lemma_newly_connected(
    params: &NodeSearchParams,
    edges: Seq<EdgeInfo>,
    root: u32,
    id: u32,
)
    ensures
        newly_connected(edges, root, direction_of(params)).contains(id) && newly_joined(
            edges,
            root,
            id,
            opt_text(params.edge_type),
        ) <==> is_newly_related(params, edges, root, id),
{
    let asked = opt_text(params.edge_type);
    let out = new_ends(edges, root);
    let none = Seq::<u32>::empty();
    reveal_strlit("in");
    reveal_strlit("both");
    reveal_strlit("out");
    assert("in"@.len() != "out"@.len() && "both"@.len() != "out"@.len() && "in"@.len()
        != "both"@.len());
    lemma_new_connected(edges, root, none, id);
    lemma_new_connected(edges, root, out, id);
    lemma_contains_add(out, new_starts(edges, root, out), id);
    if newly_joined(edges, root, id, asked) && asked is Some {
        let k = choose|k: int|
            0 <= k < edges.len() && joins(#[trigger] edges[k], root, id) && type_accepted(
                edges[k].edge_type@,
                asked,
            );
        assert(edges[k].from == root && edges[k].to == id || edges[k].to == root && edges[k].from
            == id);
    }
    if params.edge_type matches Some(t) && exists|k: int|
        0 <= k < edges.len() && ((#[trigger] edges[k]).from == root && edges[k].to == id
            || edges[k].to == root && edges[k].from == id) && same_ignoring_case(
            edges[k].edge_type@,
            t@,
        ) {
        let t = params.edge_type->0;
        let k = choose|k: int|
            0 <= k < edges.len() && ((#[trigger] edges[k]).from == root && edges[k].to == id
                || edges[k].to == root && edges[k].from == id) && same_ignoring_case(
                edges[k].edge_type@,
                t@,
            );
        assert(joins(edges[k], root, id));
    }
}

/// A search for the nodes related to a node gives only nodes that an edge joins with it, in the
/// direction and of the type asked for: in the graph, or for new nodes in the delta. Where the page
/// is not full, it gives all of them that have the name and the type asked for.
pub proof fn law_search_by_relation_gives_the_related_nodes(
    params: &NodeSearchParams,
    graph: &CsrGraph,
    delta: &DeltaGraph,
    root: u32,
    nodes: Seq<NodeInfo>,
    edges: Seq<EdgeInfo>,
)
    requires
        graph.holds(nodes, edges),
        params.related_to == Some(root),
        root < nodes.len(),
    ensures
        ({
            let r = found_nodes(params, graph, delta);
            let news = delta.new_nodes@;
            &&& r.len() <= most_nodes(params)
            &&& forall|i: int|
                0 <= i < r.len() ==> is_asked_for(params, #[trigger] r[i]) && ((exists|p: int|
                    0 <= p < nodes.len() && graph.nodes@[p] == r[i] && #[trigger] is_related(
                        params,
                        graph,
                        root,
                        p,
                    )) || (exists|j: int| #[trigger]
                    is_first_with_id(news, j) && news[j] == r[i] && is_newly_related(
                        params,
                        delta.new_edges@,
                        root,
                        news[j].id,
                    )))
            &&& r.len() < most_nodes(params) ==> forall|p: int|
                0 <= p < nodes.len() && #[trigger] is_related(params, graph, root, p)
                    && is_asked_for(params, graph.nodes@[p]) ==> r.contains(graph.nodes@[p])
            &&& r.len() < most_nodes(params) ==> forall|j: int| #[trigger]
                is_first_with_id(news, j) && is_newly_related(
                    params,
                    delta.new_edges@,
                    root,
                    news[j].id,
                ) && is_asked_for(params, news[j]) ==> r.contains(news[j])
        }),
{
    let q = params.query();
    let asked = opt_text(params.edge_type);
    let direction = direction_of(params);
    let places = connected(graph, root, direction, asked);
    let ids = newly_connected(delta.new_edges@, root, direction);
    let old = accepted_at(graph.nodes@, places, q);
    let new = accepted_new(delta, ids, root, asked, q);
    let news = delta.new_nodes@;
    let r = found_nodes(params, graph, delta);
    let first = at_most(old, params.page());
    assert forall|x: NodeInfo| #[trigger] is_asked_for(params, x) == q.accepts(x) by {}
    law_found_nodes_are_asked_for(params, graph, delta);
    lemma_accepted_at(graph.nodes@, places, q);
    lemma_accepted_new(delta, ids, root, asked, q);
    assert forall|i: int| 0 <= i < r.len() implies is_asked_for(params, #[trigger] r[i]) && ((exists|
        p: int,
    |
        0 <= p < nodes.len() && graph.nodes@[p] == r[i] && #[trigger] is_related(
            params,
            graph,
            root,
            p,
        )) || (exists|j: int| #[trigger]
        is_first_with_id(news, j) && news[j] == r[i] && is_newly_related(
            params,
            delta.new_edges@,
            root,
            news[j].id,
        ))) by {
        if i < first.len() {
            assert(r[i] == old[i]);
            let p = choose|p: u32|
                #[trigger] places.contains(p) && p < graph.nodes@.len() && graph.nodes@[p as int]
                    == old[i];
            law_reverse_mirrors_forward(graph, nodes, edges, p, root);
            lemma_connected(params, graph, root, p);
            assert(is_related(params, graph, root, p as int));
        } else {
            let n = new[i - first.len()];
            assert(r[i] == n);
            lemma_newly_connected(params, delta.new_edges@, root, n.id);
            lemma_find_node(news, n.id);
            let j = lemma_found_first(news, n.id);
            assert(is_first_with_id(news, j));
        }
    }
    if r.len() < most_nodes(params) {
        assert(first =~= old);
        assert(r =~= old + new);
        assert forall|p: int|
            0 <= p < nodes.len() && #[trigger] is_related(params, graph, root, p) && is_asked_for(
                params,
                graph.nodes@[p],
            ) implies r.contains(graph.nodes@[p]) by {
            lemma_graph_size(graph, p);
            let place = p as u32;
            law_reverse_mirrors_forward(graph, nodes, edges, place, root);
            lemma_connected(params, graph, root, place);
            assert(places.contains(place));
            let i = old.index_of(graph.nodes@[p]);
            assert(r[i] == graph.nodes@[p]);
        }
        assert forall|j: int| #[trigger]
            is_first_with_id(news, j) && is_newly_related(
                params,
                delta.new_edges@,
                root,
                news[j].id,
            ) && is_asked_for(params, news[j]) implies r.contains(news[j]) by {
            lemma_newly_connected(params, delta.new_edges@, root, news[j].id);
            lemma_first_found(news, j);
            assert(ids.contains(news[j].id));
            let i = new.index_of(news[j]);
            assert(r[old.len() + i] == news[j]);
        }
    }
}

/// The node that is found for an id is the first with it.
proof fn lemma_found_first(nodes: Seq<NodeInfo>, id: u32) -> (j: int)
    requires
        find_node(nodes, id) is Some,
    ensures
        is_first_with_id(nodes, j),
        nodes[j] == find_node(nodes, id)->0,
        nodes[j].id == id,
    decreases nodes.len(),
{
    if nodes[0].id == id {
        0
    } else {
        let rest = nodes.drop_first();
        let j = lemma_found_first(rest, id);
        assert forall|m: int| 0 <= m < j + 1 implies (#[trigger] nodes[m]).id != id by {
            if m > 0 {
                assert(rest[m - 1] == nodes[m]);
            }
        }
        j + 1
    }
}

proof fn lemma_first_found(nodes: Seq<NodeInfo>, j: int)
    requires
        is_first_with_id(nodes, j),
    ensures
        find_node(nodes, nodes[j].id) == Some(nodes[j]),
    decreases nodes.len(),
{
    if j > 0 {
        let rest = nodes.drop_first();
        assert(nodes[0].id != nodes[j].id);
        assert(rest[j - 1] == nodes[j]);
        assert forall|m: int| 0 <= m < j - 1 implies (#[trigger] rest[m]).id != rest[j - 1].id by {
            assert(nodes[m + 1].id != nodes[j].id);
        }
        lemma_first_found(rest, j - 1);
    }
}

/// The node with an id is the node of the graph at that place. Beyond the graph it is the first new
/// node with the id, and there is one exactly when a new node has it.
pub proof fn law_id_leads_to_one_node(graph: &CsrGraph, delta: &DeltaGraph, id: u32)
    ensures
        id < graph.nodes@.len() ==> node_with_id(graph, delta, id) == Some(graph.nodes@[id as int]),
        id >= graph.nodes@.len() ==> match node_with_id(graph, delta, id) {
            Some(n) => exists|j: int| #[trigger]
                is_first_with_id(delta.new_nodes@, j) && delta.new_nodes@[j] == n && n.id == id,
            None => forall|j: int|
                0 <= j < delta.new_nodes@.len() ==> (#[trigger] delta.new_nodes@[j]).id != id,
        },
        name_by_id(graph, delta, id) == (match node_with_id(graph, delta, id) {
            Some(n) => n.name@,
            None => Seq::empty(),
        }),
{
    lemma_find_node(delta.new_nodes@, id);
    if find_node(delta.new_nodes@, id) is Some {
        let j = lemma_found_first(delta.new_nodes@, id);
        assert(is_first_with_id(delta.new_nodes@, j));
    }
}

// ── what a search for edges gives ────────────────────────────────────────────

/// The edge has the ends and the type that are asked for.
pub open spec fn is_edge_asked_for(params: &EdgeSearchParams, e: EdgeInfo) -> bool {
    &&& params.from matches Some(f) ==> e.from == f
    &&& params.to matches Some(t) ==> e.to == t
    &&& params.edge_type matches Some(t) ==> same_ignoring_case(e.edge_type@, t@)
}

proof fn lemma_accepted_edges_found(
    edges: Seq<EdgeInfo>,
    from: Option<u32>,
    to: Option<u32>,
    asked: Option<Seq<char>>,
    k: int,
)
    requires
        0 <= k < edges.len(),
        edge_accepted(edges[k], from, to, asked),
    ensures
        accepted_edges(edges, from, to, asked).contains(edges[k]),
    decreases edges.len(),
{
    let rest = edges.drop_last();
    let before = accepted_edges(rest, from, to, asked);
    let all = accepted_edges(edges, from, to, asked);
    if k < rest.len() {
        assert(rest[k] == edges[k]);
        lemma_accepted_edges_found(rest, from, to, asked, k);
        let i = before.index_of(edges[k]);
        assert(all[i] == edges[k]);
    } else {
        assert(all[before.len() as int] == edges[k]);
    }
}

proof fn lemma_edges_leaving_found(
    g: &CsrGraph,
    nodes: Seq<u32>,
    to: Option<u32>,
    asked: Option<Seq<char>>,
    p: u32,
    k: int,
)
    requires
        nodes.contains(p),
        0 <= k < g.out_edges(p as int).len(),
        edge_accepted(g.out_edges(p as int)[k], None, to, asked),
    ensures
        edges_leaving(g, nodes, to, asked).contains(g.out_edges(p as int)[k]),
    decreases nodes.len(),
{
    let e = g.out_edges(p as int)[k];
    let rest = nodes.drop_last();
    let before = edges_leaving(g, rest, to, asked);
    let here = accepted_edges(g.out_edges(nodes.last() as int), None, to, asked);
    let all = edges_leaving(g, nodes, to, asked);
    if nodes.last() == p {
        lemma_accepted_edges_found(g.out_edges(p as int), None, to, asked, k);
        let i = here.index_of(e);
        assert(all[before.len() + i] == e);
    } else {
        let j = nodes.index_of(p);
        assert(rest[j] == p);
        lemma_edges_leaving_found(g, rest, to, asked, p, k);
        let i = before.index_of(e);
        assert(all[i] == e);
    }
}

proof fn lemma_edges_leaving_own(
    g: &CsrGraph,
    nodes: Seq<u32>,
    to: Option<u32>,
    asked: Option<Seq<char>>,
    i: int,
)
    requires
        0 <= i < edges_leaving(g, nodes, to, asked).len(),
    ensures
        exists|p: u32| #[trigger]
            nodes.contains(p) && g.out_edges(p as int).contains(
                edges_leaving(g, nodes, to, asked)[i],
            ),
    decreases nodes.len(),
{
    let rest = nodes.drop_last();
    let before = edges_leaving(g, rest, to, asked);
    let e = edges_leaving(g, nodes, to, asked)[i];
    assert(nodes[nodes.len() - 1] == nodes.last());
    if i < before.len() {
        lemma_edges_leaving_own(g, rest, to, asked, i);
        let p = choose|p: u32| #[trigger]
            rest.contains(p) && g.out_edges(p as int).contains(before[i]);
        let j = rest.index_of(p);
        assert(nodes[j] == p);
        assert(nodes.contains(p) && g.out_edges(p as int).contains(e));
    } else {
        lemma_accepted_edges_accepted(g.out_edges(nodes.last() as int), None, to, asked);
        assert(e == accepted_edges(g.out_edges(nodes.last() as int), None, to, asked)[i
            - before.len()]);
        assert(nodes.contains(nodes.last()) && g.out_edges(nodes.last() as int).contains(e));
    }
}

/// A search for edges gives at most a page of edges, each an edge of the graph or of the delta with
/// the ends and the type asked for. Where the page is not full, it gives all of them.
pub proof fn law_edge_search_gives_the_edges_asked_for(
    params: &EdgeSearchParams,
    graph: &CsrGraph,
    delta: &DeltaGraph,
    nodes: Seq<NodeInfo>,
    edges: Seq<EdgeInfo>,
)
    requires
        graph.holds(nodes, edges),
    ensures
        ({
            let r = found_edges(params, graph, delta);
            let page: nat = match params.limit {
                Some(n) if n <= 1_000 => n as nat,
                Some(_) => 1_000,
                None => 100,
            };
            &&& r.len() <= page
            &&& forall|i: int|
                0 <= i < r.len() ==> is_edge_asked_for(params, #[trigger] r[i]) && (
                delta.new_edges@.contains(r[i]) || graph.out_edges(r[i].from as int).contains(r[i]))
            &&& r.len() < page ==> forall|p: int, k: int|
                0 <= p < nodes.len() && 0 <= k < graph.out_edges(p).len() && is_edge_asked_for(
                    params,
                    #[trigger] graph.out_edges(p)[k],
                ) ==> r.contains(graph.out_edges(p)[k])
            &&& r.len() < page ==> forall|k: int|
                0 <= k < delta.new_edges@.len() && is_edge_asked_for(
                    params,
                    #[trigger] delta.new_edges@[k],
                ) ==> r.contains(delta.new_edges@[k])
        }),
{
    let asked = opt_text(params.edge_type);
    let starts = edge_starts(graph, params.from, params.to);
    let found = edges_leaving(graph, starts, params.to, asked);
    let news = accepted_edges(delta.new_edges@, params.from, params.to, asked);
    let r = found_edges(params, graph, delta);
    let first = at_most(found, params.page());
    law_found_edges_are_asked_for(params, graph, delta);
    lemma_accepted_edges_accepted(delta.new_edges@, params.from, params.to, asked);
    assert forall|e: EdgeInfo| #[trigger] is_edge_asked_for(params, e) == edge_accepted(
        e,
        params.from,
        params.to,
        asked,
    ) by {}
    assert forall|i: int| 0 <= i < r.len() implies is_edge_asked_for(params, #[trigger] r[i]) && (
    delta.new_edges@.contains(r[i]) || graph.out_edges(r[i].from as int).contains(r[i])) by {
        assert(edge_accepted(r[i], params.from, params.to, asked));
        if i < first.len() {
            assert(r[i] == found[i]);
            lemma_edges_leaving_own(graph, starts, params.to, asked, i);
            let p = choose|p: u32| #[trigger]
                starts.contains(p) && graph.out_edges(p as int).contains(found[i]);
            let k = graph.out_edges(p as int).index_of(found[i]);
            crate::graph::csr::lemma_out_edges_range(graph, p as int, k);
            assert(r[i].from == p);
        } else {
            assert(r[i] == news[i - first.len()]);
        }
    }
    if r.len() < params.page() {
        assert(first =~= found);
        assert(r =~= found + news);
        assert forall|p: int, k: int|
            0 <= p < nodes.len() && 0 <= k < graph.out_edges(p).len() && is_edge_asked_for(
                params,
                #[trigger] graph.out_edges(p)[k],
            ) implies r.contains(graph.out_edges(p)[k]) by {
            lemma_graph_size(graph, p);
            let e = graph.out_edges(p)[k];
            let place = p as u32;
            crate::graph::csr::lemma_out_edges_range(graph, p, k);
            assert(starts.contains(place)) by {
                match (params.from, params.to) {
                    (Some(f), _) => {
                        assert(starts[0] == place);
                    },
                    (None, Some(t)) => {
                        law_reverse_mirrors_forward(graph, nodes, edges, place, t);
                        assert(targets(graph.out_edges(p))[k] == t);
                        lemma_first_occurrences(graph.in_nodes(t as int));
                        let j = graph.in_nodes(t as int).index_of(place);
                        assert(graph.in_nodes(t as int)[j] == place);
                    },
                    (None, None) => {
                        assert(starts[p] == place);
                    },
                }
            }
            lemma_edges_leaving_found(graph, starts, params.to, asked, place, k);
            let i = found.index_of(e);
            assert(r[i] == e);
        }
        assert forall|k: int|
            0 <= k < delta.new_edges@.len() && is_edge_asked_for(
                params,
                #[trigger] delta.new_edges@[k],
            ) implies r.contains(delta.new_edges@[k]) by {
            lemma_accepted_edges_found(delta.new_edges@, params.from, params.to, asked, k);
            let i = news.index_of(delta.new_edges@[k]);
            assert(r[found.len() + i] == delta.new_edges@[k]);
        }
    }
}

/// The entries of a search show the edges that were found, in order, with their ends, the names of
/// these, their weights and their types.
pub proof fn law_entries_show_the_edges(
    entries: Seq<EdgeEntry>,
    edges: Seq<EdgeInfo>,
    graph: &CsrGraph,
    delta: &DeltaGraph,
    i: int,
)
    requires
        show_edges(entries, edges, graph, delta),
        0 <= i < edges.len(),
    ensures
        entries.len() == edges.len(),
        entries[i].from_id == edges[i].from,
        entries[i].to_id == edges[i].to,
        entries[i].weight == edges[i].weight,
        entries[i].edge_type@ == edges[i].edge_type@,
        entries[i].from_name@ == (match node_with_id(graph, delta, edges[i].from) {
            Some(n) => n.name@,
            None => Seq::empty(),
        }),
        entries[i].to_name@ == (match node_with_id(graph, delta, edges[i].to) {
            Some(n) => n.name@,
            None => Seq::empty(),
        }),
{
    assert(shows_edge(entries[i], edges[i], graph, delta));
}

/// An edge search is refused for an end that no node has, the start before the end, and only then.
pub proof fn law_unknown_ends_are_refused(
    params: &EdgeSearchParams,
    graph: &CsrGraph,
    delta: &DeltaGraph,
)
    ensures
        ({
            let lacks = |end: Option<u32>|
                end matches Some(id) && id >= graph.nodes@.len() && forall|j: int|
                    0 <= j < delta.new_nodes@.len() ==> (#[trigger] delta.new_nodes@[j]).id != id;
            unknown_end(params, graph, delta) == (if lacks(params.from) {
                params.from
            } else if lacks(params.to) {
                params.to
            } else {
                None
            })
        }),
{
    match params.from {
        Some(f) => lemma_find_node(delta.new_nodes@, f),
        None => {},
    }
    match params.to {
        Some(t) => lemma_find_node(delta.new_nodes@, t),
        None => {},
    }
}

} // verus!

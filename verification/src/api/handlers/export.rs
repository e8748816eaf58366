//! Export and import of the graph.

use crate::api::dto::export::{
    export_edge_views, export_node_views, ExportEdge, ExportEdgeView, ExportNode, ExportNodeView,
    ExportStats, GraphExport, NdjsonLine,
};
use crate::api::handlers::admin::{name_by_id, node_with_id};
use crate::delta::{instance_limit, DeltaGraph, DeltaStore};
use crate::digits::{padded, padded_text};
use crate::graph::csr::{
    edge_views, flat_edges, lemma_flat_edges, lemma_out_edges_range, node_views, opt_text, CsrGraph,
    EdgeInfo, EdgeView, NodeInfo, NodeView,
};
use crate::json::json_tree;
use crate::text::{
    lemma_pieces_extend, lemma_trimmed, pieces, same_text, split, texts, trim, trimmed,
};
use vstd::hash_map::StringHashMap;
use vstd::prelude::*;
use vstd::string::*;

verus! {

// ── request ──────────────────────────────────────────────────────────────────

/// `GET /export/graph`
pub struct ExportParams {
    /// `json` or `ndjson`
    pub format: String,
}

/// `POST /export/graph`
pub struct ExportBody {
    /// `json` or `ndjson`
    pub format: String,
}

/// The format where none is asked for.
pub fn default_format() -> (r: String)
    ensures
        r@ == "json"@,
{
    "json".to_owned()
}

/// Whether an export by lines is asked for; any other format is JSON.
pub fn is_ndjson(format: &str) -> (r: bool)
    ensures
        r == (format@ == "ndjson"@),
{
    same_text(format, "ndjson")
}

// ── what is exported ─────────────────────────────────────────────────────────

/// A node as it is exported.
pub open spec fn exported_node(n: NodeView) -> ExportNodeView {
    ExportNodeView {
        name: n.name,
        node_type: n.node_type,
        props: n.props,
        full_context: n.full_context,
        embed_context: n.embed_context,
        image_url: n.image_url,
    }
}

/// An edge as it is exported.
pub open spec fn exported_edge(graph: &CsrGraph, delta: &DeltaGraph, e: EdgeView) -> ExportEdgeView {
    ExportEdgeView {
        from: name_by_id(graph, delta, e.from),
        to: name_by_id(graph, delta, e.to),
        edge_type: e.edge_type,
        weight: e.weight,
        full_context: e.full_context,
        embed_context: e.embed_context,
    }
}

fn copy_option(s: &Option<String>) -> (r: Option<String>)
    ensures
        opt_text(r) == opt_text(*s),
{
    match s {
        Some(t) => Some(t.clone()),
        None => None,
    }
}

fn export_node(n: &NodeInfo) -> (r: ExportNode)
    ensures
        r@ == exported_node(n@),
{
    ExportNode {
        name: n.name.clone(),
        node_type: n.node_type.clone(),
        props: n.props.clone(),
        full_context: n.full_context.clone(),
        embed_context: copy_option(&n.embed_context),
        image_url: copy_option(&n.image_url),
    }
}

fn read_node_name(graph: &CsrGraph, delta: &DeltaGraph, id: u32) -> (r: String)
    ensures
        r@ == name_by_id(graph, delta, id),
{
    if (id as usize) < graph.nodes.len() {
        graph.nodes[id as usize].name.clone()
    } else {
        match delta.get_node(id) {
            Some(n) => n.name.clone(),
            None => String::new(),
        }
    }
}

fn export_edge(graph: &CsrGraph, delta: &DeltaGraph, e: &EdgeInfo) -> (r: ExportEdge)
    ensures
        r@ == exported_edge(graph, delta, e@),
{
    ExportEdge {
        from: read_node_name(graph, delta, e.from),
        to: read_node_name(graph, delta, e.to),
        edge_type: e.edge_type.clone(),
        weight: e.weight,
        full_context: e.full_context.clone(),
        embed_context: copy_option(&e.embed_context),
    }
}

/// All nodes: of the graph, then new ones.
pub open spec fn exported_nodes(graph: &CsrGraph, delta: &DeltaGraph) -> Seq<ExportNodeView> {
    (graph.nodes@ + delta.new_nodes@).map_values(|n: NodeInfo| exported_node(n@))
}

/// All edges: of the graph, by start, then new ones.
pub open spec fn exported_edges(graph: &CsrGraph, delta: &DeltaGraph) -> Seq<ExportEdgeView> {
    (flat_edges(graph, graph.nodes@.len() as int) + delta.new_edges@).map_values(
        |e: EdgeInfo| exported_edge(graph, delta, e@),
    )
}

fn add_nodes(list: &mut Vec<ExportNode>, nodes: &Vec<NodeInfo>)
    ensures
        export_node_views(final(list)@) == export_node_views(old(list)@) + nodes@.map_values(
            |n: NodeInfo| exported_node(n@),
        ),
{
    let ghost before = list@;
    let mut i: usize = 0;
    while i < nodes.len()
        invariant
            i <= nodes@.len(),
            list@.len() == before.len() + i,
            forall|j: int| 0 <= j < before.len() ==> #[trigger] list@[j] == before[j],
            forall|j: int|
                before.len() <= j < list@.len() ==> (#[trigger] list@[j])@ == exported_node(
                    nodes@[j - before.len()]@,
                ),
        decreases nodes@.len() - i,
    {
        list.push(export_node(&nodes[i]));
        i += 1;
    }
    proof {
        assert(export_node_views(list@) =~= export_node_views(before) + nodes@.map_values(
            |n: NodeInfo| exported_node(n@),
        ));
    }
}

fn add_edges(
    list: &mut Vec<ExportEdge>,
    edges: &Vec<EdgeInfo>,
    graph: &CsrGraph,
    delta: &DeltaGraph,
)
    ensures
        export_edge_views(final(list)@) == export_edge_views(old(list)@) + edges@.map_values(
            |e: EdgeInfo| exported_edge(graph, delta, e@),
        ),
{
    let ghost before = list@;
    let mut i: usize = 0;
    while i < edges.len()
        invariant
            i <= edges@.len(),
            list@.len() == before.len() + i,
            forall|j: int| 0 <= j < before.len() ==> #[trigger] list@[j] == before[j],
            forall|j: int|
                before.len() <= j < list@.len() ==> (#[trigger] list@[j])@ == exported_edge(
                    graph,
                    delta,
                    edges@[j - before.len()]@,
                ),
        decreases edges@.len() - i,
    {
        list.push(export_edge(graph, delta, &edges[i]));
        i += 1;
    }
    proof {
        assert(export_edge_views(list@) =~= export_edge_views(before) + edges@.map_values(
            |e: EdgeInfo| exported_edge(graph, delta, e@),
        ));
    }
}

/// Collects the nodes and edges of the graph and of the delta.
pub fn collect_export_data(graph: &CsrGraph, delta: &DeltaGraph) -> (r: (
    Vec<ExportNode>,
    Vec<ExportEdge>,
))
    requires
        graph.wf(),
    ensures
        export_node_views(r.0@) == exported_nodes(graph, delta),
        export_edge_views(r.1@) == exported_edges(graph, delta),
{
    let mut nodes: Vec<ExportNode> = Vec::new();
    add_nodes(&mut nodes, &graph.nodes);
    add_nodes(&mut nodes, &delta.new_nodes);
    let listed = graph.all_edges();
    let mut edges: Vec<ExportEdge> = Vec::new();
    add_edges(&mut edges, &listed, graph, delta);
    add_edges(&mut edges, &delta.new_edges, graph, delta);
    proof {
        assert(export_node_views(nodes@) =~= exported_nodes(graph, delta));
        assert(export_edge_views(edges@) =~= exported_edges(graph, delta));
    }
    (nodes, edges)
}

/// A whole export.
pub fn export_json(nodes: Vec<ExportNode>, edges: Vec<ExportEdge>, exported_at: String) -> (r:
    GraphExport)
    ensures
        r.version@ == "1"@,
        r.exported_at == exported_at,
        r.stats.nodes == nodes@.len(),
        r.stats.edges == edges@.len(),
        r.nodes == nodes,
        r.edges == edges,
{
    let stats = ExportStats { nodes: nodes.len(), edges: edges.len() };
    GraphExport { version: "1".to_owned(), exported_at, stats, nodes, edges }
}

// ── export by lines ──────────────────────────────────────────────────────────

/// The records after the header: all nodes, then all edges.
pub open spec fn body_records(nodes: Seq<ExportNode>, edges: Seq<ExportEdge>) -> Seq<NdjsonLine> {
    nodes.map_values(|n: ExportNode| NdjsonLine::Node(n)) + edges.map_values(
        |e: ExportEdge| NdjsonLine::Edge(e),
    )
}

/// The records of an export by lines: the header, all nodes, all edges.
pub fn export_ndjson(nodes: Vec<ExportNode>, edges: Vec<ExportEdge>, exported_at: String) -> (r:
    Vec<NdjsonLine>)
    ensures
        r@.len() == 1 + nodes@.len() + edges@.len(),
        r@[0] matches NdjsonLine::Meta { version, exported_at: at, nodes: n, edges: e } && version@
            == "1"@ && at == exported_at && n == nodes@.len() && e == edges@.len(),
        r@.skip(1) == body_records(nodes@, edges@),
{
    let ghost all_nodes = nodes@;
    let ghost all_edges = edges@;
    let mut lines: Vec<NdjsonLine> = Vec::new();
    lines.push(
        NdjsonLine::Meta {
            version: "1".to_owned(),
            exported_at,
            nodes: nodes.len(),
            edges: edges.len(),
        },
    );
    let ghost head = lines@;
    for n in it: nodes
        invariant
            it.seq() == all_nodes,
            lines@ == head + all_nodes.take(it.index()).map_values(
                |n: ExportNode| NdjsonLine::Node(n),
            ),
    {
        let ghost k = it.index();
        lines.push(NdjsonLine::Node(n));
        proof {
            assert(lines@ =~= head + all_nodes.take(k + 1).map_values(
                |n: ExportNode| NdjsonLine::Node(n),
            ));
        }
    }
    let ghost after_nodes = lines@;
    for e in it: edges
        invariant
            it.seq() == all_edges,
            lines@ == after_nodes + all_edges.take(it.index()).map_values(
                |e: ExportEdge| NdjsonLine::Edge(e),
            ),
    {
        let ghost k = it.index();
        lines.push(NdjsonLine::Edge(e));
        proof {
            assert(lines@ =~= after_nodes + all_edges.take(k + 1).map_values(
                |e: ExportEdge| NdjsonLine::Edge(e),
            ));
        }
    }
    proof {
        assert(all_nodes.take(all_nodes.len() as int) =~= all_nodes);
        assert(all_edges.take(all_edges.len() as int) =~= all_edges);
        assert(lines@.skip(1) =~= body_records(all_nodes, all_edges));
    }
    lines
}

/// Lines joined, each with its end.
pub open spec fn joined_lines(lines: Seq<Seq<char>>) -> Seq<char>
    decreases lines.len(),
{
    if lines.len() == 0 {
        Seq::empty()
    } else if lines.len() == 1 {
        lines.last()
    } else {
        joined_lines(lines.drop_last()) + "\n"@ + lines.last()
    }
}

/// The text of lines: joined by line ends, with one at the end.
pub fn join_lines(lines: &Vec<String>) -> (r: String)
    ensures
        r@ == joined_lines(texts(lines@)) + "\n"@,
{
    let ghost all = texts(lines@);
    let mut text: String = String::new();
    let mut i: usize = 0;
    while i < lines.len()
        invariant
            i <= lines@.len(),
            all == texts(lines@),
            text@ == joined_lines(all.take(i as int)),
        decreases lines@.len() - i,
    {
        proof {
            assert(all.take(i + 1).drop_last() =~= all.take(i as int));
            assert(all.take(i + 1).last() == all[i as int]);
        }
        let ghost before = text@;
        if i > 0 {
            text.append("\n");
        }
        text.append(lines[i].as_str());
        proof {
            if i == 0 {
                assert(text@ =~= all[0]);
            }
        }
        i += 1;
    }
    proof {
        assert(all.take(i as int) =~= all);
    }
    text.append("\n");
    text
}

/// The lines of a text that are not blank, trimmed.
pub open spec fn record_lines(text: Seq<char>) -> Seq<Seq<char>> {
    pieces(text, '\n').map_values(|p: Seq<char>| trimmed(p)).filter(|p: Seq<char>| p.len() > 0)
}

/// Splits the text of an export by lines.
pub fn split_records(text: &str) -> (r: Vec<String>)
    ensures
        texts(r@) == record_lines(text@),
{
    let parts = split(text, '\n');
    let ghost all = pieces(text@, '\n').map_values(|p: Seq<char>| trimmed(p));
    let ghost keep = |p: Seq<char>| p.len() > 0;
    let mut lines: Vec<String> = Vec::new();
    let mut i: usize = 0;
    proof {
        reveal(Seq::filter);
        assert(texts(lines@) =~= all.take(0).filter(keep));
    }
    while i < parts.len()
        invariant
            i <= parts@.len(),
            texts(parts@) == pieces(text@, '\n'),
            all == pieces(text@, '\n').map_values(|p: Seq<char>| trimmed(p)),
            keep == (|p: Seq<char>| p.len() > 0),
            texts(lines@) == all.take(i as int).filter(keep),
        decreases parts@.len() - i,
    {
        let line = trim(parts[i].as_str());
        proof {
            reveal(Seq::filter);
            assert(texts(parts@).len() == parts@.len());
            assert(texts(parts@)[i as int] == parts@[i as int]@);
            assert(all.take(i + 1).drop_last() =~= all.take(i as int));
            assert(all.take(i + 1).last() == line@);
        }
        if !line.as_str().is_empty() {
            let ghost before = lines@;
            lines.push(line);
            proof {
                assert(texts(lines@) =~= texts(before).push(line@));
            }
        }
        i += 1;
    }
    proof {
        assert(texts(parts@).len() == parts@.len());
        assert(all.take(i as int) =~= all);
    }
    lines
}

/// A line that a text can hold as it is: not blank, without white space at its ends, and without a
/// line end in it.
pub open spec fn is_record_line(line: Seq<char>) -> bool {
    &&& line.len() > 0
    &&& trimmed(line) == line
    &&& forall|i: int| 0 <= i < line.len() ==> #[trigger] line[i] != '\n'
}

proof fn lemma_joined_pieces(lines: Seq<Seq<char>>)
    requires
        lines.len() > 0,
        forall|i: int| 0 <= i < lines.len() ==> is_record_line(#[trigger] lines[i]),
    ensures
        pieces(joined_lines(lines), '\n') == lines,
    decreases lines.len(),
{
    let empty = Seq::<char>::empty();
    let last = lines.last();
    assert(is_record_line(lines[lines.len() - 1]));
    if lines.len() == 1 {
        lemma_pieces_extend(empty, last, '\n');
        assert(empty + last =~= last);
        assert(pieces(empty, '\n') =~= seq![empty]);
        assert(pieces(last, '\n') =~= lines);
    } else {
        let rest = lines.drop_last();
        assert forall|i: int| 0 <= i < rest.len() implies is_record_line(#[trigger] rest[i]) by {
            assert(is_record_line(lines[i]));
        }
        lemma_joined_pieces(rest);
        reveal_strlit("\n");
        let head = joined_lines(rest) + "\n"@;
        assert(head.drop_last() =~= joined_lines(rest));
        assert(pieces(head, '\n') == rest.push(empty));
        lemma_pieces_extend(head, last, '\n');
        assert(rest.push(empty).drop_last() =~= rest);
        assert(empty + last =~= last);
        assert(rest.push(last) =~= lines);
    }
}

proof fn lemma_all_kept(lines: Seq<Seq<char>>)
    requires
        forall|i: int| 0 <= i < lines.len() ==> is_record_line(#[trigger] lines[i]),
    ensures
        lines.map_values(|p: Seq<char>| trimmed(p)) == lines,
        lines.filter(|p: Seq<char>| p.len() > 0) == lines,
    decreases lines.len(),
{
    reveal(Seq::filter);
    assert(lines.map_values(|p: Seq<char>| trimmed(p)) =~= lines);
    if lines.len() > 0 {
        let rest = lines.drop_last();
        assert forall|i: int| 0 <= i < rest.len() implies is_record_line(#[trigger] rest[i]) by {
            assert(is_record_line(lines[i]));
        }
        lemma_all_kept(rest);
        assert(is_record_line(lines[lines.len() - 1]));
        assert(rest.push(lines.last()) =~= lines);
    }
}

/// Lines that were joined are the lines of the text, with a line end at its end or without.
pub proof fn law_joined_lines_come_back(lines: Seq<Seq<char>>)
    requires
        forall|i: int| 0 <= i < lines.len() ==> is_record_line(#[trigger] lines[i]),
    ensures
        record_lines(joined_lines(lines)) == lines,
        record_lines(joined_lines(lines) + "\n"@) == lines,
{
    let keep = |p: Seq<char>| p.len() > 0;
    let trim = |p: Seq<char>| trimmed(p);
    let empty = Seq::<char>::empty();
    let text = joined_lines(lines);
    let found = pieces(text, '\n');
    lemma_all_kept(lines);
    lemma_trimmed(empty);
    if lines.len() == 0 {
        assert(found =~= lines.push(empty));
    } else {
        lemma_joined_pieces(lines);
    }
    let blank = lines.push(empty).map_values(trim);
    assert(blank.filter(keep) == lines) by {
        reveal(Seq::filter);
        assert(blank =~= lines.push(empty)) by {
            assert(lines.map_values(trim) =~= lines);
            assert forall|i: int| 0 <= i < blank.len() implies blank[i] == lines.push(empty)[i] by {
                if i < lines.len() {
                    assert(is_record_line(lines[i]));
                }
            }
        }
        assert(lines.push(empty).drop_last() =~= lines);
    }
    reveal_strlit("\n");
    let ended = text + "\n"@;
    assert(ended.drop_last() =~= text);
    assert(pieces(ended, '\n') == found.push(empty));
    if lines.len() == 0 {
        let blanks = found.push(empty).map_values(trim);
        assert(blanks.filter(keep) == lines) by {
            reveal(Seq::filter);
            assert(blanks.drop_last() =~= blank);
        }
    }
}

/// The nodes among records.
pub open spec fn record_nodes(lines: Seq<NdjsonLine>) -> Seq<ExportNode>
    decreases lines.len(),
{
    if lines.len() == 0 {
        Seq::empty()
    } else {
        match lines.last() {
            NdjsonLine::Node(n) => record_nodes(lines.drop_last()).push(n),
            _ => record_nodes(lines.drop_last()),
        }
    }
}

/// The edges among records.
pub open spec fn record_edges(lines: Seq<NdjsonLine>) -> Seq<ExportEdge>
    decreases lines.len(),
{
    if lines.len() == 0 {
        Seq::empty()
    } else {
        match lines.last() {
            NdjsonLine::Edge(e) => record_edges(lines.drop_last()).push(e),
            _ => record_edges(lines.drop_last()),
        }
    }
}

/// Version and time of the last header among records.
pub open spec fn record_header(lines: Seq<NdjsonLine>) -> (Seq<char>, Seq<char>)
    decreases lines.len(),
{
    if lines.len() == 0 {
        ("1"@, Seq::empty())
    } else {
        match lines.last() {
            NdjsonLine::Meta { version, exported_at, .. } => (version@, exported_at@),
            _ => record_header(lines.drop_last()),
        }
    }
}

/// What reading each line gave: a record, or what is wrong with the line.
pub type ReadLine = Result<NdjsonLine, String>;

/// The records of lines that could be read.
pub open spec fn good_records(read: Seq<ReadLine>) -> Seq<NdjsonLine> {
    read.map_values(|line: ReadLine| line->Ok_0)
}

/// The line at `i` is the first that could not be read.
pub open spec fn is_first_bad(read: Seq<ReadLine>, i: int) -> bool {
    &&& 0 <= i < read.len()
    &&& read[i] is Err
    &&& forall|j: int| 0 <= j < i ==> (#[trigger] read[j]) is Ok
}

/// Puts the records of an export by lines together. The first line that could not be read refuses
/// the whole.
pub fn parse_ndjson(read: Vec<ReadLine>) -> (r: Result<GraphExport, String>)
    ensures
        match r {
            Ok(export) => {
                &&& forall|i: int| 0 <= i < read@.len() ==> (#[trigger] read@[i]) is Ok
                &&& (export.version@, export.exported_at@) == record_header(good_records(read@))
                &&& export.nodes@ == record_nodes(good_records(read@))
                &&& export.edges@ == record_edges(good_records(read@))
                &&& export.stats.nodes == export.nodes@.len()
                &&& export.stats.edges == export.edges@.len()
            },
            Err(message) => exists|i: int| #[trigger]
                is_first_bad(read@, i) && message@ == "invalid NDJSON line: "@ + read@[i]->Err_0@,
        },
{
    let ghost given = read@;
    let ghost all = good_records(given);
    let mut nodes: Vec<ExportNode> = Vec::new();
    let mut edges: Vec<ExportEdge> = Vec::new();
    let mut version: String = "1".to_owned();
    let mut exported_at: String = String::new();
    proof {
        assert(nodes@ =~= record_nodes(all.take(0)));
        assert(edges@ =~= record_edges(all.take(0)));
    }
    for line in it: read
        invariant
            it.seq() == given,
            all == good_records(given),
            forall|i: int| 0 <= i < it.index() ==> (#[trigger] given[i]) is Ok,
            nodes@ == record_nodes(all.take(it.index())),
            edges@ == record_edges(all.take(it.index())),
            (version@, exported_at@) == record_header(all.take(it.index())),
    {
        let ghost k = it.index();
        proof {
            assert(all.take(k + 1).drop_last() =~= all.take(k));
            assert(all.take(k + 1).last() == all[k]);
            assert(given[k] == line);
        }
        match line {
            Ok(NdjsonLine::Meta { version: v, exported_at: at, .. }) => {
                version = v;
                exported_at = at;
            },
            Ok(NdjsonLine::Node(n)) => nodes.push(n),
            Ok(NdjsonLine::Edge(e)) => edges.push(e),
            Err(reason) => {
                let mut message: String = "invalid NDJSON line: ".to_owned();
                message.append(reason.as_str());
                proof {
                    assert(is_first_bad(given, k));
                }
                return Err(message);
            },
        }
    }
    proof {
        assert(all.take(all.len() as int) =~= all);
    }
    let stats = ExportStats { nodes: nodes.len(), edges: edges.len() };
    Ok(GraphExport { version, exported_at, stats, nodes, edges })
}

proof fn lemma_records_of_nodes(head: Seq<NdjsonLine>, nodes: Seq<ExportNode>)
    ensures
        ({
            let lines = head + nodes.map_values(|n: ExportNode| NdjsonLine::Node(n));
            &&& record_nodes(lines) == record_nodes(head) + nodes
            &&& record_edges(lines) == record_edges(head)
            &&& record_header(lines) == record_header(head)
        }),
    decreases nodes.len(),
{
    let lines = head + nodes.map_values(|n: ExportNode| NdjsonLine::Node(n));
    if nodes.len() == 0 {
        assert(lines =~= head);
        assert(record_nodes(head) + nodes =~= record_nodes(head));
    } else {
        lemma_records_of_nodes(head, nodes.drop_last());
        assert(lines.drop_last() =~= head + nodes.drop_last().map_values(
            |n: ExportNode| NdjsonLine::Node(n),
        ));
        assert(lines.last() == NdjsonLine::Node(nodes.last()));
        assert(record_nodes(lines) =~= record_nodes(head) + nodes);
    }
}

proof fn lemma_records_of_edges(head: Seq<NdjsonLine>, edges: Seq<ExportEdge>)
    ensures
        ({
            let lines = head + edges.map_values(|e: ExportEdge| NdjsonLine::Edge(e));
            &&& record_edges(lines) == record_edges(head) + edges
            &&& record_nodes(lines) == record_nodes(head)
            &&& record_header(lines) == record_header(head)
        }),
    decreases edges.len(),
{
    let lines = head + edges.map_values(|e: ExportEdge| NdjsonLine::Edge(e));
    if edges.len() == 0 {
        assert(lines =~= head);
        assert(record_edges(head) + edges =~= record_edges(head));
    } else {
        lemma_records_of_edges(head, edges.drop_last());
        assert(lines.drop_last() =~= head + edges.drop_last().map_values(
            |e: ExportEdge| NdjsonLine::Edge(e),
        ));
        assert(lines.last() == NdjsonLine::Edge(edges.last()));
        assert(record_edges(lines) =~= record_edges(head) + edges);
    }
}

/// The records of an export by lines give back its nodes, its edges and its header.
pub proof fn law_records_give_back_export(
    lines: Seq<NdjsonLine>,
    nodes: Seq<ExportNode>,
    edges: Seq<ExportEdge>,
)
    requires
        lines.len() > 0,
        lines[0] is Meta,
        lines.skip(1) == body_records(nodes, edges),
    ensures
        record_nodes(lines) == nodes,
        record_edges(lines) == edges,
        lines[0] matches NdjsonLine::Meta { version, exported_at, .. } && record_header(lines) == (
            version@,
            exported_at@,
        ),
{
    let head = seq![lines[0]];
    let none = Seq::<NdjsonLine>::empty();
    assert(head.drop_last() =~= none);
    assert(head.last() == lines[0]);
    let with_nodes = head + nodes.map_values(|n: ExportNode| NdjsonLine::Node(n));
    lemma_records_of_nodes(head, nodes);
    lemma_records_of_edges(with_nodes, edges);
    assert(lines =~= with_nodes + edges.map_values(|e: ExportEdge| NdjsonLine::Edge(e))) by {
        assert(lines =~= head + lines.skip(1));
    }
    assert(record_nodes(none) =~= Seq::<ExportNode>::empty());
    assert(record_edges(none) =~= Seq::<ExportEdge>::empty());
    assert(record_nodes(head) =~= Seq::<ExportNode>::empty());
    assert(record_edges(head) =~= Seq::<ExportEdge>::empty());
    assert(record_nodes(lines) =~= nodes);
    assert(record_edges(lines) =~= edges);
}

/// Two records say the same.
pub open spec fn same_record(a: NdjsonLine, b: NdjsonLine) -> bool {
    match (a, b) {
        (
            NdjsonLine::Meta { version, exported_at, nodes, edges },
            NdjsonLine::Meta { version: version2, exported_at: at2, nodes: nodes2, edges: edges2 },
        ) => version@ == version2@ && exported_at@ == at2@ && nodes == nodes2 && edges == edges2,
        (NdjsonLine::Node(m), NdjsonLine::Node(n)) => m@ == n@,
        (NdjsonLine::Edge(d), NdjsonLine::Edge(e)) => d@ == e@,
        _ => false,
    }
}

proof fn lemma_same_records(a: Seq<NdjsonLine>, b: Seq<NdjsonLine>)
    requires
        a.len() == b.len(),
        forall|i: int| 0 <= i < a.len() ==> same_record(#[trigger] a[i], b[i]),
    ensures
        export_node_views(record_nodes(a)) == export_node_views(record_nodes(b)),
        export_edge_views(record_edges(a)) == export_edge_views(record_edges(b)),
        record_header(a) == record_header(b),
    decreases a.len(),
{
    if a.len() > 0 {
        lemma_same_records(a.drop_last(), b.drop_last());
        assert(same_record(a[a.len() - 1], b[b.len() - 1]));
        let nodes_a = record_nodes(a.drop_last());
        let nodes_b = record_nodes(b.drop_last());
        let edges_a = record_edges(a.drop_last());
        let edges_b = record_edges(b.drop_last());
        match (a.last(), b.last()) {
            (NdjsonLine::Node(m), NdjsonLine::Node(n)) => {
                assert(export_node_views(nodes_a.push(m)) =~= export_node_views(nodes_a).push(m@));
                assert(export_node_views(nodes_b.push(n)) =~= export_node_views(nodes_b).push(n@));
            },
            (NdjsonLine::Edge(d), NdjsonLine::Edge(e)) => {
                assert(export_edge_views(edges_a.push(d)) =~= export_edge_views(edges_a).push(d@));
                assert(export_edge_views(edges_b.push(e)) =~= export_edge_views(edges_b).push(e@));
            },
            _ => {},
        }
    }
}

/// The text of an export by lines gives back its header, its nodes and its edges, in order and with
/// every field, wherever each record is written on a line of its own and reads back as it was.
pub proof fn law_text_gives_back_export(
    records: Seq<NdjsonLine>,
    nodes: Seq<ExportNode>,
    edges: Seq<ExportEdge>,
    lines: Seq<Seq<char>>,
    read_line: spec_fn(Seq<char>) -> ReadLine,
    read: Seq<ReadLine>,
)
    requires
        records.len() > 0,
        records[0] is Meta,
        records.skip(1) == body_records(nodes, edges),
        lines.len() == records.len(),
        forall|i: int|
            0 <= i < lines.len() ==> is_record_line(#[trigger] lines[i]) && (read_line(
                lines[i],
            ) matches Ok(record) && same_record(record, records[i])),
        read == record_lines(joined_lines(lines) + "\n"@).map_values(read_line),
    ensures
        forall|i: int| 0 <= i < read.len() ==> (#[trigger] read[i]) is Ok,
        export_node_views(record_nodes(good_records(read))) == export_node_views(nodes),
        export_edge_views(record_edges(good_records(read))) == export_edge_views(edges),
        records[0] matches NdjsonLine::Meta { version, exported_at, .. } && record_header(
            good_records(read),
        ) == (version@, exported_at@),
{
    law_joined_lines_come_back(lines);
    law_records_give_back_export(records, nodes, edges);
    let good = good_records(read);
    assert forall|i: int| 0 <= i < read.len() implies (#[trigger] read[i]) is Ok by {
        assert(is_record_line(lines[i]));
    }
    assert forall|i: int| 0 <= i < good.len() implies same_record(
        #[trigger] good[i],
        records[i],
    ) by {
        assert(is_record_line(lines[i]));
        assert(read[i] == read_line(lines[i]));
    }
    lemma_same_records(good, records);
}

// ── time of an export ────────────────────────────────────────────────────────

pub open spec fn is_leap_year(y: int) -> bool {
    (y % 4 == 0 && y % 100 != 0) || y % 400 == 0
}

/// Days of a year.
pub open spec fn year_days(y: int) -> int {
    if is_leap_year(y) {
        366
    } else {
        365
    }
}

/// Days from the start of 1970 to the start of a year.
pub open spec fn days_before_year(y: int) -> int
    decreases y - 1970,
{
    if y <= 1970 {
        0
    } else {
        days_before_year(y - 1) + year_days(y - 1)
    }
}

/// Days of a month.
pub open spec fn month_days(y: int, month: int) -> int {
    if month == 2 {
        if is_leap_year(y) {
            29
        } else {
            28
        }
    } else if month == 4 || month == 6 || month == 9 || month == 11 {
        30
    } else {
        31
    }
}

/// Days from the start of a year to the start of a month.
pub open spec fn days_before_month(y: int, month: int) -> int
    decreases month,
{
    if month <= 1 {
        0
    } else {
        days_before_month(y, month - 1) + month_days(y, month - 1)
    }
}

/// Seconds from the start of 1970 to a time.
pub open spec fn epoch_seconds(y: int, mo: int, d: int, h: int, mi: int, s: int) -> int {
    ((days_before_year(y) + days_before_month(y, mo) + d - 1) * 24 + h) * 3600 + mi * 60 + s
}

/// The numbers are those of a time from 1970 on.
pub open spec fn is_time(y: int, mo: int, d: int, h: int, mi: int, s: int) -> bool {
    &&& 1970 <= y
    &&& 1 <= mo <= 12
    &&& 1 <= d <= month_days(y, mo)
    &&& 0 <= h < 24
    &&& 0 <= mi < 60
    &&& 0 <= s < 60
}

pub fn is_leap(y: u32) -> (r: bool)
    ensures
        r == is_leap_year(y as int),
{
    (y % 4 == 0 && y % 100 != 0) || y % 400 == 0
}

/// Year, month, day, hour, minute and second of a time in seconds since the start of 1970.
pub fn epoch_to_ymd_hms(secs: u64) -> (r: (u32, u32, u32, u32, u32, u32))
    requires
        secs / 86_400 / 365 + 1970 <= u32::MAX,
    ensures
        is_time(r.0 as int, r.1 as int, r.2 as int, r.3 as int, r.4 as int, r.5 as int),
        epoch_seconds(r.0 as int, r.1 as int, r.2 as int, r.3 as int, r.4 as int, r.5 as int)
            == secs,
{
    let s: u64 = secs % 60;
    let mi: u64 = (secs / 60) % 60;
    let h: u64 = (secs / 3_600) % 24;
    let total: u64 = secs / 86_400;
    let mut days: u64 = total;
    let mut y: u32 = 1970;
    let mut dy: u64 = 365;
    while days >= dy
        invariant
            1970 <= y,
            y - 1970 <= (total - days) / 365,
            total / 365 + 1970 <= u32::MAX,
            days + days_before_year(y as int) == total,
            dy == year_days(y as int),
        decreases days,
    {
        days = days - dy;
        y = y + 1;
        dy = if is_leap(y) {
            366
        } else {
            365
        };
    }
    let leap: bool = is_leap(y);
    let mut mo: u32 = 1;
    let mut dm: u64 = 31;
    while days >= dm
        invariant
            1 <= mo <= 12,
            leap == is_leap_year(y as int),
            days + days_before_month(y as int, mo as int) < year_days(y as int),
            days + days_before_month(y as int, mo as int) + days_before_year(y as int) == total,
            dm == month_days(y as int, mo as int),
        decreases days,
    {
        proof {
            reveal_with_fuel(days_before_month, 13);
        }
        days = days - dm;
        mo = mo + 1;
        dm = if mo == 2 {
            if leap {
                29
            } else {
                28
            }
        } else if mo == 4 || mo == 6 || mo == 9 || mo == 11 {
            30
        } else {
            31
        };
    }
    (y, mo, days as u32 + 1, h as u32, mi as u32, s as u32)
}

/// The text of a time: `YYYY-MM-DDTHH:MM:SSZ`.
pub open spec fn time_text(y: nat, mo: nat, d: nat, h: nat, mi: nat, s: nat) -> Seq<char> {
    padded_text(y, 4) + "-"@ + padded_text(mo, 2) + "-"@ + padded_text(d, 2) + "T"@ + padded_text(
        h,
        2,
    ) + ":"@ + padded_text(mi, 2) + ":"@ + padded_text(s, 2) + "Z"@
}

/// The text of a time in seconds since the start of 1970.
pub fn rfc3339(secs: u64) -> (r: String)
    requires
        secs / 86_400 / 365 + 1970 <= u32::MAX,
    ensures
        exists|y: nat, mo: nat, d: nat, h: nat, mi: nat, s: nat|
            r@ == #[trigger] time_text(y, mo, d, h, mi, s) && is_time(
                y as int,
                mo as int,
                d as int,
                h as int,
                mi as int,
                s as int,
            ) && epoch_seconds(
                y as int,
                mo as int,
                d as int,
                h as int,
                mi as int,
                s as int,
            ) == secs,
{
    let (y, mo, d, h, mi, s) = epoch_to_ymd_hms(secs);
    let mut r = padded(y as u64, 4);
    r.append("-");
    r.append(padded(mo as u64, 2).as_str());
    r.append("-");
    r.append(padded(d as u64, 2).as_str());
    r.append("T");
    r.append(padded(h as u64, 2).as_str());
    r.append(":");
    r.append(padded(mi as u64, 2).as_str());
    r.append(":");
    r.append(padded(s as u64, 2).as_str());
    r.append("Z");
    proof {
        assert(r@ == time_text(
            y as nat,
            mo as nat,
            d as nat,
            h as nat,
            mi as nat,
            s as nat,
        ));
    }
    r
}

proof fn lemma_day_of_year(y: int, mo: int, d: int)
    requires
        1 <= mo <= 12,
        1 <= d <= month_days(y, mo),
    ensures
        0 <= days_before_month(y, mo) + d - 1 < year_days(y),
{
    reveal_with_fuel(days_before_month, 13);
}

proof fn lemma_years_follow(a: int, b: int)
    requires
        1970 <= a < b,
    ensures
        days_before_year(a) + year_days(a) <= days_before_year(b),
    decreases b - a,
{
    if a < b - 1 {
        lemma_years_follow(a, b - 1);
    }
}

proof fn lemma_months_follow(y: int, a: int, b: int)
    requires
        1 <= a < b,
    ensures
        days_before_month(y, a) + month_days(y, a) <= days_before_month(y, b),
    decreases b - a,
{
    if a < b - 1 {
        lemma_months_follow(y, a, b - 1);
    }
}

/// A number of seconds stands for one time only.
pub proof fn law_time_is_unique(
    y: int,
    mo: int,
    d: int,
    h: int,
    mi: int,
    s: int,
    y2: int,
    mo2: int,
    d2: int,
    h2: int,
    mi2: int,
    s2: int,
)
    requires
        is_time(y, mo, d, h, mi, s),
        is_time(y2, mo2, d2, h2, mi2, s2),
        epoch_seconds(y, mo, d, h, mi, s) == epoch_seconds(y2, mo2, d2, h2, mi2, s2),
    ensures
        (y, mo, d, h, mi, s) == (y2, mo2, d2, h2, mi2, s2),
{
    lemma_day_of_year(y, mo, d);
    lemma_day_of_year(y2, mo2, d2);
    let day = days_before_year(y) + days_before_month(y, mo) + d - 1;
    let day2 = days_before_year(y2) + days_before_month(y2, mo2) + d2 - 1;
    assert(day == day2 && h == h2 && mi == mi2 && s == s2);
    if y < y2 {
        lemma_years_follow(y, y2);
    } else if y2 < y {
        lemma_years_follow(y2, y);
    }
    if mo < mo2 {
        lemma_months_follow(y, mo, mo2);
    } else if mo2 < mo {
        lemma_months_follow(y, mo2, mo);
    }
}

// ── import ───────────────────────────────────────────────────────────────────

/// What an import added and left out.
#[derive(Clone, Copy, PartialEq, Eq, Structural, Debug)]
pub struct ImportResult {
    pub nodes_added: usize,
    pub edges_added: usize,
    pub skipped_edges: usize,
    pub delta_size: usize,
}

/// The ids of nodes by name; of nodes with the same name the last one counts.
pub open spec fn ids_by_name(nodes: Seq<NodeInfo>) -> Map<Seq<char>, u32>
    decreases nodes.len(),
{
    if nodes.len() == 0 {
        Map::empty()
    } else {
        ids_by_name(nodes.drop_last()).insert(nodes.last().name@, nodes.last().id)
    }
}

/// What an import has come to: the ids by name, the places of the nodes that were added, and
/// whether the ids ran out.
pub ghost struct ImportState {
    pub names: Map<Seq<char>, u32>,
    pub added: Seq<int>,
    pub stopped: bool,
}

/// The import of nodes into a store that hands out ids from `next` on, below `limit`. A node whose
/// name is known is passed over; where the ids run out, the import of nodes stops.
pub open spec fn import_nodes(
    nodes: Seq<ExportNode>,
    names: Map<Seq<char>, u32>,
    next: int,
    limit: int,
) -> ImportState
    decreases nodes.len(),
{
    if nodes.len() == 0 {
        ImportState { names, added: Seq::empty(), stopped: false }
    } else {
        let before = import_nodes(nodes.drop_last(), names, next, limit);
        let name = nodes.last().name@;
        let id = next + before.added.len();
        if before.stopped || before.names.contains_key(name) {
            before
        } else if id >= limit {
            ImportState { stopped: true, ..before }
        } else {
            ImportState {
                names: before.names.insert(name, id as u32),
                added: before.added.push(nodes.len() - 1),
                stopped: false,
            }
        }
    }
}

/// A node as it is imported.
pub open spec fn imported_node(n: ExportNodeView, id: u32) -> NodeView {
    NodeView {
        id,
        name: n.name,
        node_type: n.node_type,
        weight: 0,
        props: n.props,
        full_context: n.full_context,
        embed_context: n.embed_context,
        external_id: n.node_type + ":"@ + n.name,
        image_url: n.image_url,
    }
}

/// The nodes that an import adds.
pub open spec fn imported_nodes(nodes: Seq<ExportNode>, added: Seq<int>, next: int) -> Seq<NodeView> {
    Seq::new(added.len(), |k: int| imported_node(nodes[added[k]]@, (next + k) as u32))
}

/// The edges that an import adds: those between known names.
pub open spec fn imported_edges(
    edges: Seq<ExportEdge>,
    names: Map<Seq<char>, u32>,
    first_id: int,
) -> Seq<EdgeView>
    decreases edges.len(),
{
    if edges.len() == 0 {
        Seq::empty()
    } else {
        let before = imported_edges(edges.drop_last(), names, first_id);
        let e = edges.last()@;
        if names.contains_key(e.from) && names.contains_key(e.to) {
            before.push(
                EdgeView {
                    from: names[e.from],
                    to: names[e.to],
                    edge_type: e.edge_type,
                    weight: e.weight,
                    full_context: e.full_context,
                    embed_context: e.embed_context,
                    edge_id: (first_id + before.len()) as u64,
                },
            )
        } else {
            before
        }
    }
}

fn collect_names(nodes: &Vec<NodeInfo>) -> (r: StringHashMap<u32>)
    ensures
        r@ == ids_by_name(nodes@),
{
    let mut names: StringHashMap<u32> = StringHashMap::new();
    let mut i: usize = 0;
    while i < nodes.len()
        invariant
            i <= nodes@.len(),
            names@ == ids_by_name(nodes@.take(i as int)),
        decreases nodes@.len() - i,
    {
        proof {
            assert(nodes@.take(i + 1).drop_last() =~= nodes@.take(i as int));
            assert(nodes@.take(i + 1).last() == nodes@[i as int]);
        }
        names.insert(nodes[i].name.clone(), nodes[i].id);
        i += 1;
    }
    proof {
        assert(nodes@.take(i as int) =~= nodes@);
    }
    names
}

fn import_node(n: &ExportNode, id: u32) -> (r: NodeInfo)
    ensures
        r@ == imported_node(n@, id),
{
    let mut external_id: String = n.node_type.clone();
    external_id.append(":");
    external_id.append(n.name.as_str());
    NodeInfo {
        id,
        name: n.name.clone(),
        node_type: n.node_type.clone(),
        weight: 0,
        props: n.props.clone(),
        full_context: n.full_context.clone(),
        embed_context: copy_option(&n.embed_context),
        external_id,
        image_url: copy_option(&n.image_url),
    }
}

/// `now` holds the vectors of `was` and then `n` empty ones.
pub open spec fn longer_by_empty(now: Seq<Vec<u32>>, was: Seq<Vec<u32>>, n: nat) -> bool {
    &&& now.len() == was.len() + n
    &&& forall|j: int| 0 <= j < was.len() ==> #[trigger] now[j] == was[j]
    &&& forall|j: int| was.len() <= j < now.len() ==> (#[trigger] now[j])@.len() == 0
}

/// The delta of `now` holds that of `before` with these nodes, which have no embeddings, and the
/// same edges.
pub open spec fn has_added_nodes(now: &DeltaGraph, before: &DeltaGraph, nodes: Seq<NodeView>) -> bool {
    &&& node_views(now.new_nodes@) == node_views(before.new_nodes@) + nodes
    &&& longer_by_empty(now.new_vecs@, before.new_vecs@, nodes.len())
    &&& now.new_edges == before.new_edges
    &&& now.new_edge_vecs == before.new_edge_vecs
}

#[verifier::rlimit(40)]
fn add_imported_nodes(
    nodes: &Vec<ExportNode>,
    names: &mut StringHashMap<u32>,
    store: &mut DeltaStore,
) -> (count: usize)
    requires
        old(store).wf(),
        old(store).inner.entry_count() + nodes@.len() <= usize::MAX,
    ensures
        final(store).wf(),
        ({
            let next = old(store).next_node_id as int;
            let st = import_nodes(
                nodes@,
                old(names)@,
                next,
                instance_limit(old(store).instance_id),
            );
            &&& final(names)@ == st.names
            &&& count == st.added.len()
            &&& count <= nodes@.len()
            &&& final(store).next_node_id == next + count
            &&& has_added_nodes(
                &final(store).inner,
                &old(store).inner,
                imported_nodes(nodes@, st.added, next),
            )
        }),
        final(store).merge_threshold == old(store).merge_threshold,
        final(store).instance_id == old(store).instance_id,
        final(store).next_edge_id == old(store).next_edge_id,
{
    let ghost before = *store;
    let ghost known = names@;
    let ghost next = store.next_node_id as int;
    let ghost limit = instance_limit(store.instance_id);
    let mut count: usize = 0;
    let mut i: usize = 0;
    let mut stopped: bool = false;
    proof {
        assert(import_nodes(nodes@.take(0), known, next, limit).added =~= Seq::<int>::empty());
        assert(imported_nodes(nodes@, Seq::empty(), next) =~= Seq::<NodeView>::empty());
        assert(node_views(before.inner.new_nodes@) + Seq::<NodeView>::empty() =~= node_views(
            before.inner.new_nodes@,
        ));
    }
    while i < nodes.len() && !stopped
        invariant
            i <= nodes@.len(),
            store.wf(),
            before.inner.entry_count() + nodes@.len() <= usize::MAX,
            before.inner.wf(),
            next == before.next_node_id,
            limit == instance_limit(before.instance_id),
            count <= i,
            ({
                let st = import_nodes(nodes@.take(i as int), known, next, limit);
                &&& names@ == st.names
                &&& count == st.added.len()
                &&& stopped == st.stopped
                &&& forall|k: int| 0 <= k < st.added.len() ==> 0 <= #[trigger] st.added[k] < i
                &&& has_added_nodes(
                    &store.inner,
                    &before.inner,
                    imported_nodes(nodes@, st.added, next),
                )
            }),
            store.next_node_id == next + count,
            store.merge_threshold == before.merge_threshold,
            store.instance_id == before.instance_id,
            store.next_edge_id == before.next_edge_id,
        decreases nodes@.len() - i,
    {
        let n = &nodes[i];
        let ghost st = import_nodes(nodes@.take(i as int), known, next, limit);
        let ghost st2 = import_nodes(nodes@.take(i + 1), known, next, limit);
        proof {
            assert(nodes@.take(i + 1).drop_last() =~= nodes@.take(i as int));
            assert(nodes@.take(i + 1).last() == *n);
            assert(node_views(store.inner.new_nodes@).len() == store.inner.new_nodes@.len());
            assert(node_views(before.inner.new_nodes@).len() == before.inner.new_nodes@.len());
        }
        if !names.contains_key(n.name.as_str()) {
            match store.alloc_node_id() {
                Ok(id) => {
                    let info = import_node(n, id);
                    let ghost was = store.inner;
                    store.add_node(info, Vec::new());
                    names.insert(n.name.clone(), id);
                    proof {
                        assert(st2.added == st.added.push(i as int));
                        assert(imported_nodes(nodes@, st2.added, next) =~= imported_nodes(
                            nodes@,
                            st.added,
                            next,
                        ).push(info@));
                        assert(node_views(store.inner.new_nodes@) =~= node_views(
                            was.new_nodes@,
                        ).push(info@));
                        assert(node_views(store.inner.new_nodes@) =~= node_views(
                            before.inner.new_nodes@,
                        ) + imported_nodes(nodes@, st2.added, next));
                    }
                    count += 1;
                },
                Err(_) => {
                    stopped = true;
                },
            }
        }
        i += 1;
    }
    proof {
        if stopped {
            lemma_import_stopped(nodes@, known, next, limit, i as int);
        } else {
            assert(nodes@.take(i as int) =~= nodes@);
        }
    }
    count
}

proof fn lemma_import_stopped(
    nodes: Seq<ExportNode>,
    names: Map<Seq<char>, u32>,
    next: int,
    limit: int,
    i: int,
)
    requires
        0 <= i <= nodes.len(),
        import_nodes(nodes.take(i), names, next, limit).stopped,
    ensures
        import_nodes(nodes, names, next, limit) == import_nodes(nodes.take(i), names, next, limit),
    decreases nodes.len(),
{
    if i < nodes.len() {
        assert(nodes.drop_last().take(i) =~= nodes.take(i));
        lemma_import_stopped(nodes.drop_last(), names, next, limit, i);
    } else {
        assert(nodes.take(i) =~= nodes);
    }
}

/// The delta of `now` holds that of `before` with these edges, which have no embeddings, and the
/// same nodes.
pub open spec fn has_added_edges(now: &DeltaGraph, before: &DeltaGraph, edges: Seq<EdgeView>) -> bool {
    &&& edge_views(now.new_edges@) == edge_views(before.new_edges@) + edges
    &&& longer_by_empty(now.new_edge_vecs@, before.new_edge_vecs@, edges.len())
    &&& now.new_nodes == before.new_nodes
    &&& now.new_vecs == before.new_vecs
}

#[verifier::rlimit(40)]
fn add_imported_edges(
    edges: &Vec<ExportEdge>,
    names: &StringHashMap<u32>,
    store: &mut DeltaStore,
) -> (count: usize)
    requires
        old(store).wf(),
        old(store).inner.entry_count() + edges@.len() <= usize::MAX,
        old(store).next_edge_id + edges@.len() <= u64::MAX,
    ensures
        final(store).wf(),
        count <= edges@.len(),
        ({
            let first = old(store).next_edge_id as int;
            let added = imported_edges(edges@, names@, first);
            &&& count == added.len()
            &&& final(store).next_edge_id == first + count
            &&& has_added_edges(&final(store).inner, &old(store).inner, added)
        }),
        final(store).merge_threshold == old(store).merge_threshold,
        final(store).instance_id == old(store).instance_id,
        final(store).next_node_id == old(store).next_node_id,
{
    let ghost before = *store;
    let ghost first = store.next_edge_id as int;
    let mut count: usize = 0;
    let mut i: usize = 0;
    proof {
        assert(imported_edges(edges@.take(0), names@, first) =~= Seq::<EdgeView>::empty());
        assert(edge_views(before.inner.new_edges@) + Seq::<EdgeView>::empty() =~= edge_views(
            before.inner.new_edges@,
        ));
    }
    while i < edges.len()
        invariant
            i <= edges@.len(),
            store.wf(),
            before.inner.wf(),
            before.inner.entry_count() + edges@.len() <= usize::MAX,
            first == before.next_edge_id,
            first + edges@.len() <= u64::MAX,
            count <= i,
            count == imported_edges(edges@.take(i as int), names@, first).len(),
            has_added_edges(
                &store.inner,
                &before.inner,
                imported_edges(edges@.take(i as int), names@, first),
            ),
            store.next_edge_id == first + count,
            store.merge_threshold == before.merge_threshold,
            store.instance_id == before.instance_id,
            store.next_node_id == before.next_node_id,
        decreases edges@.len() - i,
    {
        let e = &edges[i];
        let ghost done = imported_edges(edges@.take(i as int), names@, first);
        let ghost next = imported_edges(edges@.take(i + 1), names@, first);
        proof {
            assert(edges@.take(i + 1).drop_last() =~= edges@.take(i as int));
            assert(edges@.take(i + 1).last() == *e);
            assert(edge_views(store.inner.new_edges@).len() == store.inner.new_edges@.len());
            assert(edge_views(before.inner.new_edges@).len() == before.inner.new_edges@.len());
        }
        match (names.get(e.from.as_str()), names.get(e.to.as_str())) {
            (Some(from), Some(to)) => {
                let info = EdgeInfo {
                    from: *from,
                    to: *to,
                    edge_type: e.edge_type.clone(),
                    weight: e.weight,
                    full_context: e.full_context.clone(),
                    embed_context: copy_option(&e.embed_context),
                    edge_id: store.alloc_edge_id(),
                };
                let ghost was = store.inner;
                store.add_edge(info, Vec::new());
                proof {
                    assert(next == done.push(info@));
                    assert(edge_views(store.inner.new_edges@) =~= edge_views(was.new_edges@).push(
                        info@,
                    ));
                    assert(edge_views(store.inner.new_edges@) =~= edge_views(
                        before.inner.new_edges@,
                    ) + next);
                }
                count += 1;
            },
            _ => {},
        }
        i += 1;
    }
    proof {
        assert(edges@.take(i as int) =~= edges@);
    }
    count
}

/// Adds an export to the store. Nodes whose names the graph has are passed over; an edge is added
/// where both its ends are nodes of the graph or of the export. What is added has no embeddings.
pub fn apply_import(payload: &GraphExport, graph: &CsrGraph, store: &mut DeltaStore) -> (r:
    ImportResult)
    requires
        old(store).wf(),
        old(store).inner.entry_count() + payload.nodes@.len() + payload.edges@.len() <= usize::MAX,
        old(store).next_edge_id + payload.edges@.len() <= u64::MAX,
    ensures
        final(store).wf(),
        ({
            let next = old(store).next_node_id as int;
            let first = old(store).next_edge_id as int;
            let st = import_nodes(
                payload.nodes@,
                ids_by_name(graph.nodes@),
                next,
                instance_limit(old(store).instance_id),
            );
            let nodes = imported_nodes(payload.nodes@, st.added, next);
            let edges = imported_edges(payload.edges@, st.names, first);
            let was = old(store).inner;
            let now = final(store).inner;
            &&& r.nodes_added == nodes.len()
            &&& r.edges_added == edges.len()
            &&& r.skipped_edges == payload.edges@.len() - edges.len()
            &&& r.delta_size == now.entry_count()
            &&& node_views(now.new_nodes@) == node_views(was.new_nodes@) + nodes
            &&& edge_views(now.new_edges@) == edge_views(was.new_edges@) + edges
            &&& longer_by_empty(now.new_vecs@, was.new_vecs@, nodes.len())
            &&& longer_by_empty(now.new_edge_vecs@, was.new_edge_vecs@, edges.len())
            &&& final(store).next_node_id == next + nodes.len()
            &&& final(store).next_edge_id == first + edges.len()
        }),
        final(store).merge_threshold == old(store).merge_threshold,
        final(store).instance_id == old(store).instance_id,
{
    let mut names = collect_names(&graph.nodes);
    let nodes_added: usize = add_imported_nodes(&payload.nodes, &mut names, store);
    proof {
        assert(node_views(store.inner.new_nodes@).len() == store.inner.new_nodes@.len());
        assert(node_views(old(store).inner.new_nodes@).len() == old(
            store,
        ).inner.new_nodes@.len());
    }
    let edges_added: usize = add_imported_edges(&payload.edges, &names, store);
    ImportResult {
        nodes_added,
        edges_added,
        skipped_edges: payload.edges.len() - edges_added,
        delta_size: store.size(),
    }
}

/// No two nodes have the same name.
pub open spec fn names_distinct(nodes: Seq<ExportNode>) -> bool {
    forall|i: int, j: int|
        0 <= i < j < nodes.len() ==> (#[trigger] nodes[i]).name@ != (#[trigger] nodes[j]).name@
}

proof fn lemma_import_of_distinct(nodes: Seq<ExportNode>, next: int, limit: int)
    requires
        names_distinct(nodes),
        0 <= next,
        next + nodes.len() <= limit <= u32::MAX,
    ensures
        ({
            let st = import_nodes(nodes, Map::empty(), next, limit);
            &&& !st.stopped
            &&& st.added == Seq::new(nodes.len(), |k: int| k)
            &&& forall|i: int|
                0 <= i < nodes.len() ==> st.names.contains_key((#[trigger] nodes[i]).name@)
                    && st.names[nodes[i].name@] == next + i
            &&& forall|name: Seq<char>| #[trigger]
                st.names.contains_key(name) ==> exists|i: int|
                    0 <= i < nodes.len() && (#[trigger] nodes[i]).name@ == name
        }),
    decreases nodes.len(),
{
    let st = import_nodes(nodes, Map::empty(), next, limit);
    if nodes.len() == 0 {
        assert(st.added =~= Seq::new(nodes.len(), |k: int| k));
    } else {
        let rest = nodes.drop_last();
        assert forall|i: int, j: int| 0 <= i < j < rest.len() implies (#[trigger] rest[i]).name@ != (
        #[trigger] rest[j]).name@ by {
            assert(rest[i] == nodes[i] && rest[j] == nodes[j]);
        }
        lemma_import_of_distinct(rest, next, limit);
        let before = import_nodes(rest, Map::empty(), next, limit);
        let name = nodes.last().name@;
        if before.names.contains_key(name) {
            let i = choose|i: int| 0 <= i < rest.len() && (#[trigger] rest[i]).name@ == name;
            assert(nodes[i].name@ == nodes[nodes.len() - 1].name@);
        }
        assert(st.added =~= Seq::new(nodes.len(), |k: int| k));
        assert forall|i: int| 0 <= i < nodes.len() implies st.names.contains_key(
            (#[trigger] nodes[i]).name@,
        ) && st.names[nodes[i].name@] == next + i by {
            if i < rest.len() {
                assert(rest[i] == nodes[i]);
                assert(nodes[i].name@ != nodes[nodes.len() - 1].name@);
            }
        }
        assert forall|key: Seq<char>| #[trigger] st.names.contains_key(key) implies exists|i: int|
            0 <= i < nodes.len() && (#[trigger] nodes[i]).name@ == key by {
            if key == name {
                assert(nodes[nodes.len() - 1].name@ == key);
            } else {
                let i = choose|i: int| 0 <= i < rest.len() && (#[trigger] rest[i]).name@ == key;
                assert(nodes[i].name@ == key);
            }
        }
    }
}

proof fn lemma_all_edges_imported(edges: Seq<ExportEdge>, names: Map<Seq<char>, u32>, first: int)
    requires
        forall|i: int|
            0 <= i < edges.len() ==> names.contains_key((#[trigger] edges[i]).from@)
                && names.contains_key(edges[i].to@),
    ensures
        imported_edges(edges, names, first).len() == edges.len(),
        forall|i: int|
            0 <= i < edges.len() ==> {
                let e = #[trigger] imported_edges(edges, names, first)[i];
                &&& e.from == names[edges[i].from@]
                &&& e.to == names[edges[i].to@]
                &&& e.edge_type == edges[i].edge_type@
                &&& e.weight == edges[i].weight
                &&& e.full_context == edges[i].full_context@
                &&& e.embed_context == opt_text(edges[i].embed_context)
            },
    decreases edges.len(),
{
    if edges.len() > 0 {
        let rest = edges.drop_last();
        assert forall|i: int| 0 <= i < rest.len() implies names.contains_key(
            (#[trigger] rest[i]).from@,
        ) && names.contains_key(rest[i].to@) by {
            assert(rest[i] == edges[i]);
        }
        lemma_all_edges_imported(rest, names, first);
        let before = imported_edges(rest, names, first);
        let all = imported_edges(edges, names, first);
        assert(edges[edges.len() - 1] == edges.last());
        assert forall|i: int| 0 <= i < edges.len() implies {
            let e = #[trigger] all[i];
            &&& e.from == names[edges[i].from@]
            &&& e.to == names[edges[i].to@]
            &&& e.edge_type == edges[i].edge_type@
            &&& e.weight == edges[i].weight
            &&& e.full_context == edges[i].full_context@
            &&& e.embed_context == opt_text(edges[i].embed_context)
        } by {
            if i < rest.len() {
                assert(all[i] == before[i]);
                assert(rest[i] == edges[i]);
            }
        }
    }
}

/// An export whose names are all different, imported where nothing is known yet, comes back whole:
/// every node in its place with all that the export says of it, and every edge between the nodes
/// that its ends name.
pub proof fn law_import_gives_back_export(
    nodes: Seq<ExportNode>,
    edges: Seq<ExportEdge>,
    next: int,
    limit: int,
    first: int,
)
    requires
        names_distinct(nodes),
        0 <= next,
        next + nodes.len() <= limit <= u32::MAX,
        forall|k: int|
            0 <= k < edges.len() ==> names_node(nodes, (#[trigger] edges[k]).from@) && names_node(
                nodes,
                edges[k].to@,
            ),
    ensures
        ({
            let st = import_nodes(nodes, Map::empty(), next, limit);
            let new_nodes = imported_nodes(nodes, st.added, next);
            let new_edges = imported_edges(edges, st.names, first);
            &&& new_nodes.len() == nodes.len()
            &&& forall|i: int|
                0 <= i < nodes.len() ==> exported_node(#[trigger] new_nodes[i]) == nodes[i]@
                    && new_nodes[i].id == next + i
            &&& new_edges.len() == edges.len()
            &&& forall|k: int|
                0 <= k < edges.len() ==> {
                    let e = #[trigger] new_edges[k];
                    &&& next <= e.from < next + nodes.len()
                    &&& next <= e.to < next + nodes.len()
                    &&& new_nodes[e.from - next].name == edges[k].from@
                    &&& new_nodes[e.to - next].name == edges[k].to@
                    &&& e.edge_type == edges[k].edge_type@
                    &&& e.weight == edges[k].weight
                    &&& e.full_context == edges[k].full_context@
                    &&& e.embed_context == opt_text(edges[k].embed_context)
                }
        }),
{
    lemma_import_of_distinct(nodes, next, limit);
    let st = import_nodes(nodes, Map::empty(), next, limit);
    assert forall|k: int| 0 <= k < edges.len() implies st.names.contains_key(
        (#[trigger] edges[k]).from@,
    ) && st.names.contains_key(edges[k].to@) by {
        let i = choose|i: int| 0 <= i < nodes.len() && (#[trigger] nodes[i]).name@ == edges[k].from@;
        assert(st.names.contains_key(nodes[i].name@));
        let j = choose|j: int| 0 <= j < nodes.len() && (#[trigger] nodes[j]).name@ == edges[k].to@;
        assert(st.names.contains_key(nodes[j].name@));
    }
    lemma_all_edges_imported(edges, st.names, first);
    let new_nodes = imported_nodes(nodes, st.added, next);
    let new_edges = imported_edges(edges, st.names, first);
    assert forall|i: int| 0 <= i < nodes.len() implies exported_node(#[trigger] new_nodes[i])
        == nodes[i]@ && new_nodes[i].id == next + i by {
        assert(exported_node(new_nodes[i]) =~= nodes[i]@);
    }
    assert forall|k: int| 0 <= k < edges.len() implies {
        let e = #[trigger] new_edges[k];
        &&& next <= e.from < next + nodes.len()
        &&& next <= e.to < next + nodes.len()
        &&& new_nodes[e.from - next].name == edges[k].from@
        &&& new_nodes[e.to - next].name == edges[k].to@
    } by {
        assert(names_node(nodes, edges[k].from@));
        let i = choose|i: int| 0 <= i < nodes.len() && (#[trigger] nodes[i]).name@ == edges[k].from@;
        assert(st.names[nodes[i].name@] == next + i);
        let j = choose|j: int| 0 <= j < nodes.len() && (#[trigger] nodes[j]).name@ == edges[k].to@;
        assert(st.names[nodes[j].name@] == next + j);
    }
}

/// Some node has this name.
pub open spec fn names_node(nodes: Seq<ExportNode>, name: Seq<char>) -> bool {
    exists|i: int| 0 <= i < nodes.len() && (#[trigger] nodes[i]).name@ == name
}

// ── what an export says ──────────────────────────────────────────────────────

/// How many edges leave the nodes before the one at `p`.
pub open spec fn edges_before(g: &CsrGraph, p: int) -> nat
    decreases p,
{
    if p <= 0 {
        0
    } else {
        edges_before(g, p - 1) + g.out_edges(p - 1).len()
    }
}

proof fn lemma_edges_before(g: &CsrGraph, p: int, n: int)
    requires
        0 <= p < n,
    ensures
        edges_before(g, p) + g.out_edges(p).len() <= edges_before(g, n),
    decreases n,
{
    if p < n - 1 {
        lemma_edges_before(g, p, n - 1);
    }
}

proof fn lemma_flat_at(g: &CsrGraph, n: int, p: int, k: int)
    requires
        0 <= p < n,
        0 <= k < g.out_edges(p).len(),
    ensures
        flat_edges(g, n).len() == edges_before(g, n),
        edges_before(g, p) + k < edges_before(g, n),
        ({
            let e = flat_edges(g, n)[edges_before(g, p) + k];
            let own = g.out_edges(p)[k];
            &&& e.from == own.from
            &&& e.to == own.to
            &&& e.edge_type == own.edge_type
            &&& e.weight == own.weight
            &&& e.full_context == own.full_context
            &&& e.embed_context == own.embed_context
        }),
    decreases n,
{
    lemma_edges_before(g, p, n);
    lemma_flat_count(g, n - 1);
    if p < n - 1 {
        lemma_flat_at(g, n - 1, p, k);
    }
}

proof fn lemma_flat_count(g: &CsrGraph, n: int)
    ensures
        flat_edges(g, n).len() == edges_before(g, n),
    decreases n,
{
    if n > 0 {
        lemma_flat_count(g, n - 1);
    }
}

/// The name of the node with this id; empty where there is none.
pub open spec fn name_of_node(graph: &CsrGraph, delta: &DeltaGraph, id: u32) -> Seq<char> {
    match node_with_id(graph, delta, id) {
        Some(n) => n.name@,
        None => Seq::empty(),
    }
}

/// An exported edge says of an edge what it says of itself, with the names of its ends.
pub open spec fn says_edge(
    graph: &CsrGraph,
    delta: &DeltaGraph,
    said: ExportEdge,
    e: EdgeInfo,
) -> bool {
    &&& said.from@ == name_of_node(graph, delta, e.from)
    &&& said.to@ == name_of_node(graph, delta, e.to)
    &&& said.edge_type@ == e.edge_type@
    &&& said.weight == e.weight
    &&& said.full_context@ == e.full_context@
    &&& opt_text(said.embed_context) == opt_text(e.embed_context)
}

/// An exported node says of a node what it says of itself.
pub open spec fn says_node(said: ExportNode, n: NodeInfo) -> bool {
    &&& said.name@ == n.name@
    &&& said.node_type@ == n.node_type@
    &&& json_tree(said.props) == json_tree(n.props)
    &&& said.full_context@ == n.full_context@
    &&& opt_text(said.embed_context) == opt_text(n.embed_context)
    &&& opt_text(said.image_url) == opt_text(n.image_url)
}

/// An export holds every node of the graph and then every new one, and every edge of the graph, by
/// the nodes that they leave, and then every new one, each with all that it says of itself: names,
/// types, properties, contexts, images and weights.
pub proof fn law_export_says_what_there_is(
    graph: &CsrGraph,
    delta: &DeltaGraph,
    nodes: Seq<ExportNode>,
    edges: Seq<ExportEdge>,
)
    requires
        export_node_views(nodes) == exported_nodes(graph, delta),
        export_edge_views(edges) == exported_edges(graph, delta),
    ensures
        nodes.len() == graph.nodes@.len() + delta.new_nodes@.len(),
        forall|i: int|
            0 <= i < graph.nodes@.len() ==> says_node(#[trigger] nodes[i], graph.nodes@[i]),
        forall|i: int|
            0 <= i < delta.new_nodes@.len() ==> says_node(
                nodes[graph.nodes@.len() + i],
                #[trigger] delta.new_nodes@[i],
            ),
        edges.len() == edges_before(graph, graph.nodes@.len() as int) + delta.new_edges@.len(),
        forall|p: int, k: int|
            0 <= p < graph.nodes@.len() && 0 <= k < graph.out_edges(p).len() ==> says_edge(
                graph,
                delta,
                edges[edges_before(graph, p) + k],
                #[trigger] graph.out_edges(p)[k],
            ),
        forall|j: int|
            0 <= j < delta.new_edges@.len() ==> says_edge(
                graph,
                delta,
                edges[edges_before(graph, graph.nodes@.len() as int) + j],
                #[trigger] delta.new_edges@[j],
            ),
{
    let n = graph.nodes@.len() as int;
    let all_nodes = graph.nodes@ + delta.new_nodes@;
    let flat = flat_edges(graph, n);
    let all_edges = flat + delta.new_edges@;
    lemma_flat_count(graph, n);
    assert(export_node_views(nodes).len() == nodes.len());
    assert(export_edge_views(edges).len() == edges.len());
    assert forall|i: int| 0 <= i < all_nodes.len() implies says_node(
        #[trigger] nodes[i],
        all_nodes[i],
    ) by {
        assert(export_node_views(nodes)[i] == nodes[i]@);
        assert(exported_nodes(graph, delta)[i] == exported_node(all_nodes[i]@));
    }
    assert forall|i: int| 0 <= i < all_edges.len() implies says_edge(
        graph,
        delta,
        #[trigger] edges[i],
        all_edges[i],
    ) by {
        assert(export_edge_views(edges)[i] == edges[i]@);
        assert(exported_edges(graph, delta)[i] == exported_edge(graph, delta, all_edges[i]@));
    }
    assert forall|i: int| 0 <= i < graph.nodes@.len() implies says_node(
        #[trigger] nodes[i],
        graph.nodes@[i],
    ) by {
        assert(all_nodes[i] == graph.nodes@[i]);
    }
    assert forall|i: int| 0 <= i < delta.new_nodes@.len() implies says_node(
        nodes[graph.nodes@.len() + i],
        #[trigger] delta.new_nodes@[i],
    ) by {
        assert(all_nodes[n + i] == delta.new_nodes@[i]);
        assert(says_node(nodes[n + i], all_nodes[n + i]));
    }
    assert forall|p: int, k: int|
        0 <= p < graph.nodes@.len() && 0 <= k < graph.out_edges(p).len() implies says_edge(
        graph,
        delta,
        edges[edges_before(graph, p) + k],
        #[trigger] graph.out_edges(p)[k],
    ) by {
        lemma_flat_at(graph, n, p, k);
        let i = edges_before(graph, p) + k;
        assert(all_edges[i] == flat[i]);
        assert(says_edge(graph, delta, edges[i], all_edges[i]));
    }
    assert forall|j: int| 0 <= j < delta.new_edges@.len() implies says_edge(
        graph,
        delta,
        edges[edges_before(graph, n) + j],
        #[trigger] delta.new_edges@[j],
    ) by {
        let i = edges_before(graph, n) + j;
        assert(all_edges[i] == delta.new_edges@[j]);
        assert(says_edge(graph, delta, edges[i], all_edges[i]));
    }
}

/// A graph whose nodes have different names, exported with an empty delta and imported where nothing
/// is known, comes back: every node in its place with all that was exported of it, and every edge
/// between the same places with its type, its weight and its contexts.
pub proof fn law_graph_survives_export_and_import(
    graph: &CsrGraph,
    delta: &DeltaGraph,
    nodes: Seq<ExportNode>,
    edges: Seq<ExportEdge>,
    next: int,
    limit: int,
    first: int,
)
    requires
        graph.wf(),
        delta.new_nodes@.len() == 0,
        delta.new_edges@.len() == 0,
        export_node_views(nodes) == exported_nodes(graph, delta),
        export_edge_views(edges) == exported_edges(graph, delta),
        forall|i: int, j: int|
            0 <= i < j < graph.nodes@.len() ==> (#[trigger] graph.nodes@[i]).name@ != (
            #[trigger] graph.nodes@[j]).name@,
        0 <= next,
        next + graph.nodes@.len() <= limit <= u32::MAX,
    ensures
        ({
            let st = import_nodes(nodes, Map::empty(), next, limit);
            let new_nodes = imported_nodes(nodes, st.added, next);
            let new_edges = imported_edges(edges, st.names, first);
            &&& new_nodes.len() == graph.nodes@.len()
            &&& forall|i: int|
                0 <= i < graph.nodes@.len() ==> {
                    let n = #[trigger] new_nodes[i];
                    let own = graph.nodes@[i];
                    &&& n.id == next + i
                    &&& n.name == own.name@
                    &&& n.node_type == own.node_type@
                    &&& n.props == json_tree(own.props)
                    &&& n.full_context == own.full_context@
                    &&& n.embed_context == opt_text(own.embed_context)
                    &&& n.image_url == opt_text(own.image_url)
                }
            &&& new_edges.len() == edges_before(graph, graph.nodes@.len() as int)
            &&& forall|p: int, k: int|
                0 <= p < graph.nodes@.len() && 0 <= k < graph.out_edges(p).len() ==> {
                    let own = #[trigger] graph.out_edges(p)[k];
                    let e = new_edges[edges_before(graph, p) + k];
                    &&& e.from == next + p
                    &&& e.to == next + own.to
                    &&& e.edge_type == own.edge_type@
                    &&& e.weight == own.weight
                    &&& e.full_context == own.full_context@
                    &&& e.embed_context == opt_text(own.embed_context)
                }
        }),
{
    let count = graph.nodes@.len() as int;
    law_export_says_what_there_is(graph, delta, nodes, edges);
    assert forall|i: int, j: int| 0 <= i < j < nodes.len() implies (#[trigger] nodes[i]).name@ != (
    #[trigger] nodes[j]).name@ by {
        assert(says_node(nodes[i], graph.nodes@[i]));
        assert(says_node(nodes[j], graph.nodes@[j]));
    }
    lemma_flat_edges(graph);
    lemma_flat_count(graph, count);
    let flat = flat_edges(graph, count);
    assert forall|q: int| 0 <= q < edges.len() implies names_node(nodes, (#[trigger] edges[q]).from@)
        && names_node(nodes, edges[q].to@) by {
        assert(export_edge_views(edges)[q] == edges[q]@);
        assert((flat + delta.new_edges@)[q] == flat[q]);
        assert(exported_edges(graph, delta)[q] == exported_edge(graph, delta, flat[q]@));
        assert(says_node(nodes[flat[q].from as int], graph.nodes@[flat[q].from as int]));
        assert(says_node(nodes[flat[q].to as int], graph.nodes@[flat[q].to as int]));
        assert(nodes[flat[q].from as int].name@ == edges[q].from@);
        assert(nodes[flat[q].to as int].name@ == edges[q].to@);
    }
    law_import_gives_back_export(nodes, edges, next, limit, first);
    let st = import_nodes(nodes, Map::empty(), next, limit);
    let new_nodes = imported_nodes(nodes, st.added, next);
    let new_edges = imported_edges(edges, st.names, first);
    assert forall|i: int| 0 <= i < graph.nodes@.len() implies {
        let n = #[trigger] new_nodes[i];
        let own = graph.nodes@[i];
        &&& n.id == next + i
        &&& n.name == own.name@
        &&& n.node_type == own.node_type@
        &&& n.props == json_tree(own.props)
        &&& n.full_context == own.full_context@
        &&& n.embed_context == opt_text(own.embed_context)
        &&& n.image_url == opt_text(own.image_url)
    } by {
        assert(exported_node(new_nodes[i]) == nodes[i]@);
        assert(says_node(nodes[i], graph.nodes@[i]));
    }
    assert forall|p: int, k: int| 0 <= p < count && 0 <= k < graph.out_edges(p).len() implies {
        let own = #[trigger] graph.out_edges(p)[k];
        let e = new_edges[edges_before(graph, p) + k];
        &&& e.from == next + p
        &&& e.to == next + own.to
        &&& e.edge_type == own.edge_type@
        &&& e.weight == own.weight
        &&& e.full_context == own.full_context@
        &&& e.embed_context == opt_text(own.embed_context)
    } by {
        let own = graph.out_edges(p)[k];
        let q = edges_before(graph, p) + k;
        let e = new_edges[q];
        lemma_edges_before(graph, p, count);
        lemma_out_edges_range(graph, p, k);
        assert(says_edge(graph, delta, edges[q], own));
        assert(new_nodes[e.from - next].name == edges[q].from@);
        assert(new_nodes[e.to - next].name == edges[q].to@);
        assert(new_nodes[e.from - next].name == graph.nodes@[e.from - next].name@);
        assert(new_nodes[e.to - next].name == graph.nodes@[e.to - next].name@);
        assert(edges[q].from@ == graph.nodes@[p].name@);
        assert(edges[q].to@ == graph.nodes@[own.to as int].name@);
        assert(e.from - next == p) by {
            if e.from - next < p {
                assert(graph.nodes@[e.from - next].name@ != graph.nodes@[p].name@);
            } else if p < e.from - next {
                assert(graph.nodes@[p].name@ != graph.nodes@[e.from - next].name@);
            }
        }
        assert(e.to - next == own.to) by {
            if e.to - next < own.to {
                assert(graph.nodes@[e.to - next].name@ != graph.nodes@[own.to as int].name@);
            } else if own.to < e.to - next {
                assert(graph.nodes@[own.to as int].name@ != graph.nodes@[e.to - next].name@);
            }
        }
    }
}

/// The names of a graph lead to the ids of its nodes, to the last one of several with a name.
pub proof fn law_names_lead_to_nodes(nodes: Seq<NodeInfo>, name: Seq<char>)
    ensures
        ids_by_name(nodes).contains_key(name) <==> exists|i: int|
            0 <= i < nodes.len() && (#[trigger] nodes[i]).name@ == name,
        ids_by_name(nodes).contains_key(name) ==> exists|i: int|
            0 <= i < nodes.len() && (#[trigger] nodes[i]).name@ == name && nodes[i].id
                == ids_by_name(nodes)[name] && forall|j: int|
                i < j < nodes.len() ==> (#[trigger] nodes[j]).name@ != name,
    decreases nodes.len(),
{
    if nodes.len() > 0 {
        let rest = nodes.drop_last();
        let last = nodes.len() - 1;
        law_names_lead_to_nodes(rest, name);
        if nodes[last].name@ != name {
            if ids_by_name(rest).contains_key(name) {
                let i = choose|i: int|
                    0 <= i < rest.len() && (#[trigger] rest[i]).name@ == name && rest[i].id
                        == ids_by_name(rest)[name] && forall|j: int|
                        i < j < rest.len() ==> (#[trigger] rest[j]).name@ != name;
                assert(nodes[i].name@ == name);
                assert forall|j: int| i < j < nodes.len() implies (#[trigger] nodes[j]).name@
                    != name by {
                    if j < last {
                        assert(rest[j] == nodes[j]);
                    }
                }
            }
            if exists|i: int| 0 <= i < nodes.len() && (#[trigger] nodes[i]).name@ == name {
                let i = choose|i: int| 0 <= i < nodes.len() && (#[trigger] nodes[i]).name@ == name;
                assert(rest[i].name@ == name);
            }
        }
    }
}

/// An import adds, unless it runs out of ids, each name that was not known once, from the first node
/// that has it, with consecutive ids. Names that were known keep their ids.
pub proof fn law_import_adds_unknown_names_once(
    nodes: Seq<ExportNode>,
    names: Map<Seq<char>, u32>,
    next: int,
    limit: int,
)
    requires
        0 <= next <= limit <= u32::MAX,
    ensures
        ({
            let st = import_nodes(nodes, names, next, limit);
            &&& next + st.added.len() <= limit
            &&& st.stopped ==> next + st.added.len() == limit
            &&& forall|q: int|
                0 <= q < st.added.len() ==> {
                    let i = #[trigger] st.added[q];
                    &&& 0 <= i < nodes.len()
                    &&& !names.contains_key(nodes[i].name@)
                    &&& forall|j: int| 0 <= j < i ==> (#[trigger] nodes[j]).name@ != nodes[i].name@
                    &&& st.names.contains_key(nodes[i].name@)
                    &&& st.names[nodes[i].name@] == next + q
                }
            &&& forall|a: int, b: int|
                0 <= a < b < st.added.len() ==> #[trigger] st.added[a] < #[trigger] st.added[b]
            &&& !st.stopped ==> forall|i: int|
                0 <= i < nodes.len() ==> st.names.contains_key((#[trigger] nodes[i]).name@)
            &&& forall|name: Seq<char>| #[trigger]
                names.contains_key(name) ==> st.names.contains_key(name) && st.names[name]
                    == names[name]
            &&& forall|name: Seq<char>| #[trigger]
                st.names.contains_key(name) && !names.contains_key(name) ==> exists|q: int|
                    0 <= q < st.added.len() && nodes[#[trigger] st.added[q]].name@ == name
        }),
    decreases nodes.len(),
{
    if nodes.len() > 0 {
        let rest = nodes.drop_last();
        let last = nodes.len() - 1;
        let before = import_nodes(rest, names, next, limit);
        let st = import_nodes(nodes, names, next, limit);
        let name = nodes[last].name@;
        law_import_adds_unknown_names_once(rest, names, next, limit);
        assert forall|q: int| 0 <= q < st.added.len() implies {
            let i = #[trigger] st.added[q];
            &&& 0 <= i < nodes.len()
            &&& !names.contains_key(nodes[i].name@)
            &&& forall|j: int| 0 <= j < i ==> (#[trigger] nodes[j]).name@ != nodes[i].name@
            &&& st.names.contains_key(nodes[i].name@)
            &&& st.names[nodes[i].name@] == next + q
        } by {
            let i = st.added[q];
            if q < before.added.len() {
                assert(before.added[q] == i);
                assert(rest[i] == nodes[i]);
                assert forall|j: int| 0 <= j < i implies (#[trigger] nodes[j]).name@
                    != nodes[i].name@ by {
                    assert(rest[j] == nodes[j]);
                }
            } else {
                assert(i == last);
                assert forall|j: int| 0 <= j < i implies (#[trigger] nodes[j]).name@
                    != nodes[i].name@ by {
                    assert(rest[j] == nodes[j]);
                    assert(before.names.contains_key(rest[j].name@));
                }
            }
        }
        assert forall|a: int, b: int| 0 <= a < b < st.added.len() implies #[trigger] st.added[a]
            < #[trigger] st.added[b] by {
            assert(st.added[a] == before.added[a]);
            if b < before.added.len() {
                assert(st.added[b] == before.added[b]);
            }
        }
        if !st.stopped {
            assert forall|i: int| 0 <= i < nodes.len() implies st.names.contains_key(
                (#[trigger] nodes[i]).name@,
            ) by {
                if i < last {
                    assert(rest[i] == nodes[i]);
                    assert(before.names.contains_key(rest[i].name@));
                }
            }
        }
        assert forall|x: Seq<char>| #[trigger]
            st.names.contains_key(x) && !names.contains_key(x) implies exists|q: int|
            0 <= q < st.added.len() && nodes[#[trigger] st.added[q]].name@ == x by {
            if before.names.contains_key(x) {
                let q = choose|q: int|
                    0 <= q < before.added.len() && rest[#[trigger] before.added[q]].name@ == x;
                assert(0 <= before.added[q] < rest.len());
                assert(st.added[q] == before.added[q]);
                assert(nodes[st.added[q]].name@ == x);
            } else {
                assert(st.added[before.added.len() as int] == last);
            }
        }
    }
}

/// An import adds, in order and with consecutive ids, the edges both of whose ends have known names,
/// between the nodes with these names, with their own types, weights and contexts.
pub proof fn law_import_adds_edges_between_known_names(
    edges: Seq<ExportEdge>,
    names: Map<Seq<char>, u32>,
    first: int,
)
    ensures
        ({
            let kept = edges.filter(
                |e: ExportEdge| names.contains_key(e.from@) && names.contains_key(e.to@),
            );
            let r = imported_edges(edges, names, first);
            &&& r.len() == kept.len()
            &&& forall|i: int|
                0 <= i < r.len() ==> {
                    let e = #[trigger] r[i];
                    &&& e.from == names[kept[i].from@]
                    &&& e.to == names[kept[i].to@]
                    &&& e.edge_type == kept[i].edge_type@
                    &&& e.weight == kept[i].weight
                    &&& e.full_context == kept[i].full_context@
                    &&& e.embed_context == opt_text(kept[i].embed_context)
                    &&& e.edge_id == (first + i) as u64
                }
        }),
    decreases edges.len(),
{
    reveal(Seq::filter);
    let known = |e: ExportEdge| names.contains_key(e.from@) && names.contains_key(e.to@);
    if edges.len() > 0 {
        let rest = edges.drop_last();
        law_import_adds_edges_between_known_names(rest, names, first);
        let before = imported_edges(rest, names, first);
        let r = imported_edges(edges, names, first);
        let kept = edges.filter(known);
        assert forall|i: int| 0 <= i < r.len() implies {
            let e = #[trigger] r[i];
            &&& e.from == names[kept[i].from@]
            &&& e.to == names[kept[i].to@]
            &&& e.edge_type == kept[i].edge_type@
            &&& e.weight == kept[i].weight
            &&& e.full_context == kept[i].full_context@
            &&& e.embed_context == opt_text(kept[i].embed_context)
            &&& e.edge_id == (first + i) as u64
        } by {
            if i < before.len() {
                assert(r[i] == before[i]);
                assert(kept[i] == rest.filter(known)[i]);
            }
        }
    }
}

/// An imported node is what the export says of it, under its new id; its external id is made of its
/// type and its name, and it weighs nothing until it is merged.
pub proof fn law_imported_node_is_as_exported(n: ExportNode, id: u32)
    ensures
        ({
            let own = imported_node(n@, id);
            &&& own.id == id
            &&& own.name == n.name@
            &&& own.node_type == n.node_type@
            &&& own.weight == 0
            &&& own.props == json_tree(n.props)
            &&& own.full_context == n.full_context@
            &&& own.embed_context == opt_text(n.embed_context)
            &&& own.image_url == opt_text(n.image_url)
            &&& own.external_id == n.node_type@ + seq![':'] + n.name@
        }),
{
    reveal_strlit(":");
    assert(":"@ =~= seq![':']);
}

/// Time is counted from the first second of 1970. A second later is one more, a day has 86400, and
/// the first day of a month or a year comes after the last one before it. Months have their usual
/// days; February has 29 in years that four divides, but not in those that a hundred does and four
/// hundred does not.
pub proof fn law_days_follow_each_other(y: int, mo: int, d: int, h: int, mi: int, s: int)
    requires
        1970 <= y,
        1 <= mo <= 12,
    ensures
        epoch_seconds(1970, 1, 1, 0, 0, 0) == 0,
        epoch_seconds(y, mo, d, h, mi, s + 1) == epoch_seconds(y, mo, d, h, mi, s) + 1,
        epoch_seconds(y, mo, d, h, mi + 1, s) == epoch_seconds(y, mo, d, h, mi, s) + 60,
        epoch_seconds(y, mo, d, h + 1, mi, s) == epoch_seconds(y, mo, d, h, mi, s) + 3_600,
        epoch_seconds(y, mo, d + 1, h, mi, s) == epoch_seconds(y, mo, d, h, mi, s) + 86_400,
        mo < 12 ==> epoch_seconds(y, mo + 1, 1, h, mi, s) == epoch_seconds(
            y,
            mo,
            month_days(y, mo),
            h,
            mi,
            s,
        ) + 86_400,
        epoch_seconds(y + 1, 1, 1, h, mi, s) == epoch_seconds(y, 12, 31, h, mi, s) + 86_400,
        mo == 1 || mo == 3 || mo == 5 || mo == 7 || mo == 8 || mo == 10 || mo == 12 ==> month_days(
            y,
            mo,
        ) == 31,
        mo == 4 || mo == 6 || mo == 9 || mo == 11 ==> month_days(y, mo) == 30,
        mo == 2 ==> month_days(y, mo) == (if y % 4 == 0 && (y % 100 != 0 || y % 400 == 0) {
            29int
        } else {
            28
        }),
{
    reveal_with_fuel(days_before_month, 13);
}

} // verus!

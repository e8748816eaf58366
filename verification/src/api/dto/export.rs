//! The export format: nodes and edges by name, so that a file stands on its own.

use crate::graph::csr::opt_text;
use crate::json::{json_tree, JsonTree};
use vstd::prelude::*;

verus! {

/// A node of an export.
pub struct ExportNode {
    pub name: String,
    pub node_type: String,
    pub props: serde_json::Value,
    pub full_context: String,
    pub embed_context: Option<String>,
    pub image_url: Option<String>,
}

/// An edge of an export, between the names of two nodes.
pub struct ExportEdge {
    pub from: String,
    pub to: String,
    pub edge_type: String,
    /// The bits of a single-precision number.
    pub weight: u32,
    pub full_context: String,
    pub embed_context: Option<String>,
}

/// A node of an export as its fields read.
#[verifier::ext_equal]
pub struct ExportNodeView {
    pub name: Seq<char>,
    pub node_type: Seq<char>,
    pub props: JsonTree,
    pub full_context: Seq<char>,
    pub embed_context: Option<Seq<char>>,
    pub image_url: Option<Seq<char>>,
}

/// An edge of an export as its fields read.
#[verifier::ext_equal]
pub struct ExportEdgeView {
    pub from: Seq<char>,
    pub to: Seq<char>,
    pub edge_type: Seq<char>,
    pub weight: u32,
    pub full_context: Seq<char>,
    pub embed_context: Option<Seq<char>>,
}

impl View for ExportNode {
    type V = ExportNodeView;

    open spec fn view(&self) -> ExportNodeView {
        ExportNodeView {
            name: self.name@,
            node_type: self.node_type@,
            props: json_tree(self.props),
            full_context: self.full_context@,
            embed_context: opt_text(self.embed_context),
            image_url: opt_text(self.image_url),
        }
    }
}

impl View for ExportEdge {
    type V = ExportEdgeView;

    open spec fn view(&self) -> ExportEdgeView {
        ExportEdgeView {
            from: self.from@,
            to: self.to@,
            edge_type: self.edge_type@,
            weight: self.weight,
            full_context: self.full_context@,
            embed_context: opt_text(self.embed_context),
        }
    }
}

/// Nodes of an export as they read.
pub open spec fn export_node_views(nodes: Seq<ExportNode>) -> Seq<ExportNodeView> {
    nodes.map_values(|n: ExportNode| n@)
}

/// Edges of an export as they read.
pub open spec fn export_edge_views(edges: Seq<ExportEdge>) -> Seq<ExportEdgeView> {
    edges.map_values(|e: ExportEdge| e@)
}

#[derive(Clone, Copy, PartialEq, Eq, Structural, Debug)]
pub struct ExportStats {
    pub nodes: usize,
    pub edges: usize,
}

/// A whole export.
pub struct GraphExport {
    pub version: String,
    pub exported_at: String,
    pub stats: ExportStats,
    pub nodes: Vec<ExportNode>,
    pub edges: Vec<ExportEdge>,
}

/// One line of an export by lines.
pub enum NdjsonLine {
    /// The header, which comes first.
    Meta { version: String, exported_at: String, nodes: usize, edges: usize },
    Node(ExportNode),
    Edge(ExportEdge),
}

/// What a node of an export reads as is what its fields hold, all of them; the same of a list, in
/// order.
pub proof fn law_exported_nodes_read_as_their_fields(nodes: Seq<ExportNode>, i: int)
    requires
        0 <= i < nodes.len(),
    ensures
        export_node_views(nodes).len() == nodes.len(),
        ({
            let n = nodes[i];
            let v = export_node_views(nodes)[i];
            &&& v.name == n.name@
            &&& v.node_type == n.node_type@
            &&& v.props == json_tree(n.props)
            &&& v.full_context == n.full_context@
            &&& v.embed_context == opt_text(n.embed_context)
            &&& v.image_url == opt_text(n.image_url)
        }),
{
}

/// The same of an edge of an export.
pub proof fn law_exported_edges_read_as_their_fields(edges: Seq<ExportEdge>, i: int)
    requires
        0 <= i < edges.len(),
    ensures
        export_edge_views(edges).len() == edges.len(),
        ({
            let e = edges[i];
            let v = export_edge_views(edges)[i];
            &&& v.from == e.from@
            &&& v.to == e.to@
            &&& v.edge_type == e.edge_type@
            &&& v.weight == e.weight
            &&& v.full_context == e.full_context@
            &&& v.embed_context == opt_text(e.embed_context)
        }),
{
}

} // verus!

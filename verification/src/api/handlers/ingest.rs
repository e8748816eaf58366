//! Ingestion: from extracted or given entities and relations to new nodes and edges.

use crate::api::dto::ingest::{IngestResponse, ResolutionOverride};
use crate::api::error::ApiError;
use crate::config::IngestConfig;
use crate::delta::{firsts, instance_limit, seconds, DeltaGraph, DeltaStore, IdSpaceExhausted};
use crate::entity_resolution::{
    batch_place, law_entity_is_the_first_fitting_node_of_its_batch, node_fits, resolution, resolve,
    resolve_in_batch, ResolutionConfig, ResolutionMode, ResolveResult,
};
use crate::float::{f32_at_least, f32_is_nan, narrow_f64};
use crate::graph::builder::{
    field_nonblank, field_text, read_nonblank, read_relation, read_text, relation_view,
};
use crate::graph::csr::{
    edge_views, node_views, opt_text, CsrGraph, EdgeInfo, EdgeView, NodeInfo, NodeView,
};
use crate::json::{as_text, json_tree, json_trees, member, member_of, number_of, text_of, JsonTree};
use crate::metrics::Metrics;
use crate::plugin::ExtractResponse;
use crate::text::{arg_text, same_text, texts, trim, trimmed};
use vstd::hash_map::StringHashMap;
use vstd::prelude::*;
use vstd::string::*;

verus! {

/// Most texts in one embedding request.
pub const EMBED_CHUNK: usize = 256;

// ── how entities are matched ─────────────────────────────────────────────────

/// The mode that a text names: `none` for no matching, anything else for embeddings.
pub open spec fn mode_of(text: Seq<char>) -> ResolutionMode {
    if text == "none"@ {
        ResolutionMode::Off
    } else {
        ResolutionMode::Embedding
    }
}

/// How entities are matched: as the request says, or else as the configuration says.
pub open spec fn resolution_cfg(defaults: IngestConfig, o: Option<ResolutionOverride>) -> ResolutionConfig {
    ResolutionConfig {
        mode: mode_of(
            match o {
                Some(ResolutionOverride { mode: Some(m), .. }) => m@,
                _ => defaults.resolution_mode@,
            },
        ),
        threshold: match o {
            Some(ResolutionOverride { threshold: Some(t), .. }) => t,
            _ => defaults.resolution_threshold,
        },
        match_type: match o {
            Some(ResolutionOverride { match_type: Some(b), .. }) => b,
            _ => defaults.resolution_match_type,
        },
    }
}

fn read_mode(text: &str) -> (r: ResolutionMode)
    ensures
        r == mode_of(text@),
{
    if same_text(text, "none") {
        ResolutionMode::Off
    } else {
        ResolutionMode::Embedding
    }
}

pub fn build_resolution_cfg(defaults: &IngestConfig, request: &Option<ResolutionOverride>) -> (r:
    ResolutionConfig)
    ensures
        r == resolution_cfg(*defaults, *request),
{
    let mut mode = read_mode(defaults.resolution_mode.as_str());
    let mut threshold: u32 = defaults.resolution_threshold;
    let mut match_type: bool = defaults.resolution_match_type;
    match request {
        Some(o) => {
            match &o.mode {
                Some(m) => {
                    mode = read_mode(m.as_str());
                },
                None => {},
            }
            match o.threshold {
                Some(t) => {
                    threshold = t;
                },
                None => {},
            }
            match o.match_type {
                Some(b) => {
                    match_type = b;
                },
                None => {},
            }
        },
        None => {},
    }
    ResolutionConfig { mode, threshold, match_type }
}

// ── what is embedded ─────────────────────────────────────────────────────────

/// The text of a record to embed: the first of three members that is not blank, trimmed; empty if
/// all are.
pub open spec fn embed_text(tree: JsonTree, a: Seq<char>, b: Seq<char>, c: Seq<char>) -> Seq<char> {
    let x = trimmed(field_text(tree, a));
    let y = trimmed(field_text(tree, b));
    if x.len() > 0 {
        x
    } else if y.len() > 0 {
        y
    } else {
        trimmed(field_text(tree, c))
    }
}

/// The text of an entity to embed.
pub open spec fn node_text(tree: JsonTree) -> Seq<char> {
    embed_text(tree, "embed_context"@, "full_context"@, "name"@)
}

/// The text of a relation to embed.
pub open spec fn edge_text(tree: JsonTree) -> Seq<char> {
    embed_text(tree, "embed_context"@, "full_context"@, "type"@)
}

fn pick_text(v: &serde_json::Value, a: &str, b: &str, c: &str) -> (r: String)
    ensures
        r@ == embed_text(json_tree(*v), a@, b@, c@),
{
    let x = trim(read_text(v, a).as_str());
    if !x.as_str().is_empty() {
        return x;
    }
    let y = trim(read_text(v, b).as_str());
    if !y.as_str().is_empty() {
        return y;
    }
    trim(read_text(v, c).as_str())
}

/// Picks the text of an entity to embed: its short text, or else its long text, or else its name.
pub fn node_embed_text(entity: &serde_json::Value) -> (r: String)
    ensures
        r@ == node_text(json_tree(*entity)),
{
    pick_text(entity, "embed_context", "full_context", "name")
}

/// Picks the text of a relation to embed: its short text, or else its long text, or else its type.
pub fn edge_embed_text(relation: &serde_json::Value) -> (r: String)
    ensures
        r@ == edge_text(json_tree(*relation)),
{
    pick_text(relation, "embed_context", "full_context", "type")
}

/// The texts of entities to embed, one for each.
pub fn entity_texts(entities: &Vec<serde_json::Value>) -> (r: Vec<String>)
    ensures
        texts(r@) == json_trees(entities@).map_values(|t: JsonTree| node_text(t)),
{
    let mut list: Vec<String> = Vec::new();
    let mut i: usize = 0;
    while i < entities.len()
        invariant
            i <= entities@.len(),
            list@.len() == i,
            forall|j: int|
                0 <= j < i ==> (#[trigger] list@[j])@ == node_text(json_tree(entities@[j])),
        decreases entities@.len() - i,
    {
        list.push(node_embed_text(&entities[i]));
        i += 1;
    }
    proof {
        assert(texts(list@) =~= json_trees(entities@).map_values(|t: JsonTree| node_text(t)));
    }
    list
}

/// The texts of relations to embed, without the empty ones.
pub open spec fn relation_texts_of(relations: Seq<JsonTree>) -> Seq<Seq<char>>
    decreases relations.len(),
{
    if relations.len() == 0 {
        Seq::empty()
    } else {
        let before = relation_texts_of(relations.drop_last());
        let t = edge_text(relations.last());
        if t.len() > 0 {
            before.push(t)
        } else {
            before
        }
    }
}

/// The texts of relations to embed, without the empty ones.
pub fn relation_texts(relations: &Vec<serde_json::Value>) -> (r: Vec<String>)
    ensures
        texts(r@) == relation_texts_of(json_trees(relations@)),
{
    let ghost all = json_trees(relations@);
    let mut list: Vec<String> = Vec::new();
    let mut i: usize = 0;
    proof {
        assert(texts(list@) =~= relation_texts_of(all.take(0)));
    }
    while i < relations.len()
        invariant
            i <= relations@.len(),
            all == json_trees(relations@),
            texts(list@) == relation_texts_of(all.take(i as int)),
        decreases relations@.len() - i,
    {
        let t = edge_embed_text(&relations[i]);
        proof {
            assert(all.take(i + 1).drop_last() =~= all.take(i as int));
            assert(all.take(i + 1).last() == all[i as int]);
        }
        if !t.as_str().is_empty() {
            let ghost before = list@;
            list.push(t);
            proof {
                assert(texts(list@) =~= texts(before).push(t@));
            }
        }
        i += 1;
    }
    proof {
        assert(all.take(i as int) =~= all);
    }
    list
}

/// How many records have a name.
pub open spec fn named_count(entities: Seq<JsonTree>) -> nat
    decreases entities.len(),
{
    if entities.len() == 0 {
        0
    } else {
        named_count(entities.drop_last()) + (if text_of(
            member_of(entities.last(), "name"@),
        ) is Some {
            1nat
        } else {
            0
        })
    }
}

/// Counts the entities that have a name.
pub fn count_named(entities: &Vec<serde_json::Value>) -> (r: usize)
    ensures
        r == named_count(json_trees(entities@)),
{
    let ghost all = json_trees(entities@);
    let mut n: usize = 0;
    let mut i: usize = 0;
    while i < entities.len()
        invariant
            i <= entities@.len(),
            all == json_trees(entities@),
            n <= i,
            n == named_count(all.take(i as int)),
        decreases entities@.len() - i,
    {
        proof {
            assert(all.take(i + 1).drop_last() =~= all.take(i as int));
            assert(all.take(i + 1).last() == all[i as int]);
        }
        if as_text(member(&entities[i], "name")).is_some() {
            n += 1;
        }
        i += 1;
    }
    proof {
        assert(all.take(i as int) =~= all);
    }
    n
}

// ── drafts of nodes ──────────────────────────────────────────────────────────

/// The external id of a node: the given one, or else its type and its name.
pub open spec fn external_id_of(given: Seq<char>, node_type: Seq<char>, name: Seq<char>) -> Seq<char> {
    if given.len() == 0 {
        node_type + ":"@ + name
    } else {
        given
    }
}

/// The node of an extracted entity, before it has an id.
pub open spec fn extracted_node(tree: JsonTree) -> NodeView {
    let name = field_text(tree, "name"@);
    let node_type = match text_of(member_of(tree, "type"@)) {
        Some(t) => t,
        None => "Entity"@,
    };
    NodeView {
        id: 0,
        name,
        node_type,
        weight: 0,
        props: member_of(tree, "props"@),
        full_context: field_text(tree, "full_context"@),
        embed_context: field_nonblank(tree, "embed_context"@),
        external_id: external_id_of(field_text(tree, "id"@), node_type, name),
        image_url: None,
    }
}

fn make_external_id(given: String, node_type: &str, name: &str) -> (r: String)
    ensures
        r@ == external_id_of(given@, node_type@, name@),
{
    if given.as_str().is_empty() {
        let mut s: String = node_type.to_owned();
        s.append(":");
        s.append(name);
        s
    } else {
        given
    }
}

fn draft_extracted(v: &serde_json::Value) -> (r: NodeInfo)
    ensures
        r@ == extracted_node(json_tree(*v)),
{
    let name = read_text(v, "name");
    let node_type: String = match as_text(member(v, "type")) {
        Some(t) => t.to_owned(),
        None => "Entity".to_owned(),
    };
    let external_id = make_external_id(read_text(v, "id"), node_type.as_str(), name.as_str());
    NodeInfo {
        id: 0,
        name,
        node_type,
        weight: 0,
        props: member(v, "props").clone(),
        full_context: read_text(v, "full_context"),
        embed_context: read_nonblank(v, "embed_context"),
        external_id,
        image_url: None,
    }
}

/// Drafts the nodes of extracted entities.
pub fn draft_text_nodes(entities: &Vec<serde_json::Value>) -> (r: Vec<NodeInfo>)
    ensures
        node_views(r@) == json_trees(entities@).map_values(|t: JsonTree| extracted_node(t)),
{
    let mut list: Vec<NodeInfo> = Vec::new();
    let mut i: usize = 0;
    while i < entities.len()
        invariant
            i <= entities@.len(),
            list@.len() == i,
            forall|j: int|
                0 <= j < i ==> (#[trigger] list@[j])@ == extracted_node(json_tree(entities@[j])),
        decreases entities@.len() - i,
    {
        list.push(draft_extracted(&entities[i]));
        i += 1;
    }
    proof {
        assert(node_views(list@) =~= json_trees(entities@).map_values(
            |t: JsonTree| extracted_node(t),
        ));
    }
    list
}

// ── nodes with images ────────────────────────────────────────────────────────

/// How many nodes have images.
pub open spec fn image_count(nodes: Seq<NodeInfo>) -> nat
    decreases nodes.len(),
{
    if nodes.len() == 0 {
        0
    } else {
        image_count(nodes.drop_last()) + (if nodes.last().image_url is Some {
            1nat
        } else {
            0
        })
    }
}

/// The text of a given node to embed: its short text, or else its long text, or else its name.
pub open spec fn given_text(n: NodeView) -> Seq<char> {
    match n.embed_context {
        Some(s) if s.len() > 0 => s,
        _ => if n.full_context.len() > 0 {
            n.full_context
        } else {
            n.name
        },
    }
}

/// The texts of the nodes without images.
pub open spec fn given_texts(nodes: Seq<NodeInfo>) -> Seq<Seq<char>>
    decreases nodes.len(),
{
    if nodes.len() == 0 {
        Seq::empty()
    } else {
        let before = given_texts(nodes.drop_last());
        if nodes.last().image_url is Some {
            before
        } else {
            before.push(given_text(nodes.last()@))
        }
    }
}

/// The images of the nodes with images.
pub open spec fn given_images(nodes: Seq<NodeInfo>) -> Seq<Seq<char>>
    decreases nodes.len(),
{
    if nodes.len() == 0 {
        Seq::empty()
    } else {
        let before = given_images(nodes.drop_last());
        match nodes.last().image_url {
            Some(url) => before.push(url@),
            None => before,
        }
    }
}

fn pick_given_text(n: &NodeInfo) -> (r: String)
    ensures
        r@ == given_text(n@),
{
    match &n.embed_context {
        Some(s) => if !s.as_str().is_empty() {
            return s.clone();
        },
        None => {},
    }
    if !n.full_context.as_str().is_empty() {
        n.full_context.clone()
    } else {
        n.name.clone()
    }
}

/// Splits nodes by how they are embedded: the texts of those without images, the images of the
/// others.
pub fn split_embeds(nodes: &Vec<NodeInfo>) -> (r: (Vec<String>, Vec<String>))
    ensures
        texts(r.0@) == given_texts(nodes@),
        texts(r.1@) == given_images(nodes@),
{
    let mut list: Vec<String> = Vec::new();
    let mut images: Vec<String> = Vec::new();
    let mut i: usize = 0;
    proof {
        assert(texts(list@) =~= given_texts(nodes@.take(0)));
        assert(texts(images@) =~= given_images(nodes@.take(0)));
    }
    while i < nodes.len()
        invariant
            i <= nodes@.len(),
            texts(list@) == given_texts(nodes@.take(i as int)),
            texts(images@) == given_images(nodes@.take(i as int)),
        decreases nodes@.len() - i,
    {
        let n = &nodes[i];
        proof {
            assert(nodes@.take(i + 1).drop_last() =~= nodes@.take(i as int));
            assert(nodes@.take(i + 1).last() == *n);
        }
        match &n.image_url {
            Some(url) => {
                let ghost before = images@;
                let image = url.clone();
                images.push(image);
                proof {
                    assert(texts(images@) =~= texts(before).push(image@));
                }
            },
            None => {
                let ghost before = list@;
                let text = pick_given_text(n);
                list.push(text);
                proof {
                    assert(texts(list@) =~= texts(before).push(text@));
                }
            },
        }
        i += 1;
    }
    proof {
        assert(nodes@.take(i as int) =~= nodes@);
    }
    (list, images)
}

/// The vector at a place; empty where there is none.
pub open spec fn vector_or_empty(vecs: Seq<Vec<u32>>, i: int) -> Seq<u32> {
    if 0 <= i < vecs.len() {
        vecs[i]@
    } else {
        Seq::empty()
    }
}

/// The vector of node `i`: the next of the image vectors if it has an image, or else the next of
/// the text vectors.
pub open spec fn own_vector(
    nodes: Seq<NodeInfo>,
    text_vecs: Seq<Vec<u32>>,
    image_vecs: Seq<Vec<u32>>,
    i: int,
) -> Seq<u32> {
    let images = image_count(nodes.take(i)) as int;
    if nodes[i].image_url is Some {
        vector_or_empty(image_vecs, images)
    } else {
        vector_or_empty(text_vecs, i - images)
    }
}

fn copy_vector(vecs: &Vec<Vec<u32>>, i: usize) -> (r: Vec<u32>)
    ensures
        r@ == vector_or_empty(vecs@, i as int),
{
    if i < vecs.len() {
        vecs[i].clone()
    } else {
        Vec::new()
    }
}

/// Puts the vectors of texts and images back into the order of the nodes.
pub fn merge_vectors(
    nodes: &Vec<NodeInfo>,
    text_vecs: &Vec<Vec<u32>>,
    image_vecs: &Vec<Vec<u32>>,
) -> (r: Vec<Vec<u32>>)
    ensures
        r@.len() == nodes@.len(),
        forall|i: int|
            0 <= i < nodes@.len() ==> (#[trigger] r@[i])@ == own_vector(
                nodes@,
                text_vecs@,
                image_vecs@,
                i,
            ),
{
    let mut r: Vec<Vec<u32>> = Vec::new();
    let mut images: usize = 0;
    let mut i: usize = 0;
    while i < nodes.len()
        invariant
            i <= nodes@.len(),
            images <= i,
            images == image_count(nodes@.take(i as int)),
            r@.len() == i,
            forall|j: int|
                0 <= j < i ==> (#[trigger] r@[j])@ == own_vector(
                    nodes@,
                    text_vecs@,
                    image_vecs@,
                    j,
                ),
        decreases nodes@.len() - i,
    {
        proof {
            assert(nodes@.take(i + 1).drop_last() =~= nodes@.take(i as int));
            assert(nodes@.take(i + 1).last() == nodes@[i as int]);
        }
        if nodes[i].image_url.is_some() {
            r.push(copy_vector(image_vecs, images));
            images += 1;
        } else {
            r.push(copy_vector(text_vecs, i - images));
        }
        i += 1;
    }
    r
}

/// Where an image is embedded from: where it was stored, or else where it was given.
pub fn image_source(given: &str, stored: Option<&str>) -> (r: String)
    ensures
        r@ == (match arg_text(stored) {
            Some(url) => url,
            None => given@,
        }),
{
    match stored {
        Some(url) => url.to_owned(),
        None => given.to_owned(),
    }
}

/// A given node as it is added: with an external id, and with the image where it was stored.
pub open spec fn given_draft(n: NodeView, stored: Option<Seq<char>>) -> NodeView {
    NodeView {
        external_id: external_id_of(n.external_id, n.node_type, n.name),
        image_url: match (n.image_url, stored) {
            (Some(_), Some(url)) => Some(url),
            _ => n.image_url,
        },
        ..n
    }
}

/// Where the image of node `i` was stored, if images are stored.
pub open spec fn stored_image(
    nodes: Seq<NodeInfo>,
    stored: Option<Seq<String>>,
    i: int,
) -> Option<Seq<char>> {
    match stored {
        Some(urls) => {
            let k = image_count(nodes.take(i)) as int;
            if k < urls.len() {
                Some(urls[k]@)
            } else {
                None
            }
        },
        None => None,
    }
}

/// The list in an optional list.
pub open spec fn list_in(list: Option<Vec<String>>) -> Option<Seq<String>> {
    match list {
        Some(v) => Some(v@),
        None => None,
    }
}

/// Drafts given nodes. `stored` says where the images are stored, in the order of the nodes with
/// images.
pub fn draft_json_nodes(nodes: &Vec<NodeInfo>, stored: &Option<Vec<String>>) -> (r: Vec<NodeInfo>)
    ensures
        r@.len() == nodes@.len(),
        forall|i: int|
            0 <= i < nodes@.len() ==> (#[trigger] r@[i])@ == given_draft(
                nodes@[i]@,
                stored_image(nodes@, list_in(*stored), i),
            ),
{
    let mut r: Vec<NodeInfo> = Vec::new();
    let mut images: usize = 0;
    let mut i: usize = 0;
    while i < nodes.len()
        invariant
            i <= nodes@.len(),
            images <= i,
            images == image_count(nodes@.take(i as int)),
            r@.len() == i,
            forall|j: int|
                0 <= j < i ==> (#[trigger] r@[j])@ == given_draft(
                    nodes@[j]@,
                    stored_image(nodes@, list_in(*stored), j),
                ),
        decreases nodes@.len() - i,
    {
        proof {
            assert(nodes@.take(i + 1).drop_last() =~= nodes@.take(i as int));
            assert(nodes@.take(i + 1).last() == nodes@[i as int]);
        }
        let mut n = nodes[i].clone();
        let given = n.external_id.clone();
        n.external_id = make_external_id(given, n.node_type.as_str(), n.name.as_str());
        if n.image_url.is_some() {
            match stored {
                Some(urls) => if images < urls.len() {
                    n.image_url = Some(urls[images].clone());
                },
                None => {},
            }
            images += 1;
        }
        proof {
            assert(n@ =~= given_draft(nodes@[i as int]@, stored_image(nodes@, list_in(*stored), i as int)));
        }
        r.push(n);
        i += 1;
    }
    r
}

// ── placing entities ─────────────────────────────────────────────────────────

/// How similar the entities of a batch are to known nodes and to each other, as the bits of
/// single-precision numbers.
pub struct Similarities {
    /// For each entity nodes of the graph near it, with their similarities.
    pub graph: Vec<Vec<(u32, u32)>>,
    /// For each entity its similarity to each new node of the delta.
    pub delta: Vec<Vec<u32>>,
    /// For each entity its similarity to each earlier entity.
    pub batch: Vec<Vec<u32>>,
}

/// Not a number: similar to nothing.
pub const NOT_SIMILAR: u32 = 0x7fc0_0000;

/// The list of entity `i`; empty where there is none.
pub open spec fn list_of<A>(lists: Seq<Vec<A>>, i: int) -> Seq<A> {
    if 0 <= i < lists.len() {
        lists[i]@
    } else {
        Seq::empty()
    }
}

/// The similarities of entity `i` to those at `places`.
pub open spec fn batch_sims(lists: Seq<Vec<u32>>, i: int, places: Seq<int>) -> Seq<u32> {
    let list = list_of(lists, i);
    Seq::new(
        places.len(),
        |q: int|
            if 0 <= places[q] < list.len() {
                list[places[q]]
            } else {
                NOT_SIMILAR
            },
    )
}

/// What became of entities: the places of those that are new nodes, the id of each, and whether
/// the ids ran out.
pub ghost struct Placement {
    pub added: Seq<int>,
    pub ids: Seq<u32>,
    pub stopped: bool,
}

/// What entities are placed among.
pub ghost struct Surroundings {
    pub nodes: Seq<NodeInfo>,
    pub new_nodes: Seq<NodeInfo>,
    pub next: int,
    pub limit: int,
}

/// The new nodes of a placement, with their ids.
pub open spec fn placed_nodes(drafts: Seq<NodeInfo>, added: Seq<int>, next: int) -> Seq<NodeInfo> {
    Seq::new(added.len(), |q: int| NodeInfo { id: (next + q) as u32, ..drafts[added[q]] })
}

/// The known node that entity `i` is: of the graph, of the delta, or added before it in the batch.
pub open spec fn known_as(
    drafts: Seq<NodeInfo>,
    similar: &Similarities,
    around: Surroundings,
    cfg: ResolutionConfig,
    added: Seq<int>,
    i: int,
) -> Option<u32> {
    let node_type = drafts[i].node_type@;
    match resolution(
        cfg,
        node_type,
        around.nodes,
        list_of(similar.graph@, i),
        around.new_nodes,
        list_of(similar.delta@, i),
    ) {
        ResolveResult::Existing(id) => Some(id),
        ResolveResult::New => match batch_place(
            cfg,
            node_type,
            placed_nodes(drafts, added, around.next),
            batch_sims(similar.batch@, i, added),
        ) {
            Some(q) => Some((around.next + q) as u32),
            None => None,
        },
    }
}

/// The placement of the first `k` entities, one after the other.
pub open spec fn placement(
    drafts: Seq<NodeInfo>,
    similar: &Similarities,
    around: Surroundings,
    cfg: ResolutionConfig,
    k: int,
) -> Placement
    decreases k,
{
    if k <= 0 {
        Placement { added: Seq::empty(), ids: Seq::empty(), stopped: false }
    } else {
        let p = placement(drafts, similar, around, cfg, k - 1);
        let i = k - 1;
        if p.stopped {
            p
        } else {
            match known_as(drafts, similar, around, cfg, p.added, i) {
                Some(id) => Placement { ids: p.ids.push(id), ..p },
                None => if around.next + p.added.len() >= around.limit {
                    Placement { stopped: true, ..p }
                } else {
                    Placement {
                        added: p.added.push(i),
                        ids: p.ids.push((around.next + p.added.len()) as u32),
                        stopped: false,
                    }
                },
            }
        }
    }
}

/// Entities that were placed.
pub struct Placed {
    /// New nodes with their vectors.
    pub to_add: Vec<(NodeInfo, Vec<u32>)>,
    /// The id of each entity.
    pub ids: Vec<u32>,
    /// How many entities were known.
    pub resolved: usize,
}

fn copy_list<A: Copy>(lists: &Vec<Vec<A>>, i: usize) -> (r: Vec<A>)
    ensures
        r@ == list_of(lists@, i as int),
{
    let mut r: Vec<A> = Vec::new();
    if i < lists.len() {
        let list = &lists[i];
        let mut j: usize = 0;
        while j < list.len()
            invariant
                j <= list@.len(),
                r@ == list@.take(j as int),
            decreases list@.len() - j,
        {
            r.push(list[j]);
            proof {
                assert(r@ =~= list@.take(j + 1));
            }
            j += 1;
        }
        proof {
            assert(list@.take(j as int) =~= list@);
        }
    }
    r
}

fn collect_batch_sims(lists: &Vec<Vec<u32>>, i: usize, places: &Vec<usize>) -> (r: Vec<u32>)
    ensures
        r@ == batch_sims(lists@, i as int, places@.map_values(|p: usize| p as int)),
{
    let mut r: Vec<u32> = Vec::new();
    let ghost list = list_of(lists@, i as int);
    let mut q: usize = 0;
    while q < places.len()
        invariant
            q <= places@.len(),
            list == list_of(lists@, i as int),
            r@.len() == q,
            forall|j: int|
                0 <= j < q ==> #[trigger] r@[j] == (if places@[j] < list.len() {
                    list[places@[j] as int]
                } else {
                    NOT_SIMILAR
                }),
        decreases places@.len() - q,
    {
        let p: usize = places[q];
        let sim: u32 = if i < lists.len() && p < lists[i].len() {
            lists[i][p]
        } else {
            NOT_SIMILAR
        };
        r.push(sim);
        q += 1;
    }
    proof {
        assert(r@ =~= batch_sims(lists@, i as int, places@.map_values(|p: usize| p as int)));
    }
    r
}

/// What the store and the graph are around a placement.
pub open spec fn surroundings(graph: &CsrGraph, store: &DeltaStore) -> Surroundings {
    Surroundings {
        nodes: graph.nodes@,
        new_nodes: store.inner.new_nodes@,
        next: store.next_node_id as int,
        limit: instance_limit(store.instance_id),
    }
}

/// The pairs are the new nodes of a placement with the vectors of their entities.
pub open spec fn are_placed(
    pairs: Seq<(NodeInfo, Vec<u32>)>,
    drafts: Seq<NodeInfo>,
    vecs: Seq<Vec<u32>>,
    added: Seq<int>,
    next: int,
) -> bool {
    &&& firsts(pairs) == placed_nodes(drafts, added, next)
    &&& forall|q: int| 0 <= q < pairs.len() ==> (#[trigger] pairs[q]).1@ == vecs[added[q]]@
}

/// Places entities one after the other: each is a known node or a new one with an id of its own.
/// Entities without a vector are left out.
#[verifier::rlimit(60)]
pub fn place_entities(
    drafts: &Vec<NodeInfo>,
    vecs: &Vec<Vec<u32>>,
    similar: &Similarities,
    graph: &CsrGraph,
    store: &mut DeltaStore,
    cfg: ResolutionConfig,
) -> (r: Result<Placed, IdSpaceExhausted>)
    requires
        old(store).wf(),
    ensures
        final(store).wf(),
        final(store).inner == old(store).inner,
        final(store).merge_threshold == old(store).merge_threshold,
        final(store).instance_id == old(store).instance_id,
        final(store).next_edge_id == old(store).next_edge_id,
        ({
            let n = if vecs@.len() < drafts@.len() {
                vecs@.len() as int
            } else {
                drafts@.len() as int
            };
            let around = surroundings(graph, old(store));
            let p = placement(drafts@, similar, around, cfg, n);
            &&& final(store).next_node_id == around.next + p.added.len()
            &&& match r {
                Ok(placed) => {
                    &&& !p.stopped
                    &&& placed.ids@ == p.ids
                    &&& placed.resolved == n - p.added.len()
                    &&& are_placed(placed.to_add@, drafts@, vecs@, p.added, around.next)
                },
                Err(e) => p.stopped && e.instance_id == old(store).instance_id && e.limit
                    == around.limit,
            }
        }),
{
    let n: usize = if vecs.len() < drafts.len() {
        vecs.len()
    } else {
        drafts.len()
    };
    let ghost before = *store;
    let ghost around = surroundings(graph, &before);
    let mut batch: Vec<NodeInfo> = Vec::new();
    let mut places: Vec<usize> = Vec::new();
    let mut ids: Vec<u32> = Vec::new();
    let mut to_add: Vec<(NodeInfo, Vec<u32>)> = Vec::new();
    let mut resolved: usize = 0;
    let mut i: usize = 0;
    proof {
        let p = placement(drafts@, similar, around, cfg, 0);
        assert(ids@ =~= p.ids);
        assert(places@.map_values(|x: usize| x as int) =~= p.added);
        assert(batch@ =~= placed_nodes(drafts@, p.added, around.next));
        assert(firsts(to_add@) =~= placed_nodes(drafts@, p.added, around.next));
    }
    while i < n
        invariant
            i <= n <= drafts@.len(),
            n <= vecs@.len(),
            n == (if vecs@.len() < drafts@.len() {
                vecs@.len()
            } else {
                drafts@.len()
            }),
            before == *old(store),
            before.wf(),
            store.wf(),
            around == surroundings(graph, &before),
            store.inner == before.inner,
            store.merge_threshold == before.merge_threshold,
            store.instance_id == before.instance_id,
            store.next_edge_id == before.next_edge_id,
            ({
                let p = placement(drafts@, similar, around, cfg, i as int);
                &&& !p.stopped
                &&& store.next_node_id == around.next + p.added.len()
                &&& ids@ == p.ids
                &&& places@.map_values(|x: usize| x as int) == p.added
                &&& places@.len() == p.added.len()
                &&& batch@ == placed_nodes(drafts@, p.added, around.next)
                &&& resolved == i - p.added.len()
                &&& are_placed(to_add@, drafts@, vecs@, p.added, around.next)
                &&& forall|q: int| 0 <= q < p.added.len() ==> 0 <= #[trigger] p.added[q] < i
            }),
        decreases n - i,
    {
        let ghost p = placement(drafts@, similar, around, cfg, i as int);
        let ghost p2 = placement(drafts@, similar, around, cfg, i + 1);
        let draft = &drafts[i];
        let hits = copy_list(&similar.graph, i);
        let sims = copy_list(&similar.delta, i);
        let known: Option<u32> = match resolve(
            draft.node_type.as_str(),
            &hits,
            &sims,
            graph,
            &store.inner,
            cfg,
        ) {
            ResolveResult::Existing(id) => Some(id),
            ResolveResult::New => {
                let own = collect_batch_sims(&similar.batch, i, &places);
                resolve_in_batch(draft.node_type.as_str(), &batch, &own, cfg)
            },
        };
        proof {
            assert(known == known_as(drafts@, similar, around, cfg, p.added, i as int));
        }
        match known {
            Some(id) => {
                resolved += 1;
                ids.push(id);
            },
            None => {
                match store.alloc_node_id() {
                    Ok(id) => {
                        let mut node = draft.clone();
                        node.id = id;
                        let ghost was = to_add@;
                        let vec = vecs[i].clone();
                        proof {
                            assert(vec@ =~= vecs@[i as int]@);
                        }
                        batch.push(node.clone());
                        to_add.push((node, vec));
                        places.push(i);
                        ids.push(id);
                        proof {
                            assert(p2.added == p.added.push(i as int));
                            assert(places@.map_values(|x: usize| x as int) =~= p2.added);
                            assert(placed_nodes(drafts@, p2.added, around.next) =~= placed_nodes(
                                drafts@,
                                p.added,
                                around.next,
                            ).push(node));
                            assert(firsts(to_add@) =~= firsts(was).push(node));
                        }
                    },
                    Err(e) => {
                        proof {
                            lemma_placement_stopped(
                                drafts@,
                                similar,
                                around,
                                cfg,
                                i + 1,
                                n as int,
                            );
                        }
                        return Err(e);
                    },
                }
            },
        }
        i += 1;
    }
    Ok(Placed { to_add, ids, resolved })
}

proof fn lemma_placement_stopped(
    drafts: Seq<NodeInfo>,
    similar: &Similarities,
    around: Surroundings,
    cfg: ResolutionConfig,
    i: int,
    n: int,
)
    requires
        0 <= i <= n,
        placement(drafts, similar, around, cfg, i).stopped,
    ensures
        placement(drafts, similar, around, cfg, n) == placement(drafts, similar, around, cfg, i),
    decreases n,
{
    if i < n {
        lemma_placement_stopped(drafts, similar, around, cfg, i, n - 1);
    }
}

// ── edges ────────────────────────────────────────────────────────────────────

/// The ids of placed entities by their own ids; of entities with the same id the last one counts.
/// An entity without an id stands under the empty text, or with `named_only` not at all.
pub open spec fn entity_ids(entities: Seq<JsonTree>, ids: Seq<u32>, named_only: bool) -> Map<
    Seq<char>,
    u32,
>
    decreases entities.len(),
{
    if entities.len() == 0 {
        Map::empty()
    } else {
        let before = entity_ids(entities.drop_last(), ids, named_only);
        let k = entities.len() - 1;
        let own = text_of(member_of(entities.last(), "id"@));
        if k < ids.len() && (own is Some || !named_only) {
            before.insert(field_text(entities.last(), "id"@), ids[k])
        } else {
            before
        }
    }
}

fn collect_entity_ids(entities: &Vec<serde_json::Value>, ids: &Vec<u32>, named_only: bool) -> (r:
    StringHashMap<u32>)
    ensures
        r@ == entity_ids(json_trees(entities@), ids@, named_only),
{
    let ghost all = json_trees(entities@);
    let mut names: StringHashMap<u32> = StringHashMap::new();
    let mut i: usize = 0;
    while i < entities.len()
        invariant
            i <= entities@.len(),
            all == json_trees(entities@),
            names@ == entity_ids(all.take(i as int), ids@, named_only),
        decreases entities@.len() - i,
    {
        proof {
            assert(all.take(i + 1).drop_last() =~= all.take(i as int));
            assert(all.take(i + 1).last() == all[i as int]);
        }
        if i < ids.len() && (!named_only || as_text(member(&entities[i], "id")).is_some()) {
            names.insert(read_text(&entities[i], "id"), ids[i]);
        }
        i += 1;
    }
    proof {
        assert(all.take(i as int) =~= all);
    }
    names
}

/// The edges of relations whose ends are both known, each with its vector. Every relation with a
/// text to embed takes the next of the vectors.
pub open spec fn ingested_edges(
    relations: Seq<JsonTree>,
    names: Map<Seq<char>, u32>,
    vecs: Seq<Vec<u32>>,
    first_id: int,
) -> Seq<(EdgeView, Seq<u32>)>
    decreases relations.len(),
{
    if relations.len() == 0 {
        Seq::empty()
    } else {
        let rest = relations.drop_last();
        let before = ingested_edges(rest, names, vecs, first_id);
        let t = relations.last();
        let from = field_text(t, "from"@);
        let to = field_text(t, "to"@);
        let vec = if edge_text(t).len() == 0 {
            Seq::empty()
        } else {
            vector_or_empty(vecs, relation_texts_of(rest).len() as int)
        };
        if names.contains_key(from) && names.contains_key(to) {
            before.push(
                (
                    relation_view(t, names[from], names[to], (first_id + before.len()) as u64),
                    vec,
                ),
            )
        } else {
            before
        }
    }
}

/// Edges with their vectors as they read.
pub open spec fn edge_pair_views(pairs: Seq<(EdgeInfo, Vec<u32>)>) -> Seq<(EdgeView, Seq<u32>)> {
    pairs.map_values(|p: (EdgeInfo, Vec<u32>)| (p.0@, p.1@))
}

#[verifier::rlimit(40)]
fn make_edges(
    relations: &Vec<serde_json::Value>,
    names: &StringHashMap<u32>,
    vecs: &Vec<Vec<u32>>,
    store: &mut DeltaStore,
) -> (r: Vec<(EdgeInfo, Vec<u32>)>)
    requires
        old(store).wf(),
        old(store).next_edge_id + relations@.len() <= u64::MAX,
    ensures
        final(store).wf(),
        final(store).inner == old(store).inner,
        final(store).merge_threshold == old(store).merge_threshold,
        final(store).instance_id == old(store).instance_id,
        final(store).next_node_id == old(store).next_node_id,
        final(store).next_edge_id == old(store).next_edge_id + r@.len(),
        r@.len() <= relations@.len(),
        edge_pair_views(r@) == ingested_edges(
            json_trees(relations@),
            names@,
            vecs@,
            old(store).next_edge_id as int,
        ),
{
    let ghost all = json_trees(relations@);
    let ghost first = store.next_edge_id as int;
    let mut r: Vec<(EdgeInfo, Vec<u32>)> = Vec::new();
    let mut used: usize = 0;
    let mut i: usize = 0;
    proof {
        assert(edge_pair_views(r@) =~= ingested_edges(all.take(0), names@, vecs@, first));
    }
    while i < relations.len()
        invariant
            i <= relations@.len(),
            all == json_trees(relations@),
            store.wf(),
            first == old(store).next_edge_id,
            first + relations@.len() <= u64::MAX,
            store.inner == old(store).inner,
            store.merge_threshold == old(store).merge_threshold,
            store.instance_id == old(store).instance_id,
            store.next_node_id == old(store).next_node_id,
            store.next_edge_id == first + r@.len(),
            r@.len() <= i,
            used <= i,
            used == relation_texts_of(all.take(i as int)).len(),
            edge_pair_views(r@) == ingested_edges(all.take(i as int), names@, vecs@, first),
        decreases relations@.len() - i,
    {
        let rel = &relations[i];
        proof {
            assert(all.take(i + 1).drop_last() =~= all.take(i as int));
            assert(all.take(i + 1).last() == all[i as int]);
        }
        let from_name = read_text(rel, "from");
        let to_name = read_text(rel, "to");
        let vec: Vec<u32> = if edge_embed_text(rel).as_str().is_empty() {
            Vec::new()
        } else {
            let v = copy_vector(vecs, used);
            used += 1;
            v
        };
        match (names.get(from_name.as_str()), names.get(to_name.as_str())) {
            (Some(from), Some(to)) => {
                let edge_id: u64 = store.alloc_edge_id();
                let edge = read_relation(rel, *from, *to, edge_id);
                let ghost before = r@;
                r.push((edge, vec));
                proof {
                    assert(edge_pair_views(r@) =~= edge_pair_views(before).push((edge@, vec@)));
                }
            },
            _ => {},
        }
        i += 1;
    }
    proof {
        assert(all.take(i as int) =~= all);
    }
    r
}

// ── committing ───────────────────────────────────────────────────────────────

/// The first of each pair.
pub open spec fn pair_edges(pairs: Seq<(EdgeView, Seq<u32>)>) -> Seq<EdgeView> {
    pairs.map_values(|p: (EdgeView, Seq<u32>)| p.0)
}

/// The delta of `now` holds that of `before` with these nodes and edges, and their vectors.
pub open spec fn has_ingested(
    now: &DeltaGraph,
    before: &DeltaGraph,
    nodes: Seq<(NodeInfo, Vec<u32>)>,
    edges: Seq<(EdgeView, Seq<u32>)>,
) -> bool {
    &&& now.new_nodes@ == before.new_nodes@ + firsts(nodes)
    &&& now.new_vecs@ == before.new_vecs@ + seconds(nodes)
    &&& edge_views(now.new_edges@) == edge_views(before.new_edges@) + pair_edges(edges)
    &&& now.new_edge_vecs@.len() == before.new_edge_vecs@.len() + edges.len()
    &&& forall|j: int|
        0 <= j < before.new_edge_vecs@.len() ==> #[trigger] now.new_edge_vecs@[j]
            == before.new_edge_vecs@[j]
    &&& forall|j: int|
        0 <= j < edges.len() ==> (#[trigger] now.new_edge_vecs@[before.new_edge_vecs@.len() + j])@
            == edges[j].1
}

/// Adds placed entities and their relations to the store.
#[verifier::rlimit(40)]
pub fn commit_batch(
    placed: Placed,
    entities: &Vec<serde_json::Value>,
    relations: &Vec<serde_json::Value>,
    named_only: bool,
    relation_vecs: &Vec<Vec<u32>>,
    ingested: usize,
    store: &mut DeltaStore,
) -> (r: IngestResponse)
    requires
        old(store).wf(),
        old(store).inner.entry_count() + placed.to_add@.len() + relations@.len() <= usize::MAX,
        old(store).next_edge_id + relations@.len() <= u64::MAX,
    ensures
        final(store).wf(),
        ({
            let names = entity_ids(json_trees(entities@), placed.ids@, named_only);
            let edges = ingested_edges(
                json_trees(relations@),
                names,
                relation_vecs@,
                old(store).next_edge_id as int,
            );
            &&& has_ingested(
                &final(store).inner,
                &old(store).inner,
                placed.to_add@,
                edges,
            )
            &&& final(store).next_edge_id == old(store).next_edge_id + edges.len()
            &&& r.delta_size == old(store).inner.entry_count() + placed.to_add@.len()
                + edges.len()
        }),
        final(store).merge_threshold == old(store).merge_threshold,
        final(store).instance_id == old(store).instance_id,
        final(store).next_node_id == old(store).next_node_id,
        r.ingested == ingested,
        r.new_nodes == placed.to_add@.len(),
        r.resolved == placed.resolved,
        r.delta_size == final(store).inner.entry_count(),
        r.merge_triggered == (r.delta_size >= old(store).merge_threshold),
        r.message is None,
{
    let ghost before = *store;
    let names = collect_entity_ids(entities, &placed.ids, named_only);
    let new_nodes: usize = placed.to_add.len();
    let resolved: usize = placed.resolved;
    store.add_nodes_batch(placed.to_add);
    let ghost mid = *store;
    let edges = make_edges(relations, &names, relation_vecs, store);
    let ghost pairs = edges@;
    proof {
        assert(firsts(placed.to_add@).len() == placed.to_add@.len());
    }
    store.add_edges_batch(edges);
    proof {
        let views = edge_pair_views(pairs);
        assert(edge_views(store.inner.new_edges@) =~= edge_views(before.inner.new_edges@)
            + pair_edges(views));
        assert forall|j: int| 0 <= j < views.len() implies (
        #[trigger] store.inner.new_edge_vecs@[before.inner.new_edge_vecs@.len() + j])@
            == views[j].1 by {
            assert(seconds(pairs)[j] == pairs[j].1);
        }
        assert(firsts(pairs).len() == pairs.len());
    }
    let delta_size: usize = store.size();
    IngestResponse {
        ingested,
        new_nodes,
        resolved,
        delta_size,
        merge_triggered: store.needs_merge(),
        message: None,
    }
}

/// The response where there is nothing to ingest.
pub fn nothing_ingested(delta_size: usize, message: &str) -> (r: IngestResponse)
    ensures
        r.ingested == 0,
        r.new_nodes == 0,
        r.resolved == 0,
        r.delta_size == delta_size,
        !r.merge_triggered,
        opt_text(r.message) == Some(message@),
{
    IngestResponse {
        ingested: 0,
        new_nodes: 0,
        resolved: 0,
        delta_size,
        merge_triggered: false,
        message: Some(message.to_owned()),
    }
}

/// The smaller of two lengths.
pub open spec fn shorter(a: nat, b: nat) -> int {
    if a < b {
        a as int
    } else {
        b as int
    }
}

/// What an ingestion of drafted nodes with their relations does to the store, and its response.
pub open spec fn is_ingestion(
    now: &DeltaStore,
    before: &DeltaStore,
    r: Result<IngestResponse, ApiError>,
    input: Ingestion,
    graph: &CsrGraph,
    similar: &Similarities,
    cfg: ResolutionConfig,
) -> bool {
    let around = surroundings(graph, before);
    let n = shorter(input.vecs.len(), input.drafts.len());
    let p = placement(input.drafts, similar, around, cfg, n);
    let names = entity_ids(input.entities, p.ids, input.named_only);
    let edges = ingested_edges(
        input.relations,
        names,
        input.relation_vecs,
        before.next_edge_id as int,
    );
    &&& now.merge_threshold == before.merge_threshold
    &&& now.instance_id == before.instance_id
    &&& now.next_node_id == around.next + p.added.len()
    &&& match r {
        Ok(response) => {
            &&& !p.stopped
            &&& exists|pairs: Seq<(NodeInfo, Vec<u32>)>| #[trigger]
                are_placed(pairs, input.drafts, input.vecs, p.added, around.next) && has_ingested(
                    &now.inner,
                    &before.inner,
                    pairs,
                    edges,
                )
            &&& now.next_edge_id == before.next_edge_id + edges.len()
            &&& response.ingested == input.ingested
            &&& response.new_nodes == p.added.len()
            &&& response.resolved == n - p.added.len()
            &&& response.delta_size == before.inner.entry_count() + p.added.len() + edges.len()
            &&& response.merge_triggered == (response.delta_size >= before.merge_threshold)
            &&& response.message is None
        },
        Err(ApiError::Internal(m)) => {
            &&& p.stopped
            &&& m@ == IdSpaceExhausted {
                instance_id: before.instance_id,
                limit: instance_limit(before.instance_id) as u32,
            }.text()
            &&& now.inner == before.inner
            &&& now.next_edge_id == before.next_edge_id
        },
        Err(_) => false,
    }
}

/// What is ingested: drafted nodes with their vectors, and the records they come from.
pub ghost struct Ingestion {
    pub drafts: Seq<NodeInfo>,
    pub vecs: Seq<Vec<u32>>,
    pub entities: Seq<JsonTree>,
    pub relations: Seq<JsonTree>,
    pub relation_vecs: Seq<Vec<u32>>,
    pub named_only: bool,
    pub ingested: nat,
}

#[verifier::rlimit(60)]
fn ingest(
    drafts: &Vec<NodeInfo>,
    vecs: &Vec<Vec<u32>>,
    entities: &Vec<serde_json::Value>,
    relations: &Vec<serde_json::Value>,
    relation_vecs: &Vec<Vec<u32>>,
    named_only: bool,
    ingested: usize,
    similar: &Similarities,
    graph: &CsrGraph,
    store: &mut DeltaStore,
    cfg: ResolutionConfig,
) -> (r: Result<IngestResponse, ApiError>)
    requires
        old(store).wf(),
        old(store).inner.entry_count() + drafts@.len() + relations@.len() <= usize::MAX,
        old(store).next_edge_id + relations@.len() <= u64::MAX,
    ensures
        final(store).wf(),
        is_ingestion(
            final(store),
            old(store),
            r,
            (Ingestion {
                drafts: drafts@,
                vecs: vecs@,
                entities: json_trees(entities@),
                relations: json_trees(relations@),
                relation_vecs: relation_vecs@,
                named_only,
                ingested: ingested as nat,
            }),
            graph,
            similar,
            cfg,
        ),
{
    let ghost before = *store;
    let ghost around = surroundings(graph, &before);
    let ghost n = shorter(vecs@.len(), drafts@.len());
    let ghost p = placement(drafts@, similar, around, cfg, n);
    let ghost input = Ingestion {
        drafts: drafts@,
        vecs: vecs@,
        entities: json_trees(entities@),
        relations: json_trees(relations@),
        relation_vecs: relation_vecs@,
        named_only,
        ingested: ingested as nat,
    };
    proof {
        lemma_placement_size(drafts@, similar, around, cfg, n);
    }
    match place_entities(drafts, vecs, similar, graph, store, cfg) {
        Ok(placed) => {
            proof {
                assert(firsts(placed.to_add@).len() == placed.to_add@.len());
            }
            let ghost pairs = placed.to_add@;
            let ghost edges = ingested_edges(
                json_trees(relations@),
                entity_ids(json_trees(entities@), p.ids, named_only),
                relation_vecs@,
                before.next_edge_id as int,
            );
            let response = commit_batch(
                placed,
                entities,
                relations,
                named_only,
                relation_vecs,
                ingested,
                store,
            );
            let r: Result<IngestResponse, ApiError> = Ok(response);
            proof {
                assert(are_placed(pairs, input.drafts, input.vecs, p.added, around.next));
                assert(has_ingested(&store.inner, &before.inner, pairs, edges));
                assert(r->Ok_0.new_nodes == p.added.len());
                assert(r->Ok_0.resolved == n - p.added.len());
                assert(is_ingestion(store, &before, r, input, graph, similar, cfg));
            }
            r
        },
        Err(e) => {
            proof {
                let limit = instance_limit(before.instance_id);
                assert(0 <= limit <= u32::MAX);
                assert(e == IdSpaceExhausted {
                    instance_id: before.instance_id,
                    limit: limit as u32,
                });
            }
            let r: Result<IngestResponse, ApiError> = Err(ApiError::Internal(e.message()));
            proof {
                assert(is_ingestion(store, &before, r, input, graph, similar, cfg));
            }
            r
        },
    }
}

proof fn lemma_placement_size(
    drafts: Seq<NodeInfo>,
    similar: &Similarities,
    around: Surroundings,
    cfg: ResolutionConfig,
    n: int,
)
    requires
        n >= 0,
    ensures
        ({
            let p = placement(drafts, similar, around, cfg, n);
            &&& p.added.len() <= p.ids.len() <= n
            &&& !p.stopped ==> p.ids.len() == n
        }),
    decreases n,
{
    if n > 0 {
        lemma_placement_size(drafts, similar, around, cfg, n - 1);
    }
}

/// Ingests what was extracted from a text. `vecs` are the embeddings of the entities,
/// `relation_vecs` those of the relations with texts.
pub fn ingest_text(
    extracted: &ExtractResponse,
    vecs: &Vec<Vec<u32>>,
    relation_vecs: &Vec<Vec<u32>>,
    similar: &Similarities,
    graph: &CsrGraph,
    store: &mut DeltaStore,
    cfg: ResolutionConfig,
) -> (r: Result<IngestResponse, ApiError>)
    requires
        old(store).wf(),
        old(store).inner.entry_count() + extracted.entities@.len() + extracted.relations@.len()
            <= usize::MAX,
        old(store).next_edge_id + extracted.relations@.len() <= u64::MAX,
    ensures
        final(store).wf(),
        ({
            let entities = json_trees(extracted.entities@);
            let named = named_count(entities);
            if named == 0 {
                &&& *final(store) == *old(store)
                &&& r matches Ok(response) && response.ingested == 0 && response.new_nodes == 0
                    && response.resolved == 0 && response.delta_size
                    == old(store).inner.entry_count() && !response.merge_triggered && opt_text(
                    response.message,
                ) == Some("no entities found"@)
            } else {
                exists|drafts: Seq<NodeInfo>| #[trigger]
                    node_views(drafts) == entities.map_values(|t: JsonTree| extracted_node(t))
                        && is_ingestion(
                        final(store),
                        old(store),
                        r,
                        (Ingestion {
                            drafts,
                            vecs: vecs@,
                            entities,
                            relations: json_trees(extracted.relations@),
                            relation_vecs: relation_vecs@,
                            named_only: false,
                            ingested: named,
                        }),
                        graph,
                        similar,
                        cfg,
                    )
            }
        }),
{
    let named: usize = count_named(&extracted.entities);
    if named == 0 {
        return Ok(nothing_ingested(store.size(), "no entities found"));
    }
    let drafts = draft_text_nodes(&extracted.entities);
    proof {
        assert(node_views(drafts@).len() == drafts@.len());
    }
    ingest(
        &drafts,
        vecs,
        &extracted.entities,
        &extracted.relations,
        relation_vecs,
        false,
        named,
        similar,
        graph,
        store,
        cfg,
    )
}

/// Ingests given entities and relations. `nodes` are the nodes of the entities, `stored` says where
/// their images are stored, `vecs` are the embeddings of the nodes, `relation_vecs` those of the
/// relations with texts.
pub fn ingest_json(
    nodes: &Vec<NodeInfo>,
    stored: &Option<Vec<String>>,
    entities: &Vec<serde_json::Value>,
    relations: &Vec<serde_json::Value>,
    vecs: &Vec<Vec<u32>>,
    relation_vecs: &Vec<Vec<u32>>,
    similar: &Similarities,
    graph: &CsrGraph,
    store: &mut DeltaStore,
    cfg: ResolutionConfig,
) -> (r: Result<IngestResponse, ApiError>)
    requires
        old(store).wf(),
        old(store).inner.entry_count() + nodes@.len() + relations@.len() <= usize::MAX,
        old(store).next_edge_id + relations@.len() <= u64::MAX,
    ensures
        final(store).wf(),
        if nodes@.len() == 0 {
            &&& *final(store) == *old(store)
            &&& r matches Ok(response) && response.ingested == 0 && response.new_nodes == 0
                && response.resolved == 0 && response.delta_size
                == old(store).inner.entry_count() && !response.merge_triggered && opt_text(
                response.message,
            ) == Some("no entities"@)
        } else {
            exists|drafts: Seq<NodeInfo>| #[trigger]
                are_given_drafts(drafts, nodes@, list_in(*stored)) && is_ingestion(
                    final(store),
                    old(store),
                    r,
                    (Ingestion {
                        drafts,
                        vecs: vecs@,
                        entities: json_trees(entities@),
                        relations: json_trees(relations@),
                        relation_vecs: relation_vecs@,
                        named_only: true,
                        ingested: nodes@.len(),
                    }),
                    graph,
                    similar,
                    cfg,
                )
        },
{
    if nodes.is_empty() {
        return Ok(nothing_ingested(store.size(), "no entities"));
    }
    let drafts = draft_json_nodes(nodes, stored);
    proof {
        assert(are_given_drafts(drafts@, nodes@, list_in(*stored)));
    }
    ingest(
        &drafts,
        vecs,
        entities,
        relations,
        relation_vecs,
        true,
        nodes.len(),
        similar,
        graph,
        store,
        cfg,
    )
}

/// The drafts are those of given nodes.
pub open spec fn are_given_drafts(
    drafts: Seq<NodeInfo>,
    nodes: Seq<NodeInfo>,
    stored: Option<Seq<String>>,
) -> bool {
    &&& drafts.len() == nodes.len()
    &&& forall|i: int|
        0 <= i < nodes.len() ==> (#[trigger] drafts[i])@ == given_draft(
            nodes[i]@,
            stored_image(nodes, stored, i),
        )
}

/// Counts an ingestion, and refuses it while the plugin server is not ready.
pub fn admit_ingest(metrics: &mut Metrics, plugin_ready: bool) -> (r: Result<(), ApiError>)
    ensures
        final(metrics).ingest_total.is_one_past(&old(metrics).ingest_total),
        match r {
            Ok(()) => {
                &&& plugin_ready
                &&& final(metrics).ingest_failed_total == old(metrics).ingest_failed_total
            },
            Err(e) => {
                &&& !plugin_ready
                &&& e matches ApiError::ServiceUnavailable(m) && m@ == "plugin not available"@
                &&& final(metrics).ingest_failed_total.is_one_past(
                    &old(metrics).ingest_failed_total,
                )
            },
        },
        *final(metrics) == (Metrics {
            ingest_total: final(metrics).ingest_total,
            ingest_failed_total: final(metrics).ingest_failed_total,
            ..*old(metrics)
        }),
{
    metrics.ingest_total.inc();
    if !plugin_ready {
        metrics.ingest_failed_total.inc();
        Err(ApiError::plugin_unavailable())
    } else {
        Ok(())
    }
}

/// Counts an ingestion that failed with this error, and hands the error on.
pub fn fail_ingest(metrics: &mut Metrics, e: ApiError) -> (r: ApiError)
    ensures
        r == e,
        final(metrics).ingest_failed_total.is_one_past(&old(metrics).ingest_failed_total),
        *final(metrics) == (Metrics {
            ingest_failed_total: final(metrics).ingest_failed_total,
            ..*old(metrics)
        }),
{
    metrics.ingest_failed_total.inc();
    e
}

/// Counts an ingestion that succeeded.
pub fn record_ingest(metrics: &mut Metrics, elapsed_ms: u64, response: &IngestResponse)
    requires
        old(metrics).wf(),
        old(metrics).ingest_latency.count < u64::MAX,
    ensures
        final(metrics).wf(),
        final(metrics).delta_size.value == response.delta_size,
        final(metrics).nodes_ingested_total.value == (old(metrics).nodes_ingested_total.value
            + response.new_nodes) % 0x1_0000_0000_0000_0000,
        final(metrics).ingest_latency.observed(&old(metrics).ingest_latency, elapsed_ms),
        final(metrics).delta_size.name == old(metrics).delta_size.name,
        final(metrics).nodes_ingested_total.name == old(metrics).nodes_ingested_total.name,
        *final(metrics) == (Metrics {
            delta_size: final(metrics).delta_size,
            nodes_ingested_total: final(metrics).nodes_ingested_total,
            ingest_latency: final(metrics).ingest_latency,
            ..*old(metrics)
        }),
{
    metrics.delta_size.set(response.delta_size as u64);
    metrics.nodes_ingested_total.add(response.new_nodes as u64);
    metrics.ingest_latency.observe(elapsed_ms);
}

// ── laws ─────────────────────────────────────────────────────────────────────

/// Every entity that is placed is a new node or a known one: as many new nodes and known ones
/// together as entities.
pub proof fn law_every_entity_is_placed(
    drafts: Seq<NodeInfo>,
    similar: &Similarities,
    around: Surroundings,
    cfg: ResolutionConfig,
    n: int,
)
    requires
        n >= 0,
        !placement(drafts, similar, around, cfg, n).stopped,
    ensures
        placement(drafts, similar, around, cfg, n).ids.len() == n,
        placement(drafts, similar, around, cfg, n).added.len() <= n,
{
    lemma_placement_size(drafts, similar, around, cfg, n);
}

/// Without matching every entity is a new node, with an id of its own.
pub proof fn law_without_matching_all_are_new(
    drafts: Seq<NodeInfo>,
    similar: &Similarities,
    around: Surroundings,
    cfg: ResolutionConfig,
    n: int,
)
    requires
        cfg.mode == ResolutionMode::Off,
        0 <= n <= drafts.len(),
        0 <= around.next,
        around.next + n <= around.limit <= u32::MAX,
    ensures
        ({
            let p = placement(drafts, similar, around, cfg, n);
            &&& !p.stopped
            &&& p.added == Seq::new(n as nat, |k: int| k)
            &&& p.ids == Seq::new(n as nat, |k: int| (around.next + k) as u32)
        }),
    decreases n,
{
    let p = placement(drafts, similar, around, cfg, n);
    if n > 0 {
        law_without_matching_all_are_new(drafts, similar, around, cfg, n - 1);
    }
    assert(p.added =~= Seq::new(n as nat, |k: int| k));
    assert(p.ids =~= Seq::new(n as nat, |k: int| (around.next + k) as u32));
}

/// The id that an entity gets is that of a node of the graph, of a new node of the delta, or of a
/// node that the same batch adds.
pub proof fn law_ids_are_of_nodes(
    drafts: Seq<NodeInfo>,
    similar: &Similarities,
    around: Surroundings,
    cfg: ResolutionConfig,
    n: int,
    i: int,
)
    requires
        0 <= i < placement(drafts, similar, around, cfg, n).ids.len(),
        0 <= around.next,
        around.limit <= u32::MAX,
    ensures
        ({
            let p = placement(drafts, similar, around, cfg, n);
            let id = p.ids[i];
            ||| id < around.nodes.len()
            ||| exists|j: int|
                0 <= j < around.new_nodes.len() && (#[trigger] around.new_nodes[j]).id == id
            ||| around.next <= id < around.next + p.added.len()
        }),
    decreases n,
{
    let before = placement(drafts, similar, around, cfg, n - 1);
    if i < before.ids.len() {
        law_ids_are_of_nodes(drafts, similar, around, cfg, n - 1, i);
    } else {
        lemma_placement_size(drafts, similar, around, cfg, n - 1);
        lemma_added_below_limit(drafts, similar, around, cfg, n - 1);
        let k = n - 1;
        let node_type = drafts[k].node_type@;
        crate::entity_resolution::lemma_resolved_id(
            cfg,
            node_type,
            around.nodes,
            list_of(similar.graph@, k),
            around.new_nodes,
            list_of(similar.delta@, k),
        );
        crate::entity_resolution::lemma_batch_place_range(
            cfg,
            node_type,
            placed_nodes(drafts, before.added, around.next),
            batch_sims(similar.batch@, k, before.added),
        );
    }
}

proof fn lemma_added_below_limit(
    drafts: Seq<NodeInfo>,
    similar: &Similarities,
    around: Surroundings,
    cfg: ResolutionConfig,
    n: int,
)
    ensures
        ({
            let p = placement(drafts, similar, around, cfg, n);
            p.added.len() > 0 ==> around.next + p.added.len() <= around.limit
        }),
    decreases n,
{
    if n > 0 {
        lemma_added_below_limit(drafts, similar, around, cfg, n - 1);
    }
}

// ── what an ingestion makes of its input ─────────────────────────────────────

/// A setting that the request gives stands; for one that it does not give the default does. Only
/// the mode `none` turns matching off.
pub proof fn law_request_overrides_defaults(defaults: IngestConfig, o: Option<ResolutionOverride>)
    ensures
        ({
            let r = resolution_cfg(defaults, o);
            let mode = if o is Some && o->0.mode is Some {
                o->0.mode->0@
            } else {
                defaults.resolution_mode@
            };
            &&& r.mode == ResolutionMode::Off <==> mode == "none"@
            &&& r.threshold == (if o is Some && o->0.threshold is Some {
                o->0.threshold->0
            } else {
                defaults.resolution_threshold
            })
            &&& r.match_type == (if o is Some && o->0.match_type is Some {
                o->0.match_type->0
            } else {
                defaults.resolution_match_type
            })
        }),
{
}

/// The text that stands for an entity or a relation is the first of three fields that is not blank,
/// without white space around it.
pub proof fn law_embedded_text_is_the_first_field_not_blank(tree: JsonTree)
    ensures
        ({
            let a = trimmed(field_text(tree, "embed_context"@));
            let b = trimmed(field_text(tree, "full_context"@));
            &&& a.len() > 0 ==> node_text(tree) == a && edge_text(tree) == a
            &&& a.len() == 0 && b.len() > 0 ==> node_text(tree) == b && edge_text(tree) == b
            &&& a.len() == 0 && b.len() == 0 ==> node_text(tree) == trimmed(
                field_text(tree, "name"@),
            ) && edge_text(tree) == trimmed(field_text(tree, "type"@))
        }),
{
}

/// An extracted entity becomes a node with its name, its type (`Entity` where it gives none), its
/// properties and contexts. Its external id is the one it gives, or else its type and its name.
pub proof fn law_extracted_entity_becomes_its_node(tree: JsonTree)
    ensures
        ({
            let n = extracted_node(tree);
            let own_type = text_of(member_of(tree, "type"@));
            let context = text_of(member_of(tree, "embed_context"@));
            &&& n.name == field_text(tree, "name"@)
            &&& n.node_type == (if own_type is Some {
                own_type->0
            } else {
                "Entity"@
            })
            &&& n.props == member_of(tree, "props"@)
            &&& n.full_context == field_text(tree, "full_context"@)
            &&& n.embed_context == (if context is Some && trimmed(context->0).len() > 0 {
                context
            } else {
                None
            })
            &&& n.external_id == (if field_text(tree, "id"@).len() > 0 {
                field_text(tree, "id"@)
            } else {
                n.node_type + seq![':'] + n.name
            })
            &&& n.image_url is None
        }),
{
    reveal_strlit(":");
    assert(":"@ =~= seq![':']);
}

/// A given node is taken as it is, but for an external id that it lacks, which is made of its type
/// and its name, and for an image that was stored, which is replaced by where it is.
pub proof fn law_given_node_is_kept(n: NodeView, stored: Option<Seq<char>>)
    ensures
        ({
            let d = given_draft(n, stored);
            &&& d.name == n.name
            &&& d.node_type == n.node_type
            &&& d.weight == n.weight
            &&& d.props == n.props
            &&& d.full_context == n.full_context
            &&& d.embed_context == n.embed_context
            &&& d.external_id == (if n.external_id.len() > 0 {
                n.external_id
            } else {
                n.node_type + seq![':'] + n.name
            })
            &&& d.image_url is Some <==> n.image_url is Some
            &&& n.image_url is Some ==> d.image_url == (if stored is Some {
                stored
            } else {
                n.image_url
            })
        }),
{
    reveal_strlit(":");
    assert(":"@ =~= seq![':']);
}

proof fn lemma_given_at(nodes: Seq<NodeInfo>, i: int)
    requires
        0 <= i < nodes.len(),
    ensures
        given_images(nodes).len() == image_count(nodes),
        given_texts(nodes).len() + image_count(nodes) == nodes.len(),
        match nodes[i].image_url {
            Some(url) => {
                let k = image_count(nodes.take(i)) as int;
                k < given_images(nodes).len() && given_images(nodes)[k] == url@
            },
            None => {
                let k = i - image_count(nodes.take(i));
                0 <= k < given_texts(nodes).len() && given_texts(nodes)[k] == given_text(nodes[i]@)
            },
        },
    decreases nodes.len(),
{
    let rest = nodes.drop_last();
    lemma_given_count(rest);
    if i < rest.len() {
        lemma_given_at(rest, i);
        assert(rest.take(i) =~= nodes.take(i));
        assert(rest[i] == nodes[i]);
    } else {
        assert(nodes.take(i) =~= rest);
    }
}

proof fn lemma_given_count(nodes: Seq<NodeInfo>)
    ensures
        given_images(nodes).len() == image_count(nodes),
        given_texts(nodes).len() + image_count(nodes) == nodes.len(),
    decreases nodes.len(),
{
    if nodes.len() > 0 {
        lemma_given_count(nodes.drop_last());
    }
}

/// Every given node gets the vector that was computed for it: where it has an image, that of the
/// image; otherwise that of its embedding context, or its full context, or its name, the first of
/// these that is not empty. `of_text` and `of_image` say what was computed for each text and image.
pub proof fn law_nodes_get_their_own_vectors(
    nodes: Seq<NodeInfo>,
    text_vecs: Seq<Vec<u32>>,
    image_vecs: Seq<Vec<u32>>,
    of_text: spec_fn(Seq<char>) -> Seq<u32>,
    of_image: spec_fn(Seq<char>) -> Seq<u32>,
    i: int,
)
    requires
        0 <= i < nodes.len(),
        text_vecs.len() == given_texts(nodes).len(),
        image_vecs.len() == given_images(nodes).len(),
        forall|j: int|
            0 <= j < text_vecs.len() ==> (#[trigger] text_vecs[j])@ == of_text(
                given_texts(nodes)[j],
            ),
        forall|j: int|
            0 <= j < image_vecs.len() ==> (#[trigger] image_vecs[j])@ == of_image(
                given_images(nodes)[j],
            ),
    ensures
        ({
            let n = nodes[i]@;
            own_vector(nodes, text_vecs, image_vecs, i) == (if n.image_url is Some {
                of_image(n.image_url->0)
            } else if n.embed_context is Some && n.embed_context->0.len() > 0 {
                of_text(n.embed_context->0)
            } else if n.full_context.len() > 0 {
                of_text(n.full_context)
            } else {
                of_text(n.name)
            })
        }),
{
    lemma_given_at(nodes, i);
    let k = image_count(nodes.take(i)) as int;
    if nodes[i].image_url is Some {
        assert(image_vecs[k]@ == of_image(given_images(nodes)[k]));
    } else {
        assert(text_vecs[i - k]@ == of_text(given_texts(nodes)[i - k]));
    }
}

/// A given node with an image gets the address at which that image was stored. `stored_at` says
/// where each image was.
pub proof fn law_images_get_their_own_addresses(
    nodes: Seq<NodeInfo>,
    urls: Seq<String>,
    stored_at: spec_fn(Seq<char>) -> Seq<char>,
    i: int,
)
    requires
        0 <= i < nodes.len(),
        nodes[i].image_url is Some,
        urls.len() == given_images(nodes).len(),
        forall|j: int|
            0 <= j < urls.len() ==> (#[trigger] urls[j])@ == stored_at(given_images(nodes)[j]),
    ensures
        given_draft(nodes[i]@, stored_image(nodes, Some(urls), i)).image_url == Some(
            stored_at(nodes[i].image_url->0@),
        ),
{
    lemma_given_at(nodes, i);
    let k = image_count(nodes.take(i)) as int;
    assert(urls[k]@ == stored_at(given_images(nodes)[k]));
}

/// The entity at `k` goes by the name `x`. Where only entities with an id of their own have names,
/// one without has none; otherwise its name is empty.
pub open spec fn goes_by(
    entities: Seq<JsonTree>,
    ids: Seq<u32>,
    named_only: bool,
    x: Seq<char>,
    k: int,
) -> bool {
    &&& 0 <= k < entities.len()
    &&& k < ids.len()
    &&& match text_of(member_of(entities[k], "id"@)) {
        Some(t) => t == x,
        None => !named_only && x.len() == 0,
    }
}

/// A name leads to the id of the entity that goes by it, the last one of several, and to nothing
/// where none does.
pub proof fn law_entity_names_lead_to_their_ids(
    entities: Seq<JsonTree>,
    ids: Seq<u32>,
    named_only: bool,
    x: Seq<char>,
)
    ensures
        entity_ids(entities, ids, named_only).contains_key(x) <==> exists|k: int| #[trigger]
            goes_by(entities, ids, named_only, x, k),
        entity_ids(entities, ids, named_only).contains_key(x) ==> exists|k: int| #[trigger]
            goes_by(entities, ids, named_only, x, k) && ids[k] == entity_ids(
                entities,
                ids,
                named_only,
            )[x] && forall|m: int|
                m > k ==> !#[trigger] goes_by(entities, ids, named_only, x, m),
    decreases entities.len(),
{
    if entities.len() > 0 {
        let rest = entities.drop_last();
        let last = entities.len() - 1;
        law_entity_names_lead_to_their_ids(rest, ids, named_only, x);
        assert forall|k: int| k != last implies #[trigger] goes_by(
            entities,
            ids,
            named_only,
            x,
            k,
        ) == goes_by(rest, ids, named_only, x, k) by {
            if 0 <= k < last {
                assert(rest[k] == entities[k]);
            }
        }
        if goes_by(entities, ids, named_only, x, last) {
            assert(text_of(member_of(entities.last(), "id"@)) is None ==> x =~= field_text(
                entities.last(),
                "id"@,
            ));
        } else {
            assert(entity_ids(entities, ids, named_only).contains_key(x) == entity_ids(
                rest,
                ids,
                named_only,
            ).contains_key(x));
            if entity_ids(rest, ids, named_only).contains_key(x) {
                let k = choose|k: int| #[trigger]
                    goes_by(rest, ids, named_only, x, k) && ids[k] == entity_ids(
                        rest,
                        ids,
                        named_only,
                    )[x] && forall|m: int|
                        m > k ==> !#[trigger] goes_by(rest, ids, named_only, x, m);
                assert(goes_by(entities, ids, named_only, x, k));
                assert forall|m: int| m > k implies !#[trigger] goes_by(
                    entities,
                    ids,
                    named_only,
                    x,
                    m,
                ) by {
                    if m != last {
                        assert(!goes_by(rest, ids, named_only, x, m));
                    }
                }
            }
            if exists|k: int| #[trigger] goes_by(entities, ids, named_only, x, k) {
                let k = choose|k: int| #[trigger] goes_by(entities, ids, named_only, x, k);
                assert(goes_by(rest, ids, named_only, x, k));
            }
        }
    } else {
        assert(forall|k: int| !#[trigger] goes_by(entities, ids, named_only, x, k));
    }
}

/// The relation names both its ends.
pub open spec fn has_both_ends(names: Map<Seq<char>, u32>) -> spec_fn(JsonTree) -> bool {
    |t: JsonTree|
        names.contains_key(field_text(t, "from"@)) && names.contains_key(field_text(t, "to"@))
}

proof fn lemma_texts_prefix(relations: Seq<JsonTree>, all: Seq<Seq<char>>)
    requires
        relations.len() > 0,
        relation_texts_of(relations).is_prefix_of(all),
    ensures
        relation_texts_of(relations.drop_last()).is_prefix_of(all),
        edge_text(relations.last()).len() > 0 ==> relation_texts_of(relations.drop_last()).len()
            < all.len() && all[relation_texts_of(relations.drop_last()).len() as int] == edge_text(
            relations.last(),
        ),
{
    let before = relation_texts_of(relations.drop_last());
    let here = relation_texts_of(relations);
    if edge_text(relations.last()).len() > 0 {
        assert(here[before.len() as int] == edge_text(relations.last()));
        assert(here[before.len() as int] == all[before.len() as int]);
        assert(before =~= here.take(before.len() as int));
        assert(before =~= all.take(before.len() as int));
    }
}

/// Relations both of whose ends are named become edges, in order and with consecutive ids: between
/// the nodes that are named, with the relation's type, weight and contexts. The vector of each is
/// the one that was computed for its own text, and empty where it has none. `of_text` says what was
/// computed for each text.
pub proof fn law_relations_become_edges(
    relations: Seq<JsonTree>,
    names: Map<Seq<char>, u32>,
    vecs: Seq<Vec<u32>>,
    first_id: int,
    of_text: spec_fn(Seq<char>) -> Seq<u32>,
)
    requires
        vecs.len() == relation_texts_of(relations).len(),
        forall|j: int|
            0 <= j < vecs.len() ==> (#[trigger] vecs[j])@ == of_text(
                relation_texts_of(relations)[j],
            ),
    ensures
        are_edges_of(
            ingested_edges(relations, names, vecs, first_id),
            relations.filter(has_both_ends(names)),
            names,
            first_id,
            of_text,
        ),
{
    lemma_relations_become_edges(
        relations,
        relation_texts_of(relations),
        names,
        vecs,
        first_id,
        of_text,
    );
}

/// The edges of relations, one for each.
pub open spec fn are_edges_of(
    edges: Seq<(EdgeView, Seq<u32>)>,
    relations: Seq<JsonTree>,
    names: Map<Seq<char>, u32>,
    first_id: int,
    of_text: spec_fn(Seq<char>) -> Seq<u32>,
) -> bool {
    &&& edges.len() == relations.len()
    &&& forall|i: int|
        0 <= i < edges.len() ==> {
            let (e, vec) = #[trigger] edges[i];
            let t = relations[i];
            let context = text_of(member_of(t, "embed_context"@));
            &&& e.from == names[field_text(t, "from"@)]
            &&& e.to == names[field_text(t, "to"@)]
            &&& e.edge_type == field_text(t, "type"@)
            &&& e.weight == (match number_of(member_of(t, "weight"@)) {
                Some(bits) => narrow_f64(bits) as u32,
                None => 0x3f80_0000u32,
            })
            &&& e.full_context == field_text(t, "full_context"@)
            &&& e.embed_context == (if context is Some && trimmed(context->0).len() > 0 {
                context
            } else {
                None
            })
            &&& e.edge_id == (first_id + i) as u64
            &&& vec == (if edge_text(t).len() > 0 {
                of_text(edge_text(t))
            } else {
                Seq::empty()
            })
        }
}

proof fn lemma_relations_become_edges(
    relations: Seq<JsonTree>,
    all: Seq<Seq<char>>,
    names: Map<Seq<char>, u32>,
    vecs: Seq<Vec<u32>>,
    first_id: int,
    of_text: spec_fn(Seq<char>) -> Seq<u32>,
)
    requires
        relation_texts_of(relations).is_prefix_of(all),
        vecs.len() == all.len(),
        forall|j: int| 0 <= j < vecs.len() ==> (#[trigger] vecs[j])@ == of_text(all[j]),
    ensures
        are_edges_of(
            ingested_edges(relations, names, vecs, first_id),
            relations.filter(has_both_ends(names)),
            names,
            first_id,
            of_text,
        ),
    decreases relations.len(),
{
    reveal(Seq::filter);
    if relations.len() > 0 {
        let rest = relations.drop_last();
        let t = relations.last();
        lemma_texts_prefix(relations, all);
        lemma_relations_become_edges(rest, all, names, vecs, first_id, of_text);
        let before = ingested_edges(rest, names, vecs, first_id);
        let edges = ingested_edges(relations, names, vecs, first_id);
        let kept = relations.filter(has_both_ends(names));
        let k = relation_texts_of(rest).len() as int;
        if edge_text(t).len() > 0 {
            assert(vecs[k]@ == of_text(all[k]));
        }
        if has_both_ends(names)(t) {
            assert(kept == rest.filter(has_both_ends(names)).push(t));
            assert forall|i: int| 0 <= i < before.len() implies #[trigger] edges[i] == before[i]
                && kept[i] == rest.filter(has_both_ends(names))[i] by {}
        } else {
            assert(edges == before);
            assert(kept == rest.filter(has_both_ends(names)));
        }
    }
}

/// The similarity list of entity `i`; none where it has no list.
pub open spec fn own_list<A>(lists: Seq<Vec<A>>, i: int) -> Seq<A> {
    if 0 <= i < lists.len() {
        lists[i]@
    } else {
        Seq::empty()
    }
}

/// Entity `i` is the same as the earlier entity `a`: similar enough, and of one type where types
/// must match.
pub open spec fn is_same_entity(
    drafts: Seq<NodeInfo>,
    similar: &Similarities,
    cfg: ResolutionConfig,
    i: int,
    a: int,
) -> bool {
    let sims = own_list(similar.batch@, i);
    &&& 0 <= a < sims.len()
    &&& f32_at_least(sims[a], cfg.threshold)
    &&& cfg.match_type ==> drafts[a].node_type@ == drafts[i].node_type@
}

/// Each entity of a batch gets one id. Where it is a known node, it gets that node's. Otherwise it
/// gets the id of the first new node of its batch that it is the same as, and where there is none it
/// is a new node itself, with the next free id. Only then is it added.
pub proof fn law_entity_gets_its_id(
    drafts: Seq<NodeInfo>,
    similar: &Similarities,
    around: Surroundings,
    cfg: ResolutionConfig,
    n: int,
    i: int,
)
    requires
        0 <= i < n,
        !placement(drafts, similar, around, cfg, n).stopped,
    ensures
        ({
            let p = placement(drafts, similar, around, cfg, n);
            let known = resolution(
                cfg,
                drafts[i].node_type@,
                around.nodes,
                own_list(similar.graph@, i),
                around.new_nodes,
                own_list(similar.delta@, i),
            );
            &&& p.ids.len() == n
            &&& forall|a: int, b: int|
                0 <= a < b < p.added.len() ==> #[trigger] p.added[a] < #[trigger] p.added[b]
            &&& match known {
                ResolveResult::Existing(id) => p.ids[i] == id && !p.added.contains(i),
                ResolveResult::New => exists|q: int|
                    0 <= q < p.added.len() && p.ids[i] == (around.next + q) as u32 && {
                        let a = #[trigger] p.added[q];
                        ||| a == i && (cfg.mode == ResolutionMode::Off || forall|m: int|
                            0 <= m < q ==> !is_same_entity(
                                drafts,
                                similar,
                                cfg,
                                i,
                                #[trigger] p.added[m],
                            ))
                        ||| a < i && cfg.mode == ResolutionMode::Embedding && is_same_entity(
                            drafts,
                            similar,
                            cfg,
                            i,
                            a,
                        ) && !p.added.contains(i) && forall|m: int|
                            0 <= m < q ==> !is_same_entity(
                                drafts,
                                similar,
                                cfg,
                                i,
                                #[trigger] p.added[m],
                            )
                    },
            }
        }),
    decreases n,
{
    let p = placement(drafts, similar, around, cfg, n);
    let before = placement(drafts, similar, around, cfg, n - 1);
    lemma_placement_size(drafts, similar, around, cfg, n);
    lemma_placement_size(drafts, similar, around, cfg, n - 1);
    lemma_added_range(drafts, similar, around, cfg, n - 1);
    lemma_added_range(drafts, similar, around, cfg, n);
    let known = resolution(
        cfg,
        drafts[i].node_type@,
        around.nodes,
        own_list(similar.graph@, i),
        around.new_nodes,
        own_list(similar.delta@, i),
    );
    if i < n - 1 {
        law_entity_gets_its_id(drafts, similar, around, cfg, n - 1, i);
        assert(p.ids[i] == before.ids[i]);
        assert(p.added.contains(i) ==> before.added.contains(i)) by {
            if p.added.contains(i) {
                let q = p.added.index_of(i);
                if q < before.added.len() {
                    assert(before.added[q] == i);
                }
            }
        }
        if known == ResolveResult::New {
            let q = choose|q: int|
                0 <= q < before.added.len() && before.ids[i] == (around.next + q) as u32 && {
                    let a = #[trigger] before.added[q];
                    ||| a == i && (cfg.mode == ResolutionMode::Off || forall|m: int|
                        0 <= m < q ==> !is_same_entity(
                            drafts,
                            similar,
                            cfg,
                            i,
                            #[trigger] before.added[m],
                        ))
                    ||| a < i && cfg.mode == ResolutionMode::Embedding && is_same_entity(
                        drafts,
                        similar,
                        cfg,
                        i,
                        a,
                    ) && !before.added.contains(i) && forall|m: int|
                        0 <= m < q ==> !is_same_entity(
                            drafts,
                            similar,
                            cfg,
                            i,
                            #[trigger] before.added[m],
                        )
                };
            assert(p.added[q] == before.added[q]);
            assert forall|m: int| 0 <= m < q implies #[trigger] p.added[m] == before.added[m] by {}
            if cfg.mode == ResolutionMode::Embedding {
                assert forall|m: int| 0 <= m < q implies !is_same_entity(
                    drafts,
                    similar,
                    cfg,
                    i,
                    #[trigger] p.added[m],
                ) by {
                    assert(!is_same_entity(drafts, similar, cfg, i, before.added[m]));
                }
            }
        }
    } else {
        let placed = placed_nodes(drafts, before.added, around.next);
        let sims = batch_sims(similar.batch@, i, before.added);
        let node_type = drafts[i].node_type@;
        law_entity_is_the_first_fitting_node_of_its_batch(cfg, node_type, placed, sims);
        assert forall|m: int| 0 <= m < before.added.len() implies (node_fits(
            cfg,
            node_type,
            placed,
            sims,
            m,
        ) <==> is_same_entity(drafts, similar, cfg, i, #[trigger] before.added[m])) by {
            assert(0 <= before.added[m] < i);
            assert(list_of(similar.batch@, i) == own_list(similar.batch@, i));
            assert(f32_is_nan(NOT_SIMILAR));
        }
        assert(!before.added.contains(i)) by {
            if before.added.contains(i) {
                let q = before.added.index_of(i);
                assert(before.added[q] < n - 1);
            }
        }
        match known {
            ResolveResult::Existing(_) => {},
            ResolveResult::New => {
                match batch_place(cfg, node_type, placed, sims) {
                    Some(q) => {
                        assert(p.added[q] == before.added[q]);
                        assert(node_fits(cfg, node_type, placed, sims, q));
                        assert forall|m: int| 0 <= m < q implies !is_same_entity(
                            drafts,
                            similar,
                            cfg,
                            i,
                            #[trigger] p.added[m],
                        ) by {
                            assert(before.added[m] == p.added[m]);
                            assert(!node_fits(cfg, node_type, placed, sims, m));
                        }
                    },
                    None => {
                        let q = before.added.len() as int;
                        assert(p.added[q] == i);
                        if cfg.mode == ResolutionMode::Embedding {
                            assert forall|m: int| 0 <= m < q implies !is_same_entity(
                                drafts,
                                similar,
                                cfg,
                                i,
                                #[trigger] p.added[m],
                            ) by {
                                assert(before.added[m] == p.added[m]);
                                assert(!node_fits(cfg, node_type, placed, sims, m));
                            }
                        }
                    },
                }
            },
        }
    }
}

proof fn lemma_added_range(
    drafts: Seq<NodeInfo>,
    similar: &Similarities,
    around: Surroundings,
    cfg: ResolutionConfig,
    n: int,
)
    ensures
        ({
            let p = placement(drafts, similar, around, cfg, n);
            &&& forall|q: int| 0 <= q < p.added.len() ==> 0 <= #[trigger] p.added[q] < n
            &&& forall|a: int, b: int|
                0 <= a < b < p.added.len() ==> #[trigger] p.added[a] < #[trigger] p.added[b]
        }),
    decreases n,
{
    if n > 0 {
        lemma_added_range(drafts, similar, around, cfg, n - 1);
        let before = placement(drafts, similar, around, cfg, n - 1);
        let p = placement(drafts, similar, around, cfg, n);
        assert forall|q: int| 0 <= q < p.added.len() implies 0 <= #[trigger] p.added[q] < n by {
            if q < before.added.len() {
                assert(p.added[q] == before.added[q]);
            }
        }
        assert forall|a: int, b: int| 0 <= a < b < p.added.len() implies #[trigger] p.added[a]
            < #[trigger] p.added[b] by {
            assert(p.added[a] == before.added[a]);
            if b < before.added.len() {
                assert(p.added[b] == before.added[b]);
            }
        }
    }
}

/// A new node is added as it was drafted, under its id and with the vector of its own entity.
pub proof fn law_new_nodes_are_the_drafts(
    pairs: Seq<(NodeInfo, Vec<u32>)>,
    drafts: Seq<NodeInfo>,
    vecs: Seq<Vec<u32>>,
    added: Seq<int>,
    next: int,
    q: int,
)
    requires
        are_placed(pairs, drafts, vecs, added, next),
        0 <= q < added.len(),
    ensures
        pairs.len() == added.len(),
        ({
            let (n, vec) = pairs[q];
            let own = drafts[added[q]];
            &&& n.id == (next + q) as u32
            &&& n.name == own.name
            &&& n.node_type == own.node_type
            &&& n.weight == own.weight
            &&& n.props == own.props
            &&& n.full_context == own.full_context
            &&& n.embed_context == own.embed_context
            &&& n.external_id == own.external_id
            &&& n.image_url == own.image_url
            &&& vec@ == vecs[added[q]]@
        }),
{
    assert(firsts(pairs).len() == pairs.len());
    assert(firsts(pairs)[q] == pairs[q].0);
}

/// An ingestion that succeeds leaves all entries of the delta in their places and adds its own
/// behind them: as many nodes as it reports as new, and then there are as many entries as it
/// reports. A merge is called for exactly when that reaches the threshold.
pub proof fn law_ingestion_adds_what_it_reports(
    now: &DeltaStore,
    before: &DeltaStore,
    response: IngestResponse,
    input: Ingestion,
    graph: &CsrGraph,
    similar: &Similarities,
    cfg: ResolutionConfig,
)
    requires
        is_ingestion(now, before, Ok(response), input, graph, similar, cfg),
    ensures
        before.inner.new_nodes@.is_prefix_of(now.inner.new_nodes@),
        before.inner.new_vecs@.is_prefix_of(now.inner.new_vecs@),
        edge_views(before.inner.new_edges@).is_prefix_of(edge_views(now.inner.new_edges@)),
        now.inner.new_nodes@.len() == before.inner.new_nodes@.len() + response.new_nodes,
        now.inner.new_nodes@.len() + now.inner.new_edges@.len() == response.delta_size,
        response.merge_triggered <==> response.delta_size >= before.merge_threshold,
        response.ingested == input.ingested,
        response.new_nodes + response.resolved == (if input.vecs.len() < input.drafts.len() {
            input.vecs.len()
        } else {
            input.drafts.len()
        }),
{
    let around = surroundings(graph, before);
    let n = shorter(input.vecs.len(), input.drafts.len());
    let p = placement(input.drafts, similar, around, cfg, n);
    let names = entity_ids(input.entities, p.ids, input.named_only);
    let edges = ingested_edges(
        input.relations,
        names,
        input.relation_vecs,
        before.next_edge_id as int,
    );
    let pairs = choose|pairs: Seq<(NodeInfo, Vec<u32>)>| #[trigger]
        are_placed(pairs, input.drafts, input.vecs, p.added, around.next) && has_ingested(
            &now.inner,
            &before.inner,
            pairs,
            edges,
        );
    assert(firsts(pairs).len() == p.added.len());
    assert(edge_views(now.inner.new_edges@).len() == now.inner.new_edges@.len());
    assert(edge_views(before.inner.new_edges@).len() == before.inner.new_edges@.len());
    assert(pair_edges(edges).len() == edges.len());
    assert(before.inner.new_nodes@ =~= now.inner.new_nodes@.take(
        before.inner.new_nodes@.len() as int,
    ));
    assert(before.inner.new_vecs@ =~= now.inner.new_vecs@.take(
        before.inner.new_vecs@.len() as int,
    ));
}

/// As many entities are counted as have a string for a name.
pub proof fn law_named_entities_are_counted(entities: Seq<JsonTree>)
    ensures
        named_count(entities) == entities.filter(
            |t: JsonTree| member_of(t, "name"@) is Text,
        ).len(),
    decreases entities.len(),
{
    reveal(Seq::filter);
    if entities.len() > 0 {
        law_named_entities_are_counted(entities.drop_last());
    }
}

/// An ingestion looks at the nodes of the graph and at the new ones, and its ids go on from the next
/// free one of the store up to the last of its instance.
pub proof fn law_ingestion_looks_around(graph: &CsrGraph, store: &DeltaStore)
    ensures
        surroundings(graph, store).nodes == graph.nodes@,
        surroundings(graph, store).new_nodes == store.inner.new_nodes@,
        surroundings(graph, store).next == store.next_node_id,
        surroundings(graph, store).limit == store.instance_id * 0x100_0000 + 0xff_ffff,
{
}

/// What an ingestion adds stands behind what there was: the nodes with their vectors, and the edges
/// with theirs, in order.
pub proof fn law_added_entries_stand_behind(
    now: &DeltaGraph,
    before: &DeltaGraph,
    nodes: Seq<(NodeInfo, Vec<u32>)>,
    edges: Seq<(EdgeView, Seq<u32>)>,
)
    requires
        has_ingested(now, before, nodes, edges),
    ensures
        now.new_nodes@.len() == before.new_nodes@.len() + nodes.len(),
        now.new_vecs@.len() == before.new_vecs@.len() + nodes.len(),
        now.new_edges@.len() == before.new_edges@.len() + edges.len(),
        now.new_edge_vecs@.len() == before.new_edge_vecs@.len() + edges.len(),
        forall|i: int|
            0 <= i < nodes.len() ==> now.new_nodes@[before.new_nodes@.len() + i] == (
            #[trigger] nodes[i]).0 && now.new_vecs@[before.new_vecs@.len() + i] == nodes[i].1,
        forall|j: int|
            0 <= j < edges.len() ==> now.new_edges@[before.new_edges@.len() + j]@ == (
            #[trigger] edges[j]).0 && now.new_edge_vecs@[before.new_edge_vecs@.len() + j]@
                == edges[j].1,
        forall|i: int|
            0 <= i < before.new_nodes@.len() ==> #[trigger] now.new_nodes@[i]
                == before.new_nodes@[i],
        forall|j: int|
            0 <= j < before.new_edges@.len() ==> (#[trigger] now.new_edges@[j])@
                == before.new_edges@[j]@,
{
    let n = before.new_edges@.len() as int;
    assert(edge_views(now.new_edges@).len() == now.new_edges@.len());
    assert(edge_views(before.new_edges@).len() == n);
    assert(pair_edges(edges).len() == edges.len());
    assert(firsts(nodes).len() == nodes.len());
    assert(seconds(nodes).len() == nodes.len());
    assert forall|j: int| 0 <= j < edges.len() implies now.new_edges@[n + j]@ == (
    #[trigger] edges[j]).0 && now.new_edge_vecs@[before.new_edge_vecs@.len() + j]@
        == edges[j].1 by {
        assert(edge_views(now.new_edges@)[n + j] == now.new_edges@[n + j]@);
        assert(pair_edges(edges)[j] == edges[j].0);
    }
    assert forall|j: int| 0 <= j < n implies (#[trigger] now.new_edges@[j])@
        == before.new_edges@[j]@ by {
        assert(edge_views(now.new_edges@)[j] == now.new_edges@[j]@);
        assert(edge_views(before.new_edges@)[j] == before.new_edges@[j]@);
    }
    assert forall|i: int| 0 <= i < nodes.len() implies now.new_nodes@[before.new_nodes@.len() + i]
        == (#[trigger] nodes[i]).0 && now.new_vecs@[before.new_vecs@.len() + i] == nodes[i].1 by {
        assert(firsts(nodes)[i] == nodes[i].0);
        assert(seconds(nodes)[i] == nodes[i].1);
    }
}

/// A given node whose image was not stored keeps the address that it gave.
pub proof fn law_images_not_stored_keep_their_addresses(
    nodes: Seq<NodeInfo>,
    stored: Option<Seq<String>>,
    i: int,
)
    requires
        0 <= i < nodes.len(),
        stored is None || stored->0.len() <= given_images(nodes.take(i)).len(),
    ensures
        given_draft(nodes[i]@, stored_image(nodes, stored, i)).image_url == opt_text(
            nodes[i].image_url,
        ),
{
    lemma_given_count(nodes.take(i));
}

/// An ingestion that runs out of ids fails as an error of the server and adds nothing: only the ids
/// that it had taken for nodes are gone.
pub proof fn law_failed_ingestion_adds_nothing(
    now: &DeltaStore,
    before: &DeltaStore,
    e: ApiError,
    input: Ingestion,
    graph: &CsrGraph,
    similar: &Similarities,
    cfg: ResolutionConfig,
)
    requires
        is_ingestion(now, before, Err(e), input, graph, similar, cfg),
    ensures
        e is Internal,
        now.inner == before.inner,
        now.next_edge_id == before.next_edge_id,
        now.merge_threshold == before.merge_threshold,
        now.instance_id == before.instance_id,
        now.next_node_id >= before.next_node_id,
        placement(
            input.drafts,
            similar,
            surroundings(graph, before),
            cfg,
            shorter(input.vecs.len(), input.drafts.len()),
        ).stopped,
{
}

/// An ingestion that succeeds takes an id for each node and each edge that it adds, and changes no
/// setting of the store.
pub proof fn law_ingestion_takes_an_id_for_each_entry(
    now: &DeltaStore,
    before: &DeltaStore,
    response: IngestResponse,
    input: Ingestion,
    graph: &CsrGraph,
    similar: &Similarities,
    cfg: ResolutionConfig,
)
    requires
        is_ingestion(now, before, Ok(response), input, graph, similar, cfg),
    ensures
        now.next_node_id - before.next_node_id == now.inner.new_nodes@.len()
            - before.inner.new_nodes@.len(),
        now.next_edge_id - before.next_edge_id == now.inner.new_edges@.len()
            - before.inner.new_edges@.len(),
        now.merge_threshold == before.merge_threshold,
        now.instance_id == before.instance_id,
        response.message is None,
{
    law_ingestion_adds_what_it_reports(now, before, response, input, graph, similar, cfg);
    let around = surroundings(graph, before);
    let n = shorter(input.vecs.len(), input.drafts.len());
    let p = placement(input.drafts, similar, around, cfg, n);
    let names = entity_ids(input.entities, p.ids, input.named_only);
    let edges = ingested_edges(
        input.relations,
        names,
        input.relation_vecs,
        before.next_edge_id as int,
    );
    let pairs = choose|pairs: Seq<(NodeInfo, Vec<u32>)>| #[trigger]
        are_placed(pairs, input.drafts, input.vecs, p.added, around.next) && has_ingested(
            &now.inner,
            &before.inner,
            pairs,
            edges,
        );
    law_added_entries_stand_behind(&now.inner, &before.inner, pairs, edges);
}

} // verus!

//! Entity resolution: linking new entities to known nodes.
//!
//! An entity is one with a known node where their embeddings are similar enough. Known are the
//! nodes of the graph, those of the delta and those that the same batch has already added, in
//! this order.

use crate::delta::DeltaGraph;
use crate::float::{at_least, f32_at_least, f32_less, less};
use crate::graph::csr::{CsrGraph, NodeInfo};
use crate::text::same_text;
use vstd::prelude::*;

verus! {

// ── mode and configuration ───────────────────────────────────────────────────

#[derive(Clone, Copy, PartialEq, Eq, Structural, Debug)]
pub enum ResolutionMode {
    /// Every entity is a new node.
    Off,
    /// Entities are matched by the similarity of their embeddings.
    Embedding,
}

impl Default for ResolutionMode {
    fn default() -> (r: Self)
        ensures
            r == ResolutionMode::Embedding,
    {
        ResolutionMode::Embedding
    }
}

#[derive(Clone, Copy)]
pub struct ResolutionConfig {
    pub mode: ResolutionMode,
    /// The similarity from which two entities are one, as the bits of a single-precision number.
    pub threshold: u32,
    /// Whether only entities of one type are matched.
    pub match_type: bool,
}

impl Default for ResolutionConfig {
    /// Matching by embedding from 0.92 on, whatever the types.
    fn default() -> (r: Self)
        ensures
            r.mode == ResolutionMode::Embedding,
            r.threshold == 0x3f6b_851f,
            !r.match_type,
    {
        ResolutionConfig {
            mode: ResolutionMode::Embedding,
            threshold: 0x3f6b_851f,
            match_type: false,
        }
    }
}

/// What an entity was found to be.
#[derive(Clone, Copy, PartialEq, Eq, Structural, Debug)]
pub enum ResolveResult {
    /// A node with this id.
    Existing(u32),
    /// A new one.
    New,
}

// ── matching ─────────────────────────────────────────────────────────────────

/// A node of type `node_type`, at the similarity `sim`, is the same as an entity of type
/// `entity_type`.
pub open spec fn is_match(cfg: ResolutionConfig, entity_type: Seq<char>, node_type: Seq<char>, sim: u32) -> bool {
    f32_at_least(sim, cfg.threshold) && (!cfg.match_type || node_type == entity_type)
}

fn matches_entity(cfg: ResolutionConfig, entity_type: &str, node_type: &str, sim: u32) -> (r: bool)
    ensures
        r == is_match(cfg, entity_type@, node_type@, sim),
{
    at_least(sim, cfg.threshold) && (!cfg.match_type || same_text(node_type, entity_type))
}

/// The most similar of the matching hits in the graph, the last one of several.
pub open spec fn best_hit(
    cfg: ResolutionConfig,
    entity_type: Seq<char>,
    nodes: Seq<NodeInfo>,
    hits: Seq<(u32, u32)>,
) -> Option<(u32, u32)>
    decreases hits.len(),
{
    if hits.len() == 0 {
        None
    } else {
        let before = best_hit(cfg, entity_type, nodes, hits.drop_last());
        let (id, sim) = hits.last();
        if id < nodes.len() && is_match(cfg, entity_type, nodes[id as int].node_type@, sim) {
            match before {
                Some((_, best)) if f32_less(sim, best) => before,
                _ => Some((id, sim)),
            }
        } else {
            before
        }
    }
}


/// The place of the first matching node.
pub open spec fn first_match(
    cfg: ResolutionConfig,
    entity_type: Seq<char>,
    nodes: Seq<NodeInfo>,
    sims: Seq<u32>,
) -> Option<int>
    decreases nodes.len(),
{
    if nodes.len() == 0 {
        None
    } else {
        let before = first_match(cfg, entity_type, nodes.drop_last(), sims);
        let i = nodes.len() - 1;
        if before is Some {
            before
        } else if i < sims.len() && is_match(cfg, entity_type, nodes[i].node_type@, sims[i]) {
            Some(i)
        } else {
            None
        }
    }
}

/// The place of the most similar of the matching nodes, the last one of several.
pub open spec fn best_place(
    cfg: ResolutionConfig,
    entity_type: Seq<char>,
    nodes: Seq<NodeInfo>,
    sims: Seq<u32>,
) -> Option<int>
    decreases nodes.len(),
{
    if nodes.len() == 0 {
        None
    } else {
        let before = best_place(cfg, entity_type, nodes.drop_last(), sims);
        let i = nodes.len() - 1;
        if i < sims.len() && is_match(cfg, entity_type, nodes[i].node_type@, sims[i]) {
            match before {
                Some(j) if f32_less(sims[i], sims[j]) => before,
                _ => Some(i),
            }
        } else {
            before
        }
    }
}

/// The known node that an entity is, given the nodes that the index found near it with their
/// similarities, and the similarity of each node of the delta.
pub open spec fn resolution(
    cfg: ResolutionConfig,
    entity_type: Seq<char>,
    nodes: Seq<NodeInfo>,
    hits: Seq<(u32, u32)>,
    new_nodes: Seq<NodeInfo>,
    sims: Seq<u32>,
) -> ResolveResult {
    match cfg.mode {
        ResolutionMode::Off => ResolveResult::New,
        ResolutionMode::Embedding => match best_hit(cfg, entity_type, nodes, hits) {
            Some((id, _)) => ResolveResult::Existing(id),
            None => match best_place(cfg, entity_type, new_nodes, sims) {
                Some(i) => ResolveResult::Existing(new_nodes[i].id),
                None => ResolveResult::New,
            },
        },
    }
}

fn find_best_hit(
    cfg: ResolutionConfig,
    entity_type: &str,
    graph: &CsrGraph,
    hits: &Vec<(u32, u32)>,
) -> (r: Option<(u32, u32)>)
    ensures
        r == best_hit(cfg, entity_type@, graph.nodes@, hits@),
{
    let mut best: Option<(u32, u32)> = None;
    let mut i: usize = 0;
    while i < hits.len()
        invariant
            i <= hits@.len(),
            best == best_hit(cfg, entity_type@, graph.nodes@, hits@.take(i as int)),
        decreases hits@.len() - i,
    {
        proof {
            assert(hits@.take(i + 1).drop_last() =~= hits@.take(i as int));
            assert(hits@.take(i + 1).last() == hits@[i as int]);
        }
        let (id, sim) = hits[i];
        if (id as usize) < graph.nodes.len() && matches_entity(
            cfg,
            entity_type,
            graph.nodes[id as usize].node_type.as_str(),
            sim,
        ) {
            let keep: bool = match best {
                Some((_, s)) => less(sim, s),
                None => false,
            };
            if !keep {
                best = Some((id, sim));
            }
        }
        i += 1;
    }
    proof {
        assert(hits@.take(i as int) =~= hits@);
    }
    best
}

fn find_best_place(
    cfg: ResolutionConfig,
    entity_type: &str,
    nodes: &Vec<NodeInfo>,
    sims: &Vec<u32>,
) -> (r: Option<usize>)
    ensures
        match r {
            Some(i) => i < nodes@.len() && best_place(cfg, entity_type@, nodes@, sims@) == Some(
                i as int,
            ),
            None => best_place(cfg, entity_type@, nodes@, sims@) is None,
        },
{
    let mut best: Option<usize> = None;
    let mut i: usize = 0;
    while i < nodes.len()
        invariant
            i <= nodes@.len(),
            match best {
                Some(j) => j < i && j < sims@.len() && best_place(
                    cfg,
                    entity_type@,
                    nodes@.take(i as int),
                    sims@,
                ) == Some(j as int),
                None => best_place(cfg, entity_type@, nodes@.take(i as int), sims@) is None,
            },
        decreases nodes@.len() - i,
    {
        proof {
            assert(nodes@.take(i + 1).drop_last() =~= nodes@.take(i as int));
            assert(nodes@.take(i + 1).last() == nodes@[i as int]);
        }
        if i < sims.len() && matches_entity(
            cfg,
            entity_type,
            nodes[i].node_type.as_str(),
            sims[i],
        ) {
            let keep: bool = match best {
                Some(j) => less(sims[i], sims[j]),
                None => false,
            };
            if !keep {
                best = Some(i);
            }
        }
        i += 1;
    }
    proof {
        assert(nodes@.take(i as int) =~= nodes@);
    }
    best
}

/// Looks for the known node that an entity is. `hits` are nodes of the graph near the entity with
/// their similarities, `sims` the similarities of the nodes of the delta. A hit that is no node of
/// the graph is passed over.
pub fn resolve(
    entity_type: &str,
    hits: &Vec<(u32, u32)>,
    sims: &Vec<u32>,
    graph: &CsrGraph,
    delta: &DeltaGraph,
    cfg: ResolutionConfig,
) -> (r: ResolveResult)
    ensures
        r == resolution(cfg, entity_type@, graph.nodes@, hits@, delta.new_nodes@, sims@),
{
    match cfg.mode {
        ResolutionMode::Off => ResolveResult::New,
        ResolutionMode::Embedding => {
            match find_best_hit(cfg, entity_type, graph, hits) {
                Some((id, _)) => {
                    return ResolveResult::Existing(id);
                },
                None => {},
            }
            match find_best_place(cfg, entity_type, &delta.new_nodes, sims) {
                Some(i) => ResolveResult::Existing(delta.new_nodes[i].id),
                None => ResolveResult::New,
            }
        },
    }
}

/// The place of the node of a batch that an entity is: the first one that matches.
pub open spec fn batch_place(
    cfg: ResolutionConfig,
    entity_type: Seq<char>,
    nodes: Seq<NodeInfo>,
    sims: Seq<u32>,
) -> Option<int> {
    match cfg.mode {
        ResolutionMode::Off => None,
        ResolutionMode::Embedding => first_match(cfg, entity_type, nodes, sims),
    }
}

proof fn lemma_first_match_prefix(
    cfg: ResolutionConfig,
    entity_type: Seq<char>,
    nodes: Seq<NodeInfo>,
    sims: Seq<u32>,
    k: int,
)
    requires
        0 <= k <= nodes.len(),
        first_match(cfg, entity_type, nodes.take(k), sims) is Some,
    ensures
        first_match(cfg, entity_type, nodes, sims) == first_match(
            cfg,
            entity_type,
            nodes.take(k),
            sims,
        ),
    decreases nodes.len(),
{
    if k < nodes.len() {
        assert(nodes.drop_last().take(k) =~= nodes.take(k));
        lemma_first_match_prefix(cfg, entity_type, nodes.drop_last(), sims, k);
    } else {
        assert(nodes.take(k) =~= nodes);
    }
}

/// Looks for the node of a batch that an entity is. `sims` are the similarities of the nodes.
pub fn resolve_in_batch(
    entity_type: &str,
    batch: &Vec<NodeInfo>,
    sims: &Vec<u32>,
    cfg: ResolutionConfig,
) -> (r: Option<u32>)
    ensures
        match batch_place(cfg, entity_type@, batch@, sims@) {
            Some(i) => 0 <= i < batch@.len() && r == Some(batch@[i].id),
            None => r is None,
        },
{
    match cfg.mode {
        ResolutionMode::Off => None,
        ResolutionMode::Embedding => {
            let mut i: usize = 0;
            while i < batch.len()
                invariant
                    i <= batch@.len(),
                    cfg.mode == ResolutionMode::Embedding,
                    first_match(cfg, entity_type@, batch@.take(i as int), sims@) is None,
                decreases batch@.len() - i,
            {
                proof {
                    assert(batch@.take(i + 1).drop_last() =~= batch@.take(i as int));
                    assert(batch@.take(i + 1).last() == batch@[i as int]);
                }
                if i < sims.len() && matches_entity(
                    cfg,
                    entity_type,
                    batch[i].node_type.as_str(),
                    sims[i],
                ) {
                    proof {
                        assert(first_match(cfg, entity_type@, batch@.take(i + 1), sims@) == Some(
                            i as int,
                        ));
                        lemma_first_match_prefix(cfg, entity_type@, batch@, sims@, i + 1);
                    }
                    return Some(batch[i].id);
                }
                i += 1;
            }
            proof {
                assert(batch@.take(i as int) =~= batch@);
            }
            None
        },
    }
}

// ── laws ─────────────────────────────────────────────────────────────────────

proof fn lemma_best_place_matches(
    cfg: ResolutionConfig,
    entity_type: Seq<char>,
    nodes: Seq<NodeInfo>,
    sims: Seq<u32>,
)
    ensures
        best_place(cfg, entity_type, nodes, sims) matches Some(i) ==> {
            &&& 0 <= i < nodes.len()
            &&& i < sims.len()
            &&& is_match(cfg, entity_type, nodes[i].node_type@, sims[i])
        },
    decreases nodes.len(),
{
    if nodes.len() > 0 {
        lemma_best_place_matches(cfg, entity_type, nodes.drop_last(), sims);
    }
}

proof fn lemma_best_hit(
    cfg: ResolutionConfig,
    entity_type: Seq<char>,
    nodes: Seq<NodeInfo>,
    hits: Seq<(u32, u32)>,
    i: int,
)
    ensures
        best_hit(cfg, entity_type, nodes, hits) matches Some((id, sim)) ==> {
            &&& id < nodes.len()
            &&& is_match(cfg, entity_type, nodes[id as int].node_type@, sim)
            &&& hits.contains((id, sim))
        },
        0 <= i < hits.len() && hits[i].0 < nodes.len() && is_match(
            cfg,
            entity_type,
            nodes[hits[i].0 as int].node_type@,
            hits[i].1,
        ) ==> (best_hit(cfg, entity_type, nodes, hits) matches Some((_, sim)) && f32_at_least(
            sim,
            hits[i].1,
        )),
    decreases hits.len(),
{
    if hits.len() > 0 {
        let before = hits.drop_last();
        lemma_best_hit(cfg, entity_type, nodes, before, i);
        match best_hit(cfg, entity_type, nodes, before) {
            Some(b) => {
                let j = before.index_of(b);
                assert(hits[j] == b);
            },
            None => {},
        }
        assert(hits[hits.len() - 1] == hits.last());
        if 0 <= i < before.len() {
            assert(before[i] == hits[i]);
        }
    }
}

/// A node of the graph that an entity is resolved to is at least as similar to it as the threshold
/// asks, and no matching hit is more similar.
pub proof fn law_resolved_node_is_most_similar(
    cfg: ResolutionConfig,
    entity_type: Seq<char>,
    nodes: Seq<NodeInfo>,
    hits: Seq<(u32, u32)>,
    i: int,
)
    requires
        best_hit(cfg, entity_type, nodes, hits) is Some,
        0 <= i < hits.len(),
        hits[i].0 < nodes.len(),
        is_match(cfg, entity_type, nodes[hits[i].0 as int].node_type@, hits[i].1),
    ensures
        ({
            let (id, sim) = best_hit(cfg, entity_type, nodes, hits)->0;
            &&& hits.contains((id, sim))
            &&& f32_at_least(sim, cfg.threshold)
            &&& f32_at_least(sim, hits[i].1)
        }),
{
    lemma_best_hit(cfg, entity_type, nodes, hits, i);
}

/// The same for a node of the delta.
pub proof fn law_resolved_new_node_is_most_similar(
    cfg: ResolutionConfig,
    entity_type: Seq<char>,
    nodes: Seq<NodeInfo>,
    sims: Seq<u32>,
    i: int,
)
    requires
        0 <= i < nodes.len(),
        i < sims.len(),
        is_match(cfg, entity_type, nodes[i].node_type@, sims[i]),
    ensures
        best_place(cfg, entity_type, nodes, sims) matches Some(best) && {
            &&& 0 <= best < nodes.len()
            &&& best < sims.len()
            &&& is_match(cfg, entity_type, nodes[best].node_type@, sims[best])
            &&& f32_at_least(sims[best], sims[i])
        },
    decreases nodes.len(),
{
    let before = nodes.drop_last();
    lemma_best_place_matches(cfg, entity_type, before, sims);
    if i < before.len() {
        law_resolved_new_node_is_most_similar(cfg, entity_type, before, sims, i);
    }
}

/// The id that an entity is resolved to is that of a node of the graph or of the delta.
pub proof fn lemma_resolved_id(
    cfg: ResolutionConfig,
    entity_type: Seq<char>,
    nodes: Seq<NodeInfo>,
    hits: Seq<(u32, u32)>,
    new_nodes: Seq<NodeInfo>,
    sims: Seq<u32>,
)
    ensures
        resolution(cfg, entity_type, nodes, hits, new_nodes, sims) matches ResolveResult::Existing(
            id,
        ) ==> id < nodes.len() || exists|j: int|
            0 <= j < new_nodes.len() && (#[trigger] new_nodes[j]).id == id,
{
    lemma_best_hit(cfg, entity_type, nodes, hits, 0);
    lemma_best_place_matches(cfg, entity_type, new_nodes, sims);
}

/// The place that an entity has in a batch is one of the batch.
pub proof fn lemma_batch_place_range(
    cfg: ResolutionConfig,
    entity_type: Seq<char>,
    nodes: Seq<NodeInfo>,
    sims: Seq<u32>,
)
    ensures
        batch_place(cfg, entity_type, nodes, sims) matches Some(q) ==> 0 <= q < nodes.len(),
    decreases nodes.len(),
{
    if nodes.len() > 0 {
        lemma_batch_place_range(cfg, entity_type, nodes.drop_last(), sims);
    }
}

/// Where types must match, an entity is only resolved to a node of its own type.
pub proof fn law_types_match(
    cfg: ResolutionConfig,
    entity_type: Seq<char>,
    nodes: Seq<NodeInfo>,
    hits: Seq<(u32, u32)>,
    new_nodes: Seq<NodeInfo>,
    sims: Seq<u32>,
)
    requires
        cfg.match_type,
    ensures
        match resolution(cfg, entity_type, nodes, hits, new_nodes, sims) {
            ResolveResult::Existing(id) => (id < nodes.len() && nodes[id as int].node_type@
                == entity_type) || exists|j: int|
                0 <= j < new_nodes.len() && (#[trigger] new_nodes[j]).id == id
                    && new_nodes[j].node_type@ == entity_type,
            ResolveResult::New => true,
        },
{
    lemma_best_hit(cfg, entity_type, nodes, hits, 0);
    lemma_best_place_matches(cfg, entity_type, new_nodes, sims);
}

/// The hit at `i` is a node that the entity may be: near enough, and of its type where types must
/// match.
pub open spec fn hit_fits(
    cfg: ResolutionConfig,
    entity_type: Seq<char>,
    nodes: Seq<NodeInfo>,
    hits: Seq<(u32, u32)>,
    i: int,
) -> bool {
    &&& 0 <= i < hits.len()
    &&& hits[i].0 < nodes.len()
    &&& f32_at_least(hits[i].1, cfg.threshold)
    &&& cfg.match_type ==> nodes[hits[i].0 as int].node_type@ == entity_type
}

/// The same for the node at `j` of a list with its similarities.
pub open spec fn node_fits(
    cfg: ResolutionConfig,
    entity_type: Seq<char>,
    nodes: Seq<NodeInfo>,
    sims: Seq<u32>,
    j: int,
) -> bool {
    &&& 0 <= j < nodes.len()
    &&& j < sims.len()
    &&& f32_at_least(sims[j], cfg.threshold)
    &&& cfg.match_type ==> nodes[j].node_type@ == entity_type
}

/// The hit at `i` is the best fitting one: none is more similar, and none after it as similar.
pub open spec fn is_nearest_hit(
    cfg: ResolutionConfig,
    entity_type: Seq<char>,
    nodes: Seq<NodeInfo>,
    hits: Seq<(u32, u32)>,
    i: int,
) -> bool {
    &&& hit_fits(cfg, entity_type, nodes, hits, i)
    &&& forall|k: int| #[trigger]
        hit_fits(cfg, entity_type, nodes, hits, k) ==> f32_at_least(hits[i].1, hits[k].1)
    &&& forall|k: int|
        k > i && #[trigger] hit_fits(cfg, entity_type, nodes, hits, k) ==> f32_less(
            hits[k].1,
            hits[i].1,
        )
}

/// The same for the node at `j` of a list with its similarities.
pub open spec fn is_nearest_node(
    cfg: ResolutionConfig,
    entity_type: Seq<char>,
    nodes: Seq<NodeInfo>,
    sims: Seq<u32>,
    j: int,
) -> bool {
    &&& node_fits(cfg, entity_type, nodes, sims, j)
    &&& forall|k: int| #[trigger]
        node_fits(cfg, entity_type, nodes, sims, k) ==> f32_at_least(sims[j], sims[k])
    &&& forall|k: int|
        k > j && #[trigger] node_fits(cfg, entity_type, nodes, sims, k) ==> f32_less(
            sims[k],
            sims[j],
        )
}

proof fn lemma_nearest_hit(
    cfg: ResolutionConfig,
    entity_type: Seq<char>,
    nodes: Seq<NodeInfo>,
    hits: Seq<(u32, u32)>,
)
    ensures
        match best_hit(cfg, entity_type, nodes, hits) {
            Some(b) => exists|i: int| #[trigger]
                is_nearest_hit(cfg, entity_type, nodes, hits, i) && hits[i] == b,
            None => forall|k: int| !#[trigger] hit_fits(cfg, entity_type, nodes, hits, k),
        },
    decreases hits.len(),
{
    if hits.len() > 0 {
        let rest = hits.drop_last();
        let last = hits.len() - 1;
        lemma_nearest_hit(cfg, entity_type, nodes, rest);
        assert forall|k: int| k != last implies #[trigger] hit_fits(
            cfg,
            entity_type,
            nodes,
            hits,
            k,
        ) == hit_fits(cfg, entity_type, nodes, rest, k) by {
            if 0 <= k < last {
                assert(rest[k] == hits[k]);
            }
        }
        let fits = hit_fits(cfg, entity_type, nodes, hits, last);
        match best_hit(cfg, entity_type, nodes, rest) {
            Some(b) => {
                let i = choose|i: int| #[trigger]
                    is_nearest_hit(cfg, entity_type, nodes, rest, i) && rest[i] == b;
                assert(hit_fits(cfg, entity_type, nodes, rest, i));
                assert(hits[i] == b);
                assert(hit_fits(cfg, entity_type, nodes, hits, i));
                assert forall|k: int|
                    k != last && #[trigger] hit_fits(
                        cfg,
                        entity_type,
                        nodes,
                        hits,
                        k,
                    ) implies f32_at_least(b.1, hits[k].1) && (k > i ==> f32_less(hits[k].1, b.1)) by {
                    assert(hit_fits(cfg, entity_type, nodes, rest, k));
                    assert(rest[k] == hits[k]);
                }
                if fits && !f32_less(hits[last].1, b.1) {
                    assert(is_nearest_hit(cfg, entity_type, nodes, hits, last));
                } else {
                    assert(is_nearest_hit(cfg, entity_type, nodes, hits, i));
                }
            },
            None => {
                if fits {
                    assert(is_nearest_hit(cfg, entity_type, nodes, hits, last));
                }
            },
        }
    }
}

proof fn lemma_nearest_node(
    cfg: ResolutionConfig,
    entity_type: Seq<char>,
    nodes: Seq<NodeInfo>,
    sims: Seq<u32>,
)
    ensures
        match best_place(cfg, entity_type, nodes, sims) {
            Some(j) => is_nearest_node(cfg, entity_type, nodes, sims, j),
            None => forall|k: int| !#[trigger] node_fits(cfg, entity_type, nodes, sims, k),
        },
    decreases nodes.len(),
{
    if nodes.len() > 0 {
        let rest = nodes.drop_last();
        let last = nodes.len() - 1;
        lemma_nearest_node(cfg, entity_type, rest, sims);
        assert forall|k: int| k != last implies #[trigger] node_fits(
            cfg,
            entity_type,
            nodes,
            sims,
            k,
        ) == node_fits(cfg, entity_type, rest, sims, k) by {
            if 0 <= k < last {
                assert(rest[k] == nodes[k]);
            }
        }
        let fits = node_fits(cfg, entity_type, nodes, sims, last);
        match best_place(cfg, entity_type, rest, sims) {
            Some(j) => {
                assert(node_fits(cfg, entity_type, nodes, sims, j));
                assert forall|k: int|
                    k != last && #[trigger] node_fits(
                        cfg,
                        entity_type,
                        nodes,
                        sims,
                        k,
                    ) implies f32_at_least(sims[j], sims[k]) && (k > j ==> f32_less(
                    sims[k],
                    sims[j],
                )) by {
                    assert(node_fits(cfg, entity_type, rest, sims, k));
                }
            },
            None => {},
        }
    }
}

/// An entity is resolved to the most similar of the hits in the graph that fit it, the last one of
/// several. Where none fits, it is the most similar of the new nodes that fit, by that node's own
/// id; and where none of these does either, or matching is off, it is new.
pub proof fn law_entity_is_the_most_similar_known_node(
    cfg: ResolutionConfig,
    entity_type: Seq<char>,
    nodes: Seq<NodeInfo>,
    hits: Seq<(u32, u32)>,
    new_nodes: Seq<NodeInfo>,
    sims: Seq<u32>,
)
    ensures
        ({
            let r = resolution(cfg, entity_type, nodes, hits, new_nodes, sims);
            let in_graph = exists|k: int| #[trigger] hit_fits(cfg, entity_type, nodes, hits, k);
            let in_delta = exists|k: int| #[trigger]
                node_fits(cfg, entity_type, new_nodes, sims, k);
            &&& cfg.mode == ResolutionMode::Off ==> r == ResolveResult::New
            &&& cfg.mode == ResolutionMode::Embedding && in_graph ==> exists|i: int| #[trigger]
                is_nearest_hit(cfg, entity_type, nodes, hits, i) && r == ResolveResult::Existing(
                    hits[i].0,
                )
            &&& cfg.mode == ResolutionMode::Embedding && !in_graph && in_delta ==> exists|j: int|
             #[trigger]
                is_nearest_node(cfg, entity_type, new_nodes, sims, j) && r
                    == ResolveResult::Existing(new_nodes[j].id)
            &&& cfg.mode == ResolutionMode::Embedding && !in_graph && !in_delta ==> r
                == ResolveResult::New
        }),
{
    lemma_nearest_hit(cfg, entity_type, nodes, hits);
    lemma_nearest_node(cfg, entity_type, new_nodes, sims);
    match best_hit(cfg, entity_type, nodes, hits) {
        Some(b) => {
            let i = choose|i: int| #[trigger]
                is_nearest_hit(cfg, entity_type, nodes, hits, i) && hits[i] == b;
            assert(hit_fits(cfg, entity_type, nodes, hits, i));
        },
        None => {
            match best_place(cfg, entity_type, new_nodes, sims) {
                Some(j) => {
                    assert(is_nearest_node(cfg, entity_type, new_nodes, sims, j));
                    assert(node_fits(cfg, entity_type, new_nodes, sims, j));
                },
                None => {},
            }
        },
    }
}

/// Within a batch an entity is the first node that fits it, and where one fits, it is one.
pub proof fn law_entity_is_the_first_fitting_node_of_its_batch(
    cfg: ResolutionConfig,
    entity_type: Seq<char>,
    nodes: Seq<NodeInfo>,
    sims: Seq<u32>,
)
    ensures
        match batch_place(cfg, entity_type, nodes, sims) {
            Some(q) => cfg.mode == ResolutionMode::Embedding && node_fits(
                cfg,
                entity_type,
                nodes,
                sims,
                q,
            ) && forall|k: int|
                0 <= k < q ==> !#[trigger] node_fits(cfg, entity_type, nodes, sims, k),
            None => cfg.mode == ResolutionMode::Off || forall|k: int|
                !#[trigger] node_fits(cfg, entity_type, nodes, sims, k),
        },
    decreases nodes.len(),
{
    if nodes.len() > 0 {
        let rest = nodes.drop_last();
        let last = nodes.len() - 1;
        law_entity_is_the_first_fitting_node_of_its_batch(cfg, entity_type, rest, sims);
        assert forall|k: int| k != last implies #[trigger] node_fits(
            cfg,
            entity_type,
            nodes,
            sims,
            k,
        ) == node_fits(cfg, entity_type, rest, sims, k) by {
            if 0 <= k < last {
                assert(rest[k] == nodes[k]);
            }
        }
    }
}

} // verus!

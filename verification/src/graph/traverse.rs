//! Breadth-first expansion.

use crate::float::F32_ONE;
use crate::graph::csr::{lemma_in_nodes_range, lemma_out_edges_range, CsrGraph, EdgeInfo};
use crate::query::first_occurrences;
use std::collections::HashSet;
use vstd::prelude::*;

verus! {

broadcast use vstd::std_specs::hash::group_hash_axioms;

/// One node that an expansion found: its id, its distance in hops, and the weight of the edge that
/// first reached it.
pub type Visit = (u32, u8, u32);

/// The list holds a visit of node `id`.
pub open spec fn found(list: Seq<Visit>, id: u32) -> bool {
    exists|j: int| 0 <= j < list.len() && (#[trigger] list[j]).0 == id
}

/// The neighbours of node `i` with the weights of the edges to them: the ends of its out-edges,
/// and with `bidirectional` the starts of its in-edges, with weight 1.0.
pub open spec fn links(g: &CsrGraph, i: int, bidirectional: bool) -> Seq<(u32, u32)> {
    let forward = g.out_edges(i).map_values(|e: EdgeInfo| (e.to, e.weight));
    if bidirectional {
        forward + g.in_nodes(i).map_values(|v: u32| (v, F32_ONE))
    } else {
        forward
    }
}

/// The distinct seeds in order of first occurrence, at hop 0 and with weight 1.0.
pub open spec fn starts(seeds: Seq<u32>) -> Seq<Visit>
    decreases seeds.len(),
{
    if seeds.len() == 0 {
        Seq::empty()
    } else {
        let before = starts(seeds.drop_last());
        if found(before, seeds.last()) {
            before
        } else {
            before.push((seeds.last(), 0u8, F32_ONE))
        }
    }
}

/// `list` with the neighbours that it does not hold yet added at hop `hop`, in order, while it is
/// shorter than `limit`.
pub open spec fn discover(list: Seq<Visit>, links: Seq<(u32, u32)>, hop: u8, limit: nat) -> Seq<
    Visit,
>
    decreases links.len(),
{
    if links.len() == 0 {
        list
    } else {
        let before = discover(list, links.drop_last(), hop, limit);
        if before.len() >= limit || found(before, links.last().0) {
            before
        } else {
            before.push((links.last().0, hop, links.last().1))
        }
    }
}

/// What an expansion has found once the first `k` nodes that it found have been expanded. A node
/// at `max_depth` hops is not expanded, and nothing is once `limit` nodes have been found.
pub open spec fn expansion(
    g: &CsrGraph,
    seeds: Seq<u32>,
    max_depth: u8,
    limit: nat,
    bidirectional: bool,
    k: nat,
) -> Seq<Visit>
    decreases k,
{
    if k == 0 {
        starts(seeds)
    } else {
        let list = expansion(g, seeds, max_depth, limit, bidirectional, (k - 1) as nat);
        if k - 1 < list.len() && list.len() < limit && list[k - 1].1 < max_depth {
            discover(
                list,
                links(g, list[k - 1].0 as int, bidirectional),
                (list[k - 1].1 + 1) as u8,
                limit,
            )
        } else {
            list
        }
    }
}

// ── discovery ────────────────────────────────────────────────────────────────

pub open spec fn distinct(list: Seq<Visit>) -> bool {
    forall|i: int, j: int|
        0 <= i < j < list.len() ==> (#[trigger] list[i]).0 != (#[trigger] list[j]).0
}

proof fn lemma_starts(seeds: Seq<u32>)
    ensures
        distinct(starts(seeds)),
        starts(seeds).len() <= seeds.len(),
        forall|id: u32| found(starts(seeds), id) <==> seeds.contains(id),
        forall|j: int|
            0 <= j < starts(seeds).len() ==> (#[trigger] starts(seeds)[j]).1 == 0
                && starts(seeds)[j].2 == F32_ONE,
    decreases seeds.len(),
{
    if seeds.len() > 0 {
        let rest = seeds.drop_last();
        lemma_starts(rest);
        assert forall|id: u32| found(starts(seeds), id) <==> seeds.contains(id) by {
            if seeds.contains(id) {
                let j = seeds.index_of(id);
                if j < rest.len() {
                    assert(rest[j] == id);
                    assert(rest.contains(id));
                    let q = choose|q: int|
                        0 <= q < starts(rest).len() && (#[trigger] starts(rest)[q]).0 == id;
                    assert(starts(seeds)[q].0 == id);
                } else if !found(starts(rest), id) {
                    assert(starts(seeds)[starts(rest).len() as int].0 == id);
                } else {
                    let q = choose|q: int|
                        0 <= q < starts(rest).len() && (#[trigger] starts(rest)[q]).0 == id;
                    assert(starts(seeds)[q].0 == id);
                }
            }
            if found(starts(seeds), id) {
                let q = choose|q: int|
                    0 <= q < starts(seeds).len() && (#[trigger] starts(seeds)[q]).0 == id;
                if q < starts(rest).len() {
                    assert(starts(rest)[q].0 == id);
                    assert(rest.contains(id));
                    let j = rest.index_of(id);
                    assert(seeds[j] == id);
                } else {
                    assert(seeds[seeds.len() - 1] == id);
                }
            }
        }
    }
}

/// What discovery adds: the list grows at its end, by distinct new neighbours at the given hop, up
/// to the limit; and short of the limit it then holds every neighbour.
proof fn lemma_discover(list: Seq<Visit>, links: Seq<(u32, u32)>, hop: u8, limit: nat)
    requires
        distinct(list),
    ensures
        ({
            let r = discover(list, links, hop, limit);
            &&& distinct(r)
            &&& list.len() <= r.len()
            &&& r.take(list.len() as int) == list
            &&& r.len() <= limit || r == list
            &&& forall|j: int|
                list.len() <= j < r.len() ==> (#[trigger] r[j]).1 == hop && !found(list, r[j].0)
                    && links.contains((r[j].0, r[j].2))
            &&& r.len() < limit ==> forall|q: int|
                0 <= q < links.len() ==> found(r, (#[trigger] links[q]).0)
        }),
    decreases links.len(),
{
    let r = discover(list, links, hop, limit);
    if links.len() == 0 {
        assert(r.take(list.len() as int) =~= list);
    } else {
        let rest = links.drop_last();
        let before = discover(list, rest, hop, limit);
        lemma_discover(list, rest, hop, limit);
        assert(r.take(list.len() as int) =~= before.take(list.len() as int));
        assert forall|j: int| list.len() <= j < r.len() implies (#[trigger] r[j]).1 == hop
            && !found(list, r[j].0) && links.contains((r[j].0, r[j].2)) by {
            if j < before.len() {
                let q = rest.index_of((before[j].0, before[j].2));
                assert(rest.contains((before[j].0, before[j].2)));
                assert(links[q] == rest[q]);
            } else {
                assert(links[links.len() - 1] == (r[j].0, r[j].2));
                if found(list, r[j].0) {
                    let q = choose|q: int|
                        0 <= q < list.len() && (#[trigger] list[q]).0 == r[j].0;
                    assert(before.take(list.len() as int)[q] == before[q]);
                    assert(before[q].0 == r[j].0);
                }
            }
        }
        if r.len() < limit {
            assert forall|q: int| 0 <= q < links.len() implies found(r, (#[trigger] links[q]).0) by {
                if q < rest.len() {
                    assert(rest[q] == links[q]);
                    assert(found(before, links[q].0));
                    let p = choose|p: int|
                        0 <= p < before.len() && (#[trigger] before[p]).0 == links[q].0;
                    assert(r[p].0 == links[q].0);
                } else if found(before, links[q].0) {
                    let p = choose|p: int|
                        0 <= p < before.len() && (#[trigger] before[p]).0 == links[q].0;
                    assert(r[p].0 == links[q].0);
                } else {
                    assert(r[before.len() as int].0 == links[q].0);
                }
            }
        }
    }
}

/// Discovery adds nothing once the limit is reached.
proof fn lemma_discover_full(
    list: Seq<Visit>,
    links: Seq<(u32, u32)>,
    hop: u8,
    limit: nat,
    j: int,
)
    requires
        0 <= j <= links.len(),
        discover(list, links.take(j), hop, limit).len() >= limit,
    ensures
        discover(list, links, hop, limit) == discover(list, links.take(j), hop, limit),
    decreases links.len(),
{
    if j < links.len() {
        assert(links.drop_last().take(j) =~= links.take(j));
        lemma_discover_full(list, links.drop_last(), hop, limit, j);
    } else {
        assert(links.take(j) =~= links);
    }
}

proof fn lemma_discover_step(
    list: Seq<Visit>,
    links: Seq<(u32, u32)>,
    hop: u8,
    limit: nat,
    j: int,
)
    requires
        0 <= j < links.len(),
    ensures
        discover(list, links.take(j + 1), hop, limit) == ({
            let before = discover(list, links.take(j), hop, limit);
            if before.len() >= limit || found(before, links[j].0) {
                before
            } else {
                before.push((links[j].0, hop, links[j].1))
            }
        }),
{
    assert(links.take(j + 1).drop_last() =~= links.take(j));
}

// ── expansion ────────────────────────────────────────────────────────────────

/// A list of distinct numbers below `n` has at most `n` of them.
proof fn lemma_distinct_below(ids: Seq<u32>, n: nat)
    requires
        ids.no_duplicates(),
        forall|j: int| 0 <= j < ids.len() ==> #[trigger] ids[j] < n,
    ensures
        ids.len() <= n,
{
    let wide = ids.map_values(|v: u32| v as int);
    assert(wide.no_duplicates());
    wide.unique_seq_to_set();
    let all = vstd::set_lib::set_int_range(0, n as int);
    vstd::set_lib::lemma_int_range(0, n as int);
    assert(wide.to_set().subset_of(all)) by {
        assert forall|x: int| wide.to_set().contains(x) implies all.contains(x) by {
            let j = wide.index_of(x);
            assert(wide[j] == ids[j]);
        }
    }
    vstd::set_lib::lemma_len_subset(wide.to_set(), all);
}

/// The neighbours of a node are nodes of the graph.
proof fn lemma_links_range(g: &CsrGraph, i: int, bidirectional: bool, link: (u32, u32))
    requires
        g.wf(),
        links(g, i, bidirectional).contains(link),
    ensures
        link.0 < g.nodes@.len(),
{
    broadcast use lemma_out_edges_range, lemma_in_nodes_range;

    let all = links(g, i, bidirectional);
    let q = all.index_of(link);
    if q < g.out_edges(i).len() {
        assert(all[q].0 == g.out_edges(i)[q].to);
    } else {
        assert(all[q].0 == g.in_nodes(i)[q - g.out_edges(i).len()]);
    }
}

/// Every state of an expansion holds distinct nodes, begins with the seeds, adds only nodes of the
/// graph to them, and stays within the limit.
pub proof fn lemma_expansion(
    g: &CsrGraph,
    seeds: Seq<u32>,
    max_depth: u8,
    limit: nat,
    bidirectional: bool,
    k: nat,
)
    requires
        g.wf(),
    ensures
        ({
            let list = expansion(g, seeds, max_depth, limit, bidirectional, k);
            let first = starts(seeds).len();
            &&& distinct(list)
            &&& first <= list.len() <= first + g.nodes@.len()
            &&& list.take(first as int) == starts(seeds)
            &&& list.len() <= limit || list == starts(seeds)
            &&& forall|j: int| first <= j < list.len() ==> (#[trigger] list[j]).0 < g.nodes@.len()
        }),
    decreases k,
{
    lemma_starts(seeds);
    let list = expansion(g, seeds, max_depth, limit, bidirectional, k);
    let first = starts(seeds).len();
    if k == 0 {
        assert(list.take(first as int) =~= starts(seeds));
    } else {
        lemma_expansion(g, seeds, max_depth, limit, bidirectional, (k - 1) as nat);
        let before = expansion(g, seeds, max_depth, limit, bidirectional, (k - 1) as nat);
        if k - 1 < before.len() && before.len() < limit && before[k - 1].1 < max_depth {
            let near = links(g, before[k - 1].0 as int, bidirectional);
            let hop = (before[k - 1].1 + 1) as u8;
            lemma_discover(before, near, hop, limit);
            assert(list.take(first as int) =~= list.take(before.len() as int).take(first as int));
            assert forall|j: int| first <= j < list.len() implies (#[trigger] list[j]).0
                < g.nodes@.len() by {
                if j < before.len() {
                    assert(list.take(before.len() as int)[j] == before[j]);
                } else {
                    lemma_links_range(
                        g,
                        before[k - 1].0 as int,
                        bidirectional,
                        (list[j].0, list[j].2),
                    );
                }
            }
        }
    }
    let ids = list.skip(first as int).map_values(|v: Visit| v.0);
    assert forall|i: int, j: int|
        0 <= i < ids.len() && 0 <= j < ids.len() && i != j implies ids[i] != ids[j] by {
        assert(ids[i] == list[first + i].0);
        assert(ids[j] == list[first + j].0);
    }
    assert forall|j: int| 0 <= j < ids.len() implies #[trigger] ids[j] < g.nodes@.len() by {
        assert(ids[j] == list[first + j].0);
    }
    lemma_distinct_below(ids, g.nodes@.len());
}

/// Once every node that was found has been expanded, or the limit is reached, the expansion is
/// complete: nothing more is added.
proof fn lemma_expansion_stable(
    g: &CsrGraph,
    seeds: Seq<u32>,
    max_depth: u8,
    limit: nat,
    bidirectional: bool,
    k: nat,
    later: nat,
)
    requires
        k <= later,
        ({
            let list = expansion(g, seeds, max_depth, limit, bidirectional, k);
            k >= list.len() || list.len() >= limit
        }),
    ensures
        expansion(g, seeds, max_depth, limit, bidirectional, later) == expansion(
            g,
            seeds,
            max_depth,
            limit,
            bidirectional,
            k,
        ),
    decreases later,
{
    if k < later {
        lemma_expansion_stable(g, seeds, max_depth, limit, bidirectional, k, (later - 1) as nat);
    }
}

/// The ids of `list` are those in `ids`.
spec fn ids_are(list: Seq<Visit>, ids: Set<u32>) -> bool {
    forall|id: u32| #[trigger] ids.contains(id) <==> found(list, id)
}

proof fn lemma_ids_push(list: Seq<Visit>, ids: Set<u32>, v: Visit)
    requires
        ids_are(list, ids),
    ensures
        ids_are(list.push(v), ids.insert(v.0)),
{
    assert forall|id: u32| #[trigger] ids.insert(v.0).contains(id) <==> found(list.push(v), id) by {
        if found(list, id) {
            let j = choose|j: int| 0 <= j < list.len() && (#[trigger] list[j]).0 == id;
            assert(list.push(v)[j].0 == id);
        }
        if id == v.0 {
            assert(list.push(v)[list.len() as int].0 == id);
        }
        if found(list.push(v), id) {
            let j = choose|j: int|
                0 <= j < list.push(v).len() && (#[trigger] list.push(v)[j]).0 == id;
            if j < list.len() {
                assert(list[j].0 == id);
            }
        }
    }
}

/// Adds the neighbours `ids[j]` with weights `weight_of[j]` (1.0 without weights) that `list` does
/// not hold yet, while it is shorter than `limit`.
fn add_links(
    list: &mut Vec<Visit>,
    visited: &mut HashSet<u32>,
    ids: &[u32],
    weight_of: Option<&[u32]>,
    hop: u8,
    limit: usize,
    Ghost(near): Ghost<Seq<(u32, u32)>>,
)
    requires
        near.len() == ids@.len(),
        weight_of matches Some(w) ==> w@.len() == ids@.len(),
        forall|j: int|
            0 <= j < near.len() ==> #[trigger] near[j] == (
                ids@[j],
                match weight_of {
                    Some(w) => w@[j],
                    None => F32_ONE,
                },
            ),
        ids_are(old(list)@, old(visited)@),
    ensures
        final(list)@ == discover(old(list)@, near, hop, limit as nat),
        ids_are(final(list)@, final(visited)@),
{
    let ghost given = list@;
    let mut j: usize = 0;
    proof {
        assert(near.take(0) =~= Seq::empty());
    }
    while j < ids.len() && list.len() < limit
        invariant
            j <= ids@.len() == near.len(),
            weight_of matches Some(w) ==> w@.len() == ids@.len(),
            forall|j: int|
                0 <= j < near.len() ==> #[trigger] near[j] == (
                    ids@[j],
                    match weight_of {
                        Some(w) => w@[j],
                        None => F32_ONE,
                    },
                ),
            list@ == discover(given, near.take(j as int), hop, limit as nat),
            ids_are(list@, visited@),
        decreases ids@.len() - j,
    {
        proof {
            lemma_discover_step(given, near, hop, limit as nat, j as int);
        }
        let id: u32 = ids[j];
        let w: u32 = match weight_of {
            Some(w) => w[j],
            None => F32_ONE,
        };
        let ghost before = visited@;
        if visited.insert(id) {
            proof {
                lemma_ids_push(list@, before, (id, hop, w));
            }
            list.push((id, hop, w));
        } else {
            proof {
                assert(visited@ =~= before);
            }
        }
        j += 1;
    }
    proof {
        if j < ids@.len() {
            lemma_discover_full(given, near, hop, limit as nat, j as int);
        } else {
            assert(near.take(j as int) =~= near);
        }
    }
}

proof fn lemma_discover_concat(
    list: Seq<Visit>,
    a: Seq<(u32, u32)>,
    b: Seq<(u32, u32)>,
    hop: u8,
    limit: nat,
)
    ensures
        discover(list, a + b, hop, limit) == discover(discover(list, a, hop, limit), b, hop, limit),
    decreases b.len(),
{
    if b.len() == 0 {
        assert(a + b =~= a);
    } else {
        assert((a + b).drop_last() =~= a + b.drop_last());
        lemma_discover_concat(list, a, b.drop_last(), hop, limit);
    }
}

impl CsrGraph {
    /// Breadth-first expansion from seed nodes up to `max_depth` hops, in the order of discovery.
    ///
    /// With `bidirectional` it also runs against the direction of the edges.
    pub fn bfs_expand(
        &self,
        seeds: &[u32],
        max_depth: u8,
        max_nodes: usize,
        bidirectional: bool,
    ) -> (r: Vec<Visit>)
        requires
            self.wf(),
        ensures
            r@ == expansion(self, seeds@, max_depth, max_nodes as nat, bidirectional, r@.len()),
    {
        let mut visited: HashSet<u32> = HashSet::new();
        let mut result: Vec<Visit> = Vec::new();
        let mut i: usize = 0;
        while i < seeds.len()
            invariant
                i <= seeds@.len(),
                result@ == starts(seeds@.take(i as int)),
                ids_are(result@, visited@),
            decreases seeds@.len() - i,
        {
            let seed: u32 = seeds[i];
            proof {
                assert(seeds@.take(i + 1).drop_last() =~= seeds@.take(i as int));
            }
            let ghost before = visited@;
            if visited.insert(seed) {
                proof {
                    lemma_ids_push(result@, before, (seed, 0u8, F32_ONE));
                }
                result.push((seed, 0, F32_ONE));
            } else {
                proof {
                    assert(visited@ =~= before);
                }
            }
            i += 1;
        }
        proof {
            assert(seeds@.take(i as int) =~= seeds@);
        }
        let ghost limit = max_nodes as nat;
        let ghost first = starts(seeds@).len();
        let mut k: usize = 0;
        proof {
            lemma_expansion(self, seeds@, max_depth, limit, bidirectional, 0);
        }
        while k < result.len() && result.len() < max_nodes
            invariant
                self.wf(),
                limit == max_nodes,
                first == starts(seeds@).len(),
                result@ == expansion(self, seeds@, max_depth, limit, bidirectional, k as nat),
                result@.len() <= first + self.nodes@.len(),
                ids_are(result@, visited@),
                k <= result@.len(),
            decreases first + self.nodes@.len() - k,
        {
            let node: u32 = result[k].0;
            let depth: u8 = result[k].1;
            let ghost before = result@;
            if depth < max_depth {
                let ghost forward = self.out_edges(node as int).map_values(
                    |e: EdgeInfo| (e.to, e.weight),
                );
                let ghost back = self.in_nodes(node as int).map_values(|v: u32| (v, F32_ONE));
                add_links(
                    &mut result,
                    &mut visited,
                    self.neighbors(node),
                    Some(self.neighbor_weights(node)),
                    depth + 1,
                    max_nodes,
                    Ghost(forward),
                );
                if bidirectional {
                    add_links(
                        &mut result,
                        &mut visited,
                        self.rev_neighbors(node),
                        None,
                        depth + 1,
                        max_nodes,
                        Ghost(back),
                    );
                    proof {
                        lemma_discover_concat(before, forward, back, (depth + 1) as u8, limit);
                    }
                }
            }
            k += 1;
            proof {
                lemma_expansion(self, seeds@, max_depth, limit, bidirectional, k as nat);
                lemma_expansion(self, seeds@, max_depth, limit, bidirectional, (k - 1) as nat);
                if depth < max_depth {
                    lemma_discover(
                        before,
                        links(self, node as int, bidirectional),
                        (depth + 1) as u8,
                        limit,
                    );
                }
            }
        }
        proof {
            lemma_expansion_stable(
                self,
                seeds@,
                max_depth,
                limit,
                bidirectional,
                k as nat,
                result@.len(),
            );
        }
        result
    }
}

// ── hops are distances ───────────────────────────────────────────────────────

/// Node `b` is a neighbour of node `a`.
pub open spec fn linked(g: &CsrGraph, bidirectional: bool, a: u32, b: u32) -> bool {
    exists|q: int|
        0 <= q < links(g, a as int, bidirectional).len() && (#[trigger] links(
            g,
            a as int,
            bidirectional,
        )[q]).0 == b
}

/// Some path of at most `d` hops leads from a seed to node `id`.
pub open spec fn within(
    g: &CsrGraph,
    seeds: Seq<u32>,
    bidirectional: bool,
    id: u32,
    d: nat,
) -> bool
    decreases d,
{
    if d == 0 {
        seeds.contains(id)
    } else {
        within(g, seeds, bidirectional, id, (d - 1) as nat) || exists|u: u32|
            within(g, seeds, bidirectional, u, (d - 1) as nat) && #[trigger] linked(
                g,
                bidirectional,
                u,
                id,
            )
    }
}

/// `list` holds node `id`, at no more than `hop` hops.
spec fn reached(list: Seq<Visit>, id: u32, hop: int) -> bool {
    exists|j: int| 0 <= j < list.len() && (#[trigger] list[j]).0 == id && list[j].1 <= hop
}

/// Every neighbour of the node at place `j` is held, at most one hop further out.
spec fn expanded(g: &CsrGraph, bidirectional: bool, list: Seq<Visit>, j: int) -> bool {
    forall|b: u32|
        linked(g, bidirectional, list[j].0, b) ==> #[trigger] reached(list, b, list[j].1 + 1)
}

spec fn hops_sorted(list: Seq<Visit>) -> bool {
    forall|i: int, j: int|
        0 <= i <= j < list.len() ==> (#[trigger] list[i]).1 <= (#[trigger] list[j]).1
}

/// Where every node nearer than `h` hops is expanded, every node within `d <= h` hops is held.
proof fn lemma_within_reached(
    g: &CsrGraph,
    seeds: Seq<u32>,
    bidirectional: bool,
    list: Seq<Visit>,
    h: nat,
    id: u32,
    d: nat,
)
    requires
        d <= h,
        forall|s: u32| seeds.contains(s) ==> #[trigger] reached(list, s, 0),
        forall|j: int|
            0 <= j < list.len() && (#[trigger] list[j]).1 < h ==> expanded(
                g,
                bidirectional,
                list,
                j,
            ),
        within(g, seeds, bidirectional, id, d),
    ensures
        reached(list, id, d as int),
    decreases d,
{
    if d > 0 {
        let nearer = (d - 1) as nat;
        if within(g, seeds, bidirectional, id, nearer) {
            lemma_within_reached(g, seeds, bidirectional, list, h, id, nearer);
            let j = choose|j: int|
                0 <= j < list.len() && (#[trigger] list[j]).0 == id && list[j].1 <= nearer;
            assert(list[j].1 <= d);
        } else {
            let u = choose|u: u32|
                within(g, seeds, bidirectional, u, nearer) && #[trigger] linked(
                    g,
                    bidirectional,
                    u,
                    id,
                );
            lemma_within_reached(g, seeds, bidirectional, list, h, u, nearer);
            let j = choose|j: int|
                0 <= j < list.len() && (#[trigger] list[j]).0 == u && list[j].1 <= nearer;
            assert(expanded(g, bidirectional, list, j));
            assert(reached(list, id, list[j].1 + 1));
            let i = choose|i: int|
                0 <= i < list.len() && (#[trigger] list[i]).0 == id && list[i].1 <= list[j].1 + 1;
            assert(list[i].1 <= d);
        }
    }
}

/// The hop of the visit is the distance of its node from the seeds.
pub open spec fn hop_is_distance(
    g: &CsrGraph,
    seeds: Seq<u32>,
    bidirectional: bool,
    v: Visit,
) -> bool {
    &&& within(g, seeds, bidirectional, v.0, v.1 as nat)
    &&& forall|d: nat| d < v.1 ==> !within(g, seeds, bidirectional, v.0, d)
}

/// What holds after each step of an expansion.
spec fn layered(
    g: &CsrGraph,
    seeds: Seq<u32>,
    max_depth: u8,
    limit: nat,
    bidirectional: bool,
    list: Seq<Visit>,
    k: int,
) -> bool {
    &&& hops_sorted(list)
    &&& forall|s: u32| seeds.contains(s) ==> #[trigger] reached(list, s, 0)
    &&& forall|j: int|
        0 <= j < list.len() ==> hop_is_distance(g, seeds, bidirectional, #[trigger] list[j])
    &&& forall|j: int| 0 <= j < list.len() ==> (#[trigger] list[j]).1 <= max_depth
    &&& list.len() < limit ==> {
        &&& forall|j: int|
            0 <= j < k && j < list.len() && (#[trigger] list[j]).1 < max_depth ==> expanded(
                g,
                bidirectional,
                list,
                j,
            )
        &&& 0 <= k < list.len() ==> forall|j: int|
            0 <= j < list.len() ==> (#[trigger] list[j]).1 <= list[k].1 + 1
    }
}

proof fn lemma_layered_start(
    g: &CsrGraph,
    seeds: Seq<u32>,
    max_depth: u8,
    limit: nat,
    bidirectional: bool,
)
    ensures
        layered(g, seeds, max_depth, limit, bidirectional, starts(seeds), 0),
{
    let list = starts(seeds);
    lemma_starts(seeds);
    assert forall|s: u32| seeds.contains(s) implies #[trigger] reached(list, s, 0) by {
        assert(found(starts(seeds), s));
        let j = choose|j: int| 0 <= j < list.len() && (#[trigger] list[j]).0 == s;
        assert(list[j].1 <= 0);
    }
    assert forall|j: int| 0 <= j < list.len() implies hop_is_distance(
        g,
        seeds,
        bidirectional,
        #[trigger] list[j],
    ) by {
        assert(found(list, list[j].0));
    }
}

/// Every node before place `c` stays expanded, and so is the one at `c` once its neighbours are
/// found.
proof fn lemma_step_expanded(
    g: &CsrGraph,
    bidirectional: bool,
    before: Seq<Visit>,
    list: Seq<Visit>,
    c: int,
    j: int,
)
    requires
        0 <= j <= c < before.len() <= list.len(),
        forall|i: int| 0 <= i < before.len() ==> #[trigger] list[i] == before[i],
        forall|i: int| 0 <= i < list.len() ==> (#[trigger] list[i]).1 <= list[c].1 + 1,
        forall|q: int|
            0 <= q < links(g, list[c].0 as int, bidirectional).len() ==> found(
                list,
                (#[trigger] links(g, list[c].0 as int, bidirectional)[q]).0,
            ),
        j < c ==> expanded(g, bidirectional, before, j),
    ensures
        expanded(g, bidirectional, list, j),
{
    let near = links(g, list[c].0 as int, bidirectional);
    assert forall|b: u32| linked(g, bidirectional, list[j].0, b) implies #[trigger] reached(
        list,
        b,
        list[j].1 + 1,
    ) by {
        if j < c {
            assert(reached(before, b, before[j].1 + 1));
            let i = choose|i: int|
                0 <= i < before.len() && (#[trigger] before[i]).0 == b && before[i].1 <= before[j].1
                    + 1;
            assert(list[i].0 == b);
        } else {
            let q = choose|q: int| 0 <= q < near.len() && (#[trigger] near[q]).0 == b;
            assert(found(list, near[q].0));
            let i = choose|i: int| 0 <= i < list.len() && (#[trigger] list[i]).0 == b;
            assert(list[i].1 <= list[c].1 + 1);
        }
    }
}

/// One node more is expanded.
#[verifier::spinoff_prover]
proof fn lemma_layered_step(
    g: &CsrGraph,
    seeds: Seq<u32>,
    max_depth: u8,
    limit: nat,
    bidirectional: bool,
    before: Seq<Visit>,
    c: int,
)
    requires
        layered(g, seeds, max_depth, limit, bidirectional, before, c),
        distinct(before),
        0 <= c < before.len() < limit,
        before[c].1 < max_depth,
    ensures
        layered(
            g,
            seeds,
            max_depth,
            limit,
            bidirectional,
            discover(
                before,
                links(g, before[c].0 as int, bidirectional),
                (before[c].1 + 1) as u8,
                limit,
            ),
            c + 1,
        ),
{
    let near = links(g, before[c].0 as int, bidirectional);
    let hop = (before[c].1 + 1) as u8;
    let list = discover(before, near, hop, limit);
    lemma_discover(before, near, hop, limit);
    assert forall|j: int| 0 <= j < before.len() implies #[trigger] list[j] == before[j] by {
        assert(list.take(before.len() as int)[j] == list[j]);
    }
    assert forall|s: u32| seeds.contains(s) implies #[trigger] reached(list, s, 0) by {
        assert(reached(before, s, 0));
        let j = choose|j: int|
            0 <= j < before.len() && (#[trigger] before[j]).0 == s && before[j].1 <= 0;
        assert(list[j].0 == s);
    }
    assert forall|j: int| 0 <= j < list.len() implies hop_is_distance(
        g,
        seeds,
        bidirectional,
        #[trigger] list[j],
    ) by {
        if j >= before.len() {
            lemma_new_visit(g, seeds, max_depth, limit, bidirectional, before, c, list[j]);
        }
    }
    if list.len() < limit {
        assert forall|j: int|
            0 <= j < c + 1 && j < list.len() && (#[trigger] list[j]).1 < max_depth implies expanded(
            g,
            bidirectional,
            list,
            j,
        ) by {
            if j < c {
                assert(expanded(g, bidirectional, before, j));
            }
            lemma_step_expanded(g, bidirectional, before, list, c, j);
        }
    }
}

proof fn lemma_layered(
    g: &CsrGraph,
    seeds: Seq<u32>,
    max_depth: u8,
    limit: nat,
    bidirectional: bool,
    k: nat,
)
    requires
        g.wf(),
    ensures
        layered(
            g,
            seeds,
            max_depth,
            limit,
            bidirectional,
            expansion(g, seeds, max_depth, limit, bidirectional, k),
            k as int,
        ),
    decreases k,
{
    if k == 0 {
        lemma_layered_start(g, seeds, max_depth, limit, bidirectional);
    } else {
        let c = k - 1;
        let list = expansion(g, seeds, max_depth, limit, bidirectional, k);
        let before = expansion(g, seeds, max_depth, limit, bidirectional, c as nat);
        lemma_layered(g, seeds, max_depth, limit, bidirectional, c as nat);
        lemma_expansion(g, seeds, max_depth, limit, bidirectional, c as nat);
        if c < before.len() && before.len() < limit && before[c].1 < max_depth {
            lemma_layered_step(g, seeds, max_depth, limit, bidirectional, before, c);
        } else {
            assert(list == before);
            if list.len() < limit && c < list.len() {
                assert(list[c].1 == max_depth);
            }
        }
    }
}

/// A node that an expansion step adds is exactly one hop further out than the node expanded.
proof fn lemma_new_visit(
    g: &CsrGraph,
    seeds: Seq<u32>,
    max_depth: u8,
    limit: nat,
    bidirectional: bool,
    before: Seq<Visit>,
    c: int,
    v: Visit,
)
    requires
        layered(g, seeds, max_depth, limit, bidirectional, before, c),
        0 <= c < before.len() < limit,
        before[c].1 < max_depth,
        v.1 == before[c].1 + 1,
        !found(before, v.0),
        links(g, before[c].0 as int, bidirectional).contains((v.0, v.2)),
    ensures
        hop_is_distance(g, seeds, bidirectional, v),
{
    let near = links(g, before[c].0 as int, bidirectional);
    let q = near.index_of((v.0, v.2));
    assert(near[q].0 == v.0);
    assert(linked(g, bidirectional, before[c].0, v.0));
    assert(hop_is_distance(g, seeds, bidirectional, before[c]));
    assert forall|d: nat| d < v.1 implies !within(g, seeds, bidirectional, v.0, d) by {
        if within(g, seeds, bidirectional, v.0, d) {
            let h = before[c].1 as nat;
            assert forall|j: int| 0 <= j < before.len() && (#[trigger] before[j]).1
                < h implies expanded(g, bidirectional, before, j) by {
                assert(j < c);
            }
            lemma_within_reached(g, seeds, bidirectional, before, h, v.0, d);
            let j = choose|j: int|
                0 <= j < before.len() && (#[trigger] before[j]).0 == v.0 && before[j].1 <= d;
            assert(found(before, v.0));
        }
    }
}

/// Breadth-first search finds distances: the hop of every node found is the length of the shortest
/// path from a seed to it. And where the limit was not reached, every node within `max_depth` hops
/// is found.
pub proof fn law_hops_are_distances(
    g: &CsrGraph,
    seeds: Seq<u32>,
    max_depth: u8,
    limit: nat,
    bidirectional: bool,
    r: Seq<Visit>,
)
    requires
        g.wf(),
        r == expansion(g, seeds, max_depth, limit, bidirectional, r.len()),
    ensures
        forall|j: int|
            0 <= j < r.len() ==> hop_is_distance(g, seeds, bidirectional, #[trigger] r[j])
                && r[j].1 <= max_depth,
        r.len() < limit ==> forall|id: u32|
            within(g, seeds, bidirectional, id, max_depth as nat) ==> #[trigger] found(r, id),
{
    lemma_layered(g, seeds, max_depth, limit, bidirectional, r.len());
    if r.len() < limit {
        assert forall|id: u32|
            within(g, seeds, bidirectional, id, max_depth as nat) implies #[trigger] found(r, id) by {
            lemma_within_reached(
                g,
                seeds,
                bidirectional,
                r,
                max_depth as nat,
                id,
                max_depth as nat,
            );
            let j = choose|j: int|
                0 <= j < r.len() && (#[trigger] r[j]).0 == id && r[j].1 <= max_depth;
            assert(r[j].0 == id);
        }
    }
}

/// An expansion lists no node twice, lists the distinct seeds first, at hop 0 and with weight 1.0,
/// then nodes of the graph, with hops that never decrease; and beyond the seeds it lists no more
/// than `limit` nodes.
pub proof fn law_expansion_order(
    g: &CsrGraph,
    seeds: Seq<u32>,
    max_depth: u8,
    limit: nat,
    bidirectional: bool,
    r: Seq<Visit>,
)
    requires
        g.wf(),
        r == expansion(g, seeds, max_depth, limit, bidirectional, r.len()),
    ensures
        distinct(r),
        starts(seeds).len() <= r.len(),
        r.take(starts(seeds).len() as int) == starts(seeds),
        forall|j: int| starts(seeds).len() <= j < r.len() ==> (#[trigger] r[j]).0 < g.nodes@.len(),
        forall|i: int, j: int|
            0 <= i <= j < r.len() ==> (#[trigger] r[i]).1 <= (#[trigger] r[j]).1,
        r.len() <= limit || r == starts(seeds),
{
    lemma_expansion(g, seeds, max_depth, limit, bidirectional, r.len());
    lemma_layered(g, seeds, max_depth, limit, bidirectional, r.len());
}

/// Every node found beyond the seeds was reached by a link from a node found before it, one hop
/// nearer, and its weight is the weight of that link.
pub proof fn law_weights_are_of_links(
    g: &CsrGraph,
    seeds: Seq<u32>,
    max_depth: u8,
    limit: nat,
    bidirectional: bool,
    k: nat,
    j: int,
)
    requires
        g.wf(),
        starts(seeds).len() <= j < expansion(g, seeds, max_depth, limit, bidirectional, k).len(),
    ensures
        ({
            let r = expansion(g, seeds, max_depth, limit, bidirectional, k);
            exists|i: int|
                0 <= i < j && (#[trigger] r[i]).1 + 1 == r[j].1 && links(
                    g,
                    r[i].0 as int,
                    bidirectional,
                ).contains((r[j].0, r[j].2))
        }),
    decreases k,
{
    let r = expansion(g, seeds, max_depth, limit, bidirectional, k);
    if k > 0 {
        let before = expansion(g, seeds, max_depth, limit, bidirectional, (k - 1) as nat);
        lemma_expansion(g, seeds, max_depth, limit, bidirectional, (k - 1) as nat);
        if k - 1 < before.len() && before.len() < limit && before[k - 1].1 < max_depth {
            let near = links(g, before[k - 1].0 as int, bidirectional);
            let hop = (before[k - 1].1 + 1) as u8;
            lemma_discover(before, near, hop, limit);
            assert forall|q: int| 0 <= q < before.len() implies #[trigger] r[q] == before[q] by {
                assert(r.take(before.len() as int)[q] == r[q]);
            }
            if j >= before.len() {
                assert(r[k - 1].1 + 1 == r[j].1);
            }
        }
        if j < before.len() {
            law_weights_are_of_links(
                g,
                seeds,
                max_depth,
                limit,
                bidirectional,
                (k - 1) as nat,
                j,
            );
            let i = choose|i: int|
                0 <= i < j && (#[trigger] before[i]).1 + 1 == before[j].1 && links(
                    g,
                    before[i].0 as int,
                    bidirectional,
                ).contains((before[j].0, before[j].2));
            assert(r[i].1 + 1 == r[j].1);
        }
    }
}

/// A shallower expansion finds the beginning of what a deeper one finds.
proof fn lemma_deeper(
    g: &CsrGraph,
    seeds: Seq<u32>,
    depth: u8,
    deeper: u8,
    limit: nat,
    bidirectional: bool,
    k: nat,
)
    requires
        g.wf(),
        depth <= deeper,
    ensures
        ({
            let a = expansion(g, seeds, depth, limit, bidirectional, k);
            let b = expansion(g, seeds, deeper, limit, bidirectional, k);
            &&& a.len() <= b.len()
            &&& b.take(a.len() as int) == a
            &&& a == b || forall|j: int| k - 1 <= j < a.len() ==> (#[trigger] a[j]).1 >= depth
        }),
    decreases k,
{
    let a = expansion(g, seeds, depth, limit, bidirectional, k);
    let b = expansion(g, seeds, deeper, limit, bidirectional, k);
    if k == 0 {
        assert(b.take(a.len() as int) =~= a);
    } else {
        let c = (k - 1) as nat;
        let a0 = expansion(g, seeds, depth, limit, bidirectional, c);
        let b0 = expansion(g, seeds, deeper, limit, bidirectional, c);
        lemma_deeper(g, seeds, depth, deeper, limit, bidirectional, c);
        lemma_layered(g, seeds, depth, limit, bidirectional, c);
        lemma_expansion(g, seeds, deeper, limit, bidirectional, c);
        assert(hops_sorted(a0));
        if c < b0.len() && b0.len() < limit && b0[c as int].1 < deeper {
            let near = links(g, b0[c as int].0 as int, bidirectional);
            lemma_discover(b0, near, (b0[c as int].1 + 1) as u8, limit);
            assert(b.take(b0.len() as int) == b0);
            assert(b.take(a0.len() as int) =~= b.take(b0.len() as int).take(a0.len() as int));
        }
        if a0 == b0 {
            if c < a0.len() && a0.len() < limit && a0[c as int].1 < depth {
                assert(a == b);
                assert(b.take(a.len() as int) =~= a);
            } else {
                assert(a == a0);
                if c < a0.len() && a0[c as int].1 >= depth {
                    assert forall|j: int| k - 1 <= j < a.len() implies (#[trigger] a[j]).1 >= depth by {
                        assert(a0[c as int].1 <= a0[j].1);
                    }
                }
                assert(b.take(a.len() as int) =~= a);
            }
        } else {
            if c < a0.len() {
                assert(a0[c as int].1 >= depth);
            }
            assert(a == a0);
        }
    }
}

/// A greater depth never loses a node: what an expansion finds is the beginning of what one of a
/// greater depth finds from the same seeds within the same limit.
pub proof fn law_greater_depth_finds_no_less(
    g: &CsrGraph,
    seeds: Seq<u32>,
    depth: u8,
    deeper: u8,
    limit: nat,
    bidirectional: bool,
    near: Seq<Visit>,
    far: Seq<Visit>,
)
    requires
        g.wf(),
        depth <= deeper,
        near == expansion(g, seeds, depth, limit, bidirectional, near.len()),
        far == expansion(g, seeds, deeper, limit, bidirectional, far.len()),
    ensures
        near.len() <= far.len(),
        far.take(near.len() as int) == near,
{
    let k = near.len() + far.len();
    lemma_expansion_stable(g, seeds, depth, limit, bidirectional, near.len(), k);
    lemma_expansion_stable(g, seeds, deeper, limit, bidirectional, far.len(), k);
    lemma_deeper(g, seeds, depth, deeper, limit, bidirectional, k);
}

/// With edges followed both ways, every node is within as many hops as with edges followed
/// forward.
pub proof fn law_both_ways_reach_no_less(g: &CsrGraph, seeds: Seq<u32>, id: u32, d: nat)
    requires
        within(g, seeds, false, id, d),
    ensures
        within(g, seeds, true, id, d),
    decreases d,
{
    if d > 0 {
        let nearer = (d - 1) as nat;
        if within(g, seeds, false, id, nearer) {
            law_both_ways_reach_no_less(g, seeds, id, nearer);
        } else {
            let u = choose|u: u32|
                within(g, seeds, false, u, nearer) && #[trigger] linked(g, false, u, id);
            law_both_ways_reach_no_less(g, seeds, u, nearer);
            let forward = links(g, u as int, false);
            let q = choose|q: int| 0 <= q < forward.len() && (#[trigger] forward[q]).0 == id;
            assert(links(g, u as int, true)[q] == forward[q]);
            assert(linked(g, true, u, id));
        }
    }
}

proof fn lemma_seeds_found(seeds: Seq<u32>)
    ensures
        forall|j: int|
            0 <= j < starts(seeds).len() ==> (#[trigger] starts(seeds)[j]).1 == 0 && starts(
                seeds,
            )[j].2 == F32_ONE && seeds.contains(starts(seeds)[j].0),
        forall|k: int| 0 <= k < seeds.len() ==> found(starts(seeds), #[trigger] seeds[k]),
{
    let first = starts(seeds);
    lemma_starts(seeds);
    assert forall|j: int| 0 <= j < first.len() implies (#[trigger] first[j]).1 == 0 && first[j].2
        == F32_ONE && seeds.contains(first[j].0) by {
        assert(found(first, first[j].0));
    }
    assert forall|k: int| 0 <= k < seeds.len() implies found(first, #[trigger] seeds[k]) by {
        assert(seeds.contains(seeds[k]));
    }
}

/// The visit was reached from an earlier one: along an edge, whose weight it has, or against one
/// where edges are followed both ways, and then with weight 1.0.
pub open spec fn is_reached_from(g: &CsrGraph, bidirectional: bool, from: Visit, v: Visit) -> bool {
    ||| exists|k: int|
        0 <= k < g.out_edges(from.0 as int).len() && {
            let e = #[trigger] g.out_edges(from.0 as int)[k];
            e.to == v.0 && e.weight == v.2
        }
    ||| bidirectional && g.in_nodes(from.0 as int).contains(v.0) && v.2 == 0x3f80_0000u32
}

/// An expansion starts at the seeds and follows edges. Every seed is found, at hop 0 and with weight
/// 1.0, and nothing else is at hop 0. Every other node was reached from one found before it, one hop
/// nearer. No node is found twice.
pub proof fn law_expansion_follows_edges(
    g: &CsrGraph,
    seeds: Seq<u32>,
    max_depth: u8,
    limit: nat,
    bidirectional: bool,
    r: Seq<Visit>,
)
    requires
        g.wf(),
        r == expansion(g, seeds, max_depth, limit, bidirectional, r.len()),
    ensures
        forall|i: int, j: int|
            0 <= i < j < r.len() ==> (#[trigger] r[i]).0 != (#[trigger] r[j]).0,
        forall|k: int|
            0 <= k < seeds.len() ==> r.contains((#[trigger] seeds[k], 0u8, 0x3f80_0000u32)),
        forall|j: int|
            0 <= j < r.len() && (#[trigger] r[j]).1 == 0 ==> seeds.contains(r[j].0) && r[j].2
                == 0x3f80_0000u32,
        forall|j: int|
            0 <= j < r.len() && (#[trigger] r[j]).1 > 0 ==> r[j].1 <= max_depth && exists|i: int|
                0 <= i < j && (#[trigger] r[i]).1 + 1 == r[j].1 && is_reached_from(
                    g,
                    bidirectional,
                    r[i],
                    r[j],
                ),
{
    law_expansion_order(g, seeds, max_depth, limit, bidirectional, r);
    law_hops_are_distances(g, seeds, max_depth, limit, bidirectional, r);
    lemma_seeds_found(seeds);
    let first = starts(seeds);
    assert forall|j: int| 0 <= j < first.len() implies #[trigger] r[j] == first[j] by {
        assert(r.take(first.len() as int)[j] == r[j]);
    }
    assert forall|k: int| 0 <= k < seeds.len() implies r.contains(
        (#[trigger] seeds[k], 0u8, 0x3f80_0000u32),
    ) by {
        assert(found(first, seeds[k]));
        let j = choose|j: int| 0 <= j < first.len() && (#[trigger] first[j]).0 == seeds[k];
        assert(r[j] == first[j]);
    }
    assert forall|j: int| 0 <= j < r.len() && (#[trigger] r[j]).1 == 0 implies seeds.contains(
        r[j].0,
    ) && r[j].2 == 0x3f80_0000u32 by {
        if j < first.len() {
            assert(r[j] == first[j]);
        } else {
            law_weights_are_of_links(g, seeds, max_depth, limit, bidirectional, r.len(), j);
        }
    }
    assert forall|j: int| 0 <= j < r.len() && (#[trigger] r[j]).1 > 0 implies r[j].1 <= max_depth
        && exists|i: int|
        0 <= i < j && (#[trigger] r[i]).1 + 1 == r[j].1 && is_reached_from(
            g,
            bidirectional,
            r[i],
            r[j],
        ) by {
        if j < first.len() {
            assert(r[j] == first[j]);
        }
        law_weights_are_of_links(g, seeds, max_depth, limit, bidirectional, r.len(), j);
        let i = choose|i: int|
            0 <= i < j && (#[trigger] r[i]).1 + 1 == r[j].1 && links(
                g,
                r[i].0 as int,
                bidirectional,
            ).contains((r[j].0, r[j].2));
        lemma_reached(g, bidirectional, r[i], r[j]);
    }
}

proof fn lemma_reached(g: &CsrGraph, bidirectional: bool, from: Visit, v: Visit)
    requires
        links(g, from.0 as int, bidirectional).contains((v.0, v.2)),
    ensures
        is_reached_from(g, bidirectional, from, v),
{
    let near = links(g, from.0 as int, bidirectional);
    let q = near.index_of((v.0, v.2));
    let out = g.out_edges(from.0 as int);
    if q < out.len() {
        assert(out[q].to == v.0 && out[q].weight == v.2);
    } else {
        assert(g.in_nodes(from.0 as int)[q - out.len()] == v.0);
    }
}

/// Where neither the limit nor the depth stops an expansion, every node that an edge leads to from
/// a node that was found is found too, at most one hop farther; and every node that an edge leads
/// from, where edges are followed both ways.
pub proof fn law_expansion_finds_all_neighbours(
    g: &CsrGraph,
    seeds: Seq<u32>,
    max_depth: u8,
    limit: nat,
    bidirectional: bool,
    r: Seq<Visit>,
    j: int,
)
    requires
        g.wf(),
        r == expansion(g, seeds, max_depth, limit, bidirectional, r.len()),
        r.len() < limit,
        0 <= j < r.len(),
        r[j].1 < max_depth,
    ensures
        forall|k: int|
            0 <= k < g.out_edges(r[j].0 as int).len() ==> reaches(
                r,
                (#[trigger] g.out_edges(r[j].0 as int)[k]).to,
                r[j].1 + 1,
            ),
        bidirectional ==> forall|v: u32| #[trigger]
            g.in_nodes(r[j].0 as int).contains(v) ==> reaches(r, v, r[j].1 + 1),
{
    let out = g.out_edges(r[j].0 as int);
    let near = links(g, r[j].0 as int, bidirectional);
    assert forall|k: int| 0 <= k < out.len() implies reaches(
        r,
        (#[trigger] out[k]).to,
        r[j].1 + 1,
    ) by {
        assert(near[k].0 == out[k].to);
        lemma_neighbour_found(g, seeds, max_depth, limit, bidirectional, r, j, out[k].to);
    }
    if bidirectional {
        assert forall|v: u32| #[trigger] g.in_nodes(r[j].0 as int).contains(v) implies reaches(
            r,
            v,
            r[j].1 + 1,
        ) by {
            let q = g.in_nodes(r[j].0 as int).index_of(v);
            assert(near[out.len() + q].0 == v);
            lemma_neighbour_found(g, seeds, max_depth, limit, bidirectional, r, j, v);
        }
    }
}

/// The node is found, at most `hop` hops away.
pub open spec fn reaches(r: Seq<Visit>, id: u32, hop: int) -> bool {
    exists|i: int| 0 <= i < r.len() && (#[trigger] r[i]).0 == id && r[i].1 <= hop
}

proof fn lemma_neighbour_found(
    g: &CsrGraph,
    seeds: Seq<u32>,
    max_depth: u8,
    limit: nat,
    bidirectional: bool,
    r: Seq<Visit>,
    j: int,
    v: u32,
)
    requires
        g.wf(),
        r == expansion(g, seeds, max_depth, limit, bidirectional, r.len()),
        r.len() < limit,
        0 <= j < r.len(),
        r[j].1 < max_depth,
        linked(g, bidirectional, r[j].0, v),
    ensures
        reaches(r, v, r[j].1 + 1),
{
    law_hops_are_distances(g, seeds, max_depth, limit, bidirectional, r);
    let d = (r[j].1 + 1) as nat;
    assert(hop_is_distance(g, seeds, bidirectional, r[j]));
    assert(within(g, seeds, bidirectional, r[j].0, (d - 1) as nat));
    assert(within(g, seeds, bidirectional, v, d));
    lemma_within_more(g, seeds, bidirectional, v, d, max_depth as nat);
    assert(found(r, v));
    let i = choose|i: int| 0 <= i < r.len() && (#[trigger] r[i]).0 == v;
    assert(hop_is_distance(g, seeds, bidirectional, r[i]));
    if r[i].1 > d {
        assert(!within(g, seeds, bidirectional, v, d));
    }
}

proof fn lemma_within_more(
    g: &CsrGraph,
    seeds: Seq<u32>,
    bidirectional: bool,
    id: u32,
    d: nat,
    more: nat,
)
    requires
        within(g, seeds, bidirectional, id, d),
        d <= more,
    ensures
        within(g, seeds, bidirectional, id, more),
    decreases more,
{
    if d < more {
        lemma_within_more(g, seeds, bidirectional, id, d, (more - 1) as nat);
    }
}

/// The link at place `q` of a node: along its edges in their order, and then, where edges are
/// followed both ways, against those that enter it, with weight 1.0.
pub open spec fn link_at(g: &CsrGraph, id: u32, q: int) -> (u32, u32) {
    let out = g.out_edges(id as int);
    if q < out.len() {
        (out[q].to, out[q].weight)
    } else {
        (g.in_nodes(id as int)[q - out.len()], 0x3f80_0000)
    }
}

/// How many links a node has.
pub open spec fn link_count(g: &CsrGraph, id: u32, bidirectional: bool) -> nat {
    if bidirectional {
        g.out_edges(id as int).len() + g.in_nodes(id as int).len()
    } else {
        g.out_edges(id as int).len()
    }
}

/// The visits beyond the first `first` were made by the links `via`, each the number of the visit
/// that it leaves and its place there, one for each of these visits: links come in order, by the
/// visits they leave and by their places, and what an earlier link of the same visit leads to was
/// found before.
pub open spec fn are_visited_by(
    g: &CsrGraph,
    bidirectional: bool,
    r: Seq<Visit>,
    first: int,
    via: Seq<(int, int)>,
) -> bool {
    &&& via.len() == r.len() - first
    &&& forall|t: int|
        0 <= t < via.len() ==> {
            let (i, q) = #[trigger] via[t];
            let v = r[first + t];
            &&& 0 <= i < first + t
            &&& 0 <= q < link_count(g, r[i].0, bidirectional)
            &&& v.1 == r[i].1 + 1
            &&& v.0 == link_at(g, r[i].0, q).0
            &&& v.2 == link_at(g, r[i].0, q).1
            &&& forall|m: int|
                0 <= m < q ==> found(r.take(first + t), (#[trigger] link_at(g, r[i].0, m)).0)
        }
    &&& forall|s: int, t: int|
        0 <= s < t < via.len() ==> {
            let (a, b) = (#[trigger] via[s], #[trigger] via[t]);
            a.0 < b.0 || a.0 == b.0 && a.1 < b.1
        }
}

/// An expansion visits in order: first the seeds, each where it first occurs, and then what the
/// links of the visits lead to, visit by visit and link by link, unless it was found before. Each
/// visit has the weight of the link that led to it first from the visit it was made from.
pub proof fn law_expansion_visits_in_order(
    g: &CsrGraph,
    seeds: Seq<u32>,
    max_depth: u8,
    limit: nat,
    bidirectional: bool,
    r: Seq<Visit>,
) -> (via: Seq<(int, int)>)
    requires
        g.wf(),
        r == expansion(g, seeds, max_depth, limit, bidirectional, r.len()),
    ensures
        are_visited_by(g, bidirectional, r, starts(seeds).len() as int, via),
        starts(seeds).is_prefix_of(r),
        starts(seeds).map_values(|v: Visit| v.0) == first_occurrences(seeds),
{
    law_expansion_order(g, seeds, max_depth, limit, bidirectional, r);
    lemma_starts_in_order(seeds);
    lemma_visits_in_order(g, seeds, max_depth, limit, bidirectional, r.len())
}

proof fn lemma_starts_in_order(seeds: Seq<u32>)
    ensures
        starts(seeds).map_values(|v: Visit| v.0) == first_occurrences(seeds),
    decreases seeds.len(),
{
    let ids = |v: Visit| v.0;
    if seeds.len() > 0 {
        let rest = seeds.drop_last();
        lemma_starts_in_order(rest);
        let before = starts(rest);
        let x = seeds.last();
        assert(found(before, x) <==> before.map_values(ids).contains(x)) by {
            if found(before, x) {
                let j = choose|j: int| 0 <= j < before.len() && (#[trigger] before[j]).0 == x;
                assert(before.map_values(ids)[j] == x);
            }
            if before.map_values(ids).contains(x) {
                let j = before.map_values(ids).index_of(x);
                assert(before[j].0 == x);
            }
        }
        if !found(before, x) {
            assert(starts(seeds).map_values(ids) =~= before.map_values(ids).push(x));
        }
    } else {
        assert(starts(seeds).map_values(ids) =~= first_occurrences(seeds));
    }
}

/// What is discovered stands in the order of the links; what an earlier link leads to is found
/// before.
proof fn lemma_discovered_in_order(
    list: Seq<Visit>,
    near: Seq<(u32, u32)>,
    hop: u8,
    limit: nat,
) -> (qs: Seq<int>)
    ensures
        ({
            let d = discover(list, near, hop, limit);
            &&& list.is_prefix_of(d)
            &&& qs.len() == d.len() - list.len()
            &&& forall|t: int|
                0 <= t < qs.len() ==> {
                    let q = #[trigger] qs[t];
                    &&& 0 <= q < near.len()
                    &&& d[list.len() + t] == (near[q].0, hop, near[q].1)
                    &&& forall|m: int|
                        0 <= m < q ==> found(d.take(list.len() + t), (#[trigger] near[m]).0)
                }
            &&& forall|s: int, t: int|
                0 <= s < t < qs.len() ==> #[trigger] qs[s] < #[trigger] qs[t]
            &&& d.len() < limit ==> forall|m: int|
                0 <= m < near.len() ==> found(d, (#[trigger] near[m]).0)
        }),
    decreases near.len(),
{
    let d = discover(list, near, hop, limit);
    if near.len() == 0 {
        Seq::empty()
    } else {
        let rest = near.drop_last();
        let last = near.len() - 1;
        let before = discover(list, rest, hop, limit);
        let qs = lemma_discovered_in_order(list, rest, hop, limit);
        assert forall|m: int| 0 <= m < rest.len() implies #[trigger] rest[m] == near[m] by {}
        if before.len() >= limit || found(before, near[last].0) {
            assert forall|t: int| 0 <= t < qs.len() implies {
                let q = #[trigger] qs[t];
                &&& 0 <= q < near.len()
                &&& d[list.len() + t] == (near[q].0, hop, near[q].1)
                &&& forall|m: int|
                    0 <= m < q ==> found(d.take(list.len() + t), (#[trigger] near[m]).0)
            } by {
                let q = qs[t];
                assert(rest[q] == near[q]);
                assert forall|m: int| 0 <= m < q implies found(
                    d.take(list.len() + t),
                    (#[trigger] near[m]).0,
                ) by {
                    assert(rest[m] == near[m]);
                }
            }
            if d.len() < limit {
                assert forall|m: int| 0 <= m < near.len() implies found(
                    d,
                    (#[trigger] near[m]).0,
                ) by {
                    if m < last {
                        assert(rest[m] == near[m]);
                    }
                }
            }
            qs
        } else {
            let all = qs.push(last);
            let n = list.len() as int;
            assert(list =~= d.take(n)) by {
                assert(list =~= before.take(n));
            }
            assert forall|t: int| 0 <= t < all.len() implies {
                let q = #[trigger] all[t];
                &&& 0 <= q < near.len()
                &&& d[n + t] == (near[q].0, hop, near[q].1)
                &&& forall|m: int| 0 <= m < q ==> found(d.take(n + t), (#[trigger] near[m]).0)
            } by {
                let q = all[t];
                if t < qs.len() {
                    assert(qs[t] == q);
                    assert(rest[q] == near[q]);
                    assert(d.take(n + t) =~= before.take(n + t));
                    assert forall|m: int| 0 <= m < q implies found(
                        d.take(n + t),
                        (#[trigger] near[m]).0,
                    ) by {
                        assert(rest[m] == near[m]);
                    }
                } else {
                    assert(d.take(n + t) =~= before);
                    assert forall|m: int| 0 <= m < q implies found(
                        d.take(n + t),
                        (#[trigger] near[m]).0,
                    ) by {
                        assert(rest[m] == near[m]);
                        assert(found(before, rest[m].0));
                    }
                }
            }
            assert forall|m: int| 0 <= m < near.len() implies found(d, (#[trigger] near[m]).0) by {
                if m < last {
                    assert(rest[m] == near[m]);
                    assert(found(before, rest[m].0));
                    let j = choose|j: int|
                        0 <= j < before.len() && (#[trigger] before[j]).0 == near[m].0;
                    assert(d[j] == before[j]);
                } else {
                    assert(d[before.len() as int].0 == near[m].0);
                }
            }
            assert forall|s: int, t: int| 0 <= s < t < all.len() implies #[trigger] all[s]
                < #[trigger] all[t] by {
                assert(all[s] == qs[s]);
                if t < qs.len() {
                    assert(all[t] == qs[t]);
                }
            }
            all
        }
    }
}

proof fn lemma_link_at(g: &CsrGraph, id: u32, bidirectional: bool, q: int)
    requires
        0 <= q < links(g, id as int, bidirectional).len(),
    ensures
        links(g, id as int, bidirectional).len() == link_count(g, id, bidirectional),
        links(g, id as int, bidirectional)[q] == link_at(g, id, q),
{
}

proof fn lemma_visits_in_order(
    g: &CsrGraph,
    seeds: Seq<u32>,
    max_depth: u8,
    limit: nat,
    bidirectional: bool,
    k: nat,
) -> (via: Seq<(int, int)>)
    requires
        g.wf(),
    ensures
        ({
            let r = expansion(g, seeds, max_depth, limit, bidirectional, k);
            &&& starts(seeds).len() <= r.len()
            &&& are_visited_by(g, bidirectional, r, starts(seeds).len() as int, via)
            &&& forall|t: int| 0 <= t < via.len() ==> (#[trigger] via[t]).0 < k
        }),
    decreases k,
{
    let first = starts(seeds).len() as int;
    let r = expansion(g, seeds, max_depth, limit, bidirectional, k);
    if k == 0 {
        Seq::empty()
    } else {
        let before = expansion(g, seeds, max_depth, limit, bidirectional, (k - 1) as nat);
        let old = lemma_visits_in_order(
            g,
            seeds,
            max_depth,
            limit,
            bidirectional,
            (k - 1) as nat,
        );
        let i = k - 1;
        if i < before.len() && before.len() < limit && before[i].1 < max_depth {
            let near = links(g, before[i].0 as int, bidirectional);
            let hop = (before[i].1 + 1) as u8;
            let n = before.len() as int;
            let qs = lemma_discovered_in_order(before, near, hop, limit);
            let via = old + qs.map_values(|q: int| (i, q));
            assert(r.take(n) =~= before);
            assert forall|j: int| 0 <= j < n implies #[trigger] r[j] == before[j] by {
                assert(r.take(n)[j] == r[j]);
            }
            assert forall|t: int| 0 <= t < via.len() implies {
                let (a, q) = #[trigger] via[t];
                let v = r[first + t];
                &&& 0 <= a < first + t
                &&& 0 <= q < link_count(g, r[a].0, bidirectional)
                &&& v.1 == r[a].1 + 1
                &&& v.0 == link_at(g, r[a].0, q).0
                &&& v.2 == link_at(g, r[a].0, q).1
                &&& forall|m: int|
                    0 <= m < q ==> found(r.take(first + t), (#[trigger] link_at(g, r[a].0, m)).0)
            } by {
                let (a, q) = via[t];
                if t < old.len() {
                    assert(via[t] == old[t]);
                    assert(r[first + t] == before[first + t]);
                    assert(r[a] == before[a]);
                    assert(r.take(first + t) =~= before.take(first + t));
                } else {
                    let s = t - old.len();
                    assert(via[t] == (i, qs[s]));
                    assert(n + s == first + t);
                    assert(r[i] == before[i]);
                    lemma_link_at(g, r[i].0, bidirectional, q);
                    assert forall|m: int| 0 <= m < q implies found(
                        r.take(first + t),
                        (#[trigger] link_at(g, r[a].0, m)).0,
                    ) by {
                        lemma_link_at(g, r[i].0, bidirectional, m);
                        assert(found(r.take(n + s), near[m].0));
                    }
                }
            }
            assert forall|s: int, t: int| 0 <= s < t < via.len() implies {
                let (a, b) = (#[trigger] via[s], #[trigger] via[t]);
                a.0 < b.0 || a.0 == b.0 && a.1 < b.1
            } by {
                if s < old.len() {
                    assert(via[s] == old[s]);
                    assert(old[s].0 < k - 1);
                    if t < old.len() {
                        assert(via[t] == old[t]);
                    }
                } else {
                    assert(via[s] == (i, qs[s - old.len()]));
                    assert(via[t] == (i, qs[t - old.len()]));
                }
            }
            assert forall|t: int| 0 <= t < via.len() implies (#[trigger] via[t]).0 < k by {
                if t < old.len() {
                    assert(via[t] == old[t]);
                }
            }
            via
        } else {
            old
        }
    }
}

} // verus!

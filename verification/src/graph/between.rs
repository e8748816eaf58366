//! The edges among a set of nodes.

use crate::float::{f32_is_nan, f32_less, f32_rank, less};
use crate::graph::csr::{edge_types, targets, weights, CsrGraph, EdgeInfo};
use std::collections::{HashMap, HashSet};
use vstd::prelude::*;

verus! {

broadcast use vstd::std_specs::hash::group_hash_axioms;

/// One edge between two nodes: start, end, weight and label.
pub type RawEdge = (u32, u32, u32, String);

/// The first edge to `to` that no later edge to it outweighs.
pub open spec fn best_edge(edges: Seq<EdgeInfo>, to: u32) -> Option<EdgeInfo>
    decreases edges.len(),
{
    if edges.len() == 0 {
        None
    } else {
        let before = best_edge(edges.drop_last(), to);
        if edges.last().to != to {
            before
        } else {
            match before {
                None => Some(edges.last()),
                Some(b) => if f32_less(b.weight, edges.last().weight) {
                    Some(edges.last())
                } else {
                    Some(b)
                },
            }
        }
    }
}

/// `edge` is the best edge from its start to its end.
pub open spec fn is_best(g: &CsrGraph, edge: RawEdge) -> bool {
    match best_edge(g.out_edges(edge.0 as int), edge.1) {
        Some(e) => edge.2 == e.weight && edge.3 == e.edge_type,
        None => false,
    }
}

/// `list` holds an edge from `from` to `to`.
pub open spec fn lists_pair(list: Seq<RawEdge>, from: u32, to: u32) -> bool {
    exists|j: int| 0 <= j < list.len() && (#[trigger] list[j]).0 == from && list[j].1 == to
}

/// No two edges of `list` run between the same two nodes in the same direction.
pub open spec fn pairs_distinct(list: Seq<RawEdge>) -> bool {
    forall|i: int, j: int|
        0 <= i < j < list.len() ==> (#[trigger] list[i]).0 != (#[trigger] list[j]).0 || list[i].1
            != list[j].1
}

/// `list` holds, for every ordered pair of nodes of `ids` that an edge joins, the best such edge,
/// once, and nothing else.
pub open spec fn is_edges_between(g: &CsrGraph, ids: Set<u32>, list: Seq<RawEdge>) -> bool {
    &&& pairs_distinct(list)
    &&& forall|j: int|
        0 <= j < list.len() ==> ids.contains((#[trigger] list[j]).0) && ids.contains(list[j].1)
            && is_best(g, list[j])
    &&& forall|from: u32, to: u32|
        ids.contains(from) && ids.contains(to) && best_edge(g.out_edges(from as int), to) is Some
            ==> #[trigger] lists_pair(list, from, to)
}

/// The state while the edges that leave one node are walked: `list[start..]` holds the best edges
/// among those walked, and `places` says where each end stands.
spec fn group_state(
    edges: Seq<EdgeInfo>,
    ids: Set<u32>,
    from: u32,
    list: Seq<RawEdge>,
    start: int,
    places: Map<u32, usize>,
) -> bool {
    &&& 0 <= start <= list.len()
    &&& forall|p: int|
        start <= p < list.len() ==> {
            let e = #[trigger] list[p];
            &&& e.0 == from
            &&& ids.contains(e.1)
            &&& places.contains_key(e.1)
            &&& places[e.1] == p
            &&& best_edge(edges, e.1) matches Some(b) && e.2 == b.weight && e.3 == b.edge_type
        }
    &&& forall|to: u32| #[trigger]
        places.contains_key(to) ==> start <= places[to] < list.len() && list[places[to] as int].1
            == to
    &&& forall|to: u32|
        ids.contains(to) && #[trigger] best_edge(edges, to) is Some ==> places.contains_key(to)
}

impl CsrGraph {
    /// Walks the edges that leave `from` and adds to `list` the best edge to each node of `ids`.
    fn edges_from(&self, from: u32, ids: &HashSet<u32>, list: &mut Vec<RawEdge>)
        requires
            self.wf(),
        ensures
            old(list)@.len() <= final(list)@.len(),
            final(list)@.take(old(list)@.len() as int) == old(list)@,
            forall|i: int, j: int|
                old(list)@.len() <= i < j < final(list)@.len() ==> (#[trigger] final(list)@[i]).1
                    != (#[trigger] final(list)@[j]).1,
            forall|j: int|
                old(list)@.len() <= j < final(list)@.len() ==> (#[trigger] final(list)@[j]).0
                    == from && ids@.contains(final(list)@[j].1) && is_best(self, final(list)@[j]),
            forall|to: u32|
                ids@.contains(to) && #[trigger] best_edge(self.out_edges(from as int), to) is Some
                    ==> lists_pair(final(list)@, from, to),
    {
        let ghost all = self.out_edges(from as int);
        let to = self.neighbors(from);
        let w = self.neighbor_weights(from);
        let types = self.neighbor_types(from);
        let start: usize = list.len();
        let ghost given = list@;
        let mut places: HashMap<u32, usize> = HashMap::new();
        let mut j: usize = 0;
        while j < to.len()
            invariant
                all == self.out_edges(from as int),
                to@ == targets(all),
                w@ == weights(all),
                types@ == edge_types(all),
                j <= to@.len(),
                start == given.len(),
                start <= list@.len(),
                list@.take(start as int) == given,
                group_state(all.take(j as int), ids@, from, list@, start as int, places@),
            decreases to@.len() - j,
        {
            let nb: u32 = to[j];
            proof {
                assert(all.take(j + 1).drop_last() =~= all.take(j as int));
                assert(all.take(j + 1).last() == all[j as int]);
            }
            let ghost before = list@;
            if ids.contains(&nb) {
                match places.get(&nb) {
                    Some(p) => {
                        let p: usize = *p;
                        if less(list[p].2, w[j]) {
                            list.set(p, (from, nb, w[j], types[j].clone()));
                            proof {
                                assert(list@.take(start as int) =~= before.take(start as int));
                            }
                        }
                    },
                    None => {
                        places.insert(nb, list.len());
                        list.push((from, nb, w[j], types[j].clone()));
                        proof {
                            assert(list@.take(start as int) =~= before.take(start as int));
                        }
                    },
                }
            }
            proof {
                let new = all.take(j + 1);
                assert forall|t: u32| t != nb implies #[trigger] best_edge(new, t) == best_edge(
                    all.take(j as int),
                    t,
                ) by {}
                assert forall|p: int| start <= p < list@.len() implies {
                    let e = #[trigger] list@[p];
                    &&& e.0 == from
                    &&& ids@.contains(e.1)
                    &&& places@.contains_key(e.1)
                    &&& places@[e.1] == p
                    &&& best_edge(new, e.1) matches Some(b) && e.2 == b.weight && e.3 == b.edge_type
                } by {
                    assert(all[j as int].weight == w@[j as int]);
                    assert(all[j as int].edge_type == types@[j as int]);
                    assert(all[j as int].to == nb);
                    if p < before.len() {
                        assert(before[p].0 == from);
                        if before[p].1 != nb {
                            assert(list@[p] == before[p]);
                            assert(best_edge(new, before[p].1) == best_edge(
                                all.take(j as int),
                                before[p].1,
                            ));
                        } else {
                            assert(best_edge(all.take(j as int), nb) is Some);
                        }
                    } else {
                        assert(best_edge(all.take(j as int), nb) is None);
                    }
                }
                assert(group_state(new, ids@, from, list@, start as int, places@));
            }
            j += 1;
        }
        proof {
            assert(all.take(j as int) =~= all);
            assert forall|t: u32|
                ids@.contains(t) && #[trigger] best_edge(all, t) is Some implies lists_pair(
                list@,
                from,
                t,
            ) by {
                assert(list@[places@[t] as int].1 == t);
                assert(list@[places@[t] as int].0 == from);
            }
            assert forall|i: int, j: int| start <= i < j < list@.len() implies (
            #[trigger] list@[i]).1 != (#[trigger] list@[j]).1 by {
                assert(places@[list@[i].1] == i);
                assert(places@[list@[j].1] == j);
            }
        }
    }

    /// The edges whose two ends are both in `node_ids`: for each pair of nodes in each direction
    /// the edge of the highest weight.
    pub fn edges_between(&self, node_ids: &HashSet<u32>) -> (r: Vec<RawEdge>)
        requires
            self.wf(),
        ensures
            is_edges_between(self, node_ids@, r@),
    {
        let mut list: Vec<RawEdge> = Vec::new();
        let ghost mut walked: Seq<u32> = Seq::empty();
        for id in it: node_ids.iter()
            invariant
                walked == it.seq().take(it.index()).unref(),
                self.wf(),
                it.seq().unref().to_set() == node_ids@,
                it.seq().no_duplicates(),
                it.index() == it.seq().len() ==> walked.to_set() == node_ids@,
                walked.to_set().subset_of(node_ids@),
                pairs_distinct(list@),
                forall|j: int|
                    0 <= j < list@.len() ==> walked.contains((#[trigger] list@[j]).0) && node_ids@.contains(list@[j].1) && is_best(self, list@[j]),
                forall|from: u32, to: u32|
                    walked.contains(from) && node_ids@.contains(to)
                        && best_edge(self.out_edges(from as int), to) is Some
                        ==> #[trigger] lists_pair(list@, from, to),
        {
            let ghost before = list@;
            self.edges_from(*id, node_ids, &mut list);
            proof {
                let next = walked.push(*id);
                assert(next =~= it.seq().take(it.index() + 1).unref());
                assert(!walked.contains(*id)) by {
                    if walked.contains(*id) {
                        let q = walked.index_of(*id);
                        assert(it.seq()[q] == it.seq()[it.index() as int]);
                    }
                }
                assert forall|j: int| 0 <= j < before.len() implies #[trigger] list@[j]
                    == before[j] by {
                    assert(list@.take(before.len() as int)[j] == list@[j]);
                }
                assert forall|j: int| 0 <= j < list@.len() implies next.contains(
                    (#[trigger] list@[j]).0,
                ) && node_ids@.contains(list@[j].1) && is_best(self, list@[j]) by {
                    if j < before.len() {
                        assert(walked.contains(before[j].0));
                        let q = walked.index_of(before[j].0);
                        assert(next[q] == before[j].0);
                    } else {
                        assert(next[walked.len() as int] == *id);
                    }
                }
                assert forall|from: u32, to: u32|
                    next.contains(from) && node_ids@.contains(to) && best_edge(
                        self.out_edges(from as int),
                        to,
                    ) is Some implies #[trigger] lists_pair(list@, from, to) by {
                    if from != *id {
                        let q = next.index_of(from);
                        assert(walked[q] == from);
                        assert(lists_pair(before, from, to));
                        let j = choose|j: int|
                            0 <= j < before.len() && (#[trigger] before[j]).0 == from
                                && before[j].1 == to;
                        assert(list@[j].0 == from);
                    }
                }
                assert forall|i: int, j: int| 0 <= i < j < list@.len() implies (
                #[trigger] list@[i]).0 != (#[trigger] list@[j]).0 || list@[i].1 != list@[j].1 by {
                    if i < before.len() && j >= before.len() {
                        assert(walked.contains(before[i].0));
                    }
                }
                assert(it.seq().take(it.seq().len() as int) =~= it.seq());
                walked = next;
            }
        }
        assert forall|id: u32| node_ids@.contains(id) implies walked.contains(id) by {
            assert(walked.to_set() == node_ids@);
        }
        list
    }
}

/// There is a best edge to a node exactly when there is an edge to it; and where every weight is a
/// number, no edge to that node outweighs it.
pub proof fn law_best_edge_is_heaviest(edges: Seq<EdgeInfo>, to: u32)
    ensures
        best_edge(edges, to) is Some <==> exists|k: int|
            0 <= k < edges.len() && (#[trigger] edges[k]).to == to,
        best_edge(edges, to) matches Some(b) ==> edges.contains(b) && b.to == to,
        (forall|k: int| 0 <= k < edges.len() ==> !f32_is_nan((#[trigger] edges[k]).weight))
            ==> forall|k: int|
            0 <= k < edges.len() && (#[trigger] edges[k]).to == to ==> f32_rank(edges[k].weight)
                <= f32_rank(best_edge(edges, to)->0.weight),
    decreases edges.len(),
{
    if edges.len() > 0 {
        let rest = edges.drop_last();
        law_best_edge_is_heaviest(rest, to);
        assert forall|k: int| 0 <= k < rest.len() implies #[trigger] rest[k] == edges[k] by {}
        if let Some(b) = best_edge(rest, to) {
            let k = rest.index_of(b);
            assert(edges[k] == b);
        }
        if edges.last().to == to {
            assert(edges[edges.len() - 1].to == to);
        }
        if exists|k: int| 0 <= k < edges.len() && (#[trigger] edges[k]).to == to {
            let k = choose|k: int| 0 <= k < edges.len() && (#[trigger] edges[k]).to == to;
            if k < rest.len() {
                assert(rest[k].to == to);
            }
        }
        if forall|k: int| 0 <= k < edges.len() ==> !f32_is_nan((#[trigger] edges[k]).weight) {
            assert forall|k: int| 0 <= k < rest.len() implies !f32_is_nan(
                (#[trigger] rest[k]).weight,
            ) by {
                assert(!f32_is_nan(edges[k].weight));
            }
            assert forall|k: int| 0 <= k < edges.len() && (#[trigger] edges[k]).to == to implies
                f32_rank(edges[k].weight) <= f32_rank(best_edge(edges, to)->0.weight) by {
                assert(!f32_is_nan(edges[edges.len() - 1].weight));
                if k < rest.len() {
                    assert(rest[k].to == to);
                    let b = best_edge(rest, to)->0;
                    let q = rest.index_of(b);
                    assert(!f32_is_nan(edges[q].weight));
                } else if let Some(b) = best_edge(rest, to) {
                    let q = rest.index_of(b);
                    assert(!f32_is_nan(edges[q].weight));
                }
            }
        }
    }
}

/// The edges between nodes join two of them each, and no two of them the same two in the same
/// direction. Each has the weight and the type of an edge of the graph between its ends, than which
/// none is heavier where every weight is a number. Any two of the nodes that an edge of the graph
/// joins have one.
pub proof fn law_edges_between_are_the_heaviest(g: &CsrGraph, ids: Set<u32>, list: Seq<RawEdge>)
    requires
        is_edges_between(g, ids, list),
    ensures
        forall|i: int|
            0 <= i < list.len() ==> {
                let e = #[trigger] list[i];
                &&& ids.contains(e.0)
                &&& ids.contains(e.1)
                &&& exists|k: int|
                    0 <= k < g.out_edges(e.0 as int).len() && {
                        let own = #[trigger] g.out_edges(e.0 as int)[k];
                        own.to == e.1 && own.weight == e.2 && own.edge_type == e.3
                    }
                &&& (forall|k: int|
                    0 <= k < g.out_edges(e.0 as int).len() ==> !f32_is_nan(
                        (#[trigger] g.out_edges(e.0 as int)[k]).weight,
                    )) ==> forall|k: int|
                    0 <= k < g.out_edges(e.0 as int).len() && (#[trigger] g.out_edges(
                        e.0 as int,
                    )[k]).to == e.1 ==> f32_rank(g.out_edges(e.0 as int)[k].weight) <= f32_rank(e.2)
            },
        forall|i: int, j: int|
            0 <= i < j < list.len() ==> (#[trigger] list[i]).0 != (#[trigger] list[j]).0
                || list[i].1 != list[j].1,
        forall|from: u32, k: int|
            ids.contains(from) && 0 <= k < g.out_edges(from as int).len() && ids.contains(
                (#[trigger] g.out_edges(from as int)[k]).to,
            ) ==> exists|i: int|
                0 <= i < list.len() && (#[trigger] list[i]).0 == from && list[i].1 == g.out_edges(
                    from as int,
                )[k].to,
{
    assert forall|i: int| 0 <= i < list.len() implies {
        let e = #[trigger] list[i];
        &&& ids.contains(e.0)
        &&& ids.contains(e.1)
        &&& exists|k: int|
            0 <= k < g.out_edges(e.0 as int).len() && {
                let own = #[trigger] g.out_edges(e.0 as int)[k];
                own.to == e.1 && own.weight == e.2 && own.edge_type == e.3
            }
        &&& (forall|k: int|
            0 <= k < g.out_edges(e.0 as int).len() ==> !f32_is_nan(
                (#[trigger] g.out_edges(e.0 as int)[k]).weight,
            )) ==> forall|k: int|
            0 <= k < g.out_edges(e.0 as int).len() && (#[trigger] g.out_edges(e.0 as int)[k]).to
                == e.1 ==> f32_rank(g.out_edges(e.0 as int)[k].weight) <= f32_rank(e.2)
    } by {
        let e = list[i];
        assert(is_best(g, e));
        law_best_edge_is_heaviest(g.out_edges(e.0 as int), e.1);
        let own = best_edge(g.out_edges(e.0 as int), e.1)->0;
        let k = g.out_edges(e.0 as int).index_of(own);
        assert(g.out_edges(e.0 as int)[k] == own);
    }
    assert forall|from: u32, k: int|
        ids.contains(from) && 0 <= k < g.out_edges(from as int).len() && ids.contains(
            (#[trigger] g.out_edges(from as int)[k]).to,
        ) implies exists|i: int|
        0 <= i < list.len() && (#[trigger] list[i]).0 == from && list[i].1 == g.out_edges(
            from as int,
        )[k].to by {
        let to = g.out_edges(from as int)[k].to;
        law_best_edge_is_heaviest(g.out_edges(from as int), to);
        assert(lists_pair(list, from, to));
    }
}

} // verus!

//! The index over edge embeddings: from near edges to their endpoints.

use crate::json::{json_pairs, parse_pairs, write_pairs};
use crate::vector::store::{all_of_dim, same_dim, store_bytes, TooManyVectors, VectorStore};
use vstd::prelude::*;

verus! {

/// The endpoints of the indexed edges: entry `i` holds start and end of edge `i`.
pub struct EdgeHnswIndex {
    pub endpoints: Vec<(u32, u32)>,
}

/// The endpoints and distances of the nearest edges among the hits; hits that no edge answers to
/// are passed over.
pub open spec fn edge_hits(endpoints: Seq<(u32, u32)>, hits: Seq<(u32, u32)>) -> Seq<(u32, u32, u32)>
    decreases hits.len(),
{
    if hits.len() == 0 {
        Seq::empty()
    } else {
        let before = edge_hits(endpoints, hits.drop_last());
        let (i, distance) = hits.last();
        if i < endpoints.len() {
            before.push((endpoints[i as int].0, endpoints[i as int].1, distance))
        } else {
            before
        }
    }
}

impl EdgeHnswIndex {
    /// The index over as many vectors; no vectors give an empty index.
    pub fn build(num_vecs: usize, endpoints: Vec<(u32, u32)>) -> (r: Self)
        requires
            num_vecs == endpoints@.len(),
        ensures
            r.endpoints == endpoints,
    {
        EdgeHnswIndex { endpoints }
    }

    /// Start, end and distance of the first `k` hits. A hit is the number of an edge and its
    /// distance.
    pub fn search(&self, hits: &Vec<(u32, u32)>, k: usize) -> (r: Vec<(u32, u32, u32)>)
        ensures
            r@ == edge_hits(
                self.endpoints@,
                hits@.take(
                    if k < hits@.len() {
                        k as int
                    } else {
                        hits@.len() as int
                    },
                ),
            ),
    {
        let count: usize = if k < hits.len() {
            k
        } else {
            hits.len()
        };
        let mut r: Vec<(u32, u32, u32)> = Vec::new();
        let mut i: usize = 0;
        proof {
            assert(r@ =~= edge_hits(self.endpoints@, hits@.take(0)));
        }
        while i < count
            invariant
                i <= count <= hits@.len(),
                r@ == edge_hits(self.endpoints@, hits@.take(i as int)),
            decreases count - i,
        {
            proof {
                assert(hits@.take(i + 1).drop_last() =~= hits@.take(i as int));
                assert(hits@.take(i + 1).last() == hits@[i as int]);
            }
            let (edge, distance) = hits[i];
            if (edge as usize) < self.endpoints.len() {
                let (from, to) = self.endpoints[edge as usize];
                r.push((from, to, distance));
            }
            i += 1;
        }
        r
    }

    pub fn is_empty(&self) -> (r: bool)
        ensures
            r == (self.endpoints@.len() == 0),
    {
        self.endpoints.is_empty()
    }
}

/// The index of these endpoints for as many vectors: where the numbers differ, the two do not
/// belong together, and nothing is indexed.
pub fn index_endpoints(num_vecs: usize, endpoints: Vec<(u32, u32)>) -> (r: EdgeHnswIndex)
    ensures
        if endpoints@.len() == num_vecs {
            r.endpoints == endpoints
        } else {
            r.endpoints@.len() == 0
        },
{
    if endpoints.len() == num_vecs {
        EdgeHnswIndex::build(num_vecs, endpoints)
    } else {
        EdgeHnswIndex::build(0, Vec::new())
    }
}

/// Reads the endpoints of the edges from the text of `edge_endpoints.json`: nothing where it holds
/// no list of pairs.
pub fn read_endpoints(endpoints_json: &str) -> (r: Option<Vec<(u32, u32)>>)
    ensures
        match r {
            Some(list) => json_pairs(endpoints_json@) == Some(list@),
            None => json_pairs(endpoints_json@) is None,
        },
{
    parse_pairs(endpoints_json)
}

/// Writes the endpoints of the edges for `edge_endpoints.json`.
pub fn write_endpoints(endpoints: &Vec<(u32, u32)>) -> (r: String)
    ensures
        json_pairs(r@) == Some(endpoints@),
{
    write_pairs(endpoints)
}

/// The index of the endpoints in the text of `edge_endpoints.json`, for `num_vecs` edge vectors.
/// Nothing is indexed where the numbers differ; there is no index where the text cannot be read.
pub fn load_edge_hnsw(num_vecs: usize, endpoints_json: &str) -> (r: Option<EdgeHnswIndex>)
    ensures
        match json_pairs(endpoints_json@) {
            Some(p) => r matches Some(index) && if p.len() == num_vecs {
                index.endpoints@ == p
            } else {
                index.endpoints@.len() == 0
            },
            None => r is None,
        },
{
    match parse_pairs(endpoints_json) {
        Some(endpoints) => Some(index_endpoints(num_vecs, endpoints)),
        None => None,
    }
}

/// Why edge vectors cannot be saved.
pub enum SaveError {
    /// They are not all of one dimension.
    DimensionMismatch,
    TooMany(TooManyVectors),
}

/// The dimension of the first vector; 0 without one.
pub open spec fn first_dim(vecs: Seq<Vec<u32>>) -> int {
    if vecs.len() == 0 {
        0
    } else {
        vecs[0]@.len() as int
    }
}

/// The bytes of the file of edge vectors, if there is anything to write.
pub fn save_edge_hnsw_data(vecs: &Vec<Vec<u32>>) -> (r: Result<Option<Vec<u8>>, SaveError>)
    requires
        first_dim(vecs@) <= u32::MAX,
    ensures
        match r {
            Ok(None) => first_dim(vecs@) == 0,
            Ok(Some(bytes)) => {
                &&& first_dim(vecs@) > 0
                &&& all_of_dim(first_dim(vecs@), vecs@)
                &&& vecs@.len() <= u32::MAX
                &&& bytes@ == store_bytes(first_dim(vecs@) as u32, vecs@)
            },
            Err(SaveError::DimensionMismatch) => first_dim(vecs@) > 0 && !all_of_dim(
                first_dim(vecs@),
                vecs@,
            ),
            Err(SaveError::TooMany(e)) => {
                &&& first_dim(vecs@) > 0
                &&& all_of_dim(first_dim(vecs@), vecs@)
                &&& e.count == vecs@.len() > u32::MAX
            },
        },
{
    let dim: usize = if vecs.is_empty() {
        0
    } else {
        vecs[0].len()
    };
    if dim == 0 {
        return Ok(None);
    }
    if !same_dim(dim, vecs) {
        return Err(SaveError::DimensionMismatch);
    }
    match VectorStore::write(dim as u32, vecs) {
        Ok(bytes) => Ok(Some(bytes)),
        Err(e) => Err(SaveError::TooMany(e)),
    }
}

/// Of the nearest edge vectors, those that have ends in the index give them with their distances, in
/// the order of the hits.
pub proof fn law_edge_hits_give_their_ends(endpoints: Seq<(u32, u32)>, hits: Seq<(u32, u32)>)
    ensures
        ({
            let kept = hits.filter(|h: (u32, u32)| h.0 < endpoints.len());
            let r = edge_hits(endpoints, hits);
            &&& r.len() == kept.len()
            &&& forall|i: int|
                0 <= i < r.len() ==> (#[trigger] r[i]).0 == endpoints[kept[i].0 as int].0 && r[i].1
                    == endpoints[kept[i].0 as int].1 && r[i].2 == kept[i].1
        }),
    decreases hits.len(),
{
    reveal(Seq::filter);
    let known = |h: (u32, u32)| h.0 < endpoints.len();
    if hits.len() > 0 {
        let rest = hits.drop_last();
        law_edge_hits_give_their_ends(endpoints, rest);
        let before = edge_hits(endpoints, rest);
        let r = edge_hits(endpoints, hits);
        let kept = hits.filter(known);
        assert forall|i: int| 0 <= i < r.len() implies (#[trigger] r[i]).0
            == endpoints[kept[i].0 as int].0 && r[i].1 == endpoints[kept[i].0 as int].1 && r[i].2
            == kept[i].1 by {
            if i < before.len() {
                assert(r[i] == before[i]);
                assert(kept[i] == rest.filter(known)[i]);
            }
        }
    }
}

} // verus!

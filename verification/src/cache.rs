//! The cache of embeddings that are read often.

use crate::vector::store::{vector_at, VectorStore};
use moka::sync::Cache;
use std::sync::Arc;
use vstd::prelude::*;

verus! {

/// `moka::sync::Cache`, carried as an opaque value.
#[verifier::external_type_specification]
#[verifier::external_body]
#[verifier::reject_recursive_types(K)]
#[verifier::reject_recursive_types(V)]
#[verifier::reject_recursive_types(S)]
pub struct ExCache<K, V, S>(moka::sync::Cache<K, V, S>);

/// What was last inserted into a cache under each key since it was made or last invalidated. The
/// cache may have evicted some of it.
pub uninterp spec fn cached_vectors(cache: Cache<u32, Arc<Vec<u32>>>) -> Map<u32, Seq<u32>>;

/// How many insertions were made into a cache since it was made.
pub uninterp spec fn insertions_into(cache: Cache<u32, Arc<Vec<u32>>>) -> nat;

/// `moka::sync::Cache::new`: a cache into which nothing has been inserted.
#[verifier::external_body]
fn new_cache(max_capacity: u64) -> (r: Cache<u32, Arc<Vec<u32>>>)
    ensures
        cached_vectors(r).dom() == Set::<u32>::empty(),
        insertions_into(r) == 0,
{
    Cache::new(max_capacity)
}

/// `moka::sync::Cache::get`: a clone of the value last inserted under the key, or nothing. It may
/// find nothing at any time, since entries are evicted.
#[verifier::external_body]
fn cache_get(cache: &Cache<u32, Arc<Vec<u32>>>, id: u32) -> (r: Option<Arc<Vec<u32>>>)
    ensures
        r matches Some(v) ==> cached_vectors(*cache).contains_key(id) && cached_vectors(*cache)[id]
            == v@,
{
    cache.get(&id)
}

/// `moka::sync::Cache::insert`: from now on the key stands for this value.
#[verifier::external_body]
fn cache_insert(cache: &mut Cache<u32, Arc<Vec<u32>>>, id: u32, vector: Arc<Vec<u32>>)
    ensures
        cached_vectors(*final(cache)) == cached_vectors(*old(cache)).insert(id, vector@),
        insertions_into(*final(cache)) == insertions_into(*old(cache)) + 1,
{
    cache.insert(id, vector);
}

/// `moka::sync::Cache::invalidate_all`: nothing that was inserted before is found any more.
#[verifier::external_body]
fn cache_invalidate_all(cache: &mut Cache<u32, Arc<Vec<u32>>>)
    ensures
        cached_vectors(*final(cache)).dom() == Set::<u32>::empty(),
        insertions_into(*final(cache)) == insertions_into(*old(cache)),
{
    cache.invalidate_all();
}

/// `moka::sync::Cache::entry_count`: an estimate, which lags behind insertions, evictions and
/// invalidations. It starts at 0 and grows by at most 1 for an insertion, so that it is never
/// higher than the number of insertions; how far below it lies is left open.
#[verifier::external_body]
fn cache_entry_count(cache: &Cache<u32, Arc<Vec<u32>>>) -> (r: u64)
    ensures
        r <= insertions_into(*cache),
{
    cache.entry_count()
}

/// A cache of embeddings by node id.
pub struct EmbedCache {
    pub cache: Cache<u32, Arc<Vec<u32>>>,
    pub capacity: usize,
}

impl EmbedCache {
    /// The embeddings that the cache may hold.
    pub open spec fn contents(&self) -> Map<u32, Seq<u32>> {
        cached_vectors(self.cache)
    }

    /// How often an embedding was put into the cache since the cache was made.
    pub open spec fn insertions(&self) -> nat {
        insertions_into(self.cache)
    }

    /// Every embedding that the cache may hold is that of the store.
    pub open spec fn agrees_with(&self, store: &VectorStore) -> bool {
        forall|id: u32| #[trigger]
            self.contents().contains_key(id) ==> id < store.num_vecs && self.contents()[id]
                == vector_at(store.bytes@, store.dim as nat, id as nat)
    }

    pub fn new(capacity: usize) -> (r: Self)
        ensures
            r.contents() == Map::<u32, Seq<u32>>::empty(),
            r.insertions() == 0,
            r.capacity == capacity,
    {
        EmbedCache { cache: new_cache(capacity as u64), capacity }
    }

    pub fn capacity(&self) -> (r: usize)
        ensures
            r == self.capacity,
    {
        self.capacity
    }

    /// The embedding of a node: from the cache, or else from the store and then also in the cache.
    pub fn get_or_load(&mut self, id: u32, store: &VectorStore) -> (r: Arc<Vec<u32>>)
        requires
            store.wf(),
            id < store.num_vecs,
        ensures
            final(self).capacity == old(self).capacity,
            ({
                let stored = vector_at(store.bytes@, store.dim as nat, id as nat);
                let found = old(self).contents().contains_key(id) && r@ == old(self).contents()[id]
                    && final(self).contents() == old(self).contents() && final(self).insertions()
                    == old(self).insertions();
                let loaded = r@ == stored && final(self).contents() == old(self).contents().insert(
                    id,
                    stored,
                ) && final(self).insertions() == old(self).insertions() + 1;
                found || loaded
            }),
            old(self).agrees_with(store) ==> final(self).agrees_with(store) && r@ == vector_at(
                store.bytes@,
                store.dim as nat,
                id as nat,
            ),
    {
        match cache_get(&self.cache, id) {
            Some(v) => {
                return v;
            },
            None => {},
        }
        let vector: Arc<Vec<u32>> = Arc::new(store.get(id));
        let ghost before = self.contents();
        cache_insert(&mut self.cache, id, vector.clone());
        proof {
            assert(self.contents() == before.insert(id, vector@));
            if old(self).agrees_with(store) {
                assert forall|other: u32| #[trigger] self.contents().contains_key(other) implies other
                    < store.num_vecs && self.contents()[other] == vector_at(
                    store.bytes@,
                    store.dim as nat,
                    other as nat,
                ) by {
                    if other != id {
                        assert(old(self).contents().contains_key(other));
                    }
                }
            }
        }
        vector
    }

    /// About how many embeddings the cache holds: the cache counts with a lag, and never more than
    /// were put into it.
    pub fn cache_size(&self) -> (r: usize)
        ensures
            r <= self.insertions(),
    {
        let count: u64 = cache_entry_count(&self.cache);
        proof {
            assert(count as usize <= count) by (bit_vector);
        }
        count as usize
    }

    pub fn invalidate_all(&mut self)
        ensures
            final(self).contents() == Map::<u32, Seq<u32>>::empty(),
            final(self).insertions() == old(self).insertions(),
            final(self).capacity == old(self).capacity,
    {
        cache_invalidate_all(&mut self.cache);
    }
}

} // verus!

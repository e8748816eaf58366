//! Vector files, exact search, the edge index and the embedding cache.

use ai_graph_engine::cache::EmbedCache;
use ai_graph_engine::vector::hnsw::{
    index_endpoints, load_edge_hnsw, read_endpoints, save_edge_hnsw_data, write_endpoints,
    EdgeHnswIndex, SaveError,
};
use ai_graph_engine::vector::store::{
    brute_search, descending_order, same_dim, StoreError, VectorStore,
};

fn bits(v: &[f32]) -> Vec<u32> {
    v.iter().map(|x| x.to_bits()).collect()
}

fn floats(v: &[u32]) -> Vec<f32> {
    v.iter().map(|b| f32::from_bits(*b)).collect()
}

fn dot(a: &[f32], b: &[f32]) -> f32 {
    a.iter().zip(b).map(|(x, y)| x * y).sum()
}

/// Deterministic unit vectors.
fn make_vecs(n: usize, dim: usize) -> Vec<Vec<f32>> {
    (0..n)
        .map(|i| {
            let v: Vec<f32> = (0..dim).map(|j| ((i * dim + j) as f32 * 0.1).sin()).collect();
            let norm = dot(&v, &v).sqrt();
            v.iter().map(|x| x / norm).collect()
        })
        .collect()
}

fn write_vecs(dim: usize, vecs: &[Vec<f32>]) -> Vec<u8> {
    let as_bits: Vec<Vec<u32>> = vecs.iter().map(|v| bits(v)).collect();
    assert!(same_dim(dim, &as_bits));
    VectorStore::write(dim as u32, &as_bits).unwrap_or_else(|e| panic!("{}", e.message()))
}

fn open(bytes: &[u8]) -> VectorStore<'_> {
    VectorStore::open(bytes).unwrap_or_else(|e| panic!("{}", e.message()))
}

/// The similarity of a query to each vector of a store.
fn sims(store: &VectorStore<'_>, query: &[f32]) -> Vec<u32> {
    (0..store.num_vecs as u32).map(|id| dot(&floats(&store.get(id)), query).to_bits()).collect()
}

#[test]
fn write_and_read_roundtrip() {
    let vecs = make_vecs(10, 8);
    let bytes = write_vecs(8, &vecs);
    let store = open(&bytes);

    assert_eq!(store.num_vecs, 10);
    assert_eq!(store.dim, 8);

    for (i, original) in vecs.iter().enumerate() {
        let loaded = floats(&store.get(i as u32));
        for (a, b) in original.iter().zip(loaded.iter()) {
            assert!((a - b).abs() < 1e-6, "vec {i} mismatch: {a} vs {b}");
        }
    }
}

#[test]
fn store_rejects_wrong_size_file() {
    assert!(VectorStore::open(b"short").is_err());
}

#[test]
fn store_errors_say_what_is_wrong() {
    assert!(matches!(VectorStore::open(b"short"), Err(StoreError::TooSmall)));
    let mut bytes = write_vecs(2, &[vec![1.0, 2.0]]);
    assert_eq!(bytes.len(), 16);
    assert_eq!(bytes[..8], [2, 0, 0, 0, 1, 0, 0, 0]);
    assert_eq!(bytes[8..12], 1.0f32.to_le_bytes());
    bytes.pop();
    let e = VectorStore::open(&bytes).err().unwrap();
    assert_eq!(e.message(), "vectors.bin size mismatch: expected 16 bytes, got 15");
    let text = VectorStore::open(b"").err().unwrap().message();
    assert_eq!(text, "vectors.bin too small — missing header");
}

#[test]
fn brute_search_top1_finds_identical_vec() {
    let bytes = write_vecs(16, &make_vecs(20, 16));
    let store = open(&bytes);
    let query = floats(&store.get(5));
    let results = brute_search(&sims(&store, &query), 1);
    assert_eq!(results[0].0, 5, "top-1 should be the query itself");
    assert!((f32::from_bits(results[0].1) - 1.0).abs() < 1e-4, "similarity should be ~1.0");
}

#[test]
fn brute_search_returns_k_results() {
    let bytes = write_vecs(8, &make_vecs(50, 8));
    let store = open(&bytes);
    let query = floats(&store.get(0));
    let results = brute_search(&sims(&store, &query), 10);
    assert_eq!(results.len(), 10);
}

#[test]
fn brute_search_results_descending_similarity() {
    let bytes = write_vecs(8, &make_vecs(30, 8));
    let store = open(&bytes);
    let query = floats(&store.get(0));
    let results = brute_search(&sims(&store, &query), 10);
    for w in results.windows(2) {
        assert!(
            f32::from_bits(w[0].1) >= f32::from_bits(w[1].1),
            "results not sorted by descending similarity"
        );
    }
}

#[test]
fn equal_similarities_keep_their_order() {
    let keys = bits(&[0.5, 0.9, 0.5, -1.0, 0.9]);
    assert_eq!(descending_order(&keys), vec![1, 4, 0, 2, 3]);
    let found: Vec<u32> = brute_search(&keys, 3).iter().map(|h| h.0).collect();
    assert_eq!(found, vec![1, 4, 0]);
    assert!(brute_search(&keys, 0).is_empty());
}

// ── edge index ───────────────────────────────────────────────────────────────

#[test]
fn edge_hits_become_endpoints() {
    let index = EdgeHnswIndex::build(2, vec![(4, 5), (6, 7)]);
    assert!(!index.is_empty());
    let d = bits(&[0.1, 0.2, 0.3]);
    let hits = vec![(1, d[0]), (9, d[1]), (0, d[2])];
    assert_eq!(index.search(&hits, 3), vec![(6, 7, d[0]), (4, 5, d[2])]);
    assert_eq!(index.search(&hits, 2), vec![(6, 7, d[0])]);
    assert!(EdgeHnswIndex::build(0, vec![]).is_empty());
}

#[test]
fn edge_files_that_disagree_give_an_empty_index() {
    assert!(index_endpoints(3, vec![(0, 1)]).is_empty());
    assert!(!index_endpoints(1, vec![(0, 1)]).is_empty());
    let index = load_edge_hnsw(2, "[[4, 5], [6,7]]").unwrap();
    assert_eq!(index.endpoints, vec![(4, 5), (6, 7)]);
    assert!(load_edge_hnsw(1, "[[4,5],[6,7]]").unwrap().is_empty());
    assert!(load_edge_hnsw(1, "[[4]]").is_none());
    assert!(load_edge_hnsw(1, "").is_none());
}

#[test]
fn endpoints_come_back_from_their_text() {
    let endpoints = vec![(0, u32::MAX), (3, 4)];
    assert_eq!(write_endpoints(&endpoints), "[[0,4294967295],[3,4]]");
    assert_eq!(read_endpoints(&write_endpoints(&endpoints)), Some(endpoints));
    assert_eq!(read_endpoints("[[0,-1]]"), None);
}

#[test]
fn edge_vectors_are_written_if_there_are_any() {
    assert!(matches!(save_edge_hnsw_data(&vec![]), Ok(None)));
    let vecs = vec![bits(&[1.0, 0.0])];
    match save_edge_hnsw_data(&vecs) {
        Ok(Some(bytes)) => assert_eq!(open(&bytes).get(0), vecs[0]),
        _ => panic!("edge vectors should be written"),
    }
    let mixed = vec![bits(&[1.0, 0.0]), vec![]];
    assert!(matches!(save_edge_hnsw_data(&mixed), Err(SaveError::DimensionMismatch)));
}

// ── embedding cache ──────────────────────────────────────────────────────────

fn store_bytes(n: usize, dim: usize) -> Vec<u8> {
    let vecs: Vec<Vec<f32>> = (0..n).map(|i| vec![(i as f32) / n as f32; dim]).collect();
    write_vecs(dim, &vecs)
}

#[test]
fn cache_miss_loads_from_store() {
    let bytes = store_bytes(10, 4);
    let store = open(&bytes);
    let mut cache = EmbedCache::new(100);
    let v = cache.get_or_load(0, &store);
    assert_eq!(v.len(), 4);
}

#[test]
fn cache_hit_returns_same_value() {
    let bytes = store_bytes(10, 4);
    let store = open(&bytes);
    let mut cache = EmbedCache::new(100);
    let v1 = cache.get_or_load(3, &store);
    let v2 = cache.get_or_load(3, &store);
    assert_eq!(v1, v2);
    assert_eq!(floats(&v1), vec![0.3; 4]);
}

#[test]
fn cache_size_increments_on_miss() {
    let bytes = store_bytes(10, 4);
    let store = open(&bytes);
    let mut cache = EmbedCache::new(100);
    assert_eq!(cache.cache_size(), 0);
    cache.get_or_load(0, &store);
    cache.get_or_load(1, &store);
    // the count is eventually consistent — allow small lag
    let size = cache.cache_size();
    assert!(size <= 2, "size should be ≤ 2, got {size}");
}

#[test]
fn cache_respects_capacity() {
    let bytes = store_bytes(10, 4);
    let store = open(&bytes);
    let capacity = 3usize;
    let mut cache = EmbedCache::new(capacity);
    assert_eq!(cache.capacity(), capacity);
    for i in 0..6u32 {
        cache.get_or_load(i, &store);
    }
    // eviction is asynchronous; size should eventually be ≤ capacity
    let size = cache.cache_size();
    assert!(size <= capacity + 2, "size {size} > capacity {capacity}");
}

#[test]
fn cache_invalidate_all_empties() {
    let bytes = store_bytes(10, 4);
    let store = open(&bytes);
    let mut cache = EmbedCache::new(100);
    cache.get_or_load(0, &store);
    cache.get_or_load(1, &store);
    cache.invalidate_all();
    let size = cache.cache_size();
    assert!(size <= 2, "after invalidate_all size should be near 0, got {size}");
}

#[test]
fn invalidated_vectors_are_loaded_anew() {
    let old = write_vecs(2, &[vec![1.0, 0.0]]);
    let new = write_vecs(2, &[vec![0.0, 1.0]]);
    let mut cache = EmbedCache::new(10);
    assert_eq!(floats(&cache.get_or_load(0, &open(&old))), vec![1.0, 0.0]);
    cache.invalidate_all();
    assert_eq!(floats(&cache.get_or_load(0, &open(&new))), vec![0.0, 1.0]);
}

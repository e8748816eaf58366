pub mod hnsw;
pub mod store;

pub mod export;
pub mod ingest;
pub mod query;

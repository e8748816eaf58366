pub mod admin;
pub mod export;
pub mod ingest;
pub mod query;

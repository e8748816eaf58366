//! A knowledge-graph retrieval engine, with its behaviour stated and proved.

pub mod api;
pub mod cache;
pub mod config;
pub mod delta;
pub mod digits;
pub mod entity_resolution;
pub mod float;
pub mod graph;
pub mod json;
pub mod metrics;
pub mod middleware;
pub mod plugin;
pub mod query;
pub mod startup;
pub mod text;
pub mod vector;
pub mod wal;

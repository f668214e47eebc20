//! A persistent HNSW vector index: ordering of stored distances, the record format,
//! neighbor selection, layer search, graph linking and the build coordinator's
//! decisions. Storage, threads and floating-point distances are left to the caller.
pub mod order;
pub mod neighbors;
pub mod node;
pub mod graph;
pub mod errors;
pub mod record;
pub mod codec;
pub mod search;
pub mod coordinator;
pub mod models;
pub mod config;
pub mod text;
pub mod keys;
pub mod memory;

//! Core storage engine for a multi-tenant page-versioned store.
//!
//! Recent page versions are accumulated in an append-only in-memory layer
//! backed by a spill file ([`ephemeral_file`], [`inmemory_layer`]), frozen
//! under global memory pressure ([`global_resources`]), flushed to persistent
//! delta layers, and later reorganized by the compaction engine
//! ([`compaction`], [`gc_compaction`], [`shard_rewrite`]).

pub mod compaction;
pub mod ephemeral_file;
pub mod errors;
pub mod gate;
pub mod gc_compaction;
pub mod global_resources;
pub mod inmemory_layer;
pub mod keys;
pub mod layer_map;
pub mod shard;
pub mod shard_rewrite;
pub mod value;

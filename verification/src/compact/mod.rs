//! Compaction: merges small committed objects into fewer, larger, stream-major ones.
pub mod analyzer;
pub mod builder;
pub mod executor;
pub mod group;
pub mod layout_laws;
pub mod merge;
pub mod merge_laws;
pub mod pass;
pub mod plan;
pub mod plan_laws;
pub mod round;
pub mod round_laws;
pub mod sanity;
pub mod stages;
pub mod steps;
pub mod stream_compactor;

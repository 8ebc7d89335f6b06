//! Local sparse index: stream offset to stream-set-object hints, to cut metadata-plane
//! round trips on cold reads.
pub mod laws;
pub mod persisted;
pub mod range_cache;
pub mod sparse;
pub mod totals;

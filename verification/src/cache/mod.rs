//! Caches: the write-path log cache, the read-path block cache, and snapshot reads.
pub mod block_cache;
pub mod blockcache;
pub mod held;
pub mod log_block;
pub mod log_cache;
pub mod log_laws;
pub mod snapshot_laws;
pub mod snapshot_read;
pub mod snapshot_replay;
pub mod stream_cache;
pub mod tail_reads;

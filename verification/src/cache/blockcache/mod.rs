//! The cold read path: cached blocks and readahead.
pub mod block_laws;
pub mod block_table;
pub mod cold_reads;
pub mod data_block;
pub mod data_block_cache;
pub mod object_reader_cache;
pub mod read_laws;
pub mod read_run;
pub mod recency;
pub mod size_limiter;
pub mod stream_reader;
pub mod stream_readers;
pub mod window;

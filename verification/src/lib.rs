//! Stream storage engine on object storage.
pub mod api;
pub mod buffer;
pub mod cache;
pub mod codec;
pub mod collections;
pub mod compact;
pub mod error;
pub mod failover;
pub mod index;
pub mod kv;
pub mod manager;
pub mod memory;
pub mod metadata_laws;
pub mod metrics;
pub mod numbers;
pub mod object;
pub mod order;
pub mod storage;
pub mod stream;
pub mod stream_client;
pub mod throttle;
pub mod version;

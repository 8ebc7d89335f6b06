//! The storage pipeline: WAL-backed append, cached reads, delta-WAL upload, recovery.
pub mod recovery;
pub mod s3_storage;
pub mod upload;

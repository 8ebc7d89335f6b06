//! What the engine and the metadata plane tell each other.
use vstd::prelude::*;

use crate::compact::plan::CompactOperations;
use crate::object::{ObjectStreamRange, NOOP_OBJECT_ID};

verus! {

#[derive(Debug, Clone, Copy, PartialEq, Eq, Structural)]
pub enum StreamState {
    Closed,
    Opened,
}

/// Stream metadata as tracked by the metadata plane.
#[derive(Debug, Clone, Copy, PartialEq, Eq, Structural)]
pub struct StreamMetadata {
    pub stream_id: u64,
    pub epoch: u64,
    pub start_offset: u64,
    /// Committed end offset (recovery filters WAL records below this).
    pub end_offset: u64,
    pub state: StreamState,
    /// Owner node id.
    pub node_id: i32,
}

/// A stream object descriptor inside a commit request.
#[derive(Debug, Clone, Copy, PartialEq, Eq, Structural)]
pub struct StreamObject {
    pub object_id: u64,
    pub object_size: u64,
    pub stream_id: u64,
    pub start_offset: u64,
    pub end_offset: u64,
    pub attributes: u32,
}

/// Commit request for one delta-WAL upload (or one stream-set compaction).
/// `object_id == NOOP_OBJECT_ID` means no stream set object was produced.
#[derive(Debug, PartialEq, Eq)]
pub struct CommitStreamSetObjectRequest {
    pub object_id: u64,
    pub object_size: u64,
    pub attributes: u32,
    /// Ranges inside the stream set object.
    pub stream_ranges: Vec<ObjectStreamRange>,
    /// Split stream objects committed atomically with it.
    pub stream_objects: Vec<StreamObject>,
    /// Objects consumed by compaction (empty for delta uploads).
    pub compacted_object_ids: Vec<u64>,
}

impl CommitStreamSetObjectRequest {
    /// A request that commits nothing yet.
    pub fn empty(object_id: u64) -> (r: Self)
        ensures
            r.object_id == object_id,
            r.object_size == 0,
            r.attributes == 0,
            r.stream_ranges@ == Seq::<ObjectStreamRange>::empty(),
            r.stream_objects@ == Seq::<StreamObject>::empty(),
            r.compacted_object_ids@ == Seq::<u64>::empty(),
    {
        CommitStreamSetObjectRequest {
            object_id,
            object_size: 0,
            attributes: 0,
            stream_ranges: Vec::new(),
            stream_objects: Vec::new(),
            compacted_object_ids: Vec::new(),
        }
    }
}

impl Default for CommitStreamSetObjectRequest {
    fn default() -> (r: Self)
        ensures
            r.object_id == 0,
            r.object_size == 0,
            r.attributes == 0,
            r.stream_ranges@ == Seq::<ObjectStreamRange>::empty(),
            r.stream_objects@ == Seq::<StreamObject>::empty(),
            r.compacted_object_ids@ == Seq::<u64>::empty(),
    {
        Self::empty(0)
    }
}

#[derive(Debug, Clone, Copy, PartialEq, Eq, Structural)]
pub struct CommitStreamSetObjectResponse {}

/// Commit request for stream-object compaction.
///
/// `object_id == NOOP_OBJECT_ID` means pure cleanup (no replacement object).
/// `operations[i]` says how `source_object_ids[i]` is disposed of.
#[derive(Debug, PartialEq, Eq)]
pub struct CompactStreamObjectRequest {
    pub object_id: u64,
    pub object_size: u64,
    pub stream_id: u64,
    pub stream_epoch: u64,
    pub start_offset: u64,
    pub end_offset: u64,
    pub source_object_ids: Vec<u64>,
    /// Parallel to `source_object_ids`.
    pub operations: Vec<CompactOperations>,
    pub attributes: u32,
}

impl CompactStreamObjectRequest {
    /// No replacement object.
    pub fn is_cleanup(&self) -> (r: bool)
        ensures
            r <==> self.object_id == NOOP_OBJECT_ID,
    {
        self.object_id == NOOP_OBJECT_ID
    }
}

/// Push notification of stream metadata changes from the metadata plane. Hosts
/// implement it.
pub trait StreamMetadataListener {
    fn on_new_stream_metadata(&self, metadata: StreamMetadata);
}

/// Registration of a metadata listener. Hosts implement it.
pub trait StreamMetadataListenerHandle {
    fn close(&self);
}

} // verus!

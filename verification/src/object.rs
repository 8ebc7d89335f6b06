//! Plain descriptions of committed objects and of the data blocks inside them.
use vstd::prelude::*;

verus! {

/// No object.
pub const NOOP_OBJECT_ID: u64 = u64::MAX;

/// No offset, or no upper bound where an end offset is asked for.
pub const NOOP_OFFSET: u64 = u64::MAX;

/// Epoch of ranges whose epoch is not known.
pub const UNKNOWN_EPOCH: u64 = u64::MAX;

/// Block id of an index entry whose position in its index is not known.
pub const NO_BLOCK_ID: i32 = -1;

/// Size of the footer that ends every object: index position, index length, padding to
/// 40 bytes, magic.
pub const FOOTER_SIZE: usize = 48;

/// Index entry of one data block inside an object.
#[derive(Debug, Clone, Copy, PartialEq, Eq, Structural)]
pub struct DataBlockIndex {
    pub block_id: i32,
    pub stream_id: u64,
    pub start_offset: u64,
    pub end_offset_delta: u32,
    pub record_count: u32,
    pub start_position: u64,
    pub size: u32,
}

impl DataBlockIndex {
    /// Exclusive end offset.
    pub open spec fn end(self) -> int {
        self.start_offset + self.end_offset_delta
    }

    /// Byte position just after the block.
    pub open spec fn end_pos(self) -> int {
        self.start_position + self.size
    }

    /// Neither the end offset nor the end position leaves 64 bits.
    pub open spec fn valid(self) -> bool {
        self.end() <= u64::MAX && self.end_pos() <= u64::MAX
    }

    pub fn end_offset(&self) -> (r: u64)
        requires
            self.valid(),
        ensures
            r == self.end(),
    {
        self.start_offset + self.end_offset_delta as u64
    }

    pub fn end_position(&self) -> (r: u64)
        requires
            self.valid(),
        ensures
            r == self.end_pos(),
    {
        self.start_position + self.size as u64
    }
}

/// Offsets of one stream.
#[derive(Debug, Clone, Copy, PartialEq, Eq, Structural)]
pub struct StreamOffsetRange {
    pub stream_id: u64,
    pub start_offset: u64,
    pub end_offset: u64,
}

/// Range of one stream inside a stream set object.
#[derive(Debug, Clone, Copy, PartialEq, Eq, Structural)]
pub struct ObjectStreamRange {
    pub stream_id: u64,
    pub epoch: u64,
    pub start_offset: u64,
    pub end_offset: u64,
    pub size: u64,
}

/// What an object holds.
#[derive(Debug, Clone, Copy, PartialEq, Eq, Structural)]
pub enum S3ObjectType {
    /// Ranges of many streams.
    StreamSet,
    /// One range of one stream.
    Stream,
}

/// Metadata of a committed object.
#[derive(Debug, PartialEq, Eq)]
pub struct S3ObjectMetadata {
    pub object_id: u64,
    pub object_type: S3ObjectType,
    pub offset_ranges: Vec<StreamOffsetRange>,
    pub object_size: u64,
    pub attributes: u32,
    pub committed_timestamp_ms: i64,
    pub data_timestamp_ms: i64,
}

/// What the metadata of an object says.
#[verifier::ext_equal]
pub struct ObjectModel {
    pub object_id: u64,
    pub object_type: S3ObjectType,
    pub offset_ranges: Seq<StreamOffsetRange>,
    pub object_size: u64,
    pub attributes: u32,
    pub committed_timestamp_ms: i64,
    pub data_timestamp_ms: i64,
}

impl View for S3ObjectMetadata {
    type V = ObjectModel;

    open spec fn view(&self) -> ObjectModel {
        ObjectModel {
            object_id: self.object_id,
            object_type: self.object_type,
            offset_ranges: self.offset_ranges@,
            object_size: self.object_size,
            attributes: self.attributes,
            committed_timestamp_ms: self.committed_timestamp_ms,
            data_timestamp_ms: self.data_timestamp_ms,
        }
    }
}

impl Clone for S3ObjectMetadata {
    fn clone(&self) -> (r: Self)
        ensures
            r@ == self@,
    {
        let offset_ranges = self.offset_ranges.clone();
        assert(offset_ranges@ =~= self.offset_ranges@);
        S3ObjectMetadata {
            object_id: self.object_id,
            object_type: self.object_type,
            offset_ranges,
            object_size: self.object_size,
            attributes: self.attributes,
            committed_timestamp_ms: self.committed_timestamp_ms,
            data_timestamp_ms: self.data_timestamp_ms,
        }
    }
}

/// Position of a record in the WAL.
#[derive(Debug, Clone, Copy, PartialEq, Eq, Structural)]
pub struct RecordOffset {
    pub epoch: u64,
    pub offset: u64,
    pub size: u32,
}

} // verus!

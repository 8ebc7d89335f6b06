//! Errors of the stream engine.
use vstd::prelude::*;

verus! {

/// What a write-ahead log refuses a call for.
#[derive(Debug, Clone, Copy, PartialEq, Eq, Structural)]
pub enum WalError {
    /// The log is full until a trim makes room.
    OverCapacity,
    /// The log was never written.
    NotInitialized,
    /// A newer epoch owns the log.
    Fenced,
    /// Any other failure of the log.
    Failed,
}

/// What an object storage refuses a call for.
#[derive(Debug, Clone, Copy, PartialEq, Eq, Structural)]
pub enum ObjectError {
    /// No object under the key.
    NotFound,
    /// Any other failure of the storage.
    Failed,
}

impl ObjectError {
    pub fn is_not_found(&self) -> (r: bool)
        ensures
            r <==> *self == ObjectError::NotFound,
    {
        matches!(self, ObjectError::NotFound)
    }
}

/// Operations that change a stream.
#[derive(Debug, Clone, Copy, PartialEq, Eq, Structural)]
pub enum WriteOperation {
    Append,
    Trim,
    Destroy,
}

/// States and inputs that no correct caller brings about.
#[derive(Debug, Clone, Copy, PartialEq, Eq, Structural)]
#[allow(inconsistent_fields)]
pub enum Unexpected {
    /// A write on a stream that is open for snapshot reads only.
    ReadonlyStream { operation: WriteOperation },
    /// The confirm offset can be set on a snapshot-read stream only.
    ConfirmOffsetOfWriter,
    /// A fetch whose start is above its end.
    FetchStartAboveEnd { start: u64, end: u64 },
    /// The client no longer opens streams.
    ClientClosed,
    /// The storage no longer accepts appends.
    StorageShutdown,
    /// The WAL belongs to another node.
    NodeMismatch { request: u32, wal: u32 },
    /// The WAL belongs to a newer epoch.
    EpochMismatch { request: u64, wal: u64 },
    /// Records that should follow each other do not.
    NotContinuous { expected: u64, actual: u64 },
    /// A reader asked for another offset than its next one.
    ReadOffsetMismatch { expected: u64, actual: u64 },
    /// A reader asked to read while it reads.
    ReaderBusy,
    /// No block covers the range to read.
    EmptyBlocks { start: u64, end: u64 },
    /// A block does not hold the offset that it was chosen for.
    OffsetOutsideBlock { offset: u64, start: u64, end: u64 },
    /// The blocks of a range held no record of it.
    NoRecordInBlocks,
    /// The index ends before the range to read.
    IndexEndsEarly { end: u64, loaded: u64 },
    /// No block of the window begins at or below the offset.
    NoFloorBlock { offset: u64 },
    /// A block that the compaction cache cannot hold.
    BlockTooLarge { size: u64, cache: u64 },
    /// A link record with no decoder for it.
    NoLinkDecoder,
    /// An empty list of objects to replay.
    NoObjects,
    /// No such network bandwidth mode.
    UnsupportedBandwidthMode,
    /// A refill of no tokens.
    ZeroTokenSize { bandwidth: u64, refill_interval_ms: u64 },
    /// A data block that does not decode.
    BlockDecodeFailed,
    /// The cache that a load was for is gone.
    CacheShutdown,
    /// The load of a shared data block failed.
    LoadFailed,
    /// A persisted index that ends too early.
    IndexTruncated,
    /// A persisted index of another version.
    IndexVersion { version: i16 },
}

/// Errors surfaced by the stream API.
#[derive(Debug, Clone, Copy, PartialEq, Eq, Structural)]
#[allow(inconsistent_fields)]
pub enum StreamError {
    /// The stream epoch has been superseded.
    Fenced { stream_id: u64, epoch: u64 },
    Closed { stream_id: u64 },
    NotExist { stream_id: u64 },
    OffsetOutOfRange {
        stream_id: u64,
        start: u64,
        end: u64,
        valid_start: u64,
        valid_end: u64,
    },
    FastReadFailFast,
    /// Backpressure: engine over capacity.
    OverCapacity,
    ObjectNotExist { object_id: u64 },
    BlockNotContinuous,
    Wal(WalError),
    Object(ObjectError),
    Unexpected(Unexpected),
}

} // verus!

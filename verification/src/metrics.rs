//! Engine metrics: what is measured, under which names and labels.
//!
//! The names, labels and units that dashboards depend on are kept stable. Samples are
//! plain values; the host hands them to its recorder.
use vstd::prelude::*;

use crate::numbers::{as_signed, signed};

verus! {

/// Histogram of every engine operation's latency in nanoseconds.
pub const OPERATION_LATENCY: &'static str = "kafka_stream_operation_latency";

pub const NETWORK_INBOUND_USAGE: &'static str = "kafka_stream_network_inbound_usage";

pub const NETWORK_OUTBOUND_USAGE: &'static str = "kafka_stream_network_outbound_usage";

pub const NETWORK_INBOUND_LIMITER_QUEUE_TIME: &'static str = "kafka_stream_network_inbound_limiter_queue_time";

pub const NETWORK_OUTBOUND_LIMITER_QUEUE_TIME: &'static str = "kafka_stream_network_outbound_limiter_queue_time";

pub const NETWORK_INBOUND_LIMITER_QUEUE_SIZE: &'static str = "kafka_stream_network_inbound_limiter_queue_size";

pub const NETWORK_OUTBOUND_LIMITER_QUEUE_SIZE: &'static str = "kafka_stream_network_outbound_limiter_queue_size";

pub const LABEL_OPERATION_TYPE: &'static str = "operation_type";

pub const LABEL_OPERATION_NAME: &'static str = "operation_name";

pub const LABEL_STAGE: &'static str = "stage";

pub const LABEL_STATUS: &'static str = "status";

pub const LABEL_TYPE: &'static str = "type";

pub const LABEL_STATUS_SUCCESS: &'static str = "success";

pub const LABEL_STATUS_FAILED: &'static str = "failed";

pub const LABEL_STATUS_HIT: &'static str = "hit";

pub const LABEL_STATUS_MISS: &'static str = "miss";

/// Operation identity for the latency histogram.
#[derive(Debug, Clone, Copy, PartialEq, Eq, Structural, Hash)]
pub enum S3Operation {
    CreateStream,
    OpenStream,
    AppendStream,
    FetchStream,
    TrimStream,
    CloseStream,
    AppendStorage,
    AppendStorageWal,
    AppendStorageAppendCallback,
    AppendStorageWalFull,
    AppendStorageLogCache,
    AppendStorageLogCacheFull,
    UploadStorageWal,
    ForceUploadStorageWalAwait,
    ForceUploadStorageWal,
    ReadStorage,
    ReadStorageLogCache,
    ReadStorageBlockCache,
    GetObject,
    PutObject,
    ListObjects,
    DeleteObjects,
    CreateMultiPartUpload,
    UploadPart,
    UploadPartCopy,
    CompleteMultiPartUpload,
    PrepareObject,
    CommitStreamSetObject,
    CompactedObject,
    CommitStreamObject,
    GetObjects,
    GetServerObjects,
    GetStreamObjects,
    AllocBuffer,
}

/// The kind of an operation.
pub open spec fn type_of(operation: S3Operation) -> Seq<char> {
    match operation {
        S3Operation::CreateStream
        | S3Operation::OpenStream
        | S3Operation::AppendStream
        | S3Operation::FetchStream
        | S3Operation::TrimStream
        | S3Operation::CloseStream => "S3Stream"@,
        S3Operation::AppendStorage
        | S3Operation::AppendStorageWal
        | S3Operation::AppendStorageAppendCallback
        | S3Operation::AppendStorageWalFull
        | S3Operation::AppendStorageLogCache
        | S3Operation::AppendStorageLogCacheFull
        | S3Operation::UploadStorageWal
        | S3Operation::ForceUploadStorageWalAwait
        | S3Operation::ForceUploadStorageWal
        | S3Operation::ReadStorage
        | S3Operation::ReadStorageLogCache
        | S3Operation::ReadStorageBlockCache
        | S3Operation::AllocBuffer => "S3Storage"@,
        S3Operation::GetObject
        | S3Operation::PutObject
        | S3Operation::ListObjects
        | S3Operation::DeleteObjects
        | S3Operation::CreateMultiPartUpload
        | S3Operation::UploadPart
        | S3Operation::UploadPartCopy
        | S3Operation::CompleteMultiPartUpload => "S3Request"@,
        S3Operation::PrepareObject
        | S3Operation::CommitStreamSetObject
        | S3Operation::CompactedObject
        | S3Operation::CommitStreamObject
        | S3Operation::GetObjects
        | S3Operation::GetServerObjects
        | S3Operation::GetStreamObjects => "S3Object"@,
    }
}

/// The name of an operation.
pub open spec fn name_of(operation: S3Operation) -> Seq<char> {
    match operation {
        S3Operation::CreateStream => "create"@,
        S3Operation::OpenStream => "open"@,
        S3Operation::AppendStream
        | S3Operation::AppendStorage => "append"@,
        S3Operation::FetchStream => "fetch"@,
        S3Operation::TrimStream => "trim"@,
        S3Operation::CloseStream => "close"@,
        S3Operation::AppendStorageWal => "append_wal"@,
        S3Operation::AppendStorageAppendCallback => "append_callback"@,
        S3Operation::AppendStorageWalFull => "append_wal_full"@,
        S3Operation::AppendStorageLogCache => "append_log_cache"@,
        S3Operation::AppendStorageLogCacheFull => "append_log_cache_full"@,
        S3Operation::UploadStorageWal => "upload_wal"@,
        S3Operation::ForceUploadStorageWalAwait => "force_upload_wal_await"@,
        S3Operation::ForceUploadStorageWal => "force_upload_wal"@,
        S3Operation::ReadStorage => "read"@,
        S3Operation::ReadStorageLogCache => "read_log_cache"@,
        S3Operation::ReadStorageBlockCache => "read_block_cache"@,
        S3Operation::GetObject => "get_object"@,
        S3Operation::PutObject => "put_object"@,
        S3Operation::ListObjects => "list_objects"@,
        S3Operation::DeleteObjects => "delete_objects"@,
        S3Operation::CreateMultiPartUpload => "create_multi_part_upload"@,
        S3Operation::UploadPart => "upload_part"@,
        S3Operation::UploadPartCopy => "upload_part_copy"@,
        S3Operation::CompleteMultiPartUpload => "complete_multi_part_upload"@,
        S3Operation::PrepareObject => "prepare"@,
        S3Operation::CommitStreamSetObject => "commit_stream_set_object"@,
        S3Operation::CompactedObject => "compacted_object"@,
        S3Operation::CommitStreamObject => "commit_stream_object"@,
        S3Operation::GetObjects => "get_objects"@,
        S3Operation::GetServerObjects => "get_server_objects"@,
        S3Operation::GetStreamObjects => "get_stream_objects"@,
        S3Operation::AllocBuffer => "alloc_buffer"@,
    }
}

impl S3Operation {
    pub fn operation_type(self) -> (r: &'static str)
        ensures
            r@ == type_of(self),
    {
        match self {
            S3Operation::CreateStream
            | S3Operation::OpenStream
            | S3Operation::AppendStream
            | S3Operation::FetchStream
            | S3Operation::TrimStream
            | S3Operation::CloseStream => "S3Stream",
            S3Operation::AppendStorage
            | S3Operation::AppendStorageWal
            | S3Operation::AppendStorageAppendCallback
            | S3Operation::AppendStorageWalFull
            | S3Operation::AppendStorageLogCache
            | S3Operation::AppendStorageLogCacheFull
            | S3Operation::UploadStorageWal
            | S3Operation::ForceUploadStorageWalAwait
            | S3Operation::ForceUploadStorageWal
            | S3Operation::ReadStorage
            | S3Operation::ReadStorageLogCache
            | S3Operation::ReadStorageBlockCache
            | S3Operation::AllocBuffer => "S3Storage",
            S3Operation::GetObject
            | S3Operation::PutObject
            | S3Operation::ListObjects
            | S3Operation::DeleteObjects
            | S3Operation::CreateMultiPartUpload
            | S3Operation::UploadPart
            | S3Operation::UploadPartCopy
            | S3Operation::CompleteMultiPartUpload => "S3Request",
            S3Operation::PrepareObject
            | S3Operation::CommitStreamSetObject
            | S3Operation::CompactedObject
            | S3Operation::CommitStreamObject
            | S3Operation::GetObjects
            | S3Operation::GetServerObjects
            | S3Operation::GetStreamObjects => "S3Object",
        }
    }

    pub fn name(self) -> (r: &'static str)
        ensures
            r@ == name_of(self),
    {
        match self {
            S3Operation::CreateStream => "create",
            S3Operation::OpenStream => "open",
            S3Operation::AppendStream
            | S3Operation::AppendStorage => "append",
            S3Operation::FetchStream => "fetch",
            S3Operation::TrimStream => "trim",
            S3Operation::CloseStream => "close",
            S3Operation::AppendStorageWal => "append_wal",
            S3Operation::AppendStorageAppendCallback => "append_callback",
            S3Operation::AppendStorageWalFull => "append_wal_full",
            S3Operation::AppendStorageLogCache => "append_log_cache",
            S3Operation::AppendStorageLogCacheFull => "append_log_cache_full",
            S3Operation::UploadStorageWal => "upload_wal",
            S3Operation::ForceUploadStorageWalAwait => "force_upload_wal_await",
            S3Operation::ForceUploadStorageWal => "force_upload_wal",
            S3Operation::ReadStorage => "read",
            S3Operation::ReadStorageLogCache => "read_log_cache",
            S3Operation::ReadStorageBlockCache => "read_block_cache",
            S3Operation::GetObject => "get_object",
            S3Operation::PutObject => "put_object",
            S3Operation::ListObjects => "list_objects",
            S3Operation::DeleteObjects => "delete_objects",
            S3Operation::CreateMultiPartUpload => "create_multi_part_upload",
            S3Operation::UploadPart => "upload_part",
            S3Operation::UploadPartCopy => "upload_part_copy",
            S3Operation::CompleteMultiPartUpload => "complete_multi_part_upload",
            S3Operation::PrepareObject => "prepare",
            S3Operation::CommitStreamSetObject => "commit_stream_set_object",
            S3Operation::CompactedObject => "compacted_object",
            S3Operation::CommitStreamObject => "commit_stream_object",
            S3Operation::GetObjects => "get_objects",
            S3Operation::GetServerObjects => "get_server_objects",
            S3Operation::GetStreamObjects => "get_stream_objects",
            S3Operation::AllocBuffer => "alloc_buffer",
        }
    }
}

/// Stage of a staged operation.
#[derive(Debug, Clone, Copy, PartialEq, Eq, Structural, Hash)]
pub enum S3Stage {
    AppendWalBefore,
    AppendWalBlockPolled,
    AppendWalAwait,
    AppendWalWrite,
    AppendWalAfter,
    AppendWalComplete,
    ForceUploadWalAwait,
    ForceUploadWalComplete,
    UploadWalPrepare,
    UploadWalUpload,
    UploadWalCommit,
    UploadWalComplete,
}

/// The operation that a stage belongs to.
pub open spec fn operation_of(stage: S3Stage) -> S3Operation {
    match stage {
        S3Stage::AppendWalBefore
        | S3Stage::AppendWalBlockPolled
        | S3Stage::AppendWalAwait
        | S3Stage::AppendWalWrite
        | S3Stage::AppendWalAfter
        | S3Stage::AppendWalComplete => S3Operation::AppendStorageWal,
        S3Stage::ForceUploadWalAwait
        | S3Stage::ForceUploadWalComplete => S3Operation::ForceUploadStorageWal,
        S3Stage::UploadWalPrepare
        | S3Stage::UploadWalUpload
        | S3Stage::UploadWalCommit
        | S3Stage::UploadWalComplete => S3Operation::UploadStorageWal,
    }
}

/// The name of a stage.
pub open spec fn stage_name(stage: S3Stage) -> Seq<char> {
    match stage {
        S3Stage::AppendWalBefore => "before"@,
        S3Stage::AppendWalBlockPolled => "block_polled"@,
        S3Stage::AppendWalAwait
        | S3Stage::ForceUploadWalAwait => "await"@,
        S3Stage::AppendWalWrite => "write"@,
        S3Stage::AppendWalAfter => "after"@,
        S3Stage::AppendWalComplete
        | S3Stage::ForceUploadWalComplete
        | S3Stage::UploadWalComplete => "complete"@,
        S3Stage::UploadWalPrepare => "prepare"@,
        S3Stage::UploadWalUpload => "upload"@,
        S3Stage::UploadWalCommit => "commit"@,
    }
}

impl S3Stage {
    pub fn operation(self) -> (r: S3Operation)
        ensures
            r == operation_of(self),
    {
        match self {
            S3Stage::AppendWalBefore
            | S3Stage::AppendWalBlockPolled
            | S3Stage::AppendWalAwait
            | S3Stage::AppendWalWrite
            | S3Stage::AppendWalAfter
            | S3Stage::AppendWalComplete => S3Operation::AppendStorageWal,
            S3Stage::ForceUploadWalAwait
            | S3Stage::ForceUploadWalComplete => S3Operation::ForceUploadStorageWal,
            S3Stage::UploadWalPrepare
            | S3Stage::UploadWalUpload
            | S3Stage::UploadWalCommit
            | S3Stage::UploadWalComplete => S3Operation::UploadStorageWal,
        }
    }

    pub fn name(self) -> (r: &'static str)
        ensures
            r@ == stage_name(self),
    {
        match self {
            S3Stage::AppendWalBefore => "before",
            S3Stage::AppendWalBlockPolled => "block_polled",
            S3Stage::AppendWalAwait
            | S3Stage::ForceUploadWalAwait => "await",
            S3Stage::AppendWalWrite => "write",
            S3Stage::AppendWalAfter => "after",
            S3Stage::AppendWalComplete
            | S3Stage::ForceUploadWalComplete
            | S3Stage::UploadWalComplete => "complete",
            S3Stage::UploadWalPrepare => "prepare",
            S3Stage::UploadWalUpload => "upload",
            S3Stage::UploadWalCommit => "commit",
        }
    }
}

/// Network direction for the metered bandwidth limiter.
#[derive(Debug, Clone, Copy, PartialEq, Eq, Structural)]
pub enum Direction {
    Inbound,
    Outbound,
}

/// A latency to record, in nanoseconds.
#[derive(Debug)]
pub struct LatencySample {
    pub metric: &'static str,
    pub operation_type: &'static str,
    pub operation_name: &'static str,
    pub stage: Option<&'static str>,
    pub nanos: i64,
}

/// A network measurement to record, under the name of its throttle strategy where it has
/// one.
#[derive(Debug)]
pub struct NetworkSample<'a> {
    pub metric: &'static str,
    pub strategy: Option<&'a str>,
    pub value: i64,
}

/// The latency of an operation. Negative samples are skipped.
pub fn record_operation_latency(operation: S3Operation, elapsed_nanos: i64) -> (r: Option<
    LatencySample,
>)
    ensures
        r is Some <==> elapsed_nanos >= 0,
        r matches Some(s) ==> {
            &&& s.metric@ == OPERATION_LATENCY@
            &&& s.operation_type@ == type_of(operation)
            &&& s.operation_name@ == name_of(operation)
            &&& s.stage is None
            &&& s.nanos == elapsed_nanos
        },
{
    if elapsed_nanos < 0 {
        return None;
    }
    Some(
        LatencySample {
            metric: OPERATION_LATENCY,
            operation_type: operation.operation_type(),
            operation_name: operation.name(),
            stage: None,
            nanos: elapsed_nanos,
        },
    )
}

/// The latency of a stage of an operation. Negative samples are skipped.
pub fn record_stage_latency(stage: S3Stage, elapsed_nanos: i64) -> (r: Option<LatencySample>)
    ensures
        r is Some <==> elapsed_nanos >= 0,
        r matches Some(s) ==> {
            &&& s.metric@ == OPERATION_LATENCY@
            &&& s.operation_type@ == type_of(operation_of(stage))
            &&& s.operation_name@ == name_of(operation_of(stage))
            &&& s.stage matches Some(n) && n@ == stage_name(stage)
            &&& s.nanos == elapsed_nanos
        },
{
    if elapsed_nanos < 0 {
        return None;
    }
    let operation = stage.operation();
    Some(
        LatencySample {
            metric: OPERATION_LATENCY,
            operation_type: operation.operation_type(),
            operation_name: operation.name(),
            stage: Some(stage.name()),
            nanos: elapsed_nanos,
        },
    )
}

/// Network usage in bytes per direction and throttle strategy.
pub fn record_network_usage<'a>(direction: Direction, strategy: &'a str, bytes: u64) -> (r: Option<
    NetworkSample<'a>,
>)
    ensures
        r is Some <==> signed(bytes) >= 0,
        r matches Some(s) ==> {
            &&& s.metric@ == (match direction {
                Direction::Inbound => NETWORK_INBOUND_USAGE@,
                Direction::Outbound => NETWORK_OUTBOUND_USAGE@,
            })
            &&& s.strategy == Some(strategy)
            &&& s.value == bytes
        },
{
    let value: i64 = as_signed(bytes);
    if value < 0 {
        return None;
    }
    let metric = match direction {
        Direction::Inbound => NETWORK_INBOUND_USAGE,
        Direction::Outbound => NETWORK_OUTBOUND_USAGE,
    };
    Some(NetworkSample { metric, strategy: Some(strategy), value })
}

/// Time that a request spent queued in the bandwidth limiter, in nanoseconds.
pub fn record_network_limiter_queue_time<'a>(
    direction: Direction,
    strategy: &'a str,
    elapsed_nanos: i64,
) -> (r: Option<NetworkSample<'a>>)
    ensures
        r is Some <==> elapsed_nanos >= 0,
        r matches Some(s) ==> {
            &&& s.metric@ == (match direction {
                Direction::Inbound => NETWORK_INBOUND_LIMITER_QUEUE_TIME@,
                Direction::Outbound => NETWORK_OUTBOUND_LIMITER_QUEUE_TIME@,
            })
            &&& s.strategy == Some(strategy)
            &&& s.value == elapsed_nanos
        },
{
    if elapsed_nanos < 0 {
        return None;
    }
    let metric = match direction {
        Direction::Inbound => NETWORK_INBOUND_LIMITER_QUEUE_TIME,
        Direction::Outbound => NETWORK_OUTBOUND_LIMITER_QUEUE_TIME,
    };
    Some(NetworkSample { metric, strategy: Some(strategy), value: elapsed_nanos })
}

/// The current limiter queue depth.
pub fn set_network_limiter_queue_size(direction: Direction, size: usize) -> (r: Option<
    NetworkSample<'static>,
>)
    ensures
        r is Some <==> signed(size as u64) >= 0,
        r matches Some(s) ==> {
            &&& s.metric@ == (match direction {
                Direction::Inbound => NETWORK_INBOUND_LIMITER_QUEUE_SIZE@,
                Direction::Outbound => NETWORK_OUTBOUND_LIMITER_QUEUE_SIZE@,
            })
            &&& s.strategy is None
            &&& s.value == size
        },
{
    let value: i64 = as_signed(size as u64);
    if value < 0 {
        return None;
    }
    let metric = match direction {
        Direction::Inbound => NETWORK_INBOUND_LIMITER_QUEUE_SIZE,
        Direction::Outbound => NETWORK_OUTBOUND_LIMITER_QUEUE_SIZE,
    };
    Some(NetworkSample { metric, strategy: None, value })
}

} // verus!

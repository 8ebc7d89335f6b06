//! What hosts pass to the engine and get back from it.
use bytes::Bytes;
use std::collections::HashMap;
use vstd::prelude::*;

use crate::buffer::bytes_seq;
use crate::codec::layout::{HEADER_SIZE, PAYLOAD_POS};
use crate::codec::record::{
    encode_record, is_batch, law_fields_of_encoded, rec_base_offset, rec_count, rec_last_offset,
    StreamRecordBatch,
};
use crate::numbers::signed32;

verus! {

/// Per-call context of an append.
#[derive(Debug, Clone, Copy, PartialEq, Eq, Structural)]
pub struct AppendContext {}

impl Default for AppendContext {
    fn default() -> (r: Self)
        ensures
            r == (AppendContext {}),
    {
        AppendContext {  }
    }
}

/// Per-call context of a fetch.
#[derive(Debug, Clone, Copy, PartialEq, Eq, Structural)]
pub struct FetchContext {
    /// Fail fast instead of reading from the block cache.
    pub fast_read: bool,
    pub snapshot_read: bool,
}

impl Default for FetchContext {
    fn default() -> (r: Self)
        ensures
            r == (FetchContext { fast_read: false, snapshot_read: false }),
    {
        FetchContext { fast_read: false, snapshot_read: false }
    }
}

#[derive(Debug, Clone)]
pub struct CreateStreamOptions {
    /// Stream epoch to open with.
    pub epoch: u64,
    /// Tags forwarded to the metadata plane.
    pub tags: HashMap<String, String>,
}

impl Default for CreateStreamOptions {
    fn default() -> (r: Self)
        ensures
            r.epoch == 0,
            r.tags@ == Map::<String, String>::empty(),
    {
        CreateStreamOptions { epoch: 0, tags: HashMap::new() }
    }
}

#[derive(Debug, Clone)]
pub struct OpenStreamOptions {
    /// Epoch to open with. The metadata plane fences older epochs.
    pub epoch: u64,
    /// Read-only open (no write fencing performed).
    pub read_only: bool,
    /// Snapshot-read mode: this node serves reads for a stream owned elsewhere.
    pub snapshot_read: bool,
    pub tags: HashMap<String, String>,
}

impl Default for OpenStreamOptions {
    fn default() -> (r: Self)
        ensures
            r.epoch == 0,
            !r.read_only,
            !r.snapshot_read,
            r.tags@ == Map::<String, String>::empty(),
    {
        OpenStreamOptions {
            epoch: 0,
            read_only: false,
            snapshot_read: false,
            tags: HashMap::new(),
        }
    }
}

/// The options that a stream is opened with right after it was created.
pub fn open_options_of(options: CreateStreamOptions) -> (r: OpenStreamOptions)
    ensures
        r.epoch == options.epoch,
        !r.read_only,
        !r.snapshot_read,
        r.tags == options.tags,
{
    OpenStreamOptions {
        epoch: options.epoch,
        read_only: false,
        snapshot_read: false,
        tags: options.tags,
    }
}

/// A batch of records supplied by the host. Opaque to the engine except for `count`.
#[derive(Debug)]
pub struct RecordBatch {
    /// Number of logical records in the payload.
    pub count: u32,
    /// Minimum timestamp (ms) of the records.
    pub base_timestamp_ms: i64,
    /// Extension properties.
    pub properties: HashMap<String, String>,
    /// The raw payload (host-defined encoding).
    pub payload: Bytes,
}

impl RecordBatch {
    pub fn new(count: u32, base_timestamp_ms: i64, payload: Bytes) -> (r: Self)
        ensures
            r.count == count,
            r.base_timestamp_ms == base_timestamp_ms,
            r.properties@ == Map::<String, String>::empty(),
            r.payload == payload,
    {
        RecordBatch { count, base_timestamp_ms, properties: HashMap::new(), payload }
    }
}

/// Result of a durable append.
#[derive(Debug, Clone, Copy, PartialEq, Eq, Structural)]
pub struct AppendResult {
    /// Base offset assigned to the appended batch.
    pub base_offset: u64,
}

/// Where a fetch was served from.
#[derive(Debug, Clone, Copy, PartialEq, Eq, Structural)]
pub enum CacheAccessType {
    /// Served entirely from the delta WAL log cache.
    DeltaWalCacheHit,
    BlockCacheHit,
    BlockCacheMiss,
}

/// One fetched batch with its stream context.
#[derive(Debug)]
pub struct RecordBatchWithContext {
    pub stream_id: u64,
    pub base_offset: u64,
    /// Exclusive last offset.
    pub last_offset: u64,
    pub count: u32,
    pub properties: HashMap<String, String>,
    pub payload: Bytes,
}

/// A signed count seen as unsigned, in 32-bit wrapping arithmetic.
pub open spec fn unsigned_count(count: i32) -> u32 {
    if count >= 0 {
        count as u32
    } else {
        (count + 0x1_0000_0000) as u32
    }
}

/// The batch as fetched from a stream.
pub open spec fn is_fetched(r: RecordBatchWithContext, stream_id: u64, b: Seq<u8>) -> bool {
    &&& r.stream_id == stream_id
    &&& r.base_offset == rec_base_offset(b)
    &&& r.last_offset == rec_last_offset(b)
    &&& r.count == unsigned_count(rec_count(b))
    &&& r.properties@ == Map::<String, String>::empty()
    &&& bytes_seq(r.payload) == b.subrange(PAYLOAD_POS as int, b.len() as int)
}

/// Puts a stored batch into the context of its stream.
pub fn with_context(stream_id: u64, record: &StreamRecordBatch) -> (r: RecordBatchWithContext)
    requires
        record@.len() >= HEADER_SIZE,
    ensures
        is_fetched(r, stream_id, record@),
{
    let count: i32 = record.count();
    RecordBatchWithContext {
        stream_id,
        base_offset: record.base_offset(),
        last_offset: record.last_offset(),
        count: if count >= 0 {
            count as u32
        } else {
            (count as i64 + 0x1_0000_0000) as u32
        },
        properties: HashMap::new(),
        payload: record.payload(),
    }
}

/// Result of a fetch.
#[derive(Debug)]
pub struct FetchResult {
    pub records: Vec<RecordBatchWithContext>,
    pub cache_access: CacheAccessType,
}

/// Result of a storage-level read: encoded batches and where they came from.
#[derive(Debug)]
pub struct ReadDataBlock {
    pub records: Vec<StreamRecordBatch>,
    pub cache_access: CacheAccessType,
}

/// The result of a fetch from what the storage read.
pub fn fetch_result(stream_id: u64, block: &ReadDataBlock) -> (r: FetchResult)
    requires
        forall|i: int| 0 <= i < block.records@.len() ==> is_batch((#[trigger] block.records@[i])@),
    ensures
        r.cache_access == block.cache_access,
        r.records@.len() == block.records@.len(),
        forall|i: int|
            0 <= i < r.records@.len() ==> is_fetched(
                #[trigger] r.records@[i],
                stream_id,
                block.records@[i]@,
            ),
{
    let mut records: Vec<RecordBatchWithContext> = Vec::new();
    let mut i: usize = 0;
    while i < block.records.len()
        invariant
            i <= block.records@.len(),
            forall|i: int|
                0 <= i < block.records@.len() ==> is_batch((#[trigger] block.records@[i])@),
            records@.len() == i,
            forall|j: int|
                0 <= j < i ==> is_fetched(
                    #[trigger] records@[j],
                    stream_id,
                    block.records@[j]@,
                ),
        decreases block.records@.len() - i,
    {
        assert(is_batch(block.records@[i as int]@));
        records.push(with_context(stream_id, &block.records[i]));
        i += 1;
    }
    FetchResult { records, cache_access: block.cache_access }
}

/// The result of a fetch of an empty range.
pub fn empty_fetch_result() -> (r: FetchResult)
    ensures
        r.records@.len() == 0,
        r.cache_access == CacheAccessType::DeltaWalCacheHit,
{
    FetchResult { records: Vec::new(), cache_access: CacheAccessType::DeltaWalCacheHit }
}

/// A key with its value.
#[derive(Debug)]
pub struct KeyValue {
    pub key: String,
    pub value: Bytes,
}

/// A fetch gives back what was appended: the batch that a count and a payload were encoded to is
/// fetched with the same offset, the same count and the same payload.
pub proof fn law_fetch_gives_back_what_was_appended(
    r: RecordBatchWithContext,
    stream_id: u64,
    epoch: u64,
    base_offset: u64,
    count: u32,
    payload: Seq<u8>,
)
    requires
        payload.len() <= i32::MAX,
        is_fetched(
            r,
            stream_id,
            encode_record(stream_id, epoch, base_offset, signed32(count) as i32, payload),
        ),
    ensures
        r.stream_id == stream_id,
        r.base_offset == base_offset,
        r.count == count,
        bytes_seq(r.payload) == payload,
        count <= i32::MAX && base_offset + count <= u64::MAX ==> r.last_offset == base_offset + count,
{
    law_fields_of_encoded(stream_id, epoch, base_offset, signed32(count) as i32, payload);
}

} // verus!

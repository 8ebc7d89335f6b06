//! The storage engine's decisions: cache sizes, append admission and backpressure, the
//! confirm hook, stitched reads, and upload bookkeeping.
use std::collections::VecDeque;
use vstd::prelude::*;

use crate::api::{CacheAccessType, ReadDataBlock};
use crate::cache::held::{
    is_filled, is_sound, law_put_extends_stream, law_sealing_keeps_streams, lemma_budget_is_rest,
    lemma_suffix_chain, payload_bytes, stream_records,
};
use crate::cache::log_block::{
    block_takes, wrapping_diff, DEFAULT_MAX_BLOCK_STREAM_COUNT,
    MATCH_ALL_STREAMS,
};
use crate::cache::log_cache::{
    archived, budget_after_all, cache_put, freed_of, has_active, holds_stream, is_gapless,
    new_cache, over_limit, released, LogCache, LogCacheModel,
};
use crate::cache::stream_cache::{budget_after, record_views};
use crate::codec::record::{
    is_batch, rec_base_offset, rec_last_offset, rec_stream_id, StreamRecordBatch,
};
use crate::error::{StreamError, Unexpected, WalError};
use crate::object::RecordOffset;

verus! {

/// Smallest cache where snapshot reads share the budget.
pub const MIN_SHARED_CACHE_SIZE: u64 = 10 * 1024 * 1024;

/// How long WAL trims are held back where other nodes read snapshots.
pub const SNAPSHOT_READ_TRIM_DELAY_MS: u64 = 30_000;

/// Window in which forced uploads are batched.
pub const FORCE_UPLOAD_WINDOW_MS: u64 = 100;

/// Bytes of a block that recovery fills.
pub const RECOVERY_BLOCK_SIZE: u64 = 512 * 1024 * 1024;

/// Configuration for the storage pipeline.
#[derive(Debug, Clone, Copy, PartialEq, Eq, Structural)]
pub struct S3StorageConfig {
    pub wal_cache_size: u64,
    /// Seal threshold for log cache blocks, at most 2/5 of the delta WAL cache.
    pub wal_upload_threshold: u64,
    pub wal_upload_interval_ms: u64,
    /// Streams larger than this in a sealed block split into stream objects.
    pub stream_split_size: u64,
    pub max_stream_num_per_stream_set_object: usize,
    pub object_block_size: usize,
    pub object_part_size: usize,
    pub snapshot_read_enable: bool,
}

impl S3StorageConfig {
    /// Defaults with small thresholds, so that every path triggers quickly.
    pub fn test_defaults() -> (r: Self)
        ensures
            r.wal_cache_size == 200 * 1024 * 1024,
            r.wal_upload_threshold == 16 * 1024 * 1024,
            r.wal_upload_interval_ms == 0,
            r.stream_split_size == 16 * 1024 * 1024,
            r.max_stream_num_per_stream_set_object == 10_000,
            r.object_block_size == 1024 * 1024,
            r.object_part_size == 16 * 1024 * 1024,
            !r.snapshot_read_enable,
    {
        S3StorageConfig {
            wal_cache_size: 200 * 1024 * 1024,
            wal_upload_threshold: 16 * 1024 * 1024,
            wal_upload_interval_ms: 0,
            stream_split_size: 16 * 1024 * 1024,
            max_stream_num_per_stream_set_object: 10_000,
            object_block_size: 1024 * 1024,
            object_part_size: 16 * 1024 * 1024,
            snapshot_read_enable: false,
        }
    }
}

pub open spec fn larger(a: int, b: int) -> int {
    if a >= b {
        a
    } else {
        b
    }
}

pub open spec fn smaller(a: int, b: int) -> int {
    if a <= b {
        a
    } else {
        b
    }
}

/// Bytes of the delta WAL cache: a third of the budget where snapshot reads share it.
pub open spec fn delta_cache_size(c: S3StorageConfig) -> int {
    if c.snapshot_read_enable {
        larger(c.wal_cache_size as int / 3, MIN_SHARED_CACHE_SIZE as int)
    } else {
        c.wal_cache_size as int
    }
}

/// Bytes of the snapshot-read cache: two thirds of the budget, none where snapshot reads
/// are off.
pub open spec fn snapshot_cache_size(c: S3StorageConfig) -> int {
    if c.snapshot_read_enable {
        larger(c.wal_cache_size as int / 3 * 2, MIN_SHARED_CACHE_SIZE as int)
    } else {
        0
    }
}

/// The seal threshold that takes effect.
pub open spec fn seal_threshold(c: S3StorageConfig) -> int {
    smaller(delta_cache_size(c) * 2 / 5, c.wal_upload_threshold as int)
}

/// Without snapshot reads the delta cache has the whole budget. With them both caches have at
/// least their minimum, the snapshot cache no less than the delta cache, and a budget that is
/// large enough is not exceeded. A block is sealed before it fills two fifths of its cache.
pub proof fn law_caches_share_budget(c: S3StorageConfig)
    ensures
        !c.snapshot_read_enable ==> delta_cache_size(c) == c.wal_cache_size && snapshot_cache_size(
            c,
        ) == 0,
        c.snapshot_read_enable ==> {
            &&& MIN_SHARED_CACHE_SIZE <= delta_cache_size(c) <= snapshot_cache_size(c)
            &&& c.wal_cache_size >= 3 * MIN_SHARED_CACHE_SIZE ==> {
                &&& delta_cache_size(c) + snapshot_cache_size(c) <= c.wal_cache_size
                &&& c.wal_cache_size <= delta_cache_size(c) + snapshot_cache_size(c) + 2
                &&& snapshot_cache_size(c) == 2 * delta_cache_size(c)
            }
        },
        5 * seal_threshold(c) <= 2 * delta_cache_size(c),
        seal_threshold(c) <= c.wal_upload_threshold,
        seal_threshold(c) == c.wal_upload_threshold || 5 * (seal_threshold(c) + 1) > 2
            * delta_cache_size(c),
{
}

/// What a storage starts with: its configuration with the threshold that takes effect,
/// both caches, and the trim delay.
#[derive(Debug)]
pub struct StorageParts {
    pub config: S3StorageConfig,
    pub log_cache: LogCache,
    pub snapshot_log_cache: LogCache,
    pub delay_trim_ms: u64,
}

impl StorageParts {
    /// Lays the storage out.
    pub fn new(config: S3StorageConfig) -> (r: Self)
        requires
            !config.snapshot_read_enable ==> config.wal_cache_size <= u64::MAX / 2,
        ensures
            r.config == (S3StorageConfig {
                wal_upload_threshold: seal_threshold(config) as u64,
                ..config
            }),
            r.log_cache.wf(),
            r.snapshot_log_cache.wf(),
            r.log_cache@ == new_cache(
                delta_cache_size(config) as u64,
                larger(seal_threshold(config), 1) as u64,
                config.max_stream_num_per_stream_set_object,
            ),
            r.snapshot_log_cache@ == new_cache(
                snapshot_cache_size(config) as u64,
                larger(snapshot_cache_size(config) / 6, 1) as u64,
                DEFAULT_MAX_BLOCK_STREAM_COUNT,
            ),
            r.delay_trim_ms == (if config.snapshot_read_enable {
                SNAPSHOT_READ_TRIM_DELAY_MS
            } else {
                0
            }),
    {
        let third: u64 = config.wal_cache_size / 3;
        let delta: u64 = if !config.snapshot_read_enable {
            config.wal_cache_size
        } else if third >= MIN_SHARED_CACHE_SIZE {
            third
        } else {
            MIN_SHARED_CACHE_SIZE
        };
        let snapshot: u64 = if !config.snapshot_read_enable {
            0
        } else if third * 2 >= MIN_SHARED_CACHE_SIZE {
            third * 2
        } else {
            MIN_SHARED_CACHE_SIZE
        };
        let limit: u64 = delta * 2 / 5;
        let threshold: u64 = if limit <= config.wal_upload_threshold {
            limit
        } else {
            config.wal_upload_threshold
        };
        let block_size: u64 = if threshold >= 1 {
            threshold
        } else {
            1
        };
        let snapshot_block: u64 = if snapshot / 6 >= 1 {
            snapshot / 6
        } else {
            1
        };
        let log_cache = LogCache::new(
            delta,
            block_size,
            config.max_stream_num_per_stream_set_object,
        );
        let snapshot_log_cache = LogCache::new(
            snapshot,
            snapshot_block,
            DEFAULT_MAX_BLOCK_STREAM_COUNT,
        );
        StorageParts {
            config: S3StorageConfig { wal_upload_threshold: threshold, ..config },
            log_cache,
            snapshot_log_cache,
            delay_trim_ms: if config.snapshot_read_enable {
                SNAPSHOT_READ_TRIM_DELAY_MS
            } else {
                0
            },
        }
    }
}

/// An append that waits for room.
#[derive(Debug)]
pub struct WaitingAppend {
    pub id: u64,
    pub record: StreamRecordBatch,
}

/// What becomes of a fresh append.
#[derive(Debug)]
pub enum Admission {
    /// To be submitted to the WAL.
    Submit(StreamRecordBatch),
    /// Waits behind earlier appends, or for room in the cache.
    Parked,
}

/// What becomes of an append once the WAL answered.
#[derive(Debug, Clone, Copy, PartialEq, Eq, Structural)]
pub enum AppendStep {
    /// Wait for the record to become durable.
    AwaitDurable,
    /// The WAL is full: the append waits, and an upload is forced.
    ParkedForUpload,
    /// The append fails.
    Fail(WalError),
}

/// The next turn of draining waiting appends.
#[derive(Debug)]
pub enum DrainTurn {
    /// Nothing waits.
    Empty,
    /// No room in the cache yet.
    NoPermit,
    /// The oldest waiting append is to be submitted to the WAL.
    Submit(StreamRecordBatch),
}

/// What becomes of the oldest waiting append once the WAL answered.
#[derive(Debug, Clone, Copy, PartialEq, Eq, Structural)]
pub enum DrainStep {
    /// It left the queue and waits for durability; drain on.
    Accepted { id: u64 },
    /// It left the queue and fails; drain on.
    Failed { id: u64, error: WalError },
    /// It stays at the head; stop draining and force an upload.
    StillFull,
}

/// What the confirm hook asks for.
#[derive(Debug, Clone, Copy, PartialEq, Eq, Structural)]
pub struct ConfirmOutcome {
    /// A block that was sealed and is to be uploaded.
    pub archived: Option<u64>,
    /// The record did not fit a fresh block either: seal and upload that one too.
    pub upload_again: bool,
}

pub open spec fn waiting_views(q: Seq<WaitingAppend>) -> Seq<(u64, Seq<u8>)> {
    q.map_values(|w: WaitingAppend| (w.id, w.record@))
}

/// The delta WAL cache after the confirm hook put a record: into the active block, or
/// into the next one if that is full.
pub open spec fn confirm_put(m: LogCacheModel, record: Seq<u8>, offset: RecordOffset) -> (
    LogCacheModel,
    ConfirmOutcome,
) {
    let first = cache_put(m, record);
    if block_takes(released(m).blocks.last(), record) {
        (
            LogCacheModel { last_record_offset: Some(offset), ..first },
            ConfirmOutcome { archived: None, upload_again: false },
        )
    } else {
        let active = first.blocks.last();
        let next = if active.size > 0 {
            archived(first)
        } else {
            first
        };
        (
            LogCacheModel { last_record_offset: Some(offset), ..cache_put(next, record) },
            ConfirmOutcome {
                archived: if active.size > 0 {
                    Some(active.id)
                } else {
                    None
                },
                upload_again: !block_takes(released(next).blocks.last(), record),
            },
        )
    }
}

/// A confirmed record keeps every stream continuous, and is added behind what is held of its
/// own stream, unless it fits no block; the oldest records of a stream are dropped at most.
pub proof fn law_confirm_extends_stream(
    m: LogCacheModel,
    record: Seq<u8>,
    offset: RecordOffset,
    stream_id: u64,
)
    requires
        is_sound(m.blocks, stream_id),
        is_filled(record),
    ensures
        is_sound(confirm_put(m, record, offset).0.blocks, stream_id),
        ({
            let before = stream_records(m.blocks, stream_id);
            let (cache, outcome) = confirm_put(m, record, offset);
            let after = stream_records(cache.blocks, stream_id);
            if !outcome.upload_again && rec_stream_id(record) == stream_id {
                after.len() > 0 && after.last() == record && after.drop_last().is_suffix_of(before)
            } else {
                after.is_suffix_of(before)
            }
        }),
{
    let before = stream_records(m.blocks, stream_id);
    let after = stream_records(confirm_put(m, record, offset).0.blocks, stream_id);
    lemma_released_last(m);
    law_put_extends_stream(m, record, stream_id);
    if !block_takes(m.blocks.last(), record) {
        let first = cache_put(m, record);
        law_sealing_keeps_streams(first, 0, stream_id);
        let next = if first.blocks.last().size > 0 {
            archived(first)
        } else {
            first
        };
        lemma_released_last(next);
        law_put_extends_stream(next, record, stream_id);
        let kept = stream_records(next.blocks, stream_id);
        if block_takes(next.blocks.last(), record) && rec_stream_id(record) == stream_id {
            lemma_suffix_chain(after.drop_last(), kept, before);
        } else {
            lemma_suffix_chain(after, kept, before);
        }
    }
}

/// Whatever becomes of the record, the cache learns how far the log was confirmed. A block that
/// is sealed for it is told of: it is the one that was active, with all that it held and the
/// offset up to which the log was confirmed before.
pub proof fn law_confirm_tells_of_sealed_block(
    m: LogCacheModel,
    record: Seq<u8>,
    offset: RecordOffset,
)
    requires
        has_active(m.blocks),
    ensures
        ({
            let (cache, outcome) = confirm_put(m, record, offset);
            let active = m.blocks.last();
            &&& cache.last_record_offset == Some(offset)
            &&& block_takes(active, record) ==> outcome.archived is None && !outcome.upload_again
            &&& outcome.archived matches Some(id) ==> {
                &&& id == active.id
                &&& active.size > 0
                &&& cache.blocks.last().id == m.next_block_id
                &&& cache.next_block_id == (m.next_block_id + 1) % 0x1_0000_0000_0000_0000
            }
            &&& outcome.archived is None ==> cache.blocks.last().id == active.id
        }),
{
    lemma_released_last(m);
    lemma_released_ids(m);
    if !block_takes(m.blocks.last(), record) {
        let first = cache_put(m, record);
        let next = if first.blocks.last().size > 0 {
            archived(first)
        } else {
            first
        };
        assert(has_active(first.blocks));
        assert(has_active(next.blocks));
        lemma_released_last(next);
        lemma_released_ids(next);
    }
}

proof fn lemma_released_ids(m: LogCacheModel)
    ensures
        released(m).next_block_id == m.next_block_id,
    decreases m.blocks.len(),
{
    if !(m.blocks.len() == 0 || !over_limit(m.capacity, m.size, m.blocks.len())
        || !m.blocks[0].free) {
        lemma_released_ids(
            LogCacheModel {
                blocks: m.blocks.skip(1),
                size: wrapping_diff(m.size as int, m.blocks[0].size as int),
                freed: m.freed.push(freed_of(m.blocks[0])),
                ..m
            },
        );
    }
}

/// A confirmed record is held, behind the records of its stream, whenever a block can take it:
/// the active one, or a fresh one in its place.
pub proof fn law_confirmed_record_is_cached(
    m: LogCacheModel,
    record: Seq<u8>,
    offset: RecordOffset,
)
    requires
        is_sound(m.blocks, rec_stream_id(record)),
        is_filled(record),
        m.block_max_size > 0,
        m.block_max_streams > 0,
        rec_last_offset(record) - rec_base_offset(record) <= i32::MAX,
        m.blocks.last().size > 0 || block_takes(m.blocks.last(), record),
    ensures
        ({
            let (cache, outcome) = confirm_put(m, record, offset);
            let held = stream_records(cache.blocks, rec_stream_id(record));
            &&& !outcome.upload_again
            &&& held.len() > 0
            &&& held.last() == record
        }),
{
    law_confirm_extends_stream(m, record, offset, rec_stream_id(record));
    lemma_released_last(m);
    if !block_takes(m.blocks.last(), record) {
        let first = cache_put(m, record);
        let next = archived(first);
        lemma_released_limits(m);
        assert(has_active(first.blocks));
        assert(has_active(next.blocks));
        lemma_released_last(next);
        assert(next.blocks.last().streams.dom().len() == 0);
        assert(block_takes(next.blocks.last(), record));
    }
}

proof fn lemma_released_limits(m: LogCacheModel)
    ensures
        released(m).block_max_size == m.block_max_size,
        released(m).block_max_streams == m.block_max_streams,
    decreases m.blocks.len(),
{
    if !(m.blocks.len() == 0 || !over_limit(m.capacity, m.size, m.blocks.len())
        || !m.blocks[0].free) {
        lemma_released_limits(
            LogCacheModel {
                blocks: m.blocks.skip(1),
                size: wrapping_diff(m.size as int, m.blocks[0].size as int),
                freed: m.freed.push(freed_of(m.blocks[0])),
                ..m
            },
        );
    }
}

/// The append path: the delta WAL cache, and the appends that wait for room, oldest first.
#[derive(Debug)]
pub struct AppendPipeline {
    log_cache: LogCache,
    backoff: VecDeque<WaitingAppend>,
}

impl AppendPipeline {
    pub closed spec fn cache(&self) -> LogCache {
        self.log_cache
    }

    /// The waiting appends, oldest first.
    pub closed spec fn waiting(&self) -> Seq<(u64, Seq<u8>)> {
        waiting_views(self.backoff@)
    }

    pub open spec fn wf(&self) -> bool {
        self.cache().wf()
    }

    /// There is room in the cache.
    pub open spec fn has_permit(&self) -> bool {
        self.cache()@.size < self.cache()@.capacity
    }

    pub fn new(log_cache: LogCache) -> (r: Self)
        requires
            log_cache.wf(),
        ensures
            r.wf(),
            r.cache() == log_cache,
            r.waiting() == Seq::<(u64, Seq<u8>)>::empty(),
    {
        let r = AppendPipeline { log_cache, backoff: VecDeque::new() };
        assert(r.waiting() =~= Seq::empty());
        r
    }

    pub fn log_cache(&self) -> (r: &LogCache)
        ensures
            *r == self.cache(),
    {
        &self.log_cache
    }

    fn try_acquire_permit(&self) -> (r: bool)
        ensures
            r == self.has_permit(),
    {
        self.log_cache.size() < self.log_cache.capacity()
    }

    fn park(&mut self, id: u64, record: StreamRecordBatch)
        ensures
            final(self).cache() == old(self).cache(),
            final(self).waiting() == old(self).waiting().push((id, record@)),
    {
        let ghost before = self.backoff@;
        let w = WaitingAppend { id, record };
        self.backoff.push_back(w);
        assert(waiting_views(self.backoff@) =~= waiting_views(before).push((id, w.record@)));
    }

    /// Admit a fresh append. It waits behind earlier ones, to keep the order of streams.
    pub fn append0(&mut self, id: u64, record: StreamRecordBatch) -> (r: Admission)
        ensures
            final(self).cache() == old(self).cache(),
            if old(self).waiting().len() > 0 || !old(self).has_permit() {
                r matches Admission::Parked && final(self).waiting() == old(self).waiting().push(
                    (id, record@),
                )
            } else {
                r matches Admission::Submit(s) && s@ == record@ && final(self).waiting()
                    == old(self).waiting()
            },
            r is Submit <==> old(self).waiting().len() == 0 && old(self).cache()@.size + 1
                <= old(self).cache()@.capacity,
    {
        assert(self.waiting().len() == self.backoff@.len());
        if self.backoff.len() > 0 || !self.try_acquire_permit() {
            self.park(id, record);
            Admission::Parked
        } else {
            Admission::Submit(record)
        }
    }

    /// The WAL answered a fresh append. A full WAL parks it.
    pub fn on_submitted(
        &mut self,
        id: u64,
        record: StreamRecordBatch,
        outcome: Result<(), WalError>,
    ) -> (r: AppendStep)
        ensures
            final(self).cache() == old(self).cache(),
            r == (match outcome {
                Ok(()) => AppendStep::AwaitDurable,
                Err(WalError::OverCapacity) => AppendStep::ParkedForUpload,
                Err(e) => AppendStep::Fail(e),
            }),
            final(self).waiting() == (if outcome == Err::<(), WalError>(WalError::OverCapacity) {
                old(self).waiting().push((id, record@))
            } else {
                old(self).waiting()
            }),
    {
        match outcome {
            Ok(()) => AppendStep::AwaitDurable,
            Err(WalError::OverCapacity) => {
                self.park(id, record);
                AppendStep::ParkedForUpload
            },
            Err(e) => AppendStep::Fail(e),
        }
    }

    /// The next turn of draining: the oldest waiting append, if there is room. It stays
    /// queued until the WAL accepts it.
    pub fn next_drain(&self) -> (r: DrainTurn)
        ensures
            match r {
                DrainTurn::Empty => self.waiting().len() == 0,
                DrainTurn::NoPermit => self.waiting().len() > 0 && !self.has_permit(),
                DrainTurn::Submit(record) => self.waiting().len() > 0 && self.has_permit()
                    && record@ == self.waiting()[0].1,
            },
            self.waiting().len() > 0 ==> (r is Submit <==> self.cache()@.size + 1
                <= self.cache()@.capacity),
    {
        assert(self.waiting().len() == self.backoff@.len());
        if self.backoff.len() == 0 {
            return DrainTurn::Empty;
        }
        if !self.try_acquire_permit() {
            return DrainTurn::NoPermit;
        }
        assert(self.waiting()[0] == (self.backoff@[0].id, self.backoff@[0].record@));
        DrainTurn::Submit(self.backoff[0].record.clone())
    }

    /// The WAL answered the oldest waiting append.
    pub fn on_drained(&mut self, outcome: Result<(), WalError>) -> (r: DrainStep)
        requires
            old(self).waiting().len() > 0,
        ensures
            final(self).cache() == old(self).cache(),
            r == (match outcome {
                Ok(()) => DrainStep::Accepted { id: old(self).waiting()[0].0 },
                Err(WalError::OverCapacity) => DrainStep::StillFull,
                Err(e) => DrainStep::Failed { id: old(self).waiting()[0].0, error: e },
            }),
            final(self).waiting() == drained_once(old(self).waiting(), outcome),
    {
        if matches!(outcome, Err(WalError::OverCapacity)) {
            return DrainStep::StillFull;
        }
        let ghost before = self.backoff@;
        let id: u64 = match self.backoff.pop_front() {
            Some(w) => {
                assert(old(self).waiting()[0] == (before[0].id, before[0].record@));
                w.id
            },
            None => {
                assert(false);
                0
            },
        };
        assert(waiting_views(self.backoff@) =~= waiting_views(before).skip(1));
        match outcome {
            Ok(()) => DrainStep::Accepted { id },
            Err(error) => DrainStep::Failed { id, error },
        }
    }

    /// Shutdown: every waiting append fails. Returns their ids, oldest first.
    pub fn fail_waiting(&mut self) -> (r: Vec<u64>)
        ensures
            final(self).cache() == old(self).cache(),
            final(self).waiting() == Seq::<(u64, Seq<u8>)>::empty(),
            r@ == old(self).waiting().map_values(|w: (u64, Seq<u8>)| w.0),
    {
        let mut out: Vec<u64> = Vec::new();
        let ghost all = self.backoff@;
        let ghost cache = self.log_cache;
        while self.backoff.len() > 0
            invariant
                self.log_cache == cache,
                self.backoff@.len() <= all.len(),
                self.backoff@ == all.skip(all.len() - self.backoff@.len()),
                out@.len() == all.len() - self.backoff@.len(),
                forall|j: int| 0 <= j < out@.len() ==> #[trigger] out@[j] == all[j].id,
            decreases self.backoff@.len(),
        {
            let ghost before = self.backoff@;
            match self.backoff.pop_front() {
                Some(w) => {
                    out.push(w.id);
                },
                None => {},
            }
            assert(self.backoff@ =~= all.skip(all.len() - self.backoff@.len()));
        }
        proof {
            assert(self.waiting() =~= Seq::empty());
            assert(out@ =~= waiting_views(all).map_values(|w: (u64, Seq<u8>)| w.0));
        }
        out
    }

    /// The in-order confirm hook: the record enters the cache.
    pub fn handle_append_confirm(&mut self, record: &StreamRecordBatch, offset: RecordOffset) -> (r:
        ConfirmOutcome)
        requires
            old(self).wf(),
            is_batch(record@),
        ensures
            final(self).wf(),
            final(self).waiting() == old(self).waiting(),
            (final(self).cache()@, r) == confirm_put(old(self).cache()@, record@, offset),
    {
        proof {
            self.log_cache.lemma_wf_active();
            lemma_released_last(self.log_cache@);
        }
        let mut added: bool = self.log_cache.put(record.clone());
        let mut archived_block: Option<u64> = None;
        if !added {
            archived_block = self.log_cache.archive_current_block_if_contains(MATCH_ALL_STREAMS);
            proof {
                self.log_cache.lemma_wf_active();
                lemma_released_last(self.log_cache@);
            }
            added = self.log_cache.put(record.clone());
        }
        self.log_cache.set_last_record_offset(offset);
        ConfirmOutcome { archived: archived_block, upload_again: !added }
    }

    /// Seals the active block for upload, if it holds the stream.
    pub fn seal_for_upload(&mut self, stream_id: u64) -> (r: Option<u64>)
        requires
            old(self).wf(),
        ensures
            final(self).wf(),
            final(self).waiting() == old(self).waiting(),
            ({
                let active = old(self).cache()@.blocks.last();
                let due = if stream_id == MATCH_ALL_STREAMS {
                    active.size > 0
                } else {
                    active.streams.contains_key(stream_id)
                };
                if due {
                    r == Some(active.id) && final(self).cache()@ == archived(old(self).cache()@)
                } else {
                    r is None && final(self).cache()@ == old(self).cache()@
                }
            }),
    {
        self.log_cache.archive_current_block_if_contains(stream_id)
    }

    /// Reads the delta WAL cache.
    pub fn read_cache(
        &mut self,
        stream_id: u64,
        start_offset: u64,
        end_offset: u64,
        max_bytes: usize,
    ) -> (r: Vec<StreamRecordBatch>)
        requires
            old(self).wf(),
        ensures
            final(self).wf(),
            final(self).waiting() == old(self).waiting(),
            final(self).cache()@ == old(self).cache()@,
            forall|k: int|
                0 <= k < r@.len() ==> crate::cache::log_cache::is_cached(
                    old(self).cache()@.blocks,
                    stream_id,
                    (#[trigger] r@[k])@,
                ),
            crate::cache::log_cache::is_chained_in(
                old(self).cache()@.blocks,
                stream_id,
            ) ==> crate::cache::log_cache::is_log_read(
                old(self).cache()@.blocks,
                stream_id,
                start_offset,
                end_offset,
                max_bytes as int,
                record_views(r@),
            ),
            crate::cache::log_cache::stream_in_order(
                old(self).cache()@.blocks,
                stream_id,
            ) ==> crate::cache::log_cache::reads_from(
                old(self).cache()@.blocks,
                stream_id,
                start_offset,
                end_offset,
                record_views(r@),
            ),
            crate::cache::log_cache::is_continuous_in(
                old(self).cache()@.blocks,
                stream_id,
            ) ==> record_views(r@)
                == crate::cache::log_cache::log_get(
                old(self).cache()@.blocks,
                stream_id,
                start_offset,
                end_offset,
                max_bytes as int,
            ),
    {
        self.log_cache.get(stream_id, start_offset, end_offset, max_bytes)
    }

    /// The upload of a block was committed.
    pub fn release_block(&mut self, block_id: u64)
        requires
            old(self).wf(),
        ensures
            final(self).wf(),
            final(self).waiting() == old(self).waiting(),
            final(self).cache()@ == crate::cache::log_cache::merged_from(
                released(
                    LogCacheModel {
                        blocks: crate::cache::log_cache::marked(
                            old(self).cache()@.blocks,
                            block_id,
                        ),
                        ..old(self).cache()@
                    },
                ),
                0,
            ),
    {
        self.log_cache.mark_free(block_id);
    }
}

/// The active block is never released.
proof fn lemma_released_last(m: LogCacheModel)
    requires
        has_active(m.blocks),
    ensures
        released(m).blocks.len() > 0,
        released(m).blocks.last() == m.blocks.last(),
    decreases m.blocks.len(),
{
    if over_limit(m.capacity, m.size, m.blocks.len()) && m.blocks[0].free {
        assert(m.blocks.len() > 1);
        let next = LogCacheModel {
            blocks: m.blocks.skip(1),
            size: wrapping_diff(m.size as int, m.blocks[0].size as int),
            freed: m.freed.push(freed_of(m.blocks[0])),
            ..m
        };
        assert(next.blocks.last() == m.blocks.last());
        lemma_released_last(next);
    }
}

/// The waiting appends after the WAL answered the oldest of them.
pub open spec fn drained_once(
    waiting: Seq<(u64, Seq<u8>)>,
    outcome: Result<(), WalError>,
) -> Seq<(u64, Seq<u8>)> {
    if outcome == Err::<(), WalError>(WalError::OverCapacity) {
        waiting
    } else {
        waiting.skip(1)
    }
}

/// The waiting appends after the WAL answered a number of them, one after the other.
pub open spec fn drained(waiting: Seq<(u64, Seq<u8>)>, outcomes: Seq<Result<(), WalError>>) -> Seq<
    (u64, Seq<u8>),
>
    decreases outcomes.len(),
{
    if outcomes.len() == 0 || waiting.len() == 0 {
        waiting
    } else {
        drained(drained_once(waiting, outcomes[0]), outcomes.skip(1))
    }
}

/// Waiting appends leave in the order in which they came, each once the WAL took it or
/// refused it for good: whatever the WAL answers, those that are left are the newest ones,
/// and a WAL that is full all the time drops none.
pub proof fn law_backpressure_drops_nothing(
    waiting: Seq<(u64, Seq<u8>)>,
    outcomes: Seq<Result<(), WalError>>,
)
    ensures
        drained(waiting, outcomes).len() <= waiting.len(),
        drained(waiting, outcomes) == waiting.skip(
            waiting.len() - drained(waiting, outcomes).len(),
        ),
        (forall|i: int|
            0 <= i < outcomes.len() ==> (#[trigger] outcomes[i]) == Err::<(), WalError>(
                WalError::OverCapacity,
            )) ==> drained(waiting, outcomes) == waiting,
    decreases outcomes.len(),
{
    if outcomes.len() == 0 || waiting.len() == 0 {
        assert(waiting.skip(0) =~= waiting);
    } else {
        let next = drained_once(waiting, outcomes[0]);
        law_backpressure_drops_nothing(next, outcomes.skip(1));
        let left = drained(next, outcomes.skip(1));
        assert(next.skip(next.len() - left.len()) =~= waiting.skip(waiting.len() - left.len()));
        if forall|i: int|
            0 <= i < outcomes.len() ==> (#[trigger] outcomes[i]) == Err::<(), WalError>(
                WalError::OverCapacity,
            ) {
            assert(outcomes[0] == Err::<(), WalError>(WalError::OverCapacity));
            assert forall|i: int| 0 <= i < outcomes.skip(1).len() implies (
            #[trigger] outcomes.skip(1)[i]) == Err::<(), WalError>(WalError::OverCapacity) by {
                assert(outcomes[i + 1] == Err::<(), WalError>(WalError::OverCapacity));
            }
        }
    }
}

/// How a read is served.
#[derive(Debug)]
pub enum ReadPlan {
    /// From the log cache alone.
    Hit(ReadDataBlock),
    /// From the block cache up to `end_offset`, then from the cached tail.
    BlockCache { end_offset: u64, tail: Vec<StreamRecordBatch> },
}

/// Decides how a read is served from what the log cache gave. A fast read is refused where
/// it would have to touch the block cache.
pub fn plan_read(
    cached: Vec<StreamRecordBatch>,
    start_offset: u64,
    end_offset: u64,
    fast_read: bool,
) -> (r: Result<ReadPlan, StreamError>)
    requires
        forall|i: int| 0 <= i < cached@.len() ==> is_batch((#[trigger] cached@[i])@),
    ensures
        ({
            let hit = cached@.len() > 0 && rec_base_offset(cached@[0]@) <= start_offset;
            match r {
                Ok(ReadPlan::Hit(block)) => {
                    &&& hit
                    &&& block.records == cached
                    &&& block.cache_access == CacheAccessType::DeltaWalCacheHit
                },
                Ok(ReadPlan::BlockCache { end_offset: e, tail }) => {
                    &&& !hit && !fast_read
                    &&& tail == cached
                    &&& e == (if cached@.len() > 0 {
                        rec_base_offset(cached@[0]@)
                    } else {
                        end_offset
                    })
                },
                Err(e) => !hit && fast_read && e == StreamError::FastReadFailFast,
            }
        }),
        r matches Ok(ReadPlan::BlockCache { end_offset: e, tail }) ==> tail@.len() > 0
            ==> start_offset < e && e == rec_base_offset(tail@[0]@),
        r matches Ok(ReadPlan::Hit(block)) ==> block.records@.len() > 0 && rec_base_offset(
            block.records@[0]@,
        ) <= start_offset,
{
    if cached.len() > 0 {
        assert(is_batch(cached@[0]@));
        let first: u64 = cached[0].base_offset();
        if first <= start_offset {
            Ok(
                ReadPlan::Hit(
                    ReadDataBlock {
                        records: cached,
                        cache_access: CacheAccessType::DeltaWalCacheHit,
                    },
                ),
            )
        } else if fast_read {
            Err(StreamError::FastReadFailFast)
        } else {
            Ok(ReadPlan::BlockCache { end_offset: first, tail: cached })
        }
    } else if fast_read {
        Err(StreamError::FastReadFailFast)
    } else {
        Ok(ReadPlan::BlockCache { end_offset, tail: cached })
    }
}

/// How many records of a tail a budget lets through: as long as any of it is left.
pub open spec fn tail_taken(tail: Seq<Seq<u8>>, budget: int) -> int
    decreases tail.len(),
{
    if tail.len() == 0 || budget == 0 {
        0
    } else {
        1 + tail_taken(tail.skip(1), budget_after(budget, tail[0]))
    }
}

/// The records of a stitched read: those of the block cache, then as much of the cached
/// tail as the budget lets through.
pub open spec fn stitched(head: Seq<Seq<u8>>, tail: Seq<Seq<u8>>, max_bytes: int) -> Seq<Seq<u8>> {
    head + tail.take(tail_taken(tail, budget_after_all(max_bytes, head)))
}

proof fn lemma_tail_taken(tail: Seq<Seq<u8>>, budget: int)
    ensures
        0 <= tail_taken(tail, budget) <= tail.len(),
    decreases tail.len(),
{
    if tail.len() > 0 && budget != 0 {
        lemma_tail_taken(tail.skip(1), budget_after(budget, tail[0]));
    }
}

/// The records are a head and behind it a part of a tail from its first record on, each of
/// that part with less than the budget before it; and the rest of the tail is left out only
/// where the bytes have reached the budget.
pub open spec fn is_stitch_of(
    head: Seq<Seq<u8>>,
    tail: Seq<Seq<u8>>,
    max_bytes: int,
    r: Seq<Seq<u8>>,
) -> bool {
    let h = head.len() as int;
    &&& h <= r.len() <= h + tail.len()
    &&& r.take(h) == head
    &&& forall|i: int| h <= i < r.len() ==> #[trigger] r[i] == tail[i - h]
    &&& forall|i: int| h <= i < r.len() ==> payload_bytes(#[trigger] r.take(i)) < max_bytes
    &&& r.len() < h + tail.len() ==> payload_bytes(r) >= max_bytes
}

/// A stitched read is the head and then a part of the tail from its first record on. A record
/// of the tail is in it only if the bytes of all records before it are below the budget; and
/// one is left out only if the bytes of what is returned have reached the budget.
pub proof fn law_stitched_read_keeps_budget(
    head: Seq<Seq<u8>>,
    tail: Seq<Seq<u8>>,
    max_bytes: int,
)
    requires
        max_bytes >= 0,
    ensures
        ({
            let r = stitched(head, tail, max_bytes);
            let h = head.len() as int;
            &&& h <= r.len() <= h + tail.len()
            &&& r.take(h) == head
            &&& forall|i: int| h <= i < r.len() ==> #[trigger] r[i] == tail[i - h]
            &&& forall|i: int|
                h <= i < r.len() ==> payload_bytes(#[trigger] r.take(i)) < max_bytes
            &&& r.len() < h + tail.len() ==> payload_bytes(r) >= max_bytes
        }),
    decreases tail.len(),
{
    let r = stitched(head, tail, max_bytes);
    let h = head.len() as int;
    let left = budget_after_all(max_bytes, head);
    lemma_tail_taken(tail, left);
    assert(r.take(h) =~= head);
    lemma_budget_is_rest(max_bytes, head);
    if tail.len() == 0 {
        assert(r =~= head);
    } else if left == 0 {
        assert(tail_taken(tail, left) == 0);
        assert(r =~= head);
    } else {
        let one = head.push(tail[0]);
        let rest = tail.skip(1);
        assert(one.drop_last() =~= head);
        assert(budget_after_all(max_bytes, one) == budget_after(left, tail[0]));
        law_stitched_read_keeps_budget(one, rest, max_bytes);
        let n = tail_taken(rest, budget_after(left, tail[0]));
        lemma_tail_taken(rest, budget_after(left, tail[0]));
        assert(tail_taken(tail, left) == 1 + n);
        assert(one + rest.take(n) =~= r);
        assert forall|i: int| h <= i < r.len() implies payload_bytes(#[trigger] r.take(i))
            < max_bytes by {
            if i == h {
                assert(r.take(i) =~= head);
            }
        }
    }
}

/// The first record that does not begin where the one before it ends, from `i` on.
pub open spec fn first_gap(records: Seq<Seq<u8>>, i: int) -> Option<int>
    decreases records.len() - i,
{
    if i < 1 || i >= records.len() {
        None
    } else if rec_base_offset(records[i]) != rec_last_offset(records[i - 1]) {
        Some(i)
    } else {
        first_gap(records, i + 1)
    }
}

proof fn lemma_first_gap(records: Seq<Seq<u8>>, i: int)
    requires
        1 <= i,
    ensures
        first_gap(records, i) is None <==> forall|a: int, b: int|
            #![trigger records[a], records[b]]
            i - 1 <= a && b == a + 1 && b < records.len() ==> rec_base_offset(records[b])
                == rec_last_offset(records[a]),
        first_gap(records, i) matches Some(g) ==> i <= g < records.len() && rec_base_offset(
            records[g],
        ) != rec_last_offset(records[g - 1]),
    decreases records.len() - i,
{
    if i < records.len() {
        if rec_base_offset(records[i]) == rec_last_offset(records[i - 1]) {
            lemma_first_gap(records, i + 1);
            if first_gap(records, i) is None {
                assert forall|a: int, b: int|
                    #![trigger records[a], records[b]]
                    i - 1 <= a && b == a + 1 && b < records.len() implies rec_base_offset(
                    records[b],
                ) == rec_last_offset(records[a]) by {
                    if a >= i {
                        assert(rec_base_offset(records[b]) == rec_last_offset(records[a]));
                    }
                }
            }
        } else {
            assert(records[i - 1] == records[i - 1]);
        }
    }
}

/// Verify that a read result is offset-contiguous. Where it is not, data was lost.
pub fn continuous_check(records: &Vec<StreamRecordBatch>) -> (r: Result<(), StreamError>)
    requires
        forall|i: int| 0 <= i < records@.len() ==> is_batch((#[trigger] records@[i])@),
    ensures
        r is Ok <==> is_gapless(record_views(records@)),
        match first_gap(record_views(records@), 1) {
            None => r is Ok,
            Some(g) => r == Err::<(), StreamError>(
                StreamError::Unexpected(
                    Unexpected::NotContinuous {
                        expected: rec_last_offset(records@[g - 1]@),
                        actual: rec_base_offset(records@[g]@),
                    },
                ),
            ),
        },
{
    let ghost views = record_views(records@);
    proof {
        lemma_first_gap(views, 1);
    }
    let mut i: usize = 1;
    while i < records.len()
        invariant
            1 <= i,
            forall|i: int| 0 <= i < records@.len() ==> is_batch((#[trigger] records@[i])@),
            views == record_views(records@),
            first_gap(views, 1) == first_gap(views, i as int),
            first_gap(views, 1) is None <==> is_gapless(views),
        decreases records@.len() - i,
    {
        proof {
            assert(is_batch(records@[i as int]@) && is_batch(records@[i - 1]@));
            assert(views[i as int] == records@[i as int]@ && views[i - 1] == records@[i - 1]@);
        }
        let expected: u64 = records[i - 1].last_offset();
        let actual: u64 = records[i].base_offset();
        if actual != expected {
            return Err(
                StreamError::Unexpected(Unexpected::NotContinuous { expected, actual }),
            );
        }
        i += 1;
    }
    Ok(())
}

/// Joins what the block cache gave with the cached tail, within the byte budget, and
/// checks that nothing is missing in between.
pub fn stitch_read(
    block_result: ReadDataBlock,
    tail: Vec<StreamRecordBatch>,
    max_bytes: usize,
) -> (r: Result<ReadDataBlock, StreamError>)
    requires
        forall|i: int|
            0 <= i < block_result.records@.len() ==> is_batch(
                (#[trigger] block_result.records@[i])@,
            ),
        forall|i: int| 0 <= i < tail@.len() ==> is_batch((#[trigger] tail@[i])@),
    ensures
        ({
            let all = stitched(
                record_views(block_result.records@),
                record_views(tail@),
                max_bytes as int,
            );
            match r {
                Ok(b) => is_gapless(all) && record_views(b.records@) == all && b.cache_access
                    == block_result.cache_access && is_stitch_of(
                    record_views(block_result.records@),
                    record_views(tail@),
                    max_bytes as int,
                    record_views(b.records@),
                ),
                Err(e) => first_gap(all, 1) matches Some(g) && e == StreamError::Unexpected(
                    Unexpected::NotContinuous {
                        expected: rec_last_offset(all[g - 1]),
                        actual: rec_base_offset(all[g]),
                    },
                ),
            }
        }),
{
    let ghost head = record_views(block_result.records@);
    let ghost rest = record_views(tail@);
    let mut records = block_result.records;
    let mut remaining: usize = max_bytes;
    let mut i: usize = 0;
    assert(head.take(0) =~= Seq::empty());
    while i < records.len()
        invariant
            i <= records@.len(),
            head == record_views(records@),
            forall|i: int| 0 <= i < records@.len() ==> is_batch((#[trigger] records@[i])@),
            remaining == budget_after_all(max_bytes as int, head.take(i as int)),
        decreases records@.len() - i,
    {
        proof {
            assert(is_batch(records@[i as int]@));
            assert(head.take(i + 1).drop_last() =~= head.take(i as int));
            assert(head.take(i + 1).last() == records@[i as int]@);
        }
        let size: usize = records[i].size();
        remaining = if remaining > size {
            remaining - size
        } else {
            0
        };
        i += 1;
    }
    assert(head.take(i as int) =~= head);
    let ghost budget = remaining as int;
    let ghost n = tail_taken(rest, budget);
    proof {
        lemma_tail_taken(rest, budget);
    }
    let mut k: usize = 0;
    proof {
        assert(rest.skip(0) =~= rest);
        assert(head + rest.take(0) =~= head);
    }
    while k < tail.len() && remaining > 0
        invariant
            k <= tail@.len(),
            rest == record_views(tail@),
            forall|i: int| 0 <= i < tail@.len() ==> is_batch((#[trigger] tail@[i])@),
            forall|i: int| 0 <= i < records@.len() ==> is_batch((#[trigger] records@[i])@),
            n == k + tail_taken(rest.skip(k as int), remaining as int),
            record_views(records@) == head + rest.take(k as int),
        decreases tail@.len() - k,
    {
        proof {
            assert(is_batch(tail@[k as int]@));
            assert(rest.skip(k as int)[0] == tail@[k as int]@);
            assert(rest.skip(k as int).skip(1) =~= rest.skip(k + 1));
        }
        let size: usize = tail[k].size();
        remaining = if remaining > size {
            remaining - size
        } else {
            0
        };
        let ghost before = record_views(records@);
        let ghost prior = records@;
        records.push(tail[k].clone());
        proof {
            assert(record_views(records@) =~= before.push(tail@[k as int]@));
            assert(record_views(records@) =~= head + rest.take(k + 1));
            assert forall|i: int| 0 <= i < records@.len() implies is_batch(
                (#[trigger] records@[i])@,
            ) by {
                if i < prior.len() {
                    assert(records@[i] == prior[i]);
                }
            }
        }
        k += 1;
    }
    assert(k == n);
    let ghost all = stitched(head, rest, max_bytes as int);
    assert(record_views(records@) == all);
    proof {
        assert forall|i: int| 0 <= i < all.len() implies #[trigger] all[i] == records@[i]@ by {
            assert(record_views(records@)[i] == records@[i]@);
        }
        lemma_first_gap(all, 1);
        law_stitched_read_keeps_budget(head, rest, max_bytes as int);
    }
    match continuous_check(&records) {
        Ok(()) => Ok(ReadDataBlock { records, cache_access: block_result.cache_access }),
        Err(e) => Err(e),
    }
}

/// An upload that was not committed yet.
#[derive(Debug, Clone, Copy, PartialEq, Eq, Structural)]
pub struct InflightUpload {
    pub block_id: u64,
    pub force: bool,
}

/// Uploads in flight, and whether a forced upload is running or asked for.
#[derive(Debug)]
pub struct UploadRegistry {
    pub inflight: Vec<InflightUpload>,
    pub force_upload_scheduled: bool,
    pub need_force_upload: bool,
}

/// All uploads, forced.
pub open spec fn all_forced(uploads: Seq<InflightUpload>) -> Seq<InflightUpload> {
    uploads.map_values(|u: InflightUpload| InflightUpload { force: true, ..u })
}

/// One of the uploads is forced.
pub open spec fn any_forced(uploads: Seq<InflightUpload>) -> bool {
    exists|i: int| 0 <= i < uploads.len() && (#[trigger] uploads[i]).force
}

impl UploadRegistry {
    pub fn new() -> (r: Self)
        ensures
            r.inflight@ == Seq::<InflightUpload>::empty(),
            !r.force_upload_scheduled,
            !r.need_force_upload,
    {
        UploadRegistry {
            inflight: Vec::new(),
            force_upload_scheduled: false,
            need_force_upload: false,
        }
    }

    /// Registers the upload of a block. A forced one forces all that are in flight.
    pub fn submit(&mut self, block_id: u64, force: bool)
        ensures
            final(self).inflight@ == (if force {
                all_forced(old(self).inflight@.push(InflightUpload { block_id, force }))
            } else {
                old(self).inflight@.push(InflightUpload { block_id, force })
            }),
            final(self).inflight@.len() == old(self).inflight@.len() + 1,
            final(self).inflight@.last() == (InflightUpload { block_id, force }),
            forall|i: int|
                0 <= i < old(self).inflight@.len() ==> {
                    &&& (#[trigger] final(self).inflight@[i]).block_id
                        == old(self).inflight@[i].block_id
                    &&& final(self).inflight@[i].force == (force || old(self).inflight@[i].force)
                },
            final(self).force_upload_scheduled == old(self).force_upload_scheduled,
            final(self).need_force_upload == old(self).need_force_upload,
    {
        self.inflight.push(InflightUpload { block_id, force });
        if force {
            let ghost all = self.inflight@;
            let mut i: usize = 0;
            while i < self.inflight.len()
                invariant
                    i <= self.inflight@.len() == all.len(),
                    self.force_upload_scheduled == old(self).force_upload_scheduled,
                    self.need_force_upload == old(self).need_force_upload,
                    forall|j: int|
                        0 <= j < i ==> #[trigger] self.inflight@[j] == (InflightUpload {
                            force: true,
                            ..all[j]
                        }),
                    forall|j: int| i <= j < all.len() ==> #[trigger] self.inflight@[j] == all[j],
                decreases all.len() - i,
            {
                let u = self.inflight[i];
                self.inflight[i] = InflightUpload { force: true, ..u };
                i += 1;
            }
            assert(self.inflight@ =~= all_forced(all));
        }
    }

    /// Backpressure asks for a forced upload. True, where one is to be started; where one
    /// runs, another one follows it.
    pub fn maybe_force_upload(&mut self) -> (r: bool)
        ensures
            final(self).inflight@ == old(self).inflight@,
            r <==> !any_forced(old(self).inflight@) && !old(self).force_upload_scheduled,
            final(self).force_upload_scheduled == (old(self).force_upload_scheduled || r),
            final(self).need_force_upload == (old(self).need_force_upload || !r),
    {
        let mut has_inflight_force: bool = false;
        let mut i: usize = 0;
        while i < self.inflight.len()
            invariant
                i <= self.inflight@.len(),
                *self == *old(self),
                has_inflight_force <==> exists|j: int|
                    0 <= j < i && (#[trigger] self.inflight@[j]).force,
            decreases self.inflight@.len() - i,
        {
            if self.inflight[i].force {
                has_inflight_force = true;
            }
            i += 1;
        }
        if has_inflight_force {
            self.need_force_upload = true;
            return false;
        }
        if !self.force_upload_scheduled {
            self.force_upload_scheduled = true;
            true
        } else {
            self.need_force_upload = true;
            false
        }
    }

    /// A forced upload ended. True, where another one was asked for meanwhile.
    pub fn force_upload_ended(&mut self) -> (r: bool)
        ensures
            final(self).inflight@ == old(self).inflight@,
            !final(self).force_upload_scheduled,
            !final(self).need_force_upload,
            r == old(self).need_force_upload,
    {
        self.force_upload_scheduled = false;
        let again: bool = self.need_force_upload;
        self.need_force_upload = false;
        again
    }

    /// The upload of a block ended.
    pub fn remove(&mut self, block_id: u64)
        ensures
            final(self).inflight@ == old(self).inflight@.filter(
                |u: InflightUpload| u.block_id != block_id,
            ),
            final(self).force_upload_scheduled == old(self).force_upload_scheduled,
            final(self).need_force_upload == old(self).need_force_upload,
    {
        let ghost all = self.inflight@;
        let ghost p = |u: InflightUpload| u.block_id != block_id;
        let mut kept: Vec<InflightUpload> = Vec::new();
        let mut i: usize = 0;
        assert(all.take(0).filter(p) =~= Seq::empty());
        while i < self.inflight.len()
            invariant
                i <= self.inflight@.len(),
                *self == *old(self),
                all == self.inflight@,
                p == (|u: InflightUpload| u.block_id != block_id),
                kept@ == all.take(i as int).filter(p),
            decreases self.inflight@.len() - i,
        {
            let u = self.inflight[i];
            proof {
                assert(all.take(i + 1) =~= all.take(i as int).push(u));
                all.take(i as int).lemma_filter_push(u, p);
            }
            if u.block_id != block_id {
                kept.push(u);
            }
            i += 1;
        }
        assert(all.take(i as int) =~= all);
        self.inflight = kept;
    }
}

impl UploadRegistry {
    /// The uploads that a forced upload of a stream waits for: those in flight whose block
    /// holds the stream, oldest first.
    pub fn uploads_of(&self, cache: &LogCache, stream_id: u64) -> (r: Vec<u64>)
        ensures
            r@ == self.inflight@.filter(
                |u: InflightUpload| holds_stream(cache@, u.block_id, stream_id),
            ).map_values(|u: InflightUpload| u.block_id),
    {
        let ghost all = self.inflight@;
        let ghost p = |u: InflightUpload| holds_stream(cache@, u.block_id, stream_id);
        let ghost f = |u: InflightUpload| u.block_id;
        let mut out: Vec<u64> = Vec::new();
        let mut i: usize = 0;
        proof {
            assert(all.take(0).filter(p) =~= Seq::empty());
            assert(all.take(0).filter(p).map_values(f) =~= Seq::empty());
        }
        while i < self.inflight.len()
            invariant
                i <= self.inflight@.len(),
                all == self.inflight@,
                p == (|u: InflightUpload| holds_stream(cache@, u.block_id, stream_id)),
                f == (|u: InflightUpload| u.block_id),
                out@ == all.take(i as int).filter(p).map_values(f),
            decreases self.inflight@.len() - i,
        {
            let u = self.inflight[i];
            let ghost before = all.take(i as int).filter(p);
            proof {
                assert(all.take(i + 1) =~= all.take(i as int).push(u));
                all.take(i as int).lemma_filter_push(u, p);
            }
            let held: bool = cache.holds_stream(u.block_id, stream_id);
            if held {
                out.push(u.block_id);
                assert(out@ =~= before.push(u).map_values(f));
            }
            i += 1;
        }
        assert(all.take(i as int) =~= all);
        out
    }
}

/// A result that many may wait for. What comes first stands.
#[derive(Debug, Clone, Copy)]
pub struct Completion {
    pub result: Option<Result<(), StreamError>>,
}

impl Completion {
    pub fn new() -> (r: Self)
        ensures
            r.result is None,
    {
        Completion { result: None }
    }

    pub fn completed() -> (r: Self)
        ensures
            r.result == Some(Ok::<(), StreamError>(())),
    {
        Completion { result: Some(Ok(())) }
    }

    /// Completes what is not complete yet. True, where it was not.
    pub fn complete(&mut self, result: Result<(), StreamError>) -> (r: bool)
        ensures
            r == (old(self).result is None),
            final(self).result == (if r {
                Some(result)
            } else {
                old(self).result
            }),
    {
        if self.result.is_none() {
            self.result = Some(result);
            true
        } else {
            false
        }
    }
}

/// The first of some results that is an error, from `i` on.
pub open spec fn first_error(results: Seq<Result<(), StreamError>>, i: int) -> Result<
    (),
    StreamError,
>
    decreases results.len() - i,
{
    if i < 0 || i >= results.len() {
        Ok(())
    } else if results[i] is Err {
        results[i]
    } else {
        first_error(results, i + 1)
    }
}

/// What lazy commits come to: the uploads in flight all succeed, or the first that fails
/// decides.
pub fn joined_result(results: &Vec<Result<(), StreamError>>) -> (r: Result<(), StreamError>)
    ensures
        r == first_error(results@, 0),
        r is Ok <==> forall|i: int| 0 <= i < results@.len() ==> (#[trigger] results@[i]) is Ok,
{
    let mut i: usize = 0;
    while i < results.len()
        invariant
            i <= results@.len(),
            first_error(results@, 0) == first_error(results@, i as int),
            forall|j: int| 0 <= j < i ==> (#[trigger] results@[j]) is Ok,
        decreases results@.len() - i,
    {
        match results[i] {
            Ok(()) => {},
            Err(e) => {
                assert(results@[i as int] is Err);
                return Err(e);
            },
        }
        i += 1;
    }
    Ok(())
}

/// When the window for batching forced uploads ends: a window that is over is replaced by
/// a new one.
pub fn force_tick_deadline(deadline_ms: u64, now_ms: u64) -> (r: u64)
    requires
        now_ms + FORCE_UPLOAD_WINDOW_MS <= u64::MAX,
    ensures
        r == (if deadline_ms <= now_ms {
            now_ms + FORCE_UPLOAD_WINDOW_MS
        } else {
            deadline_ms as int
        }),
        r > now_ms,
        r != deadline_ms ==> r - now_ms == FORCE_UPLOAD_WINDOW_MS && deadline_ms <= now_ms,
{
    if deadline_ms <= now_ms {
        now_ms + FORCE_UPLOAD_WINDOW_MS
    } else {
        deadline_ms
    }
}

/// Commits run in order, and a failed one stops all that follow it.
#[derive(Debug, Clone, Copy, PartialEq, Eq, Structural)]
pub struct CommitPipeline {
    pub poisoned: bool,
}

/// What follows a commit.
#[derive(Debug, Clone, Copy, PartialEq, Eq, Structural)]
pub enum CommitStep {
    /// Committed: trim the WAL up to the offset, if there is one, and free the block.
    Committed { trim_to: Option<RecordOffset> },
    /// Failed, by itself or because an earlier commit failed.
    Failed,
}

impl CommitPipeline {
    pub fn new() -> (r: Self)
        ensures
            !r.poisoned,
    {
        CommitPipeline { poisoned: false }
    }

    /// May the next upload be committed?
    pub fn may_commit(&self) -> (r: bool)
        ensures
            r == !self.poisoned,
    {
        !self.poisoned
    }

    /// The next upload was committed, or failed to be.
    pub fn on_commit(&mut self, succeeded: bool, last_record_offset: Option<RecordOffset>) -> (r:
        CommitStep)
        ensures
            final(self).poisoned == (old(self).poisoned || !succeeded),
            r == (if old(self).poisoned || !succeeded {
                CommitStep::Failed
            } else {
                CommitStep::Committed { trim_to: last_record_offset }
            }),
            r == CommitStep::Failed <==> final(self).poisoned,
            old(self).poisoned ==> final(self).poisoned,
    {
        if self.poisoned || !succeeded {
            self.poisoned = true;
            CommitStep::Failed
        } else {
            CommitStep::Committed { trim_to: last_record_offset }
        }
    }
}

/// Commit trigger with linger: if no other commit happens within `lazy_linger_ms`, one is
/// triggered (0 = force an upload as soon as possible).
#[derive(Debug, Clone, Copy, PartialEq, Eq, Structural)]
pub struct LazyCommit {
    pub lazy_linger_ms: u64,
    /// Resolve the caller only after the WAL trim completes (vs at commit).
    pub await_trim: bool,
}

/// What to do once the linger time of a lazy commit is over.
#[derive(Debug, Clone, Copy, PartialEq, Eq, Structural)]
pub enum LingerStep {
    /// Another commit took care of it.
    Nothing,
    /// Force an upload of everything.
    ForceUpload,
    /// Upload what is there.
    Upload,
}

/// Lazy commits that no upload took care of yet, by id.
#[derive(Debug)]
pub struct LazyCommits {
    queue: Vec<u64>,
    next_id: u64,
}

impl LazyCommits {
    pub closed spec fn queued(&self) -> Seq<u64> {
        self.queue@
    }

    pub closed spec fn next(&self) -> u64 {
        self.next_id
    }

    pub fn new() -> (r: Self)
        ensures
            r.queued() == Seq::<u64>::empty(),
            r.next() == 0,
    {
        LazyCommits { queue: Vec::new(), next_id: 0 }
    }

    /// Queues a lazy commit.
    pub fn push(&mut self) -> (r: u64)
        ensures
            r == old(self).next(),
            final(self).queued() == old(self).queued().push(r),
            final(self).next() == (r + 1) % 0x1_0000_0000_0000_0000,
    {
        let id: u64 = self.next_id;
        self.next_id = id.wrapping_add(1);
        self.queue.push(id);
        id
    }

    /// The linger time of a lazy commit is over.
    pub fn on_linger_over(&self, id: u64, lazy: LazyCommit) -> (r: LingerStep)
        ensures
            r == (if !self.queued().contains(id) {
                LingerStep::Nothing
            } else if lazy.lazy_linger_ms == 0 {
                LingerStep::ForceUpload
            } else {
                LingerStep::Upload
            }),
    {
        let mut i: usize = 0;
        while i < self.queue.len()
            invariant
                i <= self.queue@.len(),
                forall|j: int| 0 <= j < i ==> self.queue@[j] != id,
            decreases self.queue@.len() - i,
        {
            if self.queue[i] == id {
                assert(self.queued().contains(id));
                if lazy.lazy_linger_ms == 0 {
                    return LingerStep::ForceUpload;
                } else {
                    return LingerStep::Upload;
                }
            }
            i += 1;
        }
        LingerStep::Nothing
    }

    /// An upload was submitted: it takes care of all that are queued.
    pub fn take_all(&mut self) -> (r: Vec<u64>)
        ensures
            r@ == old(self).queued(),
            final(self).queued() == Seq::<u64>::empty(),
            final(self).next() == old(self).next(),
    {
        let mut out: Vec<u64> = Vec::new();
        out.append(&mut self.queue);
        assert(out@ =~= old(self).queue@);
        out
    }
}

/// WAL trims that are held back, oldest first.
#[derive(Debug)]
pub struct DelayedTrims {
    delay_ms: u64,
    queue: VecDeque<RecordOffset>,
}

impl DelayedTrims {
    pub closed spec fn delay(&self) -> u64 {
        self.delay_ms
    }

    pub closed spec fn pending(&self) -> Seq<RecordOffset> {
        self.queue@
    }

    pub fn new(delay_ms: u64) -> (r: Self)
        ensures
            r.delay() == delay_ms,
            r.pending() == Seq::<RecordOffset>::empty(),
    {
        DelayedTrims { delay_ms, queue: VecDeque::new() }
    }

    /// Asks for a trim. Returns the offset where it is to be done at once; else it waits
    /// for the delay.
    pub fn request(&mut self, offset: RecordOffset) -> (r: Option<RecordOffset>)
        ensures
            final(self).delay() == old(self).delay(),
            if old(self).delay() == 0 {
                r == Some(offset) && final(self).pending() == old(self).pending()
            } else {
                r is None && final(self).pending() == old(self).pending().push(offset)
            },
    {
        if self.delay_ms == 0 {
            Some(offset)
        } else {
            self.queue.push_back(offset);
            None
        }
    }

    /// The delay of one trim is over, or the storage shuts down: the oldest one is due.
    pub fn take_due(&mut self) -> (r: Option<RecordOffset>)
        ensures
            final(self).delay() == old(self).delay(),
            if old(self).pending().len() == 0 {
                r is None && final(self).pending() == old(self).pending()
            } else {
                r == Some(old(self).pending()[0]) && final(self).pending()
                    == old(self).pending().skip(1)
            },
    {
        let ghost before = self.queue@;
        let r = self.queue.pop_front();
        proof {
            if before.len() > 0 {
                assert(self.queue@ =~= before.skip(1));
            }
        }
        r
    }
}

/// A waiting append leaves once the WAL took it or refused it for good: of those that the WAL
/// answered so, none is left.
pub proof fn law_answered_appends_leave(
    waiting: Seq<(u64, Seq<u8>)>,
    outcomes: Seq<Result<(), WalError>>,
)
    requires
        outcomes.len() <= waiting.len(),
        forall|i: int|
            0 <= i < outcomes.len() ==> (#[trigger] outcomes[i]) != Err::<(), WalError>(
                WalError::OverCapacity,
            ),
    ensures
        drained(waiting, outcomes) == waiting.skip(outcomes.len() as int),
    decreases outcomes.len(),
{
    if outcomes.len() == 0 {
        assert(waiting.skip(0) =~= waiting);
    } else {
        let rest = outcomes.skip(1);
        assert forall|i: int| 0 <= i < rest.len() implies (#[trigger] rest[i]) != Err::<
            (),
            WalError,
        >(WalError::OverCapacity) by {
            assert(rest[i] == outcomes[i + 1]);
        }
        assert(outcomes[0] != Err::<(), WalError>(WalError::OverCapacity));
        law_answered_appends_leave(waiting.skip(1), rest);
        assert(waiting.skip(1).skip(rest.len() as int) =~= waiting.skip(outcomes.len() as int));
    }
}

/// A gap is told of where the first record stands that does not begin where the one before it
/// ends; where none does, there is no gap.
pub proof fn law_first_gap_is_found(records: Seq<Seq<u8>>, i: int)
    requires
        1 <= i,
    ensures
        match first_gap(records, i) {
            Some(g) => {
                &&& i <= g < records.len()
                &&& rec_last_offset(records[g - 1]) != rec_base_offset(records[g])
                &&& forall|a: int, b: int|
                    #![trigger records[a], records[b]]
                    i <= b < g && a == b - 1 ==> rec_last_offset(records[a]) == rec_base_offset(
                        records[b],
                    )
            },
            None => forall|a: int, b: int|
                #![trigger records[a], records[b]]
                i <= b < records.len() && a == b - 1 ==> rec_last_offset(records[a])
                    == rec_base_offset(records[b]),
        },
    decreases records.len() - i,
{
    if i < records.len() && rec_base_offset(records[i]) == rec_last_offset(records[i - 1]) {
        law_first_gap_is_found(records, i + 1);
    }
}

/// The result that decides is the first error; all that come before it are successes.
pub proof fn law_first_error_decides(results: Seq<Result<(), StreamError>>, i: int)
    requires
        0 <= i <= results.len(),
    ensures
        match first_error(results, i) {
            Ok(()) => forall|k: int| i <= k < results.len() ==> (#[trigger] results[k]) is Ok,
            Err(e) => exists|k: int|
                {
                    &&& i <= k < results.len()
                    &&& #[trigger] results[k] == Err::<(), StreamError>(e)
                    &&& forall|j: int| i <= j < k ==> (#[trigger] results[j]) is Ok
                },
        },
    decreases results.len() - i,
{
    if i < results.len() {
        if results[i] is Err {
            assert(results[i] == Err::<(), StreamError>(results[i]->Err_0));
        } else {
            law_first_error_decides(results, i + 1);
            match first_error(results, i + 1) {
                Ok(()) => {},
                Err(e) => {
                    let k = choose|k: int|
                        {
                            &&& i + 1 <= k < results.len()
                            &&& #[trigger] results[k] == Err::<(), StreamError>(e)
                            &&& forall|j: int| i + 1 <= j < k ==> (#[trigger] results[j]) is Ok
                        };
                    assert(results[k] == Err::<(), StreamError>(e));
                },
            }
        }
    }
}

} // verus!

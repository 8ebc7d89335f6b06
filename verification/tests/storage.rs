//! The storage pipeline: appends, reads, uploads, recovery.
use bytes::Bytes;
use s3stream::api::{CacheAccessType, ReadDataBlock};
use s3stream::cache::log_block::{LogCacheBlock, DEFAULT_MAX_BLOCK_STREAM_COUNT, MATCH_ALL_STREAMS};
use s3stream::cache::log_cache::LogCache;
use s3stream::codec::StreamRecordBatch;
use s3stream::error::{StreamError, Unexpected, WalError};
use s3stream::memory::MemoryMetadataManager;
use s3stream::object::{RecordOffset, NOOP_OBJECT_ID};
use s3stream::manager::{StreamMetadata, StreamState};
use s3stream::storage::recovery::{
    finish_steps, link_records, FinishStep, RecoverResult, Recovery,
};
use s3stream::storage::s3_storage::{
    continuous_check, force_tick_deadline, joined_result, plan_read, stitch_read, Admission,
    AppendPipeline, AppendStep, CommitPipeline, CommitStep, Completion, DelayedTrims, DrainStep,
    DrainTurn, LazyCommit, LazyCommits, LingerStep, ReadPlan, S3StorageConfig, StorageParts,
    UploadRegistry,
};
use s3stream::storage::upload::{UploadWalTask, WrittenObject};
use std::collections::{BTreeMap, HashMap};

fn record(stream_id: u64, base_offset: u64, count: i32, payload: &[u8]) -> StreamRecordBatch {
    StreamRecordBatch::new(
        stream_id,
        1,
        base_offset,
        count,
        Bytes::copy_from_slice(payload),
    )
}

fn wal_offset(offset: u64) -> RecordOffset {
    RecordOffset {
        epoch: 1,
        offset,
        size: 40,
    }
}

fn result(stream_id: u64, base_offset: u64, count: i32, offset: u64) -> RecoverResult {
    RecoverResult {
        record: StreamRecordBatch::new(
            stream_id,
            0,
            base_offset,
            count,
            Bytes::from(vec![0u8; 16]),
        ),
        record_offset: wal_offset(offset),
    }
}

/// Stream end offset 3, WAL has 1..=6 => keep 3..=6.
/// Records of unknown streams and gapped records are dropped.
#[test]
fn filters_committed_closed_and_gapped_records() {
    let items = vec![
        result(1, 1, 1, 0),
        result(1, 2, 1, 100),
        result(1, 3, 1, 200),
        result(1, 4, 1, 300),
        result(9, 0, 1, 400), // stream 9 not opening: dropped
        result(1, 6, 1, 500), // gap (expected 5): dropped
        result(1, 5, 1, 600), // continues the tail
    ];
    let mut recovery = Recovery::new(HashMap::from([(1u64, 3u64)]), 1 << 29);
    let mut blocks: Vec<LogCacheBlock> = Vec::new();
    for item in items {
        blocks.extend(recovery.offer(item));
    }
    blocks.extend(recovery.finish());

    assert_eq!(blocks.len(), 1);
    let records = blocks[0].records();
    let offsets: Vec<u64> = records[&1].iter().map(|r| r.base_offset()).collect();
    assert_eq!(offsets, vec![3, 4, 5]);
    assert!(!records.contains_key(&9));
    assert_eq!(recovery.end_offset(1), Some(6));
    // Block carries the WAL offset of its last accepted record for trimming.
    assert_eq!(blocks[0].last_record_offset().unwrap().offset, 600);
}

/// Blocks respect max_cache_size: overflowing records carry into the next block.
#[test]
fn batches_bounded_by_cache_size() {
    let mut recovery = Recovery::new(HashMap::from([(1u64, 0u64)]), 1);
    let mut block_sizes = Vec::new();
    // Each record occupies well over 1 byte, so every block holds one record.
    for i in 0..10 {
        for block in recovery.offer(result(1, i, 1, i * 100)) {
            block_sizes.push(block.records()[&1].len());
        }
    }
    for block in recovery.finish() {
        block_sizes.push(block.records()[&1].len());
    }
    assert_eq!(block_sizes.len(), 10);
    assert!(block_sizes.iter().all(|&n| n == 1));
    assert_eq!(recovery.end_offset(1), Some(10));
}

/// Records that only link to their data need a decoder.
#[test]
fn link_records_need_a_decoder() {
    let mut block = LogCacheBlock::new(0, 1 << 20, 10);
    assert!(block.put(record(1, 0, 1, b"x")));
    assert!(link_records(&block, false).unwrap().is_empty());
    assert!(block.put(record(1, 1, -2, b"link")));
    assert!(matches!(
        link_records(&block, false),
        Err(StreamError::Unexpected(Unexpected::NoLinkDecoder))
    ));
    let links = link_records(&block, true).unwrap();
    assert_eq!(links.len(), 1);
    assert_eq!(links[0].base_offset(), 1);
    // The decoded record takes the place of the link.
    block.replace_record(1, 1, record(1, 1, 2, b"data"));
    assert_eq!(block.records()[&1][1].payload(), Bytes::from_static(b"data"));
}

fn upload_record(stream_id: u64, base_offset: u64, size: usize) -> StreamRecordBatch {
    StreamRecordBatch::new(stream_id, 0, base_offset, 1, Bytes::from(vec![7u8; size]))
}

/// Split rule: a stream over stream_split_size gets its own object. The rest land
/// in the stream set object. Ranges in the commit request are exact.
#[test]
fn split_and_commit_request_shape() {
    let mut records = BTreeMap::new();
    records.insert(1, vec![upload_record(1, 0, 200)]); // splits (>= 100)
    records.insert(2, vec![upload_record(2, 10, 10), upload_record(2, 11, 10)]); // stream set
    records.insert(3, vec![upload_record(3, 5, 10)]); // stream set

    let mut task = UploadWalTask::plan(records, 100);
    assert_eq!(task.object_count(), 2);

    let mut manager = MemoryMetadataManager::new();
    task.set_prepared(manager.prepare_object(task.object_count()));
    assert_eq!(task.set_stream_ids(), vec![2, 3]);
    assert_eq!(task.split_records(1).unwrap().len(), 1);
    let written = WrittenObject {
        object_size: 300,
        attributes: 0,
    };
    let request = task.commit_request(Some(written), &vec![written]);
    assert_ne!(request.object_id, NOOP_OBJECT_ID);
    assert_eq!(request.stream_ranges.len(), 2);
    assert_eq!(request.stream_ranges[0].stream_id, 2);
    assert_eq!(request.stream_ranges[0].start_offset, 10);
    assert_eq!(request.stream_ranges[0].end_offset, 12);
    assert_eq!(request.stream_ranges[1].stream_id, 3);
    assert_eq!(request.stream_objects.len(), 1);
    let so = &request.stream_objects[0];
    assert_eq!(so.stream_id, 1);
    assert_eq!((so.start_offset, so.end_offset), (0, 1));
    assert!(so.object_size > 0);
    // Ids: the set object gets the first prepared id, the split stream the next.
    assert_eq!(so.object_id, request.object_id + 1);
    assert_eq!(task.stream_set_object_id(), request.object_id);
    assert_eq!(task.stream_object_ids(), vec![(1, so.object_id)]);

    manager.commit_stream_set_object(&request, 0);
}

/// Single-stream special case: no stream set object at all.
#[test]
fn single_stream_writes_stream_object_only() {
    let mut records = BTreeMap::new();
    records.insert(9, vec![upload_record(9, 0, 8)]); // tiny, but still splits
    let mut task = UploadWalTask::plan(records, 100);
    assert_eq!(task.object_count(), 1);

    let mut manager = MemoryMetadataManager::new();
    task.set_prepared(manager.prepare_object(1));
    let request = task.commit_request(
        None,
        &vec![WrittenObject {
            object_size: 90,
            attributes: 0,
        }],
    );
    assert_eq!(request.object_id, NOOP_OBJECT_ID);
    assert_eq!(request.stream_objects.len(), 1);
    assert!(request.stream_ranges.is_empty());
}

fn pipeline(capacity: u64, block_size: u64) -> AppendPipeline {
    AppendPipeline::new(LogCache::new(
        capacity,
        block_size,
        DEFAULT_MAX_BLOCK_STREAM_COUNT,
    ))
}

/// Append, read from the cache, seal for upload, release, read no more.
#[test]
fn append_read_upload_read() {
    let mut p = pipeline(1 << 30, 1 << 20);
    for i in 0..10u64 {
        let r = match p.append0(i, record(1, i, 1, &[i as u8; 64])) {
            Admission::Submit(r) => r,
            Admission::Parked => panic!("parked with room to spare"),
        };
        let copy = r.clone();
        assert_eq!(p.on_submitted(i, r, Ok(())), AppendStep::AwaitDurable);
        let outcome = p.handle_append_confirm(&copy, wal_offset(i));
        assert_eq!(outcome.archived, None);
    }
    let cached = p.read_cache(1, 0, 10, usize::MAX);
    let read = match plan_read(cached, 0, 10, false).unwrap() {
        ReadPlan::Hit(block) => block,
        ReadPlan::BlockCache { .. } => panic!("not served from the log cache"),
    };
    assert_eq!(read.cache_access, CacheAccessType::DeltaWalCacheHit);
    assert_eq!(read.records.len(), 10);

    let sealed = p.seal_for_upload(MATCH_ALL_STREAMS).unwrap();
    let block = p.log_cache().block(sealed).unwrap();
    assert_eq!(block.records()[&1].len(), 10);
    assert_eq!(block.last_record_offset(), Some(wal_offset(9)));
    assert_eq!(p.seal_for_upload(MATCH_ALL_STREAMS), None);
    p.release_block(sealed);
}

/// Appends parked in the backoff queue all land, in order.
#[test]
fn backoff_appends_are_never_dropped() {
    // A cache small enough that the appends below overrun it.
    let mut p = pipeline(32 * 1024, 8 * 1024);
    let mut landed: Vec<u64> = Vec::new();
    let mut sealed: Vec<u64> = Vec::new();
    let mut confirm = |p: &mut AppendPipeline, r: &StreamRecordBatch| {
        let outcome = p.handle_append_confirm(r, wal_offset(r.base_offset()));
        landed.push(r.base_offset());
        sealed.extend(outcome.archived);
    };
    for i in 0..100u64 {
        match p.append0(i, record(1, i, 1, &[i as u8; 2048])) {
            Admission::Submit(r) => {
                let copy = r.clone();
                p.on_submitted(i, r, Ok(()));
                confirm(&mut p, &copy);
            }
            Admission::Parked => {}
        }
    }
    let mut ids: Vec<u64> = Vec::new();
    let mut stalls = 0;
    loop {
        match p.next_drain() {
            DrainTurn::Empty => break,
            DrainTurn::NoPermit => {
                stalls += 1;
                // An upload finishes: its block is released.
                let block = p.seal_for_upload(MATCH_ALL_STREAMS);
                assert!(block.is_some() || stalls < 1000);
                for b in 0..200 {
                    p.release_block(b);
                }
            }
            DrainTurn::Submit(r) => match p.on_drained(Ok(())) {
                DrainStep::Accepted { id } => {
                    ids.push(id);
                    confirm(&mut p, &r);
                }
                other => panic!("append dropped: {other:?}"),
            },
        }
    }
    assert!(stalls > 0);
    assert!(ids.windows(2).all(|w| w[0] < w[1]));
    assert_eq!(landed, (0..100).collect::<Vec<u64>>());
    assert!(!sealed.is_empty());
}

/// A WAL over its capacity parks the append instead of failing it.
#[test]
fn over_capacity_parks_other_errors_fail() {
    let mut p = pipeline(1 << 30, 1 << 20);
    assert_eq!(
        p.on_submitted(1, record(1, 0, 1, b"x"), Err(WalError::OverCapacity)),
        AppendStep::ParkedForUpload
    );
    assert_eq!(
        p.on_submitted(2, record(1, 1, 1, b"y"), Err(WalError::Fenced)),
        AppendStep::Fail(WalError::Fenced)
    );
    // While one waits, later appends queue behind it.
    assert!(matches!(
        p.append0(3, record(1, 1, 1, b"z")),
        Admission::Parked
    ));
    assert!(matches!(p.next_drain(), DrainTurn::Submit(_)));
    assert_eq!(
        p.on_drained(Err(WalError::OverCapacity)),
        DrainStep::StillFull
    );
    assert_eq!(
        p.on_drained(Err(WalError::Failed)),
        DrainStep::Failed {
            id: 1,
            error: WalError::Failed
        }
    );
    assert_eq!(p.fail_waiting(), vec![3]);
}

#[test]
fn fast_read_fails_fast_on_cache_miss() {
    assert!(matches!(
        plan_read(Vec::new(), 0, 1, true),
        Err(StreamError::FastReadFailFast)
    ));
    assert!(matches!(
        plan_read(Vec::new(), 0, 1, false),
        Ok(ReadPlan::BlockCache { end_offset: 1, .. })
    ));
}

/// Reads stitch the head from objects and the tail from the log cache.
#[test]
fn seal_threshold_triggers_upload_and_stitched_read() {
    let head: Vec<_> = (0..3).map(|i| record(1, i, 1, &[1; 128])).collect();
    let tail: Vec<_> = (3..5).map(|i| record(1, i, 1, &[1; 128])).collect();
    let (end_offset, tail) = match plan_read(tail, 0, 5, false).unwrap() {
        ReadPlan::BlockCache { end_offset, tail } => (end_offset, tail),
        ReadPlan::Hit(_) => panic!("the head is not cached"),
    };
    assert_eq!(end_offset, 3);
    let read = stitch_read(
        ReadDataBlock {
            records: head,
            cache_access: CacheAccessType::BlockCacheMiss,
        },
        tail,
        usize::MAX,
    )
    .unwrap();
    assert_eq!(read.records.len(), 5);
    continuous_check(&read.records).unwrap();
}

#[test]
fn gap_in_a_read_is_reported() {
    let records = vec![record(1, 0, 2, b"a"), record(1, 3, 1, b"b")];
    assert_eq!(
        continuous_check(&records),
        Err(StreamError::Unexpected(Unexpected::NotContinuous {
            expected: 2,
            actual: 3
        }))
    );
}

#[test]
fn snapshot_read_splits_cache_budget() {
    let config = S3StorageConfig {
        wal_cache_size: 90 * 1024 * 1024,
        snapshot_read_enable: true,
        ..S3StorageConfig::test_defaults()
    };
    let parts = StorageParts::new(config);
    assert_eq!(parts.log_cache.capacity(), 30 * 1024 * 1024);
    assert_eq!(parts.snapshot_log_cache.capacity(), 60 * 1024 * 1024);
}

/// Both caches start empty, and a budget that is shared may be of any size.
#[test]
fn storage_starts_with_empty_caches() {
    let config = S3StorageConfig {
        wal_cache_size: u64::MAX,
        snapshot_read_enable: true,
        ..S3StorageConfig::test_defaults()
    };
    let mut parts = StorageParts::new(config);
    assert_eq!(parts.log_cache.capacity(), u64::MAX / 3);
    assert_eq!(parts.snapshot_log_cache.capacity(), u64::MAX / 3 * 2);
    for cache in [&mut parts.log_cache, &mut parts.snapshot_log_cache] {
        assert_eq!(cache.size(), 0);
        assert!(cache.take_freed().is_empty());
        assert_eq!(cache.archive_current_block(), 0);
        assert_eq!(cache.archive_current_block(), 1);
    }
}

/// A lazy commit triggers an upload once its linger is over, unless one ran meanwhile.
#[test]
fn lazy_commit_resolves_after_upload() {
    let mut commits = LazyCommits::new();
    let id = commits.push();
    let lazy = LazyCommit {
        lazy_linger_ms: 0,
        await_trim: true,
    };
    assert_eq!(commits.on_linger_over(id, lazy), LingerStep::ForceUpload);
    let slow = LazyCommit {
        lazy_linger_ms: 50,
        await_trim: false,
    };
    let other = commits.push();
    assert_eq!(commits.on_linger_over(other, slow), LingerStep::Upload);
    assert_eq!(commits.take_all(), vec![id, other]);
    assert_eq!(commits.on_linger_over(id, lazy), LingerStep::Nothing);
}

#[test]
fn force_uploads_share_one_tick() {
    let mut registry = UploadRegistry::new();
    registry.submit(4, false);
    assert!(registry.maybe_force_upload());
    assert!(!registry.maybe_force_upload());
    assert!(registry.force_upload_ended());
    registry.remove(4);
    assert!(registry.inflight.is_empty());
    assert_eq!(force_tick_deadline(900, 1_000), 1_100);
    assert_eq!(force_tick_deadline(1_050, 1_000), 1_050);
}

#[test]
fn failed_commit_stops_later_ones() {
    let mut pipeline = CommitPipeline::new();
    assert_eq!(
        pipeline.on_commit(true, Some(wal_offset(7))),
        CommitStep::Committed {
            trim_to: Some(wal_offset(7))
        }
    );
    assert_eq!(pipeline.on_commit(false, None), CommitStep::Failed);
    assert!(!pipeline.may_commit());
}

#[test]
fn completion_takes_the_first_result() {
    let mut completion = Completion::new();
    assert!(completion.complete(Ok(())));
    assert!(!completion.complete(Err(StreamError::OverCapacity)));
    assert_eq!(completion.result, Some(Ok(())));
    assert_eq!(
        joined_result(&vec![
            Ok(()),
            Err(StreamError::OverCapacity),
            Err(StreamError::FastReadFailFast)
        ]),
        Err(StreamError::OverCapacity)
    );
}

#[test]
fn trims_wait_for_snapshot_readers() {
    let mut now = DelayedTrims::new(0);
    assert_eq!(now.request(wal_offset(1)), Some(wal_offset(1)));
    let mut later = DelayedTrims::new(30_000);
    assert_eq!(later.request(wal_offset(1)), None);
    assert_eq!(later.request(wal_offset(2)), None);
    assert_eq!(later.take_due(), Some(wal_offset(1)));
    assert_eq!(later.take_due(), Some(wal_offset(2)));
    assert_eq!(later.take_due(), None);
}

/// A recovery empties the log before it closes the streams.
#[test]
fn recovery_resets_the_log_first() {
    let stream = |stream_id: u64, epoch: u64| StreamMetadata {
        stream_id,
        epoch,
        start_offset: 0,
        end_offset: 4,
        state: StreamState::Opened,
        node_id: 1,
    };
    assert_eq!(
        finish_steps(&vec![stream(3, 1), stream(5, 2)]),
        vec![
            FinishStep::ResetLog,
            FinishStep::Close {
                stream_id: 3,
                epoch: 1
            },
            FinishStep::Close {
                stream_id: 5,
                epoch: 2
            },
        ]
    );
    assert_eq!(finish_steps(&Vec::new()), vec![FinishStep::ResetLog]);
}

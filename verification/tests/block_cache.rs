//! The cold read path.
use bytes::Bytes;
use s3stream::api::CacheAccessType;
use s3stream::cache::block_cache::DirectRead;
use s3stream::cache::blockcache::data_block::{pick_records, GetOptions};
use s3stream::cache::blockcache::data_block_cache::{
    throttle_of, DataBlockCache, ThrottleStrategy,
};
use s3stream::cache::blockcache::object_reader_cache::ObjectReaderCache;
use s3stream::cache::blockcache::read_run::{BlockRead, BlockSearch, ReadRun};
use s3stream::cache::blockcache::size_limiter::AsyncSizeLimiter;
use s3stream::cache::blockcache::stream_reader::{
    is_recoverable, RetryStep, StreamReader, READAHEAD_SIZE_UNIT, READ_RETRIES,
};
use s3stream::cache::blockcache::stream_readers::{ReaderEntry, StreamReaders};
use s3stream::cache::blockcache::window::{AttachStep, LoadStep, WalkOutcome};
use s3stream::codec::StreamRecordBatch;
use s3stream::error::{ObjectError, StreamError, Unexpected};
use s3stream::object::{DataBlockIndex, S3ObjectMetadata, S3ObjectType, NO_BLOCK_ID};
use std::collections::HashMap;

fn record(stream_id: u64, base_offset: u64) -> StreamRecordBatch {
    StreamRecordBatch::new(
        stream_id,
        1,
        base_offset,
        1,
        Bytes::from(vec![base_offset as u8; 64]),
    )
}

fn records(stream_id: u64, start: u64, end: u64) -> Vec<StreamRecordBatch> {
    (start..end).map(|o| record(stream_id, o)).collect()
}

fn index(stream_id: u64, start: u64, end: u64, position: u64, size: u32) -> DataBlockIndex {
    DataBlockIndex {
        block_id: NO_BLOCK_ID,
        stream_id,
        start_offset: start,
        end_offset_delta: (end - start) as u32,
        record_count: (end - start) as u32,
        start_position: position,
        size,
    }
}

fn metadata(object_id: u64) -> S3ObjectMetadata {
    S3ObjectMetadata {
        object_id,
        object_type: S3ObjectType::StreamSet,
        offset_ranges: vec![],
        object_size: 0,
        attributes: 0,
        committed_timestamp_ms: 0,
        data_timestamp_ms: 0,
    }
}

#[test]
fn permits_may_go_negative_once() {
    let mut limiter = AsyncSizeLimiter::new(1);
    // First oversized acquire succeeds (permits >= 0 before), going negative.
    assert!(limiter.try_acquire(10, 1));
    assert_eq!(limiter.permits(), -9);
    assert!(limiter.required_release());
    // Second acquire queues.
    assert!(!limiter.try_acquire(1, 2));
    let woken = limiter.release(10);
    assert_eq!(limiter.permits(), 1);
    // Waiter woken. Retry succeeds.
    assert_eq!(woken, Some(2));
    assert!(limiter.try_acquire(1, 2));
    assert_eq!(limiter.permits(), 0);
}

/// Same object id returns the same reader. Unrelated ids get their own.
#[test]
fn readers_are_shared_per_object() {
    let mut cache = ObjectReaderCache::new();
    let sizes = HashMap::new();
    let a1 = cache.get(metadata(1).object_id, &sizes);
    let a2 = cache.get(metadata(1).object_id, &sizes);
    let b = cache.get(metadata(2).object_id, &sizes);
    assert!(a1.open && !a2.open && b.open);
    assert_eq!(a1.reader, a2.reader);
    assert_ne!(a1.reader, b.reader);
    assert_eq!(cache.len(), 2);
}

/// Readers leave, oldest use first, while their index blocks take more than is allowed.
#[test]
fn reader_cache_evicts_least_recently_used() {
    let mut cache = ObjectReaderCache::with_capacity(100);
    let mut sizes: HashMap<u64, usize> = HashMap::new();
    let a = cache.get(1, &sizes).reader;
    let b = cache.get(2, &sizes).reader;
    sizes.insert(a, 60);
    sizes.insert(b, 60);
    // Object 1 is used again, so object 2's reader is the one that leaves.
    assert_eq!(cache.get(1, &sizes).reader, a);
    let lookup = cache.get(3, &sizes);
    assert!(lookup.open);
    assert_eq!(lookup.evicted, vec![b]);
    assert_eq!(cache.len(), 2);
    assert_eq!(cache.get(1, &sizes).reader, a);
}

/// Concurrent readers of the same block share one fetch.
#[test]
fn concurrent_readers_share_one_fetch() {
    let mut cache = DataBlockCache::new(1 << 20, 2, 0);
    let block = index(7, 0, 4, 0, 400);
    let lookups: Vec<_> = (0..8)
        .map(|_| cache.get_block_handle(1, block, 0))
        .collect();
    assert_eq!(lookups.iter().filter(|l| l.start_load).count(), 1);
    for pair in lookups.windows(2) {
        assert_eq!(pair[0].handle, pair[1].handle, "all callers share one block");
    }
    let handle = lookups[0].handle;
    assert_eq!(cache.load_result(handle), None);
    assert!(cache.start_load(handle, 1, 0));
    cache.on_loaded(handle, records(7, 0, 4), 0);
    assert_eq!(cache.load_result(handle), Some(Ok(())));
    let got = cache.get_records(handle, 0, 4, i64::MAX);
    assert_eq!(got.len(), block.record_count as usize);
}

/// Drop-behind: the last reader frees the block and releases its memory.
#[test]
fn mark_read_frees_block() {
    let mut cache = DataBlockCache::new(1 << 20, 1, 0);
    let block = index(9, 0, 2, 0, 200);
    let handle = cache.get_block_handle(2, block, 0).handle;
    assert!(cache.start_load(handle, 1, 0));
    cache.on_loaded(handle, records(9, 0, 2), 0);
    let before = cache.available();
    assert_eq!(before, (1 << 20) - 200); // permits held by the loaded block

    let listener = cache.register_free_listener(handle).unwrap();
    cache.mark_unread(handle, 0);
    cache.mark_read(handle);
    let notices = cache.take_notices();
    assert_eq!(notices.len(), 1, "free listener fired");
    assert_eq!((notices[0].handle, notices[0].listener), (handle, listener));
    assert_eq!(cache.available(), 1 << 20, "permits released");

    // A fresh handle for the same index is a new block (reload).
    let again = cache.get_block_handle(2, block, 0);
    assert!(again.start_load);
    assert_ne!(again.handle, handle);
    assert!(cache.forget(handle));
    assert!(!cache.knows(handle));
}

/// Size-limiter starvation evicts read (cold) blocks so queued loads proceed.
#[test]
fn starved_limiter_evicts_and_reschedules() {
    // Cache smaller than one block: each load takes permits negative.
    let mut cache = DataBlockCache::new(1, 1, 0);
    let b1 = cache.get_block_handle(3, index(11, 0, 2, 0, 200), 0).handle;
    assert!(cache.start_load(b1, 1, 0));
    cache.on_loaded(b1, records(11, 0, 2), 0);
    // The second block queues on the limiter, and eviction of the first wakes it.
    let b2 = cache.get_block_handle(4, index(12, 0, 2, 0, 200), 0).handle;
    let granted = cache.start_load(b2, 2, 0);
    if !granted {
        cache.evict_all(0);
        assert_eq!(cache.take_woken(), vec![2]);
        assert!(cache.start_load(b2, 2, 0));
    }
    cache.on_loaded(b2, records(12, 0, 2), 0);
    assert_eq!(cache.get_records(b2, 0, 2, i64::MAX).len(), 2);
}

/// A failed fetch is what every reader of the block sees, and a later lookup retries.
#[test]
fn failed_fetch_reaches_every_reader() {
    let mut cache = DataBlockCache::new(1 << 20, 1, 0);
    let block = index(5, 0, 2, 0, 200);
    let handle = cache.get_block_handle(1, block, 0).handle;
    assert!(cache.start_load(handle, 1, 0));
    cache.on_fetch_failed(handle, StreamError::Object(ObjectError::NotFound), 0);
    assert!(matches!(cache.load_result(handle), Some(Err(_))));
    assert_eq!(cache.available(), 1 << 20);
    assert!(cache.get_block_handle(1, block, 0).start_load);
}

/// Only demand reads are tracked as cold reads.
#[test]
fn cold_reads_are_tracked() {
    let mut cache = DataBlockCache::new(1 << 20, 1, 0);
    let demand = GetOptions { readahead: false };
    let ahead = GetOptions { readahead: true };
    assert_eq!(throttle_of(demand), ThrottleStrategy::Bypass);
    assert_eq!(throttle_of(ahead), ThrottleStrategy::CatchUp);
    assert!(cache.track_fetch(ahead, 5).is_none());
    let guard = cache.track_fetch(demand, 5);
    assert!(guard.is_some());
    assert!(cache.cold_read_registry().has_pending_older_than(10, 15));
    assert!(!cache.cold_read_registry().has_pending_older_than(10, 14));
    cache.untrack_fetch(guard);
    assert!(!cache.cold_read_registry().has_pending_older_than(0, 1000));
}

/// Every demand read is told apart from the ones before it.
#[test]
fn cold_reads_are_numbered() {
    let mut cache = DataBlockCache::new(1 << 20, 1, 0);
    let demand = GetOptions { readahead: false };
    let first = cache.track_fetch(demand, 5).unwrap();
    let second = cache.track_fetch(demand, 6).unwrap();
    assert_eq!((first.id, second.id), (0, 1));
    cache.untrack_fetch(Some(first));
    assert_eq!(cache.track_fetch(demand, 7).unwrap().id, 2);
    assert!(cache.cold_read_registry().has_pending_older_than(1, 8));
}

#[test]
fn picked_records_overlap_the_range() {
    let all = records(1, 0, 6);
    let offsets = |v: Vec<StreamRecordBatch>| v.iter().map(|r| r.base_offset()).collect::<Vec<_>>();
    assert_eq!(offsets(pick_records(&all, 2, 4, i64::MAX)), vec![2, 3]);
    assert_eq!(offsets(pick_records(&all, 2, 6, 1)), vec![2]);
    assert!(pick_records(&all, 6, 9, i64::MAX).is_empty());
}

/// One reader's way over two objects: load the index, read blocks, go on, read ahead.
#[test]
fn sequential_read_warms_readahead() {
    let mut cache = DataBlockCache::new(64 << 20, 2, 0);
    let mut reader = StreamReader::new(1, 0, 0);
    reader.begin_read(0, 0).unwrap();
    let mut run = ReadRun::new(0, 8, usize::MAX);
    let mut search = run.next_search();
    assert!(matches!(
        search.walk(reader.window()),
        Ok((WalkOutcome::NeedMore, _, _))
    ));
    let plan = reader.plan_load(Some(8)).unwrap();
    let blocks: Vec<_> = (0..8)
        .map(|i| index(1, i * 4, i * 4 + 4, i * 400, 400))
        .collect();
    assert_eq!(
        reader.put_found(plan, &metadata(1), &blocks, 32),
        Ok(LoadStep::Loaded {
            next_find_offset: 32
        })
    );
    assert_eq!(reader.window().loaded_end_offset(), 32);
    // The search goes on.
    assert_eq!(search.after_load(true, 32), Ok(false));
    let (outcome, _, _) = search.walk(reader.window()).unwrap();
    assert_eq!(outcome, WalkOutcome::Fulfilled);
    assert_eq!(search.collected.len(), 2);
    let mut reads = Vec::new();
    for block in &search.collected {
        let lookup = cache.get_block_handle(1, *block, 0);
        let was_loaded = matches!(cache.load_result(lookup.handle), Some(Ok(())));
        assert!(matches!(
            reader.attach_data(*block, lookup.handle),
            AttachStep::Attached { .. }
        ));
        cache.mark_unread(lookup.handle, 0);
        assert!(cache.start_load(lookup.handle, 1, 0));
        cache.on_loaded(
            lookup.handle,
            records(1, block.start_offset, block.end_offset()),
            0,
        );
        reads.push(BlockRead {
            index: *block,
            handle: lookup.handle,
            was_loaded,
        });
    }
    run.note_blocks(&reads).unwrap();
    run.take_records(&cache, &reads).unwrap();
    let first = run.finish();
    let offsets: Vec<u64> = first.records.iter().map(|r| r.base_offset()).collect();
    assert_eq!(offsets, (0..8).collect::<Vec<_>>());
    assert_eq!(first.cache_access, CacheAccessType::BlockCacheMiss);
    let retired = reader.after_read(Some(8));
    assert_eq!(retired.len(), 2);
    assert_eq!(reader.next_read_offset(), 8);
    reader.end_read();

    // The miss widens the readahead, which goes on where the reader is; one at a time.
    assert_eq!(
        reader.try_readahead(true, 100_000, 64 << 20, 32 << 20),
        Some((8, 2 * READAHEAD_SIZE_UNIT))
    );
    assert_eq!(
        reader.try_readahead(true, 100_000, 64 << 20, 32 << 20),
        None
    );
    reader.readahead_done(Some(32));
}

#[test]
fn max_bytes_caps_but_returns_progress() {
    let mut read = DirectRead::new(1, 0, 16, 1);
    assert!(read.wants_objects());
    assert!(read.take_block(&records(1, 0, 2)) || !read.wants_objects());
    let block = read.finish();
    assert!(!block.records.is_empty());
    assert!(block.records.len() < 16);
}

/// A read that missed its object drops the window and tries again, a bounded number of
/// times.
#[test]
fn compaction_race_resets_and_retries() {
    let mut reader = StreamReader::new(1, 0, 0);
    let plan = reader.plan_load(Some(16)).unwrap();
    let blocks = vec![index(1, 0, 16, 0, 1600)];
    reader.put_found(plan, &metadata(1), &blocks, 16).unwrap();
    assert_eq!(reader.window().len(), 1);
    let gone = StreamError::ObjectNotExist { object_id: 1 };
    assert!(is_recoverable(&gone));
    match reader.on_failed_try(&gone, READ_RETRIES) {
        RetryStep::Retry { left_retries, .. } => assert_eq!(left_retries, READ_RETRIES - 1),
        RetryStep::Fail => panic!("recoverable"),
    }
    assert_eq!(reader.window().len(), 0);
    // What was planned before the reset is discarded.
    assert_eq!(
        reader.put_found(plan, &metadata(1), &blocks, 16),
        Ok(LoadStep::Discarded)
    );
    assert!(matches!(reader.on_failed_try(&gone, 0), RetryStep::Fail));
    assert!(matches!(
        reader.on_failed_try(&StreamError::OverCapacity, READ_RETRIES),
        RetryStep::Fail
    ));
}

/// Two consumers at the same progress collapse onto one reader. Non-sequential entry
/// points get their own readers.
#[test]
fn reader_registry_collapses_same_progress() {
    let mut readers = StreamReaders::new(2, 0);
    let entry = |reader: u64, next_read_offset: u64| ReaderEntry {
        stream_id: 1,
        next_read_offset,
        reader,
        last_access_ms: 0,
    };
    assert_eq!(readers.take(1, 0, 0).reader, None);
    assert_eq!(readers.put_back(entry(10, 8)), None);
    assert_eq!(readers.active_reader_count(), 1);
    // A second consumer starting at 0 creates a second reader...
    assert_eq!(readers.take(1, 0, 0).reader, None);
    // ...but both now sit at offset 8, so the registry keeps only one.
    assert!(readers.put_back(entry(11, 8)).is_some());
    assert_eq!(readers.active_reader_count(), 1);
    // A cold entry point at offset 16 is a separate reader.
    readers.put_back(entry(12, 20));
    assert_eq!(readers.active_reader_count(), 2);
    // A reader is found where it left off, once.
    assert_eq!(readers.take(1, 20, 0).reader, Some(12));
    assert_eq!(readers.take(1, 20, 0).reader, None);
}

/// Idle readers expire after the TTL and are swept.
#[test]
fn idle_readers_expire() {
    let mut readers = StreamReaders::with_config(1, 20, 10, 0);
    readers.put_back(ReaderEntry {
        stream_id: 1,
        next_read_offset: 4,
        reader: 5,
        last_access_ms: 0,
    });
    assert_eq!(readers.active_reader_count(), 1);
    assert_eq!(readers.sweep(120), vec![5]);
    assert_eq!(readers.active_reader_count(), 0, "idle reader swept");
}

#[test]
fn a_reader_serves_one_read_at_a_time() {
    let mut reader = StreamReader::new(1, 5, 0);
    assert_eq!(
        reader.begin_read(4, 0),
        Err(StreamError::Unexpected(Unexpected::ReadOffsetMismatch {
            expected: 5,
            actual: 4
        }))
    );
    reader.begin_read(5, 0).unwrap();
    assert_eq!(
        reader.begin_read(5, 0),
        Err(StreamError::Unexpected(Unexpected::ReaderBusy))
    );
}

#[test]
fn search_ends_where_no_index_is_left() {
    let reader = StreamReader::new(1, 0, 0);
    let mut search = BlockSearch::new(0, Some(10), usize::MAX, false);
    assert!(matches!(
        search.walk(reader.window()),
        Ok((WalkOutcome::NeedMore, _, _))
    ));
    assert_eq!(
        search.after_load(false, 0),
        Err(StreamError::Unexpected(Unexpected::IndexEndsEarly {
            end: 10,
            loaded: 0
        }))
    );
}

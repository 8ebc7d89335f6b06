//! The write-path log cache.
use bytes::Bytes;
use s3stream::cache::log_block::{
    LogCacheBlock, StreamRangeBound, DEFAULT_MAX_BLOCK_STREAM_COUNT, MATCH_ALL_STREAMS,
};
use s3stream::cache::log_cache::LogCache;
use s3stream::cache::stream_cache::StreamCache;
use s3stream::codec::StreamRecordBatch;
use s3stream::object::RecordOffset;

fn record(stream_id: u64, base_offset: u64, count: i32, size: usize) -> StreamRecordBatch {
    StreamRecordBatch::new(
        stream_id,
        0,
        base_offset,
        count,
        Bytes::from(vec![0u8; size]),
    )
}

/// Documented get-intersect examples: cached [0,10] and [100,200].
#[test]
fn get_intersect_semantics_match_java() {
    let mut cache = LogCache::new(1 << 30, 1 << 20, DEFAULT_MAX_BLOCK_STREAM_COUNT);
    assert!(cache.put(record(1, 0, 10, 16))); // [0, 10)
    cache.archive_current_block();
    assert!(cache.put(record(1, 100, 100, 16))); // [100, 200)

    // Fully satisfied.
    let got = cache.get(1, 0, 10, usize::MAX);
    assert_eq!(got.len(), 1);
    assert_eq!(got[0].base_offset(), 0);

    // Left intersect => empty.
    assert!(cache.get(1, 0, 11, usize::MAX).is_empty());
    assert!(cache.get(1, 5, 20, usize::MAX).is_empty());

    // Right intersect => cached tail [100, 110).
    let got = cache.get(1, 90, 110, usize::MAX);
    assert_eq!(got.len(), 1);
    assert_eq!(got[0].base_offset(), 100);

    // Miss.
    assert!(cache.get(1, 40, 50, usize::MAX).is_empty());
}

/// A start offset inside a batch returns the covering batch; readers skip
/// leading records themselves (same contract as block-granular reads).
#[test]
fn get_mid_batch_returns_covering_batch() {
    let mut cache = LogCache::new(1 << 30, 1 << 20, DEFAULT_MAX_BLOCK_STREAM_COUNT);
    assert!(cache.put(record(1, 0, 3, 16))); // [0, 3)
    assert!(cache.put(record(1, 3, 2, 16))); // [3, 5)

    let got = cache.get(1, 1, 3, usize::MAX);
    assert_eq!(got.len(), 1);
    assert_eq!(got[0].base_offset(), 0);

    let got = cache.get(1, 4, 5, usize::MAX);
    assert_eq!(got.len(), 1);
    assert_eq!(got[0].base_offset(), 3);
}

/// Continuous ranges spanning blocks are served together.
#[test]
fn get_spans_blocks() {
    let mut cache = LogCache::new(1 << 30, 1 << 20, DEFAULT_MAX_BLOCK_STREAM_COUNT);
    assert!(cache.put(record(1, 0, 10, 16)));
    cache.archive_current_block();
    assert!(cache.put(record(1, 10, 10, 16)));

    let got = cache.get(1, 0, 20, usize::MAX);
    assert_eq!(got.len(), 2);
    assert_eq!(got[0].base_offset(), 0);
    assert_eq!(got[1].base_offset(), 10);

    let got = cache.get(1, 0, 20, 1);
    assert_eq!(got.len(), 1);
}

/// Block put returns false when full. Overflow marks the block full.
#[test]
fn block_full_forces_archive() {
    let mut cache = LogCache::new(1 << 30, 32, DEFAULT_MAX_BLOCK_STREAM_COUNT);
    assert!(cache.put(record(1, 0, 1, 64))); // crosses the 32-byte block max
    assert!(!cache.put(record(1, 1, 1, 64))); // block now full
    let block = cache.archive_current_block();
    assert!(cache.block(block).unwrap().is_full());
    assert!(cache.put(record(1, 1, 1, 64))); // fresh active block accepts
}

/// A released block reports the range it held of each stream.
#[test]
fn per_block_free_listener_reports_bounds() {
    let mut seen: Vec<StreamRangeBound> = Vec::new();
    let mut cache = LogCache::new(10, 1 << 20, DEFAULT_MAX_BLOCK_STREAM_COUNT);
    assert!(cache.put(record(7, 10, 5, 64)));
    let block = cache.archive_current_block();
    cache.mark_free(block);
    assert!(cache.put(record(8, 0, 1, 8)));
    for freed in cache.take_freed() {
        if freed.block_id == block {
            seen.extend_from_slice(&freed.bounds);
        }
    }
    assert_eq!(
        seen,
        vec![StreamRangeBound {
            stream_id: 7,
            start_offset: 10,
            end_offset: 15
        }]
    );
}

/// Freed blocks are physically released once over capacity, and are reported once.
#[test]
fn seal_and_free_lifecycle() {
    // Tiny capacity: any content is over 90%.
    let mut cache = LogCache::new(10, 1 << 20, DEFAULT_MAX_BLOCK_STREAM_COUNT);
    assert!(cache.put(record(1, 0, 10, 64)));
    let block = cache.archive_current_block();
    let size_before = cache.size();
    assert!(size_before > 0);

    // Not yet freed: still readable.
    assert_eq!(cache.get(1, 0, 10, usize::MAX).len(), 1);

    cache.mark_free(block);
    // The next put releases what is free. The freed block is gone.
    assert!(cache.put(record(2, 0, 1, 8)));
    assert_eq!(cache.take_freed().len(), 1);
    assert!(cache.get(1, 0, 10, usize::MAX).is_empty());
    assert!(cache.take_freed().is_empty());
}

#[test]
fn conditional_archive() {
    let mut cache = LogCache::new(1 << 30, 1 << 20, DEFAULT_MAX_BLOCK_STREAM_COUNT);
    assert!(cache.archive_current_block_if_contains(1).is_none());
    assert!(cache.put(record(1, 0, 1, 8)));
    assert!(cache.archive_current_block_if_contains(2).is_none());
    assert!(cache.archive_current_block_if_contains(1).is_some());
    // MATCH_ALL only when non-empty.
    assert!(cache
        .archive_current_block_if_contains(MATCH_ALL_STREAMS)
        .is_none());
    assert!(cache.put(record(3, 0, 1, 8)));
    assert!(cache
        .archive_current_block_if_contains(MATCH_ALL_STREAMS)
        .is_some());
}

/// The archived block carries the last confirmed record offset for WAL trimming.
#[test]
fn archived_block_carries_trim_offset() {
    let mut cache = LogCache::new(1 << 30, 1 << 20, DEFAULT_MAX_BLOCK_STREAM_COUNT);
    assert!(cache.put(record(1, 0, 1, 8)));
    let offset = RecordOffset {
        epoch: 1,
        offset: 4096,
        size: 32,
    };
    cache.set_last_record_offset(offset);
    let block = cache.archive_current_block();
    assert_eq!(
        cache.block(block).unwrap().last_record_offset(),
        Some(offset)
    );
}

/// The size is the sum of the payloads held, with a fixed overhead each.
#[test]
fn size_counts_occupied_bytes() {
    let mut cache = LogCache::new(1 << 30, 1 << 20, DEFAULT_MAX_BLOCK_STREAM_COUNT);
    assert!(cache.put(record(1, 0, 1, 8)));
    assert!(cache.put(record(1, 1, 1, 16)));
    assert_eq!(cache.size(), (8 + 48) + (16 + 48));
    cache.clear_stream_records(1);
    assert_eq!(cache.size(), 0);
    assert!(cache.get(1, 0, 2, usize::MAX).is_empty());
}

/// A block holds at most as many streams as it was made for.
#[test]
fn block_stream_limit_makes_it_full() {
    let mut block = LogCacheBlock::new(5, 1 << 20, 2);
    assert!(block.put(record(1, 0, 1, 8)));
    assert!(!block.is_full());
    assert!(block.put(record(2, 0, 1, 8)));
    assert!(block.is_full());
    assert!(!block.put(record(3, 0, 1, 8)));
    assert!(block.contains_stream(1) && block.contains_stream(2));
    assert!(!block.contains_stream(3));
}

/// A stream's share of a block spans at most as many offsets as an index can describe.
#[test]
fn stream_cache_bounds_its_span() {
    let mut cache = StreamCache::new();
    assert_eq!(cache.range(), None);
    assert!(cache.add(record(1, 5, 2, 1)));
    assert!(!cache.add(record(1, 7, i32::MAX, 1)));
    assert!(cache.add(record(1, 7, i32::MAX - 2, 1)));
    assert_eq!(cache.range(), Some((5, 5 + i32::MAX as u64)));
    // Before the cached range nothing is returned.
    assert!(cache.get(4, 8, usize::MAX).is_empty());
    assert_eq!(cache.get(5, 8, usize::MAX).len(), 2);
    // A read that continues an earlier one is found through the remembered position.
    assert_eq!(cache.get(5, 7, usize::MAX).len(), 1);
    assert_eq!(cache.get(7, 8, usize::MAX)[0].base_offset(), 7);
}

/// A batch that leaves a gap in its stream is not accepted, and nothing is stored of it.
#[test]
fn discontinuous_batches_are_refused() {
    let mut block = LogCacheBlock::new(0, 1 << 20, DEFAULT_MAX_BLOCK_STREAM_COUNT);
    assert!(block.put(record(1, 0, 10, 16)));
    let size = block.size();
    assert!(!block.put(record(1, 20, 1, 16)));
    let held = block.records();
    assert_eq!(held[&1].len(), 1);
    assert_eq!(held[&1][0].base_offset(), 0);
    assert_eq!(block.size(), size);
    assert!(block.is_full());

    let mut stream = StreamCache::new();
    assert!(stream.add(record(1, 0, 10, 16)));
    assert!(!stream.add(record(1, 9, 2, 16)));
    assert!(!stream.add(record(1, 11, 2, 16)));
    assert!(stream.add(record(1, 10, 2, 16)));

    let mut cache = LogCache::new(1 << 30, 1 << 20, DEFAULT_MAX_BLOCK_STREAM_COUNT);
    assert!(cache.put(record(1, 0, 10, 16)));
    assert!(!cache.put(record(1, 20, 1, 16)));
    assert!(cache.get(1, 20, 21, usize::MAX).is_empty());
    assert_eq!(cache.get(1, 0, 10, usize::MAX).len(), 1);
}

fn ranges(records: &[StreamRecordBatch]) -> Vec<(u64, u64)> {
    records
        .iter()
        .map(|r| (r.base_offset(), r.last_offset()))
        .collect()
}

/// Reads around empty batches have no gap. They begin with the batch that holds the start, or
/// with the empty one at which an earlier read ended.
#[test]
fn empty_batches_leave_no_gap_in_reads() {
    let mut cache = LogCache::new(1 << 30, 1 << 20, DEFAULT_MAX_BLOCK_STREAM_COUNT);
    assert!(cache.put(record(1, 0, 4, 16)));
    assert!(cache.put(record(1, 4, 0, 16)));
    assert!(cache.put(record(1, 4, 4, 16)));
    assert_eq!(
        ranges(&cache.get(1, 0, 8, usize::MAX)),
        vec![(0, 4), (4, 4), (4, 8)]
    );
    assert_eq!(ranges(&cache.get(1, 4, 8, usize::MAX)), vec![(4, 8)]);
    assert_eq!(ranges(&cache.get(1, 0, 4, usize::MAX)), vec![(0, 4)]);
    assert_eq!(ranges(&cache.get(1, 4, 8, usize::MAX)), vec![(4, 4), (4, 8)]);

    // Across blocks too.
    cache.archive_current_block();
    assert!(cache.put(record(1, 8, 0, 16)));
    assert!(cache.put(record(1, 8, 2, 16)));
    assert_eq!(
        ranges(&cache.get(1, 2, 10, usize::MAX)),
        vec![(0, 4), (4, 4), (4, 8), (8, 10)]
    );
    // Where only the tail is cached, the read begins with the tail.
    let mut tail = LogCache::new(1 << 30, 1 << 20, DEFAULT_MAX_BLOCK_STREAM_COUNT);
    assert!(tail.put(record(1, 20, 0, 16)));
    assert!(tail.put(record(1, 20, 5, 16)));
    assert_eq!(ranges(&tail.get(1, 10, 25, usize::MAX)), vec![(20, 25)]);
    assert!(tail.get(1, 10, 26, usize::MAX).is_empty());
}

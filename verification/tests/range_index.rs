//! The local sparse range index.
use bytes::Bytes;
use s3stream::error::{StreamError, Unexpected};
use s3stream::index::range_cache::LocalStreamRangeIndexCache;
use s3stream::index::sparse::{binary_search_object_id, RangeIndex, SparseRangeIndex};
use s3stream::manager::{CommitStreamSetObjectRequest, StreamObject};
use s3stream::object::ObjectStreamRange;
use std::collections::{BTreeMap, HashSet};

fn range(start: u64, end: u64, object_id: u64) -> RangeIndex {
    RangeIndex {
        start_offset: start,
        end_offset: end,
        object_id,
    }
}

/// The documented eviction order for [0..6) with compact_num=2.
#[test]
fn evict_order_matches_java() {
    let mut sparse = SparseRangeIndex::with_ranges(
        2,
        (0..6).map(|i| range(i * 10, i * 10 + 10, i)).collect(),
    );
    let ids = |s: &SparseRangeIndex| s.ranges().iter().map(|r| r.object_id).collect::<Vec<_>>();
    sparse.evict_once();
    assert_eq!(ids(&sparse), vec![0, 2, 3, 4, 5]);
    sparse.evict_once();
    assert_eq!(ids(&sparse), vec![0, 2, 4, 5]);
    sparse.evict_once();
    assert_eq!(ids(&sparse), vec![0, 4, 5]);
    sparse.evict_once();
    assert_eq!(ids(&sparse), vec![0, 5]);
    sparse.evict_once();
    assert_eq!(ids(&sparse), vec![0]);
    sparse.evict_once();
    assert!(sparse.is_empty());
    assert_eq!(sparse.evict_once(), 0);
}

#[test]
fn compact_replaces_consumed_objects() {
    let mut sparse = SparseRangeIndex::with_ranges(
        3,
        vec![range(0, 10, 1), range(10, 20, 2), range(20, 30, 3)],
    );
    // Objects 1+2 compacted into object 9 covering [0,20).
    let delta = sparse.compact(Some(range(0, 20, 9)), &HashSet::from([1u64, 2u64]));
    assert_eq!(delta, -(RangeIndex::OBJECT_SIZE as isize));
    assert_eq!(
        sparse
            .ranges()
            .iter()
            .map(|r| r.object_id)
            .collect::<Vec<_>>(),
        vec![9, 3]
    );
    // Out-of-order append resets (stale index file protection).
    let delta = sparse.append(range(5, 6, 99));
    assert_eq!(sparse.len(), 1);
    assert!(delta < 0);
}

#[test]
fn binary_search_semantics() {
    let ranges = vec![range(10, 20, 1), range(50, 60, 2), range(100, 200, 3)];
    assert_eq!(binary_search_object_id(5, &ranges), None);
    assert_eq!(binary_search_object_id(10, &ranges), Some(1));
    assert_eq!(binary_search_object_id(30, &ranges), Some(1));
    assert_eq!(binary_search_object_id(50, &ranges), Some(2));
    assert_eq!(binary_search_object_id(99, &ranges), Some(2));
    assert_eq!(binary_search_object_id(150, &ranges), Some(3));
    assert_eq!(binary_search_object_id(10_000, &ranges), Some(3));
    assert_eq!(binary_search_object_id(0, &[]), None);
}

/// Full cache lifecycle: commit updates, search, persist, reload.
#[test]
fn cache_persists_and_reloads() {
    let mut cache = LocalStreamRangeIndexCache::new(7, 3, 1024 * 1024);

    // Delta commit: stream set object 100 with two stream ranges.
    let request = CommitStreamSetObjectRequest {
        object_id: 100,
        object_size: 1000,
        stream_ranges: vec![
            ObjectStreamRange {
                stream_id: 1,
                epoch: 1,
                start_offset: 0,
                end_offset: 50,
                size: 500,
            },
            ObjectStreamRange {
                stream_id: 2,
                epoch: 1,
                start_offset: 10,
                end_offset: 30,
                size: 500,
            },
        ],
        ..Default::default()
    };
    cache.update_index_from_request(&request);
    assert_eq!(cache.search_object_id(1, 20), Some(100));
    assert_eq!(cache.search_object_id(2, 10), Some(100));
    assert_eq!(cache.total_size(), 2 * RangeIndex::OBJECT_SIZE);

    // Compaction commit: object 100 consumed. Stream 1 re-homed to object 200,
    // stream 2 split into stream objects (entry dropped).
    let request = CommitStreamSetObjectRequest {
        object_id: 200,
        object_size: 900,
        stream_ranges: vec![ObjectStreamRange {
            stream_id: 1,
            epoch: 1,
            start_offset: 0,
            end_offset: 50,
            size: 500,
        }],
        stream_objects: vec![StreamObject {
            object_id: 201,
            object_size: 400,
            stream_id: 2,
            start_offset: 10,
            end_offset: 30,
            attributes: 0,
        }],
        compacted_object_ids: vec![100],
        ..Default::default()
    };
    // The compaction path asks for the index to be persisted.
    assert!(cache.update_index_from_request(&request));
    assert_eq!(cache.search_object_id(1, 20), Some(200));
    assert_eq!(cache.search_object_id(2, 10), None);

    // A fresh cache reloads the same state from what is persisted.
    let persisted = LocalStreamRangeIndexCache::to_buffer(cache.streams());
    let mut reloaded = LocalStreamRangeIndexCache::new(7, 3, 1024 * 1024);
    for (stream_id, ranges) in LocalStreamRangeIndexCache::from_buffer(&persisted).unwrap() {
        reloaded.load_stream(stream_id, ranges);
    }
    assert_eq!(reloaded.search_object_id(1, 20), Some(200));
    assert_eq!(reloaded.total_size(), RangeIndex::OBJECT_SIZE);

    // Prune drops entries for dead objects and asks for the index to be persisted.
    assert!(reloaded.prune(&HashSet::new()));
    assert_eq!(reloaded.search_object_id(1, 20), None);
    assert_eq!(reloaded.total_size(), 0);
    let empty = LocalStreamRangeIndexCache::to_buffer(reloaded.streams());
    assert!(LocalStreamRangeIndexCache::from_buffer(&empty).unwrap().is_empty());
}

#[test]
fn upload_on_stream_close_is_rate_limited() {
    let mut cache = LocalStreamRangeIndexCache::new(3, 3, 1024 * 1024);
    cache.append(&BTreeMap::from([(1u64, Some(range(0, 10, 42)))]));

    assert!(cache.upload_on_stream_close(1_000));
    // Within the 5s window: no extra flush.
    assert!(!cache.upload_on_stream_close(1_000));
    assert!(!cache.upload_on_stream_close(6_000));
    assert!(cache.upload_on_stream_close(6_001));
}

/// Only the first call prunes. Repeats are no-ops.
#[test]
fn async_prune_runs_once() {
    let mut cache = LocalStreamRangeIndexCache::new(4, 3, 1024 * 1024);
    cache.append(&BTreeMap::from([
        (1u64, Some(range(0, 10, 100))),
        (2u64, Some(range(0, 10, 200))),
    ]));

    // Object 200 is dead.
    assert!(cache.begin_async_prune());
    assert!(cache.prune(&HashSet::from([100u64])));
    assert_eq!(cache.search_object_id(1, 0), Some(100));
    assert_eq!(cache.search_object_id(2, 0), None);

    // Second call is a no-op even though object 100 would now be pruned.
    assert!(!cache.begin_async_prune());
    assert_eq!(cache.search_object_id(1, 0), Some(100));
}

/// Size-bounded eviction keeps `1 + compact_num` per stream while possible.
#[test]
fn eviction_respects_max_size() {
    let mut cache = LocalStreamRangeIndexCache::new(1, 3, 10 * RangeIndex::OBJECT_SIZE);
    // Stream 1: 12 appends -> must evict down to the cap.
    for i in 0..12u64 {
        let map = BTreeMap::from([(1u64, Some(range(i * 10, i * 10 + 10, i)))]);
        cache.append(&map);
    }
    assert!(cache.total_size() <= 10 * RangeIndex::OBJECT_SIZE);
    // First entry always survives (query anchor for old offsets).
    assert_eq!(cache.search_object_id(1, 5), Some(0));
}

/// The exact bytes of a persisted index with one range.
#[test]
fn persisted_bytes_are_exact() {
    let streams = BTreeMap::from([(5u64, SparseRangeIndex::with_ranges(3, vec![range(1, 2, 3)]))]);
    let data = LocalStreamRangeIndexCache::to_buffer(&streams);
    let expected: Vec<u8> = vec![
        0, 0, // version
        0, 0, 0, 1, // streams
        0, 0, 0, 0, 0, 0, 0, 5, // stream id
        0, 0, 0, 1, // ranges
        0, 0, 0, 0, 0, 0, 0, 1, 0, 0, 0, 0, 0, 0, 0, 2, 0, 0, 0, 0, 0, 0, 0, 3,
    ];
    assert_eq!(data, Bytes::from(expected.clone()));

    let mut newer = expected.clone();
    newer[1] = 1;
    assert_eq!(
        LocalStreamRangeIndexCache::from_buffer(&Bytes::from(newer)),
        Err(StreamError::Unexpected(Unexpected::IndexVersion {
            version: 1
        }))
    );
    let cut = Bytes::from(expected[..expected.len() - 1].to_vec());
    assert_eq!(
        LocalStreamRangeIndexCache::from_buffer(&cut),
        Err(StreamError::Unexpected(Unexpected::IndexTruncated))
    );
}

/// In each round of evictions the streams give up one range each, by ascending id.
#[test]
fn eviction_goes_round_the_streams() {
    let size = RangeIndex::OBJECT_SIZE;
    let mut cache = LocalStreamRangeIndexCache::new(1, 0, 7 * size);
    for k in 0..3u64 {
        cache.append(&BTreeMap::from([
            (1u64, Some(range(k * 10, k * 10 + 10, 100 + k))),
            (2u64, Some(range(k * 10, k * 10 + 10, 200 + k))),
            (3u64, Some(range(k * 10, k * 10 + 10, 300 + k))),
        ]));
    }
    assert_eq!(cache.total_size(), 7 * size);
    let left: Vec<usize> = cache.streams().values().map(|s| s.len()).collect();
    assert_eq!(left, vec![2, 2, 3]);
}

/// A search among ranges that begin alike gives the last of them.
#[test]
fn search_finds_the_last_range_at_or_below() {
    let ranges = [range(0, 10, 1), range(10, 20, 2), range(10, 30, 3), range(40, 50, 4)];
    assert_eq!(binary_search_object_id(10, &ranges), Some(3));
    assert_eq!(binary_search_object_id(39, &ranges), Some(3));
    assert_eq!(binary_search_object_id(9, &ranges), Some(1));
}

/// A persisted index that is cut short is refused, wherever it is cut.
#[test]
fn cut_index_is_refused() {
    let mut cache = LocalStreamRangeIndexCache::new(1, 3, 1 << 20);
    cache.append(&BTreeMap::from([
        (1u64, Some(range(0, 10, 5))),
        (2u64, Some(range(0, 10, 6))),
    ]));
    let data = LocalStreamRangeIndexCache::to_buffer(cache.streams());
    for n in 0..data.len() {
        assert!(LocalStreamRangeIndexCache::from_buffer(&data.slice(0..n)).is_err());
    }
    assert!(LocalStreamRangeIndexCache::from_buffer(&data).is_ok());
}

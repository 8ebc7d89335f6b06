//! Snapshot reads: the tail cache and replay.
use bytes::Bytes;
use s3stream::cache::log_block::{StreamRangeBound, DEFAULT_MAX_BLOCK_STREAM_COUNT};
use s3stream::cache::log_cache::LogCache;
use s3stream::cache::snapshot_read::{
    nodes_behind, resolve_links, WalReplay, WalReplayTask, MAX_WAITING_LOAD_TASK_COUNT,
};
use s3stream::cache::snapshot_replay::{BlockLoad, SnapshotReadCache};
use s3stream::codec::StreamRecordBatch;
use s3stream::error::StreamError;
use s3stream::manager::{StreamMetadata, StreamState};

fn record(stream_id: u64, base_offset: u64, payload: &[u8]) -> StreamRecordBatch {
    StreamRecordBatch::new(stream_id, 1, base_offset, 1, Bytes::copy_from_slice(payload))
}

fn cache() -> SnapshotReadCache {
    SnapshotReadCache::new(
        LogCache::new(1 << 30, 1 << 20, DEFAULT_MAX_BLOCK_STREAM_COUNT),
        2,
    )
}

#[test]
fn put_continuous_is_readable() {
    let mut snapshot = cache();
    snapshot.put(
        &vec![record(1, 0, b"a"), record(1, 1, b"b"), record(1, 2, b"c")],
        0,
    );
    let got = snapshot.tails.get(1, 0, 3, usize::MAX);
    assert_eq!(got.len(), 3);
    assert_eq!(got[0].base_offset(), 0);
    assert_eq!(got[2].last_offset(), 3);
}

/// A gap drops what is held of the stream, then accepts the suffix.
#[test]
fn gap_put_clears_stream_then_accepts_suffix() {
    let mut snapshot = cache();
    snapshot.put(&vec![record(1, 0, b"a"), record(1, 1, b"b")], 0);
    snapshot.put(&vec![record(1, 10, b"z")], 0);
    assert!(snapshot.tails.get(1, 0, 2, usize::MAX).is_empty());
    let got = snapshot.tails.get(1, 10, 11, usize::MAX);
    assert_eq!(got.len(), 1);
    assert_eq!(got[0].base_offset(), 10);
}

#[test]
fn older_put_is_dropped() {
    let mut snapshot = cache();
    snapshot.put(&vec![record(1, 5, b"a")], 0);
    snapshot.put(&vec![record(1, 3, b"old")], 0);
    let got = snapshot.tails.get(1, 5, 6, usize::MAX);
    assert_eq!(got.len(), 1);
    assert_eq!(got[0].payload(), Bytes::from_static(b"a"));
    assert!(snapshot.tails.get(1, 3, 4, usize::MAX).is_empty());
}

fn task(id: u64, timestamp_ms: u64, node_id: u32) -> WalReplayTask {
    WalReplayTask {
        id,
        timestamp_ms,
        node_id,
        load_done: false,
        records: Vec::new(),
    }
}

#[test]
fn replay_wal_via_get_range() {
    let mut snapshot = cache();
    snapshot.wal.enqueue(task(1, 0, 9));
    assert_eq!(snapshot.wal.try_load(0).started, vec![1]);
    snapshot
        .wal
        .on_loaded(1, vec![record(1, 0, b"w0"), record(1, 1, b"w1")]);
    assert_eq!(snapshot.try_put_wal(0), vec![1]);
    let got = snapshot.tails.get(1, 0, 2, usize::MAX);
    assert_eq!(got.len(), 2);
    assert_eq!(got[1].payload(), Bytes::from_static(b"w1"));
}

/// Loads may end in any order; they are put in the order in which they were asked for.
#[test]
fn replayed_loads_keep_their_order() {
    let mut snapshot = cache();
    snapshot.wal.enqueue(task(1, 0, 9));
    snapshot.wal.enqueue(task(2, 0, 9));
    assert_eq!(snapshot.wal.try_load(0).started, vec![1, 2]);
    snapshot.wal.on_loaded(2, vec![record(1, 1, b"w1")]);
    assert!(snapshot.try_put_wal(0).is_empty());
    snapshot.wal.on_loaded(1, vec![record(1, 0, b"w0")]);
    assert_eq!(snapshot.try_put_wal(0), vec![1, 2]);
    assert_eq!(snapshot.tails.get(1, 0, 2, usize::MAX).len(), 2);
}

/// A full waiting queue drops what waits and asks its node for a commit.
#[test]
fn wal_replay_overload_requests_commit() {
    let mut replay = WalReplay::new(2);
    for i in 0..MAX_WAITING_LOAD_TASK_COUNT as u64 {
        assert!(replay.enqueue(task(i, 0, 42)).commit_nodes.is_empty());
    }
    let step = replay.enqueue(task(9999, 0, 42));
    assert!(step.commit_nodes.contains(&42));
    assert!(step.dropped.len() >= MAX_WAITING_LOAD_TASK_COUNT);
}

/// A load that waited too long is dropped when its turn comes.
#[test]
fn stale_waiting_tasks_are_dropped() {
    let mut replay = WalReplay::new(2);
    replay.enqueue(task(1, 0, 42));
    let step = replay.try_load(5_001);
    assert_eq!(step.dropped, vec![1]);
    assert!(step.started.is_empty());
    assert_eq!(step.commit_nodes, vec![42]);
}

/// Objects are put block by block in index order.
#[test]
fn replay_objects_puts_records() {
    let mut snapshot = cache();
    let started = snapshot.replay_objects(&vec![(7, 1000)]).unwrap();
    assert_eq!(started.len(), 1);
    snapshot.objects.on_object_info(7, 2);
    snapshot.objects.on_block_loaded(
        7,
        1,
        BlockLoad::Loaded((4..8).map(|i| record(3, i, &[i as u8; 8])).collect()),
    );
    assert!(snapshot.try_put_objects(0).completed.is_empty());
    snapshot.objects.on_block_loaded(
        7,
        0,
        BlockLoad::Loaded((0..4).map(|i| record(3, i, &[i as u8; 8])).collect()),
    );
    assert_eq!(snapshot.try_put_objects(0).completed, vec![7]);
    let got = snapshot.tails.get(3, 0, 8, usize::MAX);
    assert_eq!(got.len(), 8);
}

#[test]
fn replay_objects_rejects_empty() {
    let mut snapshot = cache();
    let err = snapshot.replay_objects(&vec![]).unwrap_err();
    assert!(matches!(err, StreamError::Unexpected(_)));
}

/// Streams nobody asked for are dropped after a while.
#[test]
fn inactive_streams_expire() {
    let mut snapshot = cache();
    snapshot.put(&vec![record(1, 0, b"a")], 0);
    snapshot.tails.sweep_expired(599_999);
    assert_eq!(snapshot.tails.get(1, 0, 1, usize::MAX).len(), 1);
    snapshot.tails.sweep_expired(600_000);
    assert!(snapshot.tails.get(1, 0, 1, usize::MAX).is_empty());
}

#[test]
fn links_are_replaced_by_their_data() {
    let link = StreamRecordBatch::new(1, 1, 1, -1, Bytes::from_static(b"link"));
    let records = vec![record(1, 0, b"a"), link];
    let resolved = resolve_links(&records, &vec![None, Some(record(1, 1, b"data"))]);
    assert_eq!(resolved.len(), 2);
    assert_eq!(resolved[1].payload(), Bytes::from_static(b"data"));
}

/// Nodes whose released data is not committed yet are asked to commit.
#[test]
fn nodes_behind_are_found() {
    let bounds = vec![StreamRangeBound {
        stream_id: 1,
        start_offset: 0,
        end_offset: 10,
    }];
    let meta = |end_offset: u64| StreamMetadata {
        stream_id: 1,
        epoch: 1,
        start_offset: 0,
        end_offset,
        state: StreamState::Opened,
        node_id: 4,
    };
    assert_eq!(nodes_behind(&bounds, &vec![meta(9)]), vec![4]);
    assert!(nodes_behind(&bounds, &vec![meta(10)]).is_empty());
}

/// Batches without a gap are read back as they were put, from any of their offsets on.
#[test]
fn a_run_is_read_back() {
    let mut cache = cache();
    let run: Vec<StreamRecordBatch> = (0..5u64).map(|i| record(1, i, &[i as u8; 4])).collect();
    cache.put(&run, 0);
    for k in 0..5u64 {
        let got = cache.tails.get(1, k, 5, usize::MAX);
        assert_eq!(got.len(), 5 - k as usize);
        assert_eq!(got[0].base_offset(), k);
    }
    assert_eq!(cache.tails.get(1, 4, 5, 0).len(), 1);
}

/// Only blocks that were sealed here are told of once released, not those merged from others.
#[test]
fn released_blocks_are_told_of_unless_merged() {
    // A block takes one of these batches.
    let wide = i32::MAX as u64;
    let batch = |i: u64| {
        StreamRecordBatch::new(1, 1, i * wide, i32::MAX, Bytes::from(vec![0u8; 100]))
    };

    let mut small = SnapshotReadCache::new(
        LogCache::new(10, 1 << 20, DEFAULT_MAX_BLOCK_STREAM_COUNT),
        2,
    );
    small.put(&vec![batch(0), batch(1)], 0);
    let freed = small.tails.take_freed();
    assert_eq!(freed.len(), 1);
    assert!(!freed[0].merged);
    assert_eq!(
        freed[0].bounds,
        vec![StreamRangeBound {
            stream_id: 1,
            start_offset: 0,
            end_offset: wide,
        }]
    );

    let mut large = SnapshotReadCache::new(
        LogCache::new(100_000, 1 << 20, DEFAULT_MAX_BLOCK_STREAM_COUNT),
        2,
    );
    let all: Vec<StreamRecordBatch> = (0..1500).map(batch).collect();
    large.put(&all, 0);
    assert!(large.tails.get(1, 0, wide, usize::MAX).is_empty());
    assert!(large.tails.take_freed().is_empty());
}

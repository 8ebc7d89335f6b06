//! The stream front end and the stream client.
use bytes::Bytes;
use s3stream::api::{fetch_result, CacheAccessType, FetchContext, ReadDataBlock, RecordBatch};
use s3stream::compact::stream_compactor::CompactionLevel;
use s3stream::error::{StreamError, Unexpected, WriteOperation};
use s3stream::manager::{StreamMetadata, StreamState};
use s3stream::stream::{CloseStep, FetchStep, S3Stream, SNAPSHOT_FAKE_OFFSET};
use s3stream::stream_client::{
    opened_stream, stream_view, sweep_level, sweep_views, OpenedStream, S3StreamClient,
};

fn stream() -> S3Stream {
    S3Stream::new(42, 3, 0, 0, false)
}

fn batch(count: u32, payload: &[u8]) -> RecordBatch {
    RecordBatch::new(count, 0, Bytes::copy_from_slice(payload))
}

#[test]
fn append_assigns_offsets_and_advances_confirm() {
    let mut s = stream();
    let a1 = s.admit_append(batch(10, b"a")).unwrap();
    let r1 = s.complete_append(a1.base_offset, a1.count, Ok(())).unwrap();
    let a2 = s.admit_append(batch(5, b"b")).unwrap();
    let r2 = s.complete_append(a2.base_offset, a2.count, Ok(())).unwrap();
    assert_eq!(r1.base_offset, 0);
    assert_eq!(r2.base_offset, 10);
    assert_eq!(s.next_offset(), 15);
    assert_eq!(s.confirm_offset(), 15);

    assert_eq!(s.check_fetch(0, 15), Ok(FetchStep::Read));
    let fetched = fetch_result(
        42,
        &ReadDataBlock {
            records: vec![a1.record, a2.record],
            cache_access: CacheAccessType::DeltaWalCacheHit,
        },
    );
    assert_eq!(fetched.records.len(), 2);
    assert_eq!(fetched.records[0].payload, Bytes::from_static(b"a"));
    assert_eq!(fetched.records[1].base_offset, 10);
    assert_eq!(fetched.records[1].last_offset, 15);
}

#[test]
fn state_and_bounds_guards() {
    let mut s = stream();
    let admitted = s.admit_append(batch(10, b"x")).unwrap();
    s.complete_append(admitted.base_offset, admitted.count, Ok(()))
        .unwrap();

    // Fetch beyond confirm offset => OffsetOutOfRange.
    let err = s.check_fetch(0, 11).unwrap_err();
    assert!(matches!(err, StreamError::OffsetOutOfRange { .. }));
    // Fetch below start offset (after trim) => OffsetOutOfRange.
    assert_eq!(s.begin_trim(5), Ok(true));
    let err = s.check_fetch(0, 10).unwrap_err();
    assert!(matches!(err, StreamError::OffsetOutOfRange { .. }));
    assert_eq!(s.start_offset(), 5);
    // Backwards trim is a no-op.
    assert_eq!(s.begin_trim(1), Ok(false));
    assert_eq!(s.start_offset(), 5);
    // An empty range needs no read; a reversed one is an error.
    assert_eq!(s.check_fetch(7, 7), Ok(FetchStep::Empty));
    assert_eq!(
        s.check_fetch(8, 7),
        Err(StreamError::Unexpected(Unexpected::FetchStartAboveEnd {
            start: 8,
            end: 7
        }))
    );

    // Fenced append marks the stream unwritable.
    let admitted = s.admit_append(batch(1, b"y")).unwrap();
    let fenced = StreamError::Fenced {
        stream_id: 42,
        epoch: 3,
    };
    let err = s
        .complete_append(admitted.base_offset, admitted.count, Err(fenced))
        .unwrap_err();
    assert!(matches!(err, StreamError::Fenced { .. }));
    let err = s.admit_append(batch(1, b"z")).unwrap_err();
    assert!(matches!(err, StreamError::Closed { .. }));

    // Close is idempotent and reaches the stream manager once.
    let mut s2 = stream();
    assert!(matches!(
        s2.begin_close(false),
        CloseStep::UploadAndClose { .. }
    ));
    assert_eq!(s2.earlier_close(), &None);
    s2.end_close(Ok(()));
    assert_eq!(s2.earlier_close(), &Some(Ok(())));
    let err = s2.admit_append(batch(1, b"w")).unwrap_err();
    assert!(matches!(err, StreamError::Closed { .. }));
}

#[test]
fn destroy_closes_then_deletes() {
    let mut s = stream();
    let admitted = s.admit_append(batch(3, b"d")).unwrap();
    s.complete_append(admitted.base_offset, admitted.count, Ok(()))
        .unwrap();
    s.check_destroy().unwrap();
    assert!(matches!(
        s.begin_close(false),
        CloseStep::UploadAndClose { .. }
    ));
    s.end_close(Ok(()));
    s.destroy();
    assert_eq!(s.start_offset(), 3);
}

/// Snapshot reads: append, trim and destroy fail. The confirm offset can be set. Fetch
/// reads the snapshot. Close leaves the stream open for its owner.
#[test]
fn snapshot_read_mode_guards() {
    let mut s = S3Stream::new(7, 1, SNAPSHOT_FAKE_OFFSET, SNAPSHOT_FAKE_OFFSET, true);
    let err = s.admit_append(batch(1, b"x")).unwrap_err();
    assert_eq!(
        err,
        StreamError::Unexpected(Unexpected::ReadonlyStream {
            operation: WriteOperation::Append
        })
    );
    assert!(s.begin_trim(1).is_err());
    assert!(s.check_destroy().is_err());
    assert!(s.confirm_offset_set(10).is_ok());
    assert_eq!(s.confirm_offset(), 10);
    assert_eq!(s.next_offset(), 10);
    assert!(s.fetch_context(FetchContext::default()).snapshot_read);
    assert_eq!(s.begin_close(false), CloseStep::Unregister);

    // A writer's confirm offset follows its appends and is not set.
    assert_eq!(
        stream().confirm_offset_set(10),
        Err(StreamError::Unexpected(Unexpected::ConfirmOffsetOfWriter))
    );
}

/// Several appends in flight at once: offsets reserved in call order before any of them
/// is durable.
#[test]
fn submit_append_pipelines_multiple_inflight() {
    let mut s = stream();
    let p1 = s.admit_append(batch(1, b"a")).unwrap();
    let p2 = s.admit_append(batch(2, b"b")).unwrap();
    let p3 = s.admit_append(batch(1, b"c")).unwrap();
    assert_eq!((p1.base_offset, p2.base_offset, p3.base_offset), (0, 1, 3));
    assert_eq!(s.next_offset(), 4);
    assert_eq!(s.confirm_offset(), 0);
    let records = vec![&p1.record, &p2.record, &p3.record];
    assert_eq!(records.len(), 3, "all three submitted while none durable");
    assert_eq!(
        records.iter().map(|r| r.base_offset()).collect::<Vec<_>>(),
        vec![0, 1, 3],
        "storage sees submit order == offset order"
    );

    for (p, base) in [(&p1, 0), (&p2, 1), (&p3, 3)] {
        let done = s.complete_append(p.base_offset, p.count, Ok(())).unwrap();
        assert_eq!(done.base_offset, base);
    }
    assert_eq!(s.confirm_offset(), 4);
}

#[test]
fn confirm_never_goes_back() {
    let mut s = stream();
    let p1 = s.admit_append(batch(1, b"a")).unwrap();
    let p2 = s.admit_append(batch(2, b"b")).unwrap();
    s.complete_append(p2.base_offset, p2.count, Ok(())).unwrap();
    assert_eq!(s.confirm_offset(), 3);
    s.complete_append(p1.base_offset, p1.count, Ok(())).unwrap();
    assert_eq!(s.confirm_offset(), 3);
}

fn metadata(start_offset: u64, end_offset: u64) -> StreamMetadata {
    StreamMetadata {
        stream_id: 5,
        epoch: 2,
        start_offset,
        end_offset,
        state: StreamState::Opened,
        node_id: 1,
    }
}

#[test]
fn snapshot_streams_follow_metadata() {
    let mut s = opened_stream(5, 2, None);
    assert!(s.snapshot_read());
    assert_eq!(s.start_offset(), SNAPSHOT_FAKE_OFFSET);
    s.on_new_stream_metadata(metadata(3, 9));
    assert_eq!((s.start_offset(), s.confirm_offset()), (3, 9));
    // The end only advances.
    s.on_new_stream_metadata(metadata(4, 8));
    assert_eq!((s.start_offset(), s.confirm_offset()), (4, 9));
}

#[test]
fn client_tracks_opened_streams() {
    let mut client = S3StreamClient::new();
    let s = opened_stream(5, 2, Some(metadata(3, 9)));
    assert!(!s.snapshot_read());
    assert_eq!((s.start_offset(), s.next_offset()), (3, 9));
    client.on_opened(&s, 100);
    assert_eq!(client.get_stream(5), Some(100));
    client.on_closed(5);
    assert_eq!(client.get_stream(5), None);
    client.on_opened(&s, 100);
    assert_eq!(client.shutdown(), vec![5]);
    assert_eq!(
        client.check_state(),
        Err(StreamError::Unexpected(Unexpected::ClientClosed))
    );
}

#[test]
fn sweeps_skip_young_streams() {
    let s = opened_stream(5, 2, Some(metadata(3, 9)));
    let opened = vec![
        OpenedStream {
            stream: s.clone(),
            opened_at_ms: 0,
        },
        OpenedStream {
            stream: s.clone(),
            opened_at_ms: 50_000,
        },
    ];
    let views = sweep_views(&opened, 70_000);
    assert_eq!(views, vec![stream_view(&s)]);
    assert_eq!((views[0].start_offset, views[0].confirm_offset), (3, 9));
    assert_eq!(sweep_level(1), CompactionLevel::MinorV1);
    assert_eq!(sweep_level(6), CompactionLevel::MajorV1);
}

/// The first close decides what every later one returns, with the text of its error.
#[test]
fn a_failed_close_keeps_its_error() {
    let mut s = stream();
    s.end_close(Err("no quorum".to_string()));
    s.end_close(Ok(()));
    assert_eq!(s.earlier_close(), &Some(Err("no quorum".to_string())));
}

/// An append whose caller gave up no longer holds up a close.
#[test]
fn abandoned_appends_are_not_waited_for() {
    let mut s = stream();
    s.admit_append(batch(2, b"a")).unwrap();
    assert_eq!(s.pending_appends, 1);
    s.abandon_append();
    assert_eq!(s.pending_appends, 0);
    assert_eq!((s.next_offset(), s.confirm_offset()), (2, 0));
}

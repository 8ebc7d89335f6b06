//! Rewriting blocks into new objects.
use bytes::Bytes;
use s3stream::compact::executor::{
    build_data_block_indices_from_group, build_object_end, build_object_stream_ranges_from_group,
    chunk_ranges, cut_run_data, describe_stream_object, finished_object_size, plan_reads, BlockData,
    DataBlockWriter, ReadStep, S3_OBJECT_MAX_READ_BATCH,
};
use s3stream::compact::group::{group_stream_data_blocks, GroupByOffsetPredicate};
use s3stream::compact::merge::{
    physical_merge_request, CompositeMerge, LinkedObject, PhysicalMerge, StreamObjectCompactor,
    WrittenComposite,
};
use s3stream::compact::pass::retire_expired;
use s3stream::compact::plan::{
    CompactOperations, CompactedObject, CompactionType, StreamDataBlock,
};
use s3stream::compact::round::{
    collect_stream_ids, compaction_read_rate, deduplicate_objects_by_id, force_split_request,
    next_delay_ms, next_split_batch, select_newest, split_by_age, split_object_id, CompactionConfig,
    CompactionRound, RoundOutcome, WrittenSetObject,
};
use s3stream::compact::sanity::{filter_invalid_stream_data_blocks, is_sanity_check_failed};
use s3stream::compact::stages::CompactionPlan;
use s3stream::compact::steps::{round_steps, RoundStep};
use s3stream::compact::stream_compactor::{
    cleanup_requests, cleanup_v1_candidate, end_offset_of, start_offset_of, CompactionCandidate,
    CompactionLevel, StreamView,
};
use s3stream::error::{StreamError, Unexpected};
use s3stream::manager::{
    CommitStreamSetObjectRequest, StreamMetadata, StreamObject, StreamState,
};
use s3stream::memory::MemoryMetadataManager;
use s3stream::object::{
    DataBlockIndex, ObjectStreamRange, S3ObjectMetadata, S3ObjectType, StreamOffsetRange,
    NOOP_OBJECT_ID, NO_BLOCK_ID,
};
use std::collections::{BTreeMap, HashMap};

fn block(
    stream_id: u64,
    start: u64,
    end: u64,
    object_id: u64,
    pos: u64,
    size: u32,
) -> StreamDataBlock {
    StreamDataBlock::new(stream_id, start, end, object_id, pos, size, 1)
}

/// Block bytes are forwarded verbatim: the data of the written object is the data read.
#[test]
fn blocks_forwarded_verbatim() {
    let blocks: Vec<_> = (0..4).map(|i| block(10, i, i + 1, 1, i * 10, 10)).collect();
    let source: Vec<u8> = (0..40).collect();
    assert_eq!(
        plan_reads(&blocks, S3_OBJECT_MAX_READ_BATCH),
        vec![ReadStep::Run { first: 0, end: 4 }]
    );
    let fetched = cut_run_data(&blocks, &Bytes::from(source.clone()));
    assert_eq!(fetched.len(), 4);

    let mut writer = DataBlockWriter::open(99, 16 << 20);
    for f in &fetched {
        assert_eq!(writer.write(&f.block, &f.data), None);
    }
    let end = writer.close();
    assert_eq!(end.waiting, source);
    assert_eq!(end.index_position, 40);
    let total_records: u32 = end.indices.iter().map(|e| e.record_count).sum();
    assert_eq!(total_records, 4);

    // Index, then a footer that says where the index is.
    let whole = build_object_end(end.waiting, &[7, 7], end.index_position, 0x1122);
    assert_eq!(whole.len(), 40 + 2 + 48);
    assert_eq!(&whole[40..42], &[7, 7]);
    assert_eq!(&whole[42..50], &40u64.to_be_bytes());
    assert_eq!(&whole[50..54], &2u32.to_be_bytes());
    assert_eq!(&whole[82..90], &0x1122u64.to_be_bytes());
    assert_eq!(finished_object_size(40, 2), 90);
}

/// Parts are handed over once enough waits.
#[test]
fn writer_uploads_full_parts() {
    let mut writer = DataBlockWriter::open(1, 15);
    assert_eq!(writer.write(&block(1, 0, 1, 1, 0, 10), &[1; 10]), None);
    let part = writer.write(&block(1, 1, 2, 1, 10, 10), &[2; 10]).unwrap();
    assert_eq!(part.len(), 20);
    let end = writer.close();
    assert!(end.waiting.is_empty());
    assert_eq!(end.index_position, 20);
}

/// Adjacent blocks coalesce into a single range read. Discontinuous runs split.
#[test]
fn adjacent_ranges_coalesce() {
    let mut sparse: Vec<_> = (0..8).map(|i| block(10, i, i + 1, 1, i * 10, 10)).collect();
    // Drop block 3 to create a positional gap: [0..3), [4..8).
    sparse.remove(3);
    assert_eq!(
        plan_reads(&sparse, S3_OBJECT_MAX_READ_BATCH),
        vec![
            ReadStep::Run { first: 0, end: 3 },
            ReadStep::Run { first: 3, end: 7 }
        ]
    );
    // A block larger than a batch is read in pieces.
    assert_eq!(
        plan_reads(&vec![block(1, 0, 1, 1, 5, 25)], 10),
        vec![ReadStep::Chunked { block: 0 }]
    );
    assert_eq!(chunk_ranges(5, 30, 10), vec![(5, 15), (15, 25), (25, 30)]);
}

#[test]
fn block_data_is_kept_per_object_and_position() {
    let mut data = BlockData::new();
    let b = block(1, 0, 1, 7, 30, 3);
    for f in cut_run_data(&vec![b], &Bytes::from_static(b"abc")) {
        data.insert(f);
    }
    assert_eq!(data.get(&b), Some(Bytes::from_static(b"abc")));
    assert_eq!(data.get(&block(1, 0, 1, 8, 30, 3)), None);
}

#[test]
fn groups_are_described_by_one_index_each() {
    let groups = vec![
        vec![block(1, 0, 10, 1, 0, 100), block(1, 10, 20, 1, 100, 50)],
        vec![block(2, 5, 6, 1, 150, 7)],
    ];
    let indices = build_data_block_indices_from_group(&groups);
    assert_eq!(
        indices[0],
        DataBlockIndex {
            block_id: NO_BLOCK_ID,
            stream_id: 1,
            start_offset: 0,
            end_offset_delta: 20,
            record_count: 2,
            start_position: 0,
            size: 150,
        }
    );
    assert_eq!(indices[1].start_position, 150);
    let ranges = build_object_stream_ranges_from_group(&groups);
    assert_eq!(ranges.len(), 2);
    assert_eq!(
        (ranges[0].start_offset, ranges[0].end_offset, ranges[0].size),
        (0, 20, 150)
    );
    let object = describe_stream_object(&groups[0], 9, 200, 0);
    assert_eq!((object.start_offset, object.end_offset), (0, 20));
}

fn stream_object(object_id: u64, start: u64, end: u64, size: u64) -> CompactionCandidate {
    CompactionCandidate {
        metadata: S3ObjectMetadata {
            object_id,
            object_type: S3ObjectType::Stream,
            offset_ranges: vec![StreamOffsetRange {
                stream_id: 1,
                start_offset: start,
                end_offset: end,
            }],
            object_size: size,
            attributes: 0,
            committed_timestamp_ms: 0,
            data_timestamp_ms: 0,
        },
        composite: false,
    }
}

fn view(start_offset: u64, confirm_offset: u64) -> StreamView {
    StreamView {
        stream_id: 1,
        stream_epoch: 1,
        start_offset,
        confirm_offset,
    }
}

/// MINOR merges adjacent small stream objects into one that covers them all.
#[test]
fn minor_compaction_merges_adjacent_objects() {
    let compactor = StreamObjectCompactor::new(1 << 30);
    let objects = vec![
        stream_object(1, 0, 4, 400),
        stream_object(2, 4, 8, 400),
        stream_object(3, 8, 12, 400),
    ];
    let groups = compactor.groups(&objects, CompactionLevel::Minor, false);
    assert_eq!(groups, vec![vec![0, 1, 2]]);

    let stream = view(0, 12);
    let mut merge = PhysicalMerge::begin(
        &stream,
        &objects[0].metadata,
        &objects[2].metadata,
        compactor.data_block_group_size_threshold,
    );
    for o in &objects {
        let start = start_offset_of(&o.metadata);
        let entry = DataBlockIndex {
            block_id: 0,
            stream_id: 1,
            start_offset: start,
            end_offset_delta: 4,
            record_count: 4,
            start_position: 0,
            size: 300,
        };
        assert_eq!(
            merge.add_object(o.metadata.object_id, &vec![entry], 300),
            Some((0, 300))
        );
    }
    let merged = merge.finish();
    assert_eq!(merged.index_position, 900);
    assert_eq!(merged.source_object_ids, vec![1, 2, 3]);
    let records: u32 = merged.indexes.iter().map(|e| e.record_count).sum();
    assert_eq!(records, 12);
    let request = physical_merge_request(&stream, merged, 50, 100, 0);
    assert_eq!((request.start_offset, request.end_offset), (0, 12));
    assert_eq!(request.object_size, 1000);

    let mut manager = MemoryMetadataManager::new();
    let stream_id = manager.create_stream();
    manager.open_stream(stream_id, 1).unwrap();
    manager.compact_stream_object(&request, 0);
    let left = manager.get_stream_objects(1, 0, u64::MAX, usize::MAX);
    assert_eq!(left.len(), 1, "three objects merged into one");
    assert_eq!(start_offset_of(&left[0]), 0);
    assert_eq!(end_offset_of(&left[0]), 12);
}

/// Blocks below the stream's start are left out of a merge, in whatever order they stand.
#[test]
fn merge_leaves_out_expired_blocks_in_any_order() {
    let objects = vec![stream_object(1, 0, 14, 400), stream_object(2, 14, 16, 400)];
    let stream = view(10, 16);
    let entry = |start_offset: u64, end_offset_delta: u32, start_position: u64| DataBlockIndex {
        block_id: 0,
        stream_id: 1,
        start_offset,
        end_offset_delta,
        record_count: end_offset_delta,
        start_position,
        size: 50,
    };
    let mut merge =
        PhysicalMerge::begin(&stream, &objects[0].metadata, &objects[1].metadata, 1 << 20);
    let first = vec![entry(8, 2, 0), entry(0, 4, 50), entry(10, 4, 100)];
    assert_eq!(merge.add_object(1, &first, 150), Some((100, 150)));
    assert_eq!(merge.add_object(2, &vec![entry(14, 2, 0)], 50), Some((0, 50)));
    let merged = merge.finish();
    assert_eq!(merged.data_size, 100);
    assert_eq!(merged.index_position, 100);
    assert_eq!((merged.start_offset, merged.end_offset), (4, 16));
    assert_eq!(merged.indexes.len(), 1);
    assert_eq!(merged.indexes[0].start_offset, 10);
    assert_eq!(merged.indexes[0].end_offset(), 16);
    assert_eq!(merged.indexes[0].size, 100);
    let request = physical_merge_request(&stream, merged, 50, 48, 0);
    assert_eq!(request.object_size, 148);
    assert_eq!(request.source_object_ids, vec![1, 2]);
}

/// CLEANUP deletes objects fully below the stream start offset and leaves the
/// rest untouched.
#[test]
fn cleanup_removes_expired_objects() {
    let objects = vec![stream_object(1, 0, 4, 400), stream_object(2, 4, 8, 400)];
    let (requests, living) = retire_expired(&view(4, 8), objects);
    assert_eq!(living.len(), 1);
    assert_eq!(living[0].metadata.object_id, 2);
    let compactor = StreamObjectCompactor::new(1 << 30);
    assert!(compactor.groups(&living, CompactionLevel::Cleanup, true).is_empty());
    assert_eq!(requests.len(), 1);
    assert!(requests[0].is_cleanup());
    assert_eq!(requests[0].source_object_ids, vec![1]);
}

/// Expired objects are deleted in steps, in their order.
#[test]
fn expired_objects_go_in_steps() {
    let ids: Vec<u64> = (0..1001).collect();
    let requests = cleanup_requests(&view(4, 8), &ids);
    assert_eq!(requests.len(), 2);
    assert_eq!(requests[0].source_object_ids, ids[..1000].to_vec());
    assert_eq!(requests[1].source_object_ids, vec![1000]);
}

/// Objects that nothing joins stay as they are, and only a composite is rewritten alone.
#[test]
fn lone_objects_are_left_alone() {
    let compactor = StreamObjectCompactor::new(1 << 30);
    let plain = vec![
        stream_object(1, 0, 4, 400),
        stream_object(2, 6, 8, 400),
        stream_object(3, 8, 9, 400),
    ];
    assert_eq!(
        compactor.groups(&plain, CompactionLevel::Major, false),
        vec![vec![1, 2]]
    );
    assert!(compactor.groups(&plain, CompactionLevel::CleanupV1, true).is_empty());
    let mut composite = stream_object(1, 0, 8, 400);
    composite.composite = true;
    let living = vec![composite];
    assert_eq!(
        compactor.groups(&living, CompactionLevel::CleanupV1, true),
        vec![vec![0]]
    );
    assert!(compactor.groups(&living, CompactionLevel::CleanupV1, false).is_empty());
}

/// MAJOR_V1 links normal objects into a composite object without copying data.
#[test]
fn major_v1_builds_composite_object() {
    let stream = view(0, 8);
    let mut merge = CompositeMerge::begin(&stream);
    merge.add_plain(1);
    merge.add_plain(2);
    let request = merge.finish(
        77,
        Some(WrittenComposite {
            start_offset: 0,
            end_offset: 8,
            object_size: 120,
            attributes: 1,
        }),
    );
    assert_eq!(request.object_id, 77);
    assert_eq!((request.start_offset, request.end_offset), (0, 8));
    assert_eq!(request.source_object_ids, vec![1, 2]);
    assert_eq!(
        request.operations,
        vec![CompactOperations::KeepData, CompactOperations::KeepData]
    );
}

/// Components of a composite that hold only trimmed data are left out.
#[test]
fn trimmed_components_are_dropped() {
    let entry = |start: u64| DataBlockIndex {
        block_id: 0,
        stream_id: 1,
        start_offset: start,
        end_offset_delta: 4,
        record_count: 4,
        start_position: 0,
        size: 10,
    };
    let linked = |id: u64, i: u32| LinkedObject {
        object_id: id,
        bucket_id: 0,
        block_start_index: i,
        block_end_index: i + 1,
    };
    let mut merge = CompositeMerge::begin(&view(4, 8));
    let kept = merge.add_composite(
        9,
        &vec![linked(1, 0), linked(2, 1)],
        &vec![entry(0), entry(4)],
    );
    assert_eq!(kept, vec![false, true]);
    assert!(cleanup_v1_candidate(&vec![stream_object(5, 0, 8, 40)], 4).is_none());
}

fn set_object(object_id: u64, data_timestamp_ms: i64) -> S3ObjectMetadata {
    S3ObjectMetadata {
        object_id,
        object_type: S3ObjectType::StreamSet,
        offset_ranges: vec![],
        object_size: 10,
        attributes: 0,
        committed_timestamp_ms: 0,
        data_timestamp_ms,
    }
}

fn metadata(stream_id: u64, start_offset: u64, end_offset: u64) -> StreamMetadata {
    StreamMetadata {
        stream_id,
        epoch: 1,
        start_offset,
        end_offset,
        state: StreamState::Opened,
        node_id: 1,
    }
}

/// After a round, every range that was readable is still covered, and the sources are
/// consumed.
#[test]
fn compaction_preserves_readability() {
    let mut config = CompactionConfig::defaults();
    config.stream_split_size = 256;
    let objects = vec![set_object(1, 0), set_object(2, 0)];
    let map = HashMap::from([
        (1u64, vec![block(1, 0, 4, 1, 0, 100), block(2, 0, 4, 1, 100, 100)]),
        (2u64, vec![block(1, 4, 8, 2, 0, 100), block(2, 4, 8, 2, 100, 100)]),
    ]);
    let round = CompactionRound::begin(&config, &objects, &map);
    assert!(!round.has_remaining);
    assert_eq!(round.plans.len(), 1);
    let streams = vec![metadata(1, 0, 8), metadata(2, 0, 8)];
    let split: Vec<StreamObject> = round.plans[0]
        .compacted_objects
        .iter()
        .filter(|c| c.compaction_type == CompactionType::Split)
        .enumerate()
        .map(|(i, c)| describe_stream_object(&c.blocks, 10 + i as u64, 300, 0))
        .collect();
    let has_set = round.plans[0]
        .compacted_objects
        .iter()
        .any(|c| c.compaction_type == CompactionType::Compact);
    let outcome = round.complete(
        &streams,
        &map,
        WrittenSetObject {
            object_id: if has_set { Some(9) } else { None },
            object_size: if has_set { 400 } else { 0 },
            attributes: 0,
        },
        split,
    );
    match outcome {
        RoundOutcome::Commit(request) => {
            let mut consumed = request.compacted_object_ids.clone();
            consumed.sort();
            assert_eq!(consumed, vec![1, 2]);
            for stream_id in [1u64, 2] {
                let in_set = request
                    .stream_ranges
                    .iter()
                    .filter(|r| r.stream_id == stream_id)
                    .map(|r| (r.start_offset, r.end_offset));
                let split_off = request
                    .stream_objects
                    .iter()
                    .filter(|o| o.stream_id == stream_id)
                    .map(|o| (o.start_offset, o.end_offset));
                let mut ranges: Vec<(u64, u64)> = in_set.chain(split_off).collect();
                ranges.sort();
                let mut covered = 0;
                for (start, end) in ranges {
                    assert_eq!(start, covered, "stream {stream_id} has a gap");
                    covered = end;
                }
                assert_eq!(covered, 8, "stream {stream_id} is covered to its end");
            }
        }
        other => panic!("{other:?}"),
    }
}

/// Force split rewrites a set object into one stream object per continuous run.
#[test]
fn force_split_all_splits_into_stream_objects() {
    let mut manager = MemoryMetadataManager::new();
    let s1 = manager.create_stream();
    let s2 = manager.create_stream();
    manager.open_stream(s1, 1).unwrap();
    manager.open_stream(s2, 1).unwrap();
    let set_object = manager.prepare_object(1);
    let range = |stream_id: u64| ObjectStreamRange {
        stream_id,
        epoch: 1,
        start_offset: 0,
        end_offset: 4,
        size: 60,
    };
    let set_request = CommitStreamSetObjectRequest {
        object_id: set_object,
        object_size: 120,
        stream_ranges: vec![range(s1), range(s2)],
        ..Default::default()
    };
    manager.commit_stream_set_object(&set_request, 1);
    assert_eq!(manager.get_server_objects().len(), 1);

    let blocks = vec![
        block(s1, 0, 2, set_object, 0, 30),
        block(s1, 2, 4, set_object, 30, 30),
        block(s2, 0, 4, set_object, 60, 60),
    ];
    let groups = group_stream_data_blocks(&blocks, &mut GroupByOffsetPredicate::new());
    assert_eq!(groups.len(), 2);
    assert_eq!(next_split_batch(&groups, 0, 100), 1);
    assert_eq!(next_split_batch(&groups, 0, 200), 2);
    let first = manager.prepare_object(groups.len());
    let written: Vec<StreamObject> = groups
        .iter()
        .enumerate()
        .map(|(i, g)| describe_stream_object(g, split_object_id(first, i), 100, 0))
        .collect();
    assert_eq!(written[1].object_id, first + 1);
    let request = force_split_request(set_object, written);
    assert_eq!(request.object_id, NOOP_OBJECT_ID);
    assert_eq!(request.compacted_object_ids, vec![set_object]);
    let streams = manager.get_streams(&vec![s1, s2]);
    let map = HashMap::from([(set_object, blocks)]);
    assert!(!is_sanity_check_failed(&streams, &map, &request));
    manager.commit_stream_set_object(&request, 2);

    assert!(
        manager.get_server_objects().is_empty(),
        "stream set object should be split away"
    );
    for stream_id in [s1, s2] {
        let objects = manager.get_stream_objects(stream_id, 0, 4, usize::MAX);
        assert_eq!(objects.len(), 1);
        assert_eq!((start_offset_of(&objects[0]), end_offset_of(&objects[0])), (0, 4));
    }
}

#[test]
fn invalid_blocks_are_filtered() {
    let mut map = HashMap::from([(
        1u64,
        vec![
            block(1, 0, 4, 1, 0, 10),
            block(1, 4, 8, 1, 10, 10),
            block(9, 0, 4, 1, 20, 10),
        ],
    )]);
    filter_invalid_stream_data_blocks(&vec![metadata(1, 4, 8)], &mut map);
    // Trimmed data and streams that are gone are dropped.
    assert_eq!(map[&1], vec![block(1, 4, 8, 1, 10, 10)]);
}

#[test]
fn sanity_check_catches_lost_data() {
    let map = HashMap::from([(1u64, vec![block(1, 0, 4, 1, 0, 10)])]);
    let streams = vec![metadata(1, 0, 4)];
    let mut request = CommitStreamSetObjectRequest::empty(5);
    request.compacted_object_ids.push(1);
    assert!(is_sanity_check_failed(&streams, &map, &request));
    request.stream_ranges.push(ObjectStreamRange {
        stream_id: 1,
        epoch: u64::MAX,
        start_offset: 0,
        end_offset: 4,
        size: 10,
    });
    assert!(!is_sanity_check_failed(&streams, &map, &request));
}

#[test]
fn round_arithmetic() {
    assert_eq!(next_delay_ms(true, 60_000, 1), 10_000);
    assert_eq!(next_delay_ms(false, 60_000, 20_000), 40_000);
    assert_eq!(next_delay_ms(false, 60_000, 59_000), 10_000);
    let twice = vec![set_object(1, 0), set_object(2, 0), set_object(1, 0)];
    assert_eq!(deduplicate_objects_by_id(&twice).len(), 2);
    let (old, young) = split_by_age(&vec![set_object(1, 5), set_object(2, 50)], 10);
    assert_eq!((old[0].object_id, young[0].object_id), (1, 2));
    let (kept, remaining) = select_newest(&vec![set_object(1, 0), set_object(2, 0)], 1);
    assert_eq!(kept.len(), 1);
    assert!(remaining);
    assert_eq!(compaction_read_rate(1, 120_000), Some(2_000));
}

#[test]
fn oversized_blocks_stop_a_round() {
    let map = HashMap::from([(1u64, vec![block(4, 0, 4, 1, 0, 100)])]);
    assert_eq!(collect_stream_ids(&map, 100), Ok(vec![4]));
    assert!(matches!(
        collect_stream_ids(&map, 99),
        Err(StreamError::Unexpected(Unexpected::BlockTooLarge {
            size: 100,
            cache: 99
        }))
    ));
}

/// A round reads a stage before it writes the stage's objects, and opens the stream set
/// object once.
#[test]
fn a_round_goes_stage_by_stage() {
    let object = |compaction_type: CompactionType, n: usize| CompactedObject {
        compaction_type,
        blocks: (0..n as u64).map(|i| block(1, i, i + 1, 1, i * 10, 10)).collect(),
    };
    let plan = |order: u32, compacted_objects: Vec<CompactedObject>| CompactionPlan {
        order,
        compacted_objects,
        stream_data_blocks_map: BTreeMap::new(),
    };
    let plans = vec![
        plan(
            0,
            vec![
                object(CompactionType::Split, 2),
                object(CompactionType::Split, 0),
                object(CompactionType::Compact, 1),
            ],
        ),
        plan(1, vec![object(CompactionType::Compact, 3)]),
    ];
    assert_eq!(
        round_steps(&plans),
        vec![
            RoundStep::Read { plan: 0 },
            RoundStep::Split { plan: 0, object: 0 },
            RoundStep::Append {
                plan: 0,
                object: 2,
                opens: true
            },
            RoundStep::Read { plan: 1 },
            RoundStep::Append {
                plan: 1,
                object: 0,
                opens: false
            },
        ]
    );
    assert_eq!(round_steps(&Vec::new()), Vec::new());
}

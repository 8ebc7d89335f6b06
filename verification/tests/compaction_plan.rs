//! Grouping, filtering, ordering and staging of blocks to compact.
use s3stream::compact::analyzer::CompactionAnalyzer;
use s3stream::compact::group::{
    group_stream_data_blocks, GroupByLimitPredicate, GroupByOffsetPredicate,
};
use s3stream::compact::plan::{
    filter_blocks_to_compact, sort_stream_range_positions, CompactOperations, CompactionType,
    StreamDataBlock,
};
use std::collections::{HashMap, HashSet};

fn block(
    stream_id: u64,
    start: u64,
    end: u64,
    object_id: u64,
    pos: u64,
    size: u32,
) -> StreamDataBlock {
    StreamDataBlock::new(stream_id, start, end, object_id, pos, size, 1)
}

/// Base layout:
/// object 0: s0[0,20) s1[30,60) s2[30,60). Object 1: s0[20,25) s1[60,120).
/// Object 2: s1[400,500) s2[230,270).
fn base_map() -> HashMap<u64, Vec<StreamDataBlock>> {
    let mut map = HashMap::new();
    map.insert(
        0,
        vec![
            block(0, 0, 20, 0, 0, 20),
            block(1, 30, 60, 0, 20, 30),
            block(2, 30, 60, 0, 50, 30),
        ],
    );
    map.insert(
        1,
        vec![block(0, 20, 25, 1, 0, 5), block(1, 60, 120, 1, 5, 60)],
    );
    map.insert(
        2,
        vec![
            block(1, 400, 500, 2, 0, 100),
            block(2, 230, 270, 2, 100, 40),
        ],
    );
    map.insert(3, vec![block(3, 0, 50, 3, 0, 50)]);
    map
}

#[test]
fn filter_drops_objects_without_shared_streams() {
    let filtered = filter_blocks_to_compact(base_map());
    // Object 3's stream 3 appears nowhere else.
    assert_eq!(filtered.len(), 3);
    assert!(!filtered.contains_key(&3));
}

#[test]
fn sort_is_stream_major_offset_ordered() {
    let sorted = sort_stream_range_positions(&filter_blocks_to_compact(base_map()));
    let keys: Vec<(u64, u64)> = sorted
        .iter()
        .map(|b| (b.stream_id(), b.start_offset()))
        .collect();
    assert_eq!(
        keys,
        vec![
            (0, 0),
            (0, 20),
            (1, 30),
            (1, 60),
            (1, 400),
            (2, 30),
            (2, 230)
        ]
    );
}

#[test]
fn analyze_splits_large_streams_and_compacts_rest() {
    let analyzer = CompactionAnalyzer::new(1 << 30, 100, 100, 100);
    let mut excluded = HashSet::new();
    let plans = analyzer.analyze(base_map(), &mut excluded);
    assert!(excluded.is_empty());
    assert_eq!(plans.len(), 1);
    let plan = &plans[0];
    // Every input block from viable objects lands in exactly one output object.
    let total_blocks: usize = plan.compacted_objects.iter().map(|c| c.blocks.len()).sum();
    assert_eq!(total_blocks, 7);
    let splits: Vec<_> = plan
        .compacted_objects
        .iter()
        .filter(|c| c.compaction_type == CompactionType::Split)
        .collect();
    let compacts: Vec<_> = plan
        .compacted_objects
        .iter()
        .filter(|c| c.compaction_type == CompactionType::Compact)
        .collect();
    // Discontinuity at stream1 [120 -> 400) forces one split. Stream2's run
    // [30,60)+[230,270) is discontinuous too.
    assert!(!splits.is_empty());
    assert_eq!(compacts.len(), 1);
    // COMPACT blocks are stream-major and offset-ordered.
    let compact = compacts[0];
    let mut prev: Option<(u64, u64)> = None;
    for b in &compact.blocks {
        if let Some((ps, po)) = prev {
            assert!((b.stream_id(), b.start_offset()) >= (ps, po));
        }
        prev = Some((b.stream_id(), b.start_offset()));
    }
}

#[test]
fn cache_limit_cuts_plans_into_stages() {
    // Budget 100 bytes. Total block size is 285 → multiple stages.
    let analyzer = CompactionAnalyzer::new(100, 1 << 30, 100, 100);
    let mut excluded = HashSet::new();
    let plans = analyzer.analyze(base_map(), &mut excluded);
    assert!(plans.len() > 1);
    for (i, plan) in plans.iter().enumerate() {
        assert_eq!(plan.order, i as u32);
        let stage_bytes: u64 = plan
            .stream_data_blocks_map
            .values()
            .flatten()
            .map(|b| b.block_size() as u64)
            .sum();
        // Each stage's read set stays within the memory budget (the closing
        // stage may include the split prefix that exactly fills it).
        assert!(
            stage_bytes <= 100 + 100,
            "stage {i} reads {stage_bytes} bytes"
        );
    }
    // No block lost across stages.
    let total: usize = plans
        .iter()
        .map(|p| p.stream_data_blocks_map.values().flatten().count())
        .sum();
    assert_eq!(total, 7);
}

#[test]
fn stream_object_limit_excludes_objects() {
    let analyzer = CompactionAnalyzer::new(1 << 30, 30, 100, 1);
    let mut excluded = HashSet::new();
    let plans = analyzer.analyze(base_map(), &mut excluded);
    // Analyzer either produced a viable reduced plan or nothing. Excluded is
    // non-empty in both cases.
    assert!(!excluded.is_empty());
    for plan in &plans {
        let split_count = plan
            .compacted_objects
            .iter()
            .filter(|c| c.compaction_type == CompactionType::Split)
            .count();
        assert!(split_count <= 1);
    }
}

#[test]
fn group_by_offset_cuts_on_discontinuity() {
    let blocks = vec![
        block(1, 0, 10, 1, 0, 10),
        block(1, 10, 20, 1, 10, 10),
        block(1, 30, 40, 1, 20, 10),
        block(2, 0, 5, 1, 30, 5),
    ];
    let mut pred = GroupByOffsetPredicate::new();
    let groups = group_stream_data_blocks(&blocks, &mut pred);
    assert_eq!(groups.len(), 3);
    assert_eq!(groups[0].len(), 2);
    assert_eq!(groups[1].len(), 1);
    assert_eq!(groups[2].len(), 1);
}

#[test]
fn group_by_limit_cuts_on_size_threshold() {
    let blocks = vec![
        block(1, 0, 10, 1, 0, 10),
        block(1, 10, 20, 1, 10, 10),
        block(1, 20, 30, 1, 20, 10),
    ];
    let mut pred = GroupByLimitPredicate::new(25);
    let groups = group_stream_data_blocks(&blocks, &mut pred);
    // 10+10 < 25 keeps blocks 1-2 together. 20+10 >= 25 cuts before block 3.
    assert_eq!(groups.len(), 2);
    assert_eq!(groups[0].len(), 2);
}

#[test]
fn nothing_shared_means_nothing_planned() {
    let mut map = HashMap::new();
    map.insert(1, vec![block(1, 0, 10, 1, 0, 10)]);
    map.insert(2, vec![block(2, 0, 10, 2, 0, 10)]);
    let mut excluded = HashSet::new();
    let plans = CompactionAnalyzer::new(1 << 30, 100, 100, 100).analyze(map, &mut excluded);
    assert!(plans.is_empty());
    assert!(excluded.is_empty());
}

#[test]
fn operation_codes() {
    assert_eq!(CompactOperations::Delete.code(), 0);
    assert_eq!(CompactOperations::KeepData.code(), 1);
    assert_eq!(CompactOperations::DeepDelete.code(), 2);
}

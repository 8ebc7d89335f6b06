//! One round of stream set compaction: which objects take part, what they are rewritten
//! into, and whether the result may be committed.
use std::collections::{BTreeMap, HashMap, HashSet};
use vstd::prelude::*;

use crate::collections::{ascending, hash_keys, lists_keys, tree_keys};
use crate::compact::analyzer::{
    comes_from, in_map, is_analysis, map_is_plannable, set_blocks, CompactionAnalyzer,
};
use crate::compact::builder::planned_blocks;
use crate::compact::executor::{build_object_stream_ranges_from_group, stream_ranges_of};
use crate::compact::group::{
    group_stream_data_blocks, group_views, groups_of, joined, law_grouping_keeps_blocks,
    lemma_offset_step, GroupByOffsetPredicate,
};
use crate::compact::plan::{
    all_valid, concat_of, is_flattening, lemma_sizes_add, lemma_sizes_nonneg, sizes,
    CompactionType, Planned, StreamDataBlock,
};
use crate::compact::sanity::{is_lost, is_sanity_check_failed, map_valid};
use crate::compact::stages::{
    groups_by_object, object_views, plan_views, plans_ok, position_keys, stage_blocks,
    CompactionPlan,
};
use crate::error::{StreamError, Unexpected};
use crate::manager::{CommitStreamSetObjectRequest, StreamMetadata, StreamObject};
use crate::memory::object_models;
use crate::object::{ObjectModel, ObjectStreamRange, S3ObjectMetadata, NOOP_OBJECT_ID};
use crate::order::{arranged, is_stable_order, stable_order};

verus! {

pub const MIN_COMPACTION_DELAY_MS: u64 = 10_000;

pub const MAX_THROTTLE_BYTES_PER_SEC: u64 = 1_000_000_000;

/// Stream set compaction configuration.
#[derive(Debug, Clone, Copy, PartialEq, Eq, Structural)]
pub struct CompactionConfig {
    pub compaction_interval_min: u64,
    pub compaction_cache_size: u64,
    pub stream_split_size: u64,
    pub force_split_period_min: u64,
    pub max_object_num_to_compact: usize,
    pub max_stream_num_per_stream_set_object: usize,
    pub max_stream_object_num_per_commit: usize,
    pub network_bandwidth: u64,
    pub object_part_size: usize,
}

impl CompactionConfig {
    pub fn defaults() -> (r: Self)
        ensures
            r.compaction_interval_min == 20,
            r.compaction_cache_size == 200 * 1024 * 1024,
            r.stream_split_size == 8 * 1024 * 1024,
            r.force_split_period_min == 120,
            r.max_object_num_to_compact == 500,
            r.max_stream_num_per_stream_set_object == 100_000,
            r.max_stream_object_num_per_commit == 10_000,
            r.network_bandwidth == 100 * 1024 * 1024,
            r.object_part_size == 16 * 1024 * 1024,
    {
        CompactionConfig {
            compaction_interval_min: 20,
            compaction_cache_size: 200 * 1024 * 1024,
            stream_split_size: 8 * 1024 * 1024,
            force_split_period_min: 120,
            max_object_num_to_compact: 500,
            max_stream_num_per_stream_set_object: 100_000,
            max_stream_object_num_per_commit: 10_000,
            network_bandwidth: 100 * 1024 * 1024,
            object_part_size: 16 * 1024 * 1024,
        }
    }

    /// The plan builder that the configuration asks for.
    pub fn analyzer(&self) -> (r: CompactionAnalyzer)
        ensures
            is_analyzer_of(r, *self),
    {
        CompactionAnalyzer::new(
            self.compaction_cache_size,
            self.stream_split_size,
            self.max_stream_num_per_stream_set_object,
            self.max_stream_object_num_per_commit,
        )
    }

    /// Bytes that one read request may ask for.
    pub fn max_read_batch(&self) -> (r: u64)
        ensures
            r == (if self.network_bandwidth < crate::compact::executor::S3_OBJECT_MAX_READ_BATCH {
                self.network_bandwidth
            } else {
                crate::compact::executor::S3_OBJECT_MAX_READ_BATCH
            }),
    {
        if self.network_bandwidth < crate::compact::executor::S3_OBJECT_MAX_READ_BATCH {
            self.network_bandwidth
        } else {
            crate::compact::executor::S3_OBJECT_MAX_READ_BATCH
        }
    }
}

/// How long to wait before the next round: the rest of the interval, but no less than the
/// minimum delay, and only that if objects remain.
pub fn next_delay_ms(remaining: bool, interval_ms: u64, elapsed_ms: u64) -> (r: u64)
    ensures
        r == (if remaining || interval_ms - elapsed_ms < MIN_COMPACTION_DELAY_MS {
            MIN_COMPACTION_DELAY_MS as int
        } else {
            interval_ms - elapsed_ms
        }),
        r >= MIN_COMPACTION_DELAY_MS,
        remaining ==> r == MIN_COMPACTION_DELAY_MS,
        !remaining ==> elapsed_ms + r >= interval_ms,
        r > MIN_COMPACTION_DELAY_MS ==> elapsed_ms + r == interval_ms,
{
    if remaining || interval_ms <= elapsed_ms || interval_ms - elapsed_ms
        < MIN_COMPACTION_DELAY_MS {
        MIN_COMPACTION_DELAY_MS
    } else {
        interval_ms - elapsed_ms
    }
}

/// The first object of each id, in order.
pub open spec fn first_by_id(objects: Seq<ObjectModel>) -> Seq<ObjectModel>
    decreases objects.len(),
{
    if objects.len() == 0 {
        Seq::empty()
    } else {
        let before = first_by_id(objects.drop_last());
        if has_object(before, objects.last().object_id) {
            before
        } else {
            before.push(objects.last())
        }
    }
}

pub open spec fn has_object(objects: Seq<ObjectModel>, id: u64) -> bool {
    exists|i: int| 0 <= i < objects.len() && (#[trigger] objects[i]).object_id == id
}

/// Keeps the first object of each id.
pub fn deduplicate_objects_by_id(objects: &Vec<S3ObjectMetadata>) -> (r: Vec<S3ObjectMetadata>)
    ensures
        object_models(r@) == first_by_id(object_models(objects@)),
{
    broadcast use vstd::std_specs::hash::group_hash_axioms;

    let ghost models = object_models(objects@);
    let mut seen: HashSet<u64> = HashSet::new();
    let mut out: Vec<S3ObjectMetadata> = Vec::new();
    let mut i: usize = 0;
    proof {
        assert(models.take(0) =~= Seq::empty());
        assert(object_models(out@) =~= Seq::empty());
    }
    while i < objects.len()
        invariant
            i <= objects@.len(),
            models == object_models(objects@),
            object_models(out@) == first_by_id(models.take(i as int)),
            forall|id: u64| #[trigger]
                seen@.contains(id) <==> has_object(object_models(out@), id),
        decreases objects@.len() - i,
    {
        let id: u64 = objects[i].object_id;
        let ghost before = object_models(out@);
        let ghost seen0 = seen@;
        proof {
            assert(models.take(i + 1).drop_last() =~= models.take(i as int));
            assert(models.take(i + 1).last() == objects@[i as int]@);
        }
        if seen.insert(id) {
            let copy = objects[i].clone();
            out.push(copy);
            assert(object_models(out@) =~= before.push(objects@[i as int]@));
        }
        proof {
            let now = object_models(out@);
            assert forall|x: u64| #[trigger] seen@.contains(x) <==> has_object(now, x) by {
                if has_object(before, x) {
                    let k = choose|k: int|
                        0 <= k < before.len() && (#[trigger] before[k]).object_id == x;
                    assert(now[k].object_id == x);
                }
                if has_object(now, x) {
                    let k = choose|k: int| 0 <= k < now.len() && (#[trigger] now[k]).object_id == x;
                    if k < before.len() {
                        assert(before[k].object_id == x);
                    }
                }
                if x == id && !seen0.contains(id) {
                    assert(now[before.len() as int].object_id == x);
                }
            }
        }
        i += 1;
    }
    assert(models.take(i as int) =~= models);
    out
}

/// A block that the compaction cache cannot hold.
pub open spec fn too_large(cache: u64, b: StreamDataBlock) -> bool {
    b.index.size > cache
}

/// The streams of the blocks in a map, each once. Refused where the cache cannot hold a
/// block.
pub fn collect_stream_ids(
    block_map: &HashMap<u64, Vec<StreamDataBlock>>,
    compaction_cache_size: u64,
) -> (r: Result<Vec<u64>, StreamError>)
    ensures
        match r {
            Ok(ids) => {
                &&& forall|b: StreamDataBlock| #[trigger]
                    in_map(block_map@, b) ==> !too_large(compaction_cache_size, b)
                &&& ids@.no_duplicates()
                &&& forall|id: u64| #[trigger]
                    ids@.contains(id) <==> exists|b: StreamDataBlock| #[trigger]
                        in_map(block_map@, b) && b.index.stream_id == id
            },
            Err(e) => exists|b: StreamDataBlock| #[trigger]
                in_map(block_map@, b) && too_large(compaction_cache_size, b) && e
                    == StreamError::Unexpected(
                    Unexpected::BlockTooLarge {
                        size: b.index.size as u64,
                        cache: compaction_cache_size,
                    },
                ),
        },
{
    broadcast use vstd::std_specs::hash::group_hash_axioms;

    let flat = crate::compact::plan::flatten_blocks(block_map);
    let mut seen: HashSet<u64> = HashSet::new();
    let mut ids: Vec<u64> = Vec::new();
    let mut i: usize = 0;
    proof {
        assert forall|b: StreamDataBlock| #[trigger] flat@.contains(b) implies in_map(
            block_map@,
            b,
        ) by {
            let k = crate::compact::plan::lemma_flat_source(block_map@, flat@, b);
            assert(block_map@.dom().contains(k));
        }
        assert forall|b: StreamDataBlock| #[trigger] in_map(block_map@, b) implies flat@.contains(
            b,
        ) by {
            crate::compact::plan::lemma_flat_has(block_map@, flat@, b);
        }
    }
    while i < flat.len()
        invariant
            i <= flat@.len(),
            forall|b: StreamDataBlock| #[trigger]
                flat@.contains(b) ==> in_map(block_map@, b),
            forall|b: StreamDataBlock| #[trigger]
                in_map(block_map@, b) ==> flat@.contains(b),
            forall|j: int|
                0 <= j < i ==> !too_large(compaction_cache_size, #[trigger] flat@[j]),
            ids@.no_duplicates(),
            forall|id: u64| #[trigger] seen@.contains(id) <==> ids@.contains(id),
            forall|id: u64| #[trigger]
                ids@.contains(id) ==> exists|j: int|
                    0 <= j < i && (#[trigger] flat@[j]).index.stream_id == id,
            forall|j: int| 0 <= j < i ==> ids@.contains((#[trigger] flat@[j]).index.stream_id),
        decreases flat@.len() - i,
    {
        let block = flat[i];
        assert(flat@.contains(flat@[i as int]));
        if block.index.size as u64 > compaction_cache_size {
            assert(in_map(block_map@, block));
            return Err(
                StreamError::Unexpected(
                    Unexpected::BlockTooLarge {
                        size: block.index.size as u64,
                        cache: compaction_cache_size,
                    },
                ),
            );
        }
        let id: u64 = block.index.stream_id;
        let ghost before = ids@;
        if seen.insert(id) {
            ids.push(id);
        }
        proof {
            assert(flat@[i as int].index.stream_id == id);
            assert forall|x: u64| #[trigger] ids@.contains(x) <==> before.contains(x) || x
                == id by {
                vstd::seq_lib::lemma_seq_contains_after_push(before, id, x);
            }
            assert forall|x: u64| #[trigger] ids@.contains(x) implies exists|j: int|
                0 <= j < i + 1 && (#[trigger] flat@[j]).index.stream_id == x by {
                if before.contains(x) {
                    let j = choose|j: int|
                        0 <= j < i && (#[trigger] flat@[j]).index.stream_id == x;
                    assert(flat@[j].index.stream_id == x);
                }
            }
        }
        i += 1;
    }
    proof {
        assert forall|b: StreamDataBlock| #[trigger] in_map(block_map@, b) implies !too_large(
            compaction_cache_size,
            b,
        ) by {
            assert(flat@.contains(b));
            let j = choose|j: int| 0 <= j < flat@.len() && flat@[j] == b;
            assert(!too_large(compaction_cache_size, flat@[j]));
        }
        assert forall|id: u64| #[trigger] ids@.contains(id) <==> exists|b: StreamDataBlock|
            #[trigger] in_map(block_map@, b) && b.index.stream_id == id by {
            if ids@.contains(id) {
                let j = choose|j: int|
                    0 <= j < i && (#[trigger] flat@[j]).index.stream_id == id;
                assert(flat@.contains(flat@[j]));
                assert(in_map(block_map@, flat@[j]));
            }
            if exists|b: StreamDataBlock| #[trigger]
                in_map(block_map@, b) && b.index.stream_id == id {
                let b = choose|b: StreamDataBlock| #[trigger]
                    in_map(block_map@, b) && b.index.stream_id == id;
                assert(flat@.contains(b));
                let j = choose|j: int| 0 <= j < flat@.len() && flat@[j] == b;
                assert(ids@.contains(flat@[j].index.stream_id));
            }
        }
    }
    Ok(ids)
}

/// Objects whose data is no younger than this are split by force.
pub fn force_split_before_ms(now_ms: i64, force_split_period_min: u64) -> (r: i64)
    requires
        force_split_period_min * 60_000 <= i64::MAX,
    ensures
        r == (if now_ms - force_split_period_min * 60_000 < i64::MIN {
            i64::MIN as int
        } else {
            now_ms - force_split_period_min * 60_000
        }),
        r <= now_ms,
        r > i64::MIN ==> now_ms - r == force_split_period_min * 60_000,
{
    let period: i64 = (force_split_period_min * 60_000) as i64;
    if now_ms < i64::MIN + period {
        i64::MIN
    } else {
        now_ms - period
    }
}

/// Separates the objects to split by force from those to compact.
pub fn split_by_age(objects: &Vec<S3ObjectMetadata>, force_split_before: i64) -> (r: (
    Vec<S3ObjectMetadata>,
    Vec<S3ObjectMetadata>,
))
    ensures
        object_models(r.0@) == object_models(objects@).filter(
            |m: ObjectModel| m.data_timestamp_ms <= force_split_before,
        ),
        object_models(r.1@) == object_models(objects@).filter(
            |m: ObjectModel| !(m.data_timestamp_ms <= force_split_before),
        ),
{
    let ghost models = object_models(objects@);
    let ghost aged = |m: ObjectModel| m.data_timestamp_ms <= force_split_before;
    let ghost young = |m: ObjectModel| !(m.data_timestamp_ms <= force_split_before);
    let mut to_split: Vec<S3ObjectMetadata> = Vec::new();
    let mut to_compact: Vec<S3ObjectMetadata> = Vec::new();
    let mut i: usize = 0;
    proof {
        assert(models.take(0) =~= Seq::empty());
        assert(models.take(0).filter(aged) =~= Seq::empty());
        assert(models.take(0).filter(young) =~= Seq::empty());
        assert(object_models(to_split@) =~= Seq::empty());
        assert(object_models(to_compact@) =~= Seq::empty());
    }
    while i < objects.len()
        invariant
            i <= objects@.len(),
            models == object_models(objects@),
            aged == (|m: ObjectModel| m.data_timestamp_ms <= force_split_before),
            young == (|m: ObjectModel| !(m.data_timestamp_ms <= force_split_before)),
            object_models(to_split@) == models.take(i as int).filter(aged),
            object_models(to_compact@) == models.take(i as int).filter(young),
        decreases objects@.len() - i,
    {
        let copy = objects[i].clone();
        let ghost m = objects@[i as int]@;
        proof {
            assert(models.take(i + 1) =~= models.take(i as int).push(m));
            models.take(i as int).lemma_filter_push(m, aged);
            models.take(i as int).lemma_filter_push(m, young);
        }
        if objects[i].data_timestamp_ms <= force_split_before {
            let ghost before = object_models(to_split@);
            to_split.push(copy);
            assert(object_models(to_split@) =~= before.push(m));
        } else {
            let ghost before = object_models(to_compact@);
            to_compact.push(copy);
            assert(object_models(to_compact@) =~= before.push(m));
        }
        i += 1;
    }
    assert(models.take(i as int) =~= models);
    (to_split, to_compact)
}

/// Read rate that lets a round complete within its interval, if it is worth limiting.
pub fn compaction_read_rate(compaction_interval_min: u64, total_size: u64) -> (r: Option<u64>)
    requires
        compaction_interval_min <= u64::MAX / 60,
    ensures
        ({
            let minutes = (if compaction_interval_min >= 2 {
                compaction_interval_min as int
            } else {
                2
            }) - 1;
            let needed = total_size as int / minutes / 60;
            let rate = if needed > minutes * 60 {
                needed
            } else {
                minutes * 60
            };
            r == (if rate < MAX_THROTTLE_BYTES_PER_SEC {
                Some(rate as u64)
            } else {
                None
            })
        }),
        r matches Some(rate) ==> {
            &&& rate < MAX_THROTTLE_BYTES_PER_SEC
            &&& compaction_interval_min >= 2 ==> (rate + 1) * (60 * (compaction_interval_min - 1))
                > total_size
            &&& compaction_interval_min < 2 ==> (rate + 1) * 60 > total_size
        },
{
    let minutes: u64 = (if compaction_interval_min >= 2 {
        compaction_interval_min
    } else {
        2
    }) - 1;
    let needed: u64 = total_size / minutes / 60;
    let floor: u64 = minutes * 60;
    let rate: u64 = if needed > floor {
        needed
    } else {
        floor
    };
    assert((rate + 1) * (60 * minutes) > total_size) by (nonlinear_arith)
        requires
            minutes > 0,
            needed == total_size / minutes / 60,
            rate >= needed,
    ;
    if rate < MAX_THROTTLE_BYTES_PER_SEC {
        Some(rate)
    } else {
        None
    }
}

/// Bytes from the first to the last block of a group in its source object.
pub open spec fn span(group: Seq<StreamDataBlock>) -> int {
    group.last().index.end_pos() - group[0].index.start_position
}

/// A group that a batch can measure: not empty, and in position order.
pub open spec fn measurable(group: Seq<StreamDataBlock>) -> bool {
    group.len() > 0 && group.last().index.valid() && span(group) >= 0
}

/// Where a batch of groups ends that begins before `i` and has read `read` bytes: before
/// the first group that would take it above the cache, but never before its first group.
pub open spec fn batch_end(
    groups: Seq<Seq<StreamDataBlock>>,
    first: int,
    i: int,
    read: int,
    cache: u64,
) -> int
    decreases groups.len() - i,
{
    if i < 0 || i >= groups.len() || (i > first && read + span(groups[i]) > cache) {
        i
    } else {
        batch_end(groups, first, i + 1, read + span(groups[i]), cache)
    }
}

/// The id of an object of a batch whose ids were prepared together, the first of them first.
pub fn split_object_id(first: u64, i: usize) -> (r: u64)
    requires
        first + i <= u64::MAX,
    ensures
        r == first + i,
{
    first + i as u64
}

/// The end of the next batch of groups to split out together.
pub fn next_split_batch(groups: &Vec<Vec<StreamDataBlock>>, first: usize, cache: u64) -> (r: usize)
    requires
        first < groups@.len(),
        forall|k: int| 0 <= k < groups@.len() ==> measurable(#[trigger] groups@[k]@),
    ensures
        r == batch_end(group_views(groups@), first as int, first as int, 0, cache),
        first < r <= groups@.len(),
{
    let ghost views = group_views(groups@);
    let ghost goal = batch_end(views, first as int, first as int, 0, cache);
    let mut read: u64 = 0;
    let mut i: usize = first;
    while i < groups.len()
        invariant
            first <= i <= groups@.len(),
            first < groups@.len(),
            views == group_views(groups@),
            forall|k: int| 0 <= k < groups@.len() ==> measurable(#[trigger] groups@[k]@),
            goal == batch_end(views, first as int, first as int, 0, cache),
            goal == batch_end(views, first as int, i as int, read as int, cache),
            i == first ==> read == 0,
        decreases groups@.len() - i,
    {
        let group = &groups[i];
        proof {
            assert(measurable(groups@[i as int]@));
            assert(views[i as int] == group@);
        }
        let size: u64 = group[group.len() - 1].index.end_position()
            - group[0].block_start_position();
        if i > first && (size > cache || read > cache - size) {
            return i;
        }
        assert(i == first ==> read == 0);
        read = read + size;
        i += 1;
    }
    i
}

/// Sort keys that put the newest data first.
pub open spec fn newest_first(objects: Seq<ObjectModel>) -> Seq<(u64, u64)> {
    objects.map_values(|m: ObjectModel| ((i64::MAX - m.data_timestamp_ms) as u64, 0u64))
}

/// The newest objects, at most `max` of them, newest first.
pub open spec fn is_newest(
    objects: Seq<ObjectModel>,
    max: usize,
    r: Seq<ObjectModel>,
) -> bool {
    exists|perm: Seq<usize>| #[trigger]
        is_stable_order(newest_first(objects), perm) && r == (if objects.len() <= max {
            arranged(objects, perm)
        } else {
            arranged(objects, perm).take(max as int)
        })
}

/// Orders objects by age of their data, newest first, and keeps at most `max`. Also says
/// whether any were left behind.
pub fn select_newest(objects: &Vec<S3ObjectMetadata>, max: usize) -> (r: (
    Vec<S3ObjectMetadata>,
    bool,
))
    ensures
        is_newest(object_models(objects@), max, object_models(r.0@)),
        r.1 <==> objects@.len() > max,
{
    let ghost models = object_models(objects@);
    let mut keys: Vec<(u64, u64)> = Vec::new();
    let mut i: usize = 0;
    while i < objects.len()
        invariant
            i <= objects@.len(),
            models == object_models(objects@),
            keys@ =~= newest_first(models).take(i as int),
        decreases objects@.len() - i,
    {
        let age: i128 = i64::MAX as i128 - objects[i].data_timestamp_ms as i128;
        keys.push((age as u64, 0));
        i += 1;
    }
    assert(keys@ =~= newest_first(models));
    let perm = stable_order(&keys);
    let mut out: Vec<S3ObjectMetadata> = Vec::new();
    let mut n: usize = 0;
    while n < perm.len() && n < max
        invariant
            n <= perm@.len(),
            n <= max,
            models == object_models(objects@),
            keys@.len() == objects@.len(),
            is_stable_order(keys@, perm@),
            out@.len() == n,
            forall|j: int| 0 <= j < n ==> (#[trigger] out@[j])@ == models[perm@[j] as int],
        decreases perm@.len() - n,
    {
        assert(perm@[n as int] < keys@.len());
        out.push(objects[perm[n]].clone());
        n += 1;
    }
    proof {
        if objects@.len() <= max {
            assert(object_models(out@) =~= arranged(models, perm@));
        } else {
            assert(object_models(out@) =~= arranged(models, perm@).take(max as int));
        }
    }
    (out, objects.len() > max)
}


/// The entries of `m` for the objects of a list.
pub open spec fn is_selection(
    m: Map<u64, Vec<StreamDataBlock>>,
    objects: Seq<ObjectModel>,
    part: Map<u64, Vec<StreamDataBlock>>,
) -> bool {
    &&& forall|k: u64| #[trigger]
        part.contains_key(k) <==> m.contains_key(k) && has_object(objects, k)
    &&& forall|k: u64| #[trigger] part.contains_key(k) ==> part[k]@ == m[k]@
}

/// Copies the entries of the objects of a list.
fn select_blocks(
    block_map: &HashMap<u64, Vec<StreamDataBlock>>,
    objects: &Vec<S3ObjectMetadata>,
) -> (r: HashMap<u64, Vec<StreamDataBlock>>)
    ensures
        is_selection(block_map@, object_models(objects@), r@),
{
    broadcast use vstd::std_specs::hash::group_hash_axioms;

    let ghost models = object_models(objects@);
    let mut out: HashMap<u64, Vec<StreamDataBlock>> = HashMap::new();
    let mut i: usize = 0;
    while i < objects.len()
        invariant
            i <= objects@.len(),
            models == object_models(objects@),
            is_selection(block_map@, models.take(i as int), out@),
        decreases objects@.len() - i,
    {
        let id: u64 = objects[i].object_id;
        let ghost before = out@;
        proof {
            assert(models.take(i + 1) =~= models.take(i as int).push(objects@[i as int]@));
            assert forall|k: u64| #[trigger] has_object(models.take(i + 1), k) <==> has_object(
                models.take(i as int),
                k,
            ) || k == id by {
                lemma_has_object_push(models.take(i as int), objects@[i as int]@, k);
            }
        }
        match block_map.get(&id) {
            Some(blocks) => {
                let copy = blocks.clone();
                assert(copy@ =~= blocks@);
                out.insert(id, copy);
            },
            None => {},
        }
        proof {
            assert forall|k: u64| #[trigger] out@.contains_key(k) <==> block_map@.contains_key(k)
                && has_object(models.take(i + 1), k) by {
                assert(has_object(models.take(i + 1), k) <==> has_object(
                    models.take(i as int),
                    k,
                ) || k == id);
                if k != id {
                    assert(out@.contains_key(k) <==> before.contains_key(k));
                }
            }
            assert forall|k: u64| #[trigger] out@.contains_key(k) implies out@[k]@
                == block_map@[k]@ by {
                if k != id {
                    assert(before.contains_key(k));
                }
            }
        }
        i += 1;
    }
    assert(models.take(i as int) =~= models);
    out
}

proof fn lemma_has_object_push(objects: Seq<ObjectModel>, m: ObjectModel, k: u64)
    ensures
        has_object(objects.push(m), k) <==> has_object(objects, k) || m.object_id == k,
{
    let now = objects.push(m);
    if has_object(objects, k) {
        let i = choose|i: int| 0 <= i < objects.len() && (#[trigger] objects[i]).object_id == k;
        assert(now[i].object_id == k);
    }
    if m.object_id == k {
        assert(now[objects.len() as int].object_id == k);
    }
    if has_object(now, k) {
        let i = choose|i: int| 0 <= i < now.len() && (#[trigger] now[i]).object_id == k;
        if i < objects.len() {
            assert(objects[i].object_id == k);
        }
    }
}

/// What can be planned from a map can be planned from a selection of it.
proof fn lemma_selection_plannable(
    a: CompactionAnalyzer,
    m: Map<u64, Vec<StreamDataBlock>>,
    objects: Seq<ObjectModel>,
    part: Map<u64, Vec<StreamDataBlock>>,
)
    requires
        map_is_plannable(a, m),
        is_selection(m, objects, part),
    ensures
        map_is_plannable(a, part),
{
    assert forall|k: u64, b: StreamDataBlock| #[trigger]
        part[k]@.contains(b) && part.dom().contains(k) implies b.index.valid() && b.index.size
        <= a.cache_size() by {
        assert(part.contains_key(k));
        assert(m[k]@.contains(b));
    }
    assert forall|sub: Map<u64, Vec<StreamDataBlock>>, flat: Seq<StreamDataBlock>|
        sub.submap_of(part) && #[trigger] is_flattening(sub, flat) implies sizes(flat)
        <= u64::MAX by {
        let same = m.restrict(sub.dom());
        assert forall|k: u64| #[trigger] sub.dom().contains(k) implies m.dom().contains(k)
            && sub[k]@ == m[k]@ by {
            assert(part.dom().contains(k) && part[k] == sub[k]);
            assert(part.contains_key(k));
        }
        assert(same.submap_of(m));
        let keys = choose|keys: Seq<u64>| #[trigger]
            lists_keys(sub, keys) && flat == concat_of(sub, keys);
        assert(lists_keys(same, keys)) by {
            assert forall|k: u64| #[trigger] keys.contains(k) <==> same.dom().contains(k) by {
                assert(keys.contains(k) <==> sub.dom().contains(k));
            }
        }
        assert forall|i: int| 0 <= i < keys.len() implies sub[#[trigger] keys[i]]@
            == same[keys[i]]@ by {
            assert(keys.contains(keys[i]));
            assert(sub.dom().contains(keys[i]));
        }
        lemma_concat_same(sub, same, keys);
        assert(is_flattening(same, flat));
    }
}

proof fn lemma_concat_same(
    a: Map<u64, Vec<StreamDataBlock>>,
    b: Map<u64, Vec<StreamDataBlock>>,
    keys: Seq<u64>,
)
    requires
        forall|i: int| 0 <= i < keys.len() ==> a[#[trigger] keys[i]]@ == b[keys[i]]@,
    ensures
        concat_of(a, keys) == concat_of(b, keys),
    decreases keys.len(),
{
    if keys.len() > 0 {
        let rest = keys.drop_last();
        assert forall|i: int| 0 <= i < rest.len() implies a[#[trigger] rest[i]]@ == b[rest[i]]@ by {
            assert(keys[i] == rest[i]);
        }
        assert(a[keys[keys.len() - 1]]@ == b[keys[keys.len() - 1]]@);
        lemma_concat_same(a, b, rest);
    }
}

/// The objects that were not left out.
pub open spec fn included(objects: Seq<ObjectModel>, excluded: Set<u64>) -> Seq<ObjectModel> {
    objects.filter(|m: ObjectModel| !excluded.contains(m.object_id))
}

fn retain_included(objects: &Vec<S3ObjectMetadata>, excluded: &HashSet<u64>) -> (r: Vec<
    S3ObjectMetadata,
>)
    ensures
        object_models(r@) == included(object_models(objects@), excluded@),
{
    broadcast use vstd::std_specs::hash::group_hash_axioms;

    let ghost models = object_models(objects@);
    let ghost p = |m: ObjectModel| !excluded@.contains(m.object_id);
    let mut out: Vec<S3ObjectMetadata> = Vec::new();
    let mut i: usize = 0;
    proof {
        assert(models.take(0) =~= Seq::empty());
        assert(models.take(0).filter(p) =~= Seq::empty());
        assert(object_models(out@) =~= Seq::empty());
    }
    while i < objects.len()
        invariant
            i <= objects@.len(),
            models == object_models(objects@),
            p == (|m: ObjectModel| !excluded@.contains(m.object_id)),
            object_models(out@) == models.take(i as int).filter(p),
        decreases objects@.len() - i,
    {
        let ghost m = objects@[i as int]@;
        let ghost before = object_models(out@);
        proof {
            assert(models.take(i + 1) =~= models.take(i as int).push(m));
            models.take(i as int).lemma_filter_push(m, p);
        }
        if !excluded.contains(&objects[i].object_id) {
            let copy = objects[i].clone();
            out.push(copy);
            assert(object_models(out@) =~= before.push(m));
        }
        i += 1;
    }
    assert(models.take(i as int) =~= models);
    out
}

/// The blocks that the plans write to the stream set object, in order.
pub open spec fn set_blocks_of_plans(stages: Seq<Seq<Planned>>) -> Seq<StreamDataBlock>
    decreases stages.len(),
{
    if stages.len() == 0 {
        Seq::empty()
    } else {
        set_blocks_of_plans(stages.drop_last()) + set_blocks(stages.last())
    }
}

fn collect_set_blocks(plans: &Vec<CompactionPlan>) -> (r: Vec<StreamDataBlock>)
    ensures
        r@ == set_blocks_of_plans(plan_views(plans@)),
{
    let ghost views = plan_views(plans@);
    let mut out: Vec<StreamDataBlock> = Vec::new();
    let mut i: usize = 0;
    assert(views.take(0) =~= Seq::empty());
    while i < plans.len()
        invariant
            i <= plans@.len(),
            views == plan_views(plans@),
            out@ == set_blocks_of_plans(views.take(i as int)),
        decreases plans@.len() - i,
    {
        let objects = &plans[i].compacted_objects;
        let ghost stage = object_views(objects@);
        let ghost before = out@;
        proof {
            assert(views[i as int] == plans@[i as int].objects());
            assert(views.take(i + 1).drop_last() =~= views.take(i as int));
            assert(stage.take(0) =~= Seq::empty());
            assert(before + set_blocks(Seq::empty()) =~= before);
        }
        let mut j: usize = 0;
        while j < objects.len()
            invariant
                j <= objects@.len(),
                stage == object_views(objects@),
                out@ == before + set_blocks(stage.take(j as int)),
            decreases objects@.len() - j,
        {
            proof {
                assert(stage[j as int] == objects@[j as int].planned());
                assert(stage.take(j + 1).drop_last() =~= stage.take(j as int));
            }
            let ghost have = out@;
            if matches!(objects[j].compaction_type, CompactionType::Compact) {
                out.extend_from_slice(objects[j].blocks.as_slice());
                assert(out@ =~= have + objects@[j as int].blocks@);
                assert(out@ =~= before + set_blocks(stage.take(j + 1)));
            }
            j += 1;
        }
        assert(stage.take(j as int) =~= stage);
        i += 1;
    }
    assert(views.take(i as int) =~= views);
    out
}

proof fn lemma_set_blocks_bytes(stages: Seq<Seq<Planned>>)
    ensures
        sizes(set_blocks_of_plans(stages)) <= sizes(stage_blocks(stages)),
        forall|b: StreamDataBlock| #[trigger]
            set_blocks_of_plans(stages).contains(b) ==> stage_blocks(stages).contains(b),
    decreases stages.len(),
{
    if stages.len() > 0 {
        let rest = stages.drop_last();
        let last = stages.last();
        lemma_set_blocks_bytes(rest);
        lemma_stage_set_bytes(last);
        lemma_sizes_add(set_blocks_of_plans(rest), set_blocks(last));
        lemma_sizes_add(stage_blocks(rest), planned_blocks(last));
        assert forall|b: StreamDataBlock| #[trigger]
            set_blocks_of_plans(stages).contains(b) implies stage_blocks(stages).contains(b) by {
            vstd::seq_lib::lemma_seq_concat_contains_all_elements(
                set_blocks_of_plans(rest),
                set_blocks(last),
                b,
            );
            vstd::seq_lib::lemma_seq_concat_contains_all_elements(
                stage_blocks(rest),
                planned_blocks(last),
                b,
            );
            if set_blocks(last).contains(b) {
                assert(planned_blocks(last).contains(b));
            }
        }
    }
}

proof fn lemma_stage_set_bytes(objects: Seq<Planned>)
    ensures
        sizes(set_blocks(objects)) <= sizes(planned_blocks(objects)),
        forall|b: StreamDataBlock| #[trigger]
            set_blocks(objects).contains(b) ==> planned_blocks(objects).contains(b),
    decreases objects.len(),
{
    if objects.len() > 0 {
        let rest = objects.drop_last();
        let last = objects.last().blocks;
        lemma_stage_set_bytes(rest);
        lemma_sizes_add(set_blocks(rest), last);
        lemma_sizes_add(planned_blocks(rest), last);
        lemma_sizes_nonneg(last);
        assert forall|b: StreamDataBlock| #[trigger] set_blocks(objects).contains(
            b,
        ) implies planned_blocks(objects).contains(b) by {
            vstd::seq_lib::lemma_seq_concat_contains_all_elements(set_blocks(rest), last, b);
            vstd::seq_lib::lemma_seq_concat_contains_all_elements(planned_blocks(rest), last, b);
            if set_blocks(rest).contains(b) {
                assert(planned_blocks(rest).contains(b));
            }
        }
    }
}

/// A plan reads a block of the object.
pub open spec fn plan_consumes(plans: Seq<CompactionPlan>, id: u64) -> bool {
    exists|i: int, b: StreamDataBlock|
        0 <= i < plans.len() && #[trigger] in_map(plans[i].stream_data_blocks_map@, b)
            && b.object_id == id
}

/// An object is consumed by the round: a plan reads it, or no live block of it is left.
pub open spec fn is_consumed(
    plans: Seq<CompactionPlan>,
    to_compact: Map<u64, Vec<StreamDataBlock>>,
    id: u64,
) -> bool {
    plan_consumes(plans, id) || (to_compact.contains_key(id) && to_compact[id]@.len() == 0)
}

/// The objects that the round consumes, ascending.
fn consumed_ids(
    plans: &Vec<CompactionPlan>,
    to_compact: &HashMap<u64, Vec<StreamDataBlock>>,
) -> (r: Vec<u64>)
    ensures
        ascending(r@),
        forall|id: u64| #[trigger]
            r@.contains(id) <==> is_consumed(plans@, to_compact@, id),
{
    broadcast use vstd::std_specs::btree::group_btree_axioms;
    broadcast use vstd::std_specs::hash::group_hash_axioms;

    let mut ids: BTreeMap<u64, bool> = BTreeMap::new();
    let mut i: usize = 0;
    while i < plans.len()
        invariant
            i <= plans@.len(),
            forall|id: u64| #[trigger]
                ids@.contains_key(id) <==> plan_consumes(plans@.take(i as int), id),
        decreases plans@.len() - i,
    {
        let map = &plans[i].stream_data_blocks_map;
        let keys = tree_keys(map);
        let ghost ids0 = ids@;
        let ghost seen = plans@.take(i as int);
        let mut k: usize = 0;
        while k < keys.len()
            invariant
                k <= keys@.len(),
                lists_keys(map@, keys@),
                forall|id: u64| #[trigger]
                    ids@.contains_key(id) <==> ids0.contains_key(id) || exists|n: int, j: int|
                        #![trigger map@[keys@[n]]@[j]]
                        0 <= n < k && 0 <= j < map@[keys@[n]]@.len()
                            && map@[keys@[n]]@[j].object_id == id,
            decreases keys@.len() - k,
        {
            assert(keys@.contains(keys@[k as int]));
            match map.get(&keys[k]) {
                Some(blocks) => {
                    let ghost ids1 = ids@;
                    let mut j: usize = 0;
                    while j < blocks.len()
                        invariant
                            j <= blocks@.len(),
                            forall|id: u64| #[trigger]
                                ids@.contains_key(id) <==> ids1.contains_key(id) || exists|m: int|
                                    0 <= m < j && (#[trigger] blocks@[m]).object_id == id,
                        decreases blocks@.len() - j,
                    {
                        let ghost ids2 = ids@;
                        let id: u64 = blocks[j].object_id;
                        ids.insert(id, true);
                        proof {
                            assert(blocks@[j as int].object_id == id);
                            assert forall|x: u64| #[trigger]
                                ids@.contains_key(x) <==> ids1.contains_key(x) || exists|m: int|
                                0 <= m < j + 1 && (#[trigger] blocks@[m]).object_id == x by {
                                assert(ids@.contains_key(x) <==> ids2.contains_key(x) || x == id);
                                if exists|m: int| 0 <= m < j && (#[trigger] blocks@[m]).object_id
                                    == x {
                                    let m = choose|m: int|
                                        0 <= m < j && (#[trigger] blocks@[m]).object_id == x;
                                    assert(0 <= m < j + 1 && blocks@[m].object_id == x);
                                }
                            }
                        }
                        j += 1;
                    }
                    proof {
                        assert(*blocks == map@[keys@[k as int]]);
                        assert forall|x: u64| #[trigger]
                            ids@.contains_key(x) <==> ids0.contains_key(x) || exists|n: int, j: int|
                            #![trigger map@[keys@[n]]@[j]]
                            0 <= n < k + 1 && 0 <= j < map@[keys@[n]]@.len()
                                && map@[keys@[n]]@[j].object_id == x by {
                            if exists|m: int| 0 <= m < j && (#[trigger] blocks@[m]).object_id == x {
                                let m = choose|m: int|
                                    0 <= m < j && (#[trigger] blocks@[m]).object_id == x;
                                assert(map@[keys@[k as int]]@[m].object_id == x);
                            }
                            if exists|n: int, j: int|
                                #![trigger map@[keys@[n]]@[j]]
                                0 <= n < k + 1 && 0 <= j < map@[keys@[n]]@.len()
                                    && map@[keys@[n]]@[j].object_id == x {
                                let (n, m) = choose|n: int, j: int|
                                    #![trigger map@[keys@[n]]@[j]]
                                    0 <= n < k + 1 && 0 <= j < map@[keys@[n]]@.len()
                                        && map@[keys@[n]]@[j].object_id == x;
                                if n == k {
                                    assert(blocks@[m].object_id == x);
                                } else {
                                    assert(map@[keys@[n]]@[m].object_id == x);
                                    assert(ids1.contains_key(x));
                                }
                            }
                        }
                    }
                },
                None => {
                    assert(false);
                },
            }
            k += 1;
        }
        proof {
            let now = plans@.take(i + 1);
            assert(now =~= seen.push(plans@[i as int]));
            assert forall|x: u64| #[trigger] ids@.contains_key(x) <==> plan_consumes(now, x) by {
                if ids0.contains_key(x) {
                    let (n, b) = choose|n: int, b: StreamDataBlock|
                        0 <= n < seen.len() && #[trigger] in_map(
                            seen[n].stream_data_blocks_map@,
                            b,
                        ) && b.object_id == x;
                    assert(now[n] == seen[n]);
                    assert(in_map(now[n].stream_data_blocks_map@, b));
                } else if ids@.contains_key(x) {
                    let (n, j) = choose|n: int, j: int|
                        #![trigger map@[keys@[n]]@[j]]
                        0 <= n < k && 0 <= j < map@[keys@[n]]@.len() && map@[keys@[n]]@[j].object_id
                            == x;
                    let b = map@[keys@[n]]@[j];
                    assert(keys@.contains(keys@[n]));
                    assert(map@.dom().contains(keys@[n]));
                    assert(map@[keys@[n]]@.contains(b));
                    assert(in_map(map@, b));
                    assert(now[i as int] == plans@[i as int]);
                    assert(in_map(now[i as int].stream_data_blocks_map@, b));
                }
                if plan_consumes(now, x) {
                    let (n, b) = choose|n: int, b: StreamDataBlock|
                        0 <= n < now.len() && #[trigger] in_map(
                            now[n].stream_data_blocks_map@,
                            b,
                        ) && b.object_id == x;
                    if n < i {
                        assert(seen[n] == now[n]);
                        assert(in_map(seen[n].stream_data_blocks_map@, b));
                    } else {
                        let key = choose|key: u64| #[trigger]
                            map@.dom().contains(key) && map@[key]@.contains(b);
                        assert(keys@.contains(key));
                        let a = choose|a: int| 0 <= a < keys@.len() && keys@[a] == key;
                        let j = choose|j: int| 0 <= j < map@[key]@.len() && map@[key]@[j] == b;
                        assert(map@[keys@[a]]@[j].object_id == x);
                    }
                }
            }
        }
        i += 1;
    }
    assert(plans@.take(i as int) =~= plans@);
    let keys = hash_keys(to_compact);
    let mut n: usize = 0;
    while n < keys.len()
        invariant
            n <= keys@.len(),
            lists_keys(to_compact@, keys@),
            forall|id: u64| #[trigger]
                ids@.contains_key(id) <==> plan_consumes(plans@, id) || (keys@.take(
                    n as int,
                ).contains(id) && to_compact@[id]@.len() == 0),
        decreases keys@.len() - n,
    {
        let key: u64 = keys[n];
        let ghost ids0 = ids@;
        proof {
            assert(keys@.contains(keys@[n as int]));
            assert(keys@.take(n + 1) =~= keys@.take(n as int).push(key));
        }
        match to_compact.get(&key) {
            Some(blocks) => {
                if blocks.len() == 0 {
                    ids.insert(key, true);
                }
            },
            None => {
                assert(false);
            },
        }
        proof {
            assert forall|x: u64| #[trigger] ids@.contains_key(x) <==> plan_consumes(plans@, x) || (
            keys@.take(n + 1).contains(x) && to_compact@[x]@.len() == 0) by {
                vstd::seq_lib::lemma_seq_contains_after_push(keys@.take(n as int), key, x);
                assert(ids0.contains_key(x) <==> plan_consumes(plans@, x) || (keys@.take(
                    n as int,
                ).contains(x) && to_compact@[x]@.len() == 0));
            }
        }
        n += 1;
    }
    let r = tree_keys(&ids);
    proof {
        assert(keys@.take(n as int) =~= keys@);
        assert forall|id: u64| #[trigger] r@.contains(id) <==> is_consumed(
            plans@,
            to_compact@,
            id,
        ) by {
            assert(r@.contains(id) <==> ids@.dom().contains(id));
            assert(ids@.dom().contains(id) <==> ids@.contains_key(id));
            assert(keys@.contains(id) <==> to_compact@.dom().contains(id));
        }
    }
    r
}

/// What was written of the stream set object: none, if no plan writes one.
#[derive(Debug, Clone, Copy, PartialEq, Eq, Structural)]
pub struct WrittenSetObject {
    pub object_id: Option<u64>,
    pub object_size: u64,
    pub attributes: u32,
}

/// How a round ends.
#[derive(Debug)]
pub enum RoundOutcome {
    /// Nothing was consumed.
    Nothing,
    /// Committing would lose live data.
    Illegal,
    /// To be committed.
    Commit(CommitStreamSetObjectRequest),
}

/// One round of stream set compaction.
#[derive(Debug)]
pub struct CompactionRound {
    pub objects: Vec<S3ObjectMetadata>,
    pub to_compact: HashMap<u64, Vec<StreamDataBlock>>,
    pub plans: Vec<CompactionPlan>,
    pub has_remaining: bool,
}

/// The plan builder that a configuration asks for.
pub open spec fn is_analyzer_of(a: CompactionAnalyzer, config: CompactionConfig) -> bool {
    &&& a.cache_size() == config.compaction_cache_size
    &&& a.split_size() == config.stream_split_size
    &&& a.max_set_streams() == config.max_stream_num_per_stream_set_object
    &&& a.max_stream_objects() == config.max_stream_object_num_per_commit
}

/// Two maps hold the same lists of blocks.
pub open spec fn same_blocks(
    a: Map<u64, Vec<StreamDataBlock>>,
    b: Map<u64, Vec<StreamDataBlock>>,
) -> bool {
    &&& a.dom() == b.dom()
    &&& forall|k: u64| #[trigger] a.contains_key(k) ==> a[k]@ == b[k]@
}

/// The request that a round commits.
pub open spec fn is_request_of(
    round: CompactionRound,
    set_object: WrittenSetObject,
    stream_objects: Seq<StreamObject>,
    req: CommitStreamSetObjectRequest,
) -> bool {
    &&& ascending(req.compacted_object_ids@)
    &&& forall|id: u64| #[trigger]
        req.compacted_object_ids@.contains(id) <==> is_consumed(
            round.plans@,
            round.to_compact@,
            id,
        )
    &&& req.stream_objects@ == stream_objects
    &&& exists|p: GroupByOffsetPredicate| #[trigger]
        p.fresh() && req.stream_ranges@ == stream_ranges_of(
            groups_of(p, set_blocks_of_plans(plan_views(round.plans@))),
        )
    &&& if round.plans@.len() == 0 {
        req.object_id == NOOP_OBJECT_ID && req.object_size == 0 && req.attributes == 0
    } else {
        &&& req.object_id == match set_object.object_id {
            Some(id) => id,
            None => NOOP_OBJECT_ID,
        }
        &&& req.object_size == set_object.object_size
        &&& req.attributes == set_object.attributes
    }
}

impl CompactionRound {
    /// The plans are numbered in order, each reads what it writes, and what they write are
    /// blocks of the selected objects.
    pub open spec fn wf(&self) -> bool {
        &&& map_valid(self.to_compact@)
        &&& plans_ok(self.plans@)
        &&& comes_from(self.to_compact@, stage_blocks(plan_views(self.plans@)))
        &&& sizes(stage_blocks(plan_views(self.plans@))) <= u64::MAX
    }

    /// Begins a round: takes the newest objects up to the configured number, and plans
    /// the compaction of their blocks. Objects that the plan left out take no further
    /// part.
    pub fn begin(
        config: &CompactionConfig,
        objects: &Vec<S3ObjectMetadata>,
        block_map: &HashMap<u64, Vec<StreamDataBlock>>,
    ) -> (r: Self)
        requires
            forall|a: CompactionAnalyzer| #[trigger]
                is_analyzer_of(a, *config) ==> map_is_plannable(a, block_map@),
        ensures
            r.wf(),
            plans_ok(r.plans@),
            r.has_remaining <==> objects@.len() > config.max_object_num_to_compact,
            exists|
                chosen: Seq<ObjectModel>,
                excluded: Set<u64>,
                a: CompactionAnalyzer,
                m: Map<u64, Vec<StreamDataBlock>>,
            |
                {
                    &&& #[trigger] is_newest(
                        object_models(objects@),
                        config.max_object_num_to_compact,
                        chosen,
                    )
                    &&& is_selection(block_map@, chosen, r.to_compact@)
                    &&& object_models(r.objects@) == #[trigger] included(chosen, excluded)
                    &&& is_analyzer_of(a, *config)
                    &&& same_blocks(m, r.to_compact@)
                    &&& #[trigger] is_analysis(
                        a,
                        m,
                        Set::empty(),
                        excluded,
                        plan_views(r.plans@),
                    )
                },
    {
        let (chosen, has_remaining) = select_newest(objects, config.max_object_num_to_compact);
        let to_compact = select_blocks(block_map, &chosen);
        let analyzer = config.analyzer();
        let ghost models = object_models(chosen@);
        proof {
            assert(map_is_plannable(analyzer, block_map@));
            lemma_selection_plannable(analyzer, block_map@, models, to_compact@);
        }
        let mut excluded: HashSet<u64> = HashSet::new();
        let copy = copy_map(&to_compact);
        let ghost part = to_compact@;
        proof {
            lemma_same_views_plannable(analyzer, part, copy@);
        }
        let plans = analyzer.analyze(copy, &mut excluded);
        proof {
            assert forall|b: StreamDataBlock| #[trigger]
                stage_blocks(plan_views(plans@)).contains(b) implies in_map(part, b) by {
                assert(in_map(copy@, b));
                let k = choose|k: u64| #[trigger] copy@.dom().contains(k) && copy@[k]@.contains(b);
                assert(copy@.contains_key(k));
                assert(part.dom().contains(k) && part[k]@.contains(b));
            }
            assert forall|k: u64| #[trigger] part.contains_key(k) implies all_valid(part[k]@) by {
                assert forall|i: int| 0 <= i < part[k]@.len() implies (
                #[trigger] part[k]@[i]).index.valid() by {
                    assert(part[k]@.contains(part[k]@[i]));
                    assert(part.dom().contains(k));
                }
            }
        }
        let kept = retain_included(&chosen, &excluded);
        let r = CompactionRound { objects: kept, to_compact, plans, has_remaining };
        proof {
            assert(is_newest(object_models(objects@), config.max_object_num_to_compact, models));
            assert(is_selection(block_map@, models, r.to_compact@));
            assert(object_models(r.objects@) == included(models, excluded@));
            assert(is_analyzer_of(analyzer, *config));
            assert(same_blocks(copy@, r.to_compact@));
            assert(is_analysis(
                analyzer,
                copy@,
                Set::empty(),
                excluded@,
                plan_views(r.plans@),
            ));
        }
        r
    }

    /// Ends a round, once its plans were carried out: what to commit, if anything may be.
    pub fn complete(
        &self,
        streams: &Vec<StreamMetadata>,
        block_map: &HashMap<u64, Vec<StreamDataBlock>>,
        set_object: WrittenSetObject,
        stream_objects: Vec<StreamObject>,
    ) -> (r: RoundOutcome)
        requires
            self.wf(),
            map_valid(block_map@),
        ensures
            r matches RoundOutcome::Nothing <==> forall|id: u64|
                !(#[trigger] is_consumed(self.plans@, self.to_compact@, id)),
            r matches RoundOutcome::Commit(req) ==> {
                &&& is_request_of(*self, set_object, stream_objects@, req)
                &&& no_loss(streams@, block_map@, req)
                &&& keyed_by_object(self.to_compact@) ==> forall|id: u64| #[trigger]
                    req.compacted_object_ids@.contains(id) ==> self.to_compact@.contains_key(id)
            },
            r matches RoundOutcome::Illegal ==> exists|req: CommitStreamSetObjectRequest|
                #[trigger] is_request_of(*self, set_object, stream_objects@, req) && !no_loss(
                    streams@,
                    block_map@,
                    req,
                ),
    {
        let ids = consumed_ids(&self.plans, &self.to_compact);
        if ids.len() == 0 {
            assert forall|id: u64| !(#[trigger] is_consumed(
                self.plans@,
                self.to_compact@,
                id,
            )) by {
                assert(!ids@.contains(id));
            }
            return RoundOutcome::Nothing;
        }
        assert(ids@.contains(ids@[0]));
        let blocks = collect_set_blocks(&self.plans);
        let mut predicate = GroupByOffsetPredicate::new();
        let ghost p = predicate;
        proof {
            let stages = plan_views(self.plans@);
            lemma_set_blocks_bytes(stages);
            assert forall|i: int| 0 <= i < blocks@.len() implies (
            #[trigger] blocks@[i]).index.valid() by {
                assert(blocks@.contains(blocks@[i]));
                assert(stage_blocks(stages).contains(blocks@[i]));
                assert(in_map(self.to_compact@, blocks@[i]));
                let k = choose|k: u64| #[trigger]
                    self.to_compact@.dom().contains(k) && self.to_compact@[k]@.contains(blocks@[i]);
                assert(self.to_compact@.contains_key(k));
                let j = choose|j: int|
                    0 <= j < self.to_compact@[k]@.len() && self.to_compact@[k]@[j] == blocks@[i];
                assert(self.to_compact@[k]@[j].index.valid());
            }
        }
        let groups = group_stream_data_blocks(&blocks, &mut predicate);
        proof {
            if blocks@.len() > 0 {
                lemma_offset_step(p, blocks@[0]);
            }
            law_grouping_keeps_blocks(p, blocks@);
            let views = group_views(groups@);
            lemma_joined_parts(views);
            assert forall|k: int| 0 <= k < groups@.len() implies all_valid(
                #[trigger] groups@[k]@,
            ) && sizes(groups@[k]@) <= u64::MAX by {
                assert(views[k] == groups@[k]@);
            }
        }
        let stream_ranges = build_object_stream_ranges_from_group(&groups);
        let mut request = CommitStreamSetObjectRequest::empty(NOOP_OBJECT_ID);
        request.stream_ranges = stream_ranges;
        request.stream_objects = stream_objects;
        request.compacted_object_ids = ids;
        if self.plans.len() > 0 {
            request.object_id = match set_object.object_id {
                Some(id) => id,
                None => NOOP_OBJECT_ID,
            };
            request.object_size = set_object.object_size;
            request.attributes = set_object.attributes;
        }
        assert(p.fresh());
        assert(is_request_of(*self, set_object, stream_objects@, request));
        proof {
            if keyed_by_object(self.to_compact@) {
                assert forall|id: u64| #[trigger]
                    request.compacted_object_ids@.contains(id) implies self.to_compact@.contains_key(
                    id,
                ) by {
                    lemma_consumed_is_selected(*self, id);
                }
            }
        }
        if is_sanity_check_failed(streams, block_map, &request) {
            RoundOutcome::Illegal
        } else {
            RoundOutcome::Commit(request)
        }
    }
}

/// Every block stands under the id of its own object.
pub open spec fn keyed_by_object(m: Map<u64, Vec<StreamDataBlock>>) -> bool {
    forall|k: u64, i: int|
        #![trigger m[k]@[i]]
        m.contains_key(k) && 0 <= i < m[k]@.len() ==> m[k]@[i].object_id == k
}

proof fn lemma_plan_is_staged(stages: Seq<Seq<Planned>>, i: int, b: StreamDataBlock)
    requires
        0 <= i < stages.len(),
        planned_blocks(stages[i]).contains(b),
    ensures
        stage_blocks(stages).contains(b),
    decreases stages.len(),
{
    let rest = stages.drop_last();
    vstd::seq_lib::lemma_seq_concat_contains_all_elements(
        stage_blocks(rest),
        planned_blocks(stages.last()),
        b,
    );
    if i < rest.len() {
        assert(rest[i] == stages[i]);
        lemma_plan_is_staged(rest, i, b);
    }
}

/// What a plan reads is what it writes.
proof fn lemma_read_is_written(plan: CompactionPlan, b: StreamDataBlock)
    requires
        plan.reads_what_it_writes(),
        in_map(plan.stream_data_blocks_map@, b),
    ensures
        planned_blocks(plan.objects()).contains(b),
{
    let blocks = planned_blocks(plan.objects());
    let reads = plan.stream_data_blocks_map@;
    let perm = choose|perm: Seq<usize>|
        {
            &&& #[trigger] is_stable_order(position_keys(blocks), perm)
            &&& groups_by_object(arranged(blocks, perm), reads)
        };
    let all = arranged(blocks, perm);
    let k = choose|k: u64| #[trigger] reads.dom().contains(k) && reads[k]@.contains(b);
    assert(reads.contains_key(k));
    let own = |x: StreamDataBlock| x.object_id == k;
    assert(all.filter(own).contains(b));
    all.lemma_filter_contains_rev(own, b);
    let j = choose|j: int| 0 <= j < all.len() && all[j] == b;
    assert(blocks[perm[j] as int] == b);
}

proof fn lemma_consumed_is_selected(round: CompactionRound, id: u64)
    requires
        round.wf(),
        keyed_by_object(round.to_compact@),
        is_consumed(round.plans@, round.to_compact@, id),
    ensures
        round.to_compact@.contains_key(id),
{
    if plan_consumes(round.plans@, id) {
        let (i, b) = choose|i: int, b: StreamDataBlock|
            0 <= i < round.plans@.len() && #[trigger] in_map(
                round.plans@[i].stream_data_blocks_map@,
                b,
            ) && b.object_id == id;
        lemma_read_is_written(round.plans@[i], b);
        let stages = plan_views(round.plans@);
        assert(stages[i] == round.plans@[i].objects());
        lemma_plan_is_staged(stages, i, b);
        let m = round.to_compact@;
        assert(in_map(m, b));
        let k = choose|k: u64| #[trigger] m.dom().contains(k) && m[k]@.contains(b);
        let j = choose|j: int| 0 <= j < m[k]@.len() && m[k]@[j] == b;
        assert(m[k]@[j].object_id == k);
    }
}

/// A commit names as compacted only objects that the round took: each has an entry among the
/// blocks that were given, and is one of the newest objects that were chosen.
pub proof fn law_commit_names_chosen_objects(
    round: CompactionRound,
    block_map: Map<u64, Vec<StreamDataBlock>>,
    chosen: Seq<ObjectModel>,
    set_object: WrittenSetObject,
    stream_objects: Seq<StreamObject>,
    req: CommitStreamSetObjectRequest,
)
    requires
        round.wf(),
        is_selection(block_map, chosen, round.to_compact@),
        keyed_by_object(block_map),
        is_request_of(round, set_object, stream_objects, req),
    ensures
        forall|id: u64| #[trigger]
            req.compacted_object_ids@.contains(id) ==> block_map.contains_key(id) && has_object(
                chosen,
                id,
            ),
{
    assert forall|k: u64, i: int|
        #![trigger round.to_compact@[k]@[i]]
        round.to_compact@.contains_key(k) && 0 <= i
            < round.to_compact@[k]@.len() implies round.to_compact@[k]@[i].object_id == k by {
        assert(block_map.contains_key(k));
        assert(block_map[k]@[i].object_id == k);
    }
    assert forall|id: u64| #[trigger]
        req.compacted_object_ids@.contains(id) implies block_map.contains_key(id) && has_object(
        chosen,
        id,
    ) by {
        lemma_consumed_is_selected(round, id);
    }
}

/// No live block of a compacted object is lost by the commit.
pub open spec fn no_loss(
    streams: Seq<StreamMetadata>,
    block_map: Map<u64, Vec<StreamDataBlock>>,
    req: CommitStreamSetObjectRequest,
) -> bool {
    forall|k: int, i: int|
        #![trigger block_map[req.compacted_object_ids@[k]]@[i]]
        0 <= k < req.compacted_object_ids@.len() && block_map.contains_key(
            req.compacted_object_ids@[k],
        ) && 0 <= i < block_map[req.compacted_object_ids@[k]]@.len() ==> !is_lost(
            streams,
            req,
            block_map[req.compacted_object_ids@[k]]@[i],
        )
}

proof fn lemma_joined_parts(groups: Seq<Seq<StreamDataBlock>>)
    requires
        all_valid(joined(groups)),
        sizes(joined(groups)) <= u64::MAX,
    ensures
        forall|k: int|
            0 <= k < groups.len() ==> all_valid(#[trigger] groups[k]) && sizes(groups[k])
                <= u64::MAX,
    decreases groups.len(),
{
    if groups.len() > 0 {
        let rest = groups.drop_last();
        let all = joined(groups);
        lemma_sizes_add(joined(rest), groups.last());
        lemma_sizes_nonneg(joined(rest));
        lemma_sizes_nonneg(groups.last());
        assert forall|i: int| 0 <= i < joined(rest).len() implies (
        #[trigger] joined(rest)[i]).index.valid() by {
            assert(all[i] == joined(rest)[i]);
        }
        lemma_joined_parts(rest);
        assert forall|i: int| 0 <= i < groups.last().len() implies (
        #[trigger] groups.last()[i]).index.valid() by {
            assert(all[joined(rest).len() + i] == groups.last()[i]);
        }
        assert forall|k: int| 0 <= k < groups.len() implies all_valid(#[trigger] groups[k])
            && sizes(groups[k]) <= u64::MAX by {
            if k < rest.len() {
                assert(rest[k] == groups[k]);
            }
        }
    }
}

/// Copies a map of blocks.
fn copy_map(m: &HashMap<u64, Vec<StreamDataBlock>>) -> (r: HashMap<u64, Vec<StreamDataBlock>>)
    ensures
        r@.dom() == m@.dom(),
        forall|k: u64| #[trigger] r@.contains_key(k) ==> r@[k]@ == m@[k]@,
{
    broadcast use vstd::std_specs::hash::group_hash_axioms;

    let keys = hash_keys(m);
    let mut out: HashMap<u64, Vec<StreamDataBlock>> = HashMap::new();
    let mut i: usize = 0;
    while i < keys.len()
        invariant
            i <= keys@.len(),
            lists_keys(m@, keys@),
            forall|k: u64| #[trigger]
                out@.contains_key(k) <==> keys@.take(i as int).contains(k),
            forall|k: u64| #[trigger] out@.contains_key(k) ==> out@[k]@ == m@[k]@,
        decreases keys@.len() - i,
    {
        let key: u64 = keys[i];
        let ghost before = out@;
        proof {
            assert(keys@.contains(keys@[i as int]));
            assert(keys@.take(i + 1) =~= keys@.take(i as int).push(key));
        }
        match m.get(&key) {
            Some(blocks) => {
                let copy = blocks.clone();
                assert(copy@ =~= blocks@);
                out.insert(key, copy);
            },
            None => {
                assert(false);
            },
        }
        proof {
            assert forall|k: u64| #[trigger] out@.contains_key(k) <==> keys@.take(
                i + 1,
            ).contains(k) by {
                vstd::seq_lib::lemma_seq_contains_after_push(keys@.take(i as int), key, k);
                assert(before.contains_key(k) <==> keys@.take(i as int).contains(k));
            }
            assert forall|k: u64| #[trigger] out@.contains_key(k) implies out@[k]@ == m@[k]@ by {
                if k != key {
                    assert(before.contains_key(k));
                }
            }
        }
        i += 1;
    }
    proof {
        assert(keys@.take(i as int) =~= keys@);
        assert forall|k: u64| #[trigger] out@.dom().contains(k) <==> m@.dom().contains(k) by {
            assert(out@.contains_key(k) <==> keys@.contains(k));
        }
        assert(out@.dom() =~= m@.dom());
    }
    out
}

proof fn lemma_same_views_plannable(
    a: CompactionAnalyzer,
    m: Map<u64, Vec<StreamDataBlock>>,
    copy: Map<u64, Vec<StreamDataBlock>>,
)
    requires
        map_is_plannable(a, m),
        copy.dom() == m.dom(),
        forall|k: u64| #[trigger] copy.contains_key(k) ==> copy[k]@ == m[k]@,
    ensures
        map_is_plannable(a, copy),
{
    assert forall|k: u64, b: StreamDataBlock| #[trigger]
        copy[k]@.contains(b) && copy.dom().contains(k) implies b.index.valid() && b.index.size
        <= a.cache_size() by {
        assert(copy.contains_key(k));
        assert(m[k]@.contains(b));
    }
    assert forall|sub: Map<u64, Vec<StreamDataBlock>>, flat: Seq<StreamDataBlock>|
        sub.submap_of(copy) && #[trigger] is_flattening(sub, flat) implies sizes(flat)
        <= u64::MAX by {
        let same = m.restrict(sub.dom());
        assert forall|k: u64| #[trigger] sub.dom().contains(k) implies m.dom().contains(k)
            && sub[k]@ == m[k]@ by {
            assert(copy.dom().contains(k) && copy[k] == sub[k]);
            assert(copy.contains_key(k));
        }
        assert(same.submap_of(m));
        let keys = choose|keys: Seq<u64>| #[trigger]
            lists_keys(sub, keys) && flat == concat_of(sub, keys);
        assert(lists_keys(same, keys)) by {
            assert forall|k: u64| #[trigger] keys.contains(k) <==> same.dom().contains(k) by {
                assert(keys.contains(k) <==> sub.dom().contains(k));
            }
        }
        assert forall|i: int| 0 <= i < keys.len() implies sub[#[trigger] keys[i]]@
            == same[keys[i]]@ by {
            assert(keys.contains(keys[i]));
            assert(sub.dom().contains(keys[i]));
        }
        lemma_concat_same(sub, same, keys);
        assert(is_flattening(same, flat));
    }
}

/// The request that splits one object out by force: the object is consumed, and the
/// stream objects written from it are registered.
pub fn force_split_request(object_id: u64, stream_objects: Vec<StreamObject>) -> (r:
    CommitStreamSetObjectRequest)
    ensures
        r.object_id == NOOP_OBJECT_ID,
        r.object_size == 0,
        r.attributes == 0,
        r.stream_ranges@ == Seq::<ObjectStreamRange>::empty(),
        r.stream_objects@ == stream_objects@,
        r.compacted_object_ids@ == seq![object_id],
{
    let mut request = CommitStreamSetObjectRequest::empty(NOOP_OBJECT_ID);
    request.stream_objects = stream_objects;
    request.compacted_object_ids.push(object_id);
    assert(request.compacted_object_ids@ =~= seq![object_id]);
    request
}

} // verus!

//! Laws of a compaction round.
use vstd::prelude::*;

use crate::collections::lemma_filter_members;
use crate::compact::analyzer::in_map;
use crate::compact::builder::planned_blocks;
use crate::compact::layout_laws::are_adjacent;
use crate::compact::plan::{sizes, Planned, StreamDataBlock};
use crate::compact::plan_laws::law_stage_reads_what_it_writes;
use crate::compact::round::{
    batch_end, first_by_id, has_object, is_consumed, is_newest, newest_first, no_loss,
    plan_consumes, span, CompactionRound,
};
use crate::compact::sanity::{
    at_some, covers, in_some, is_live, is_lost, live_blocks, output_ranges, ranges_of, start_of,
};
use crate::compact::stages::{plan_views, stage_blocks, CompactionPlan};
use crate::manager::{CommitStreamSetObjectRequest, StreamMetadata, StreamObject};
use crate::object::{ObjectModel, ObjectStreamRange};
use crate::order::{arranged, is_stable_order, law_arranged_keeps_items};

verus! {

/// A round takes at most `max` objects, newest first, and leaves none behind that is newer than
/// one it takes. Where there are no more than `max`, it takes all of them.
pub proof fn law_newest_objects_are_taken(
    objects: Seq<ObjectModel>,
    max: usize,
    taken: Seq<ObjectModel>,
)
    requires
        is_newest(objects, max, taken),
        objects.len() <= usize::MAX,
    ensures
        taken.len() == if objects.len() <= max {
            objects.len() as int
        } else {
            max as int
        },
        forall|i: int, j: int|
            #![trigger taken[i], taken[j]]
            0 <= i < j < taken.len() ==> taken[i].data_timestamp_ms >= taken[j].data_timestamp_ms,
        exists|left: Seq<ObjectModel>|
            {
                &&& (taken + left).to_multiset() == objects.to_multiset()
                &&& forall|i: int, j: int|
                    #![trigger taken[i], left[j]]
                    0 <= i < taken.len() && 0 <= j < left.len() ==> taken[i].data_timestamp_ms
                        >= left[j].data_timestamp_ms
            },
{
    let keys = newest_first(objects);
    let perm = choose|perm: Seq<usize>| #[trigger]
        is_stable_order(keys, perm) && taken == (if objects.len() <= max {
            arranged(objects, perm)
        } else {
            arranged(objects, perm).take(max as int)
        });
    let sorted = arranged(objects, perm);
    law_arranged_keeps_items(keys, objects, perm);
    assert forall|i: int, j: int|
        #![trigger sorted[i], sorted[j]]
        0 <= i < j < sorted.len() implies sorted[i].data_timestamp_ms
        >= sorted[j].data_timestamp_ms by {
        assert(perm[i] < keys.len() && perm[j] < keys.len());
        assert(crate::order::comes_before(keys, perm[i] as int, perm[j] as int));
        assert(keys[perm[i] as int].0 == (i64::MAX - sorted[i].data_timestamp_ms) as u64);
        assert(keys[perm[j] as int].0 == (i64::MAX - sorted[j].data_timestamp_ms) as u64);
    }
    let n = taken.len() as int;
    let left = sorted.skip(n);
    assert(taken =~= sorted.take(n));
    assert(taken + left =~= sorted);
    assert forall|i: int, j: int|
        #![trigger taken[i], left[j]]
        0 <= i < taken.len() && 0 <= j < left.len() implies taken[i].data_timestamp_ms
        >= left[j].data_timestamp_ms by {
        assert(taken[i] == sorted[i]);
        assert(left[j] == sorted[n + j]);
    }
    assert forall|i: int, j: int|
        #![trigger taken[i], taken[j]]
        0 <= i < j < taken.len() implies taken[i].data_timestamp_ms
        >= taken[j].data_timestamp_ms by {
        assert(taken[i] == sorted[i] && taken[j] == sorted[j]);
    }
    assert((taken + left).to_multiset() == objects.to_multiset());
}

/// Of the objects with one id the first is kept, and every id keeps one.
pub proof fn law_each_object_is_kept_once(objects: Seq<ObjectModel>, i: int)
    requires
        0 <= i < objects.len(),
    ensures
        first_by_id(objects).contains(objects[i]) <== forall|j: int|
            0 <= j < i ==> (#[trigger] objects[j]).object_id != objects[i].object_id,
        has_object(first_by_id(objects), objects[i].object_id),
        forall|a: int, b: int|
            #![trigger first_by_id(objects)[a], first_by_id(objects)[b]]
            0 <= a < b < first_by_id(objects).len() ==> first_by_id(objects)[a].object_id
                != first_by_id(objects)[b].object_id,
{
    lemma_first_by_id(objects);
    if forall|j: int| 0 <= j < i ==> (#[trigger] objects[j]).object_id != objects[i].object_id {
        lemma_first_is_kept(objects, i);
    }
}

proof fn lemma_first_by_id(objects: Seq<ObjectModel>)
    ensures
        forall|i: int|
            0 <= i < objects.len() ==> has_object(
                first_by_id(objects),
                (#[trigger] objects[i]).object_id,
            ),
        forall|id: u64| #[trigger]
            has_object(first_by_id(objects), id) ==> has_object(objects, id),
        forall|a: int, b: int|
            #![trigger first_by_id(objects)[a], first_by_id(objects)[b]]
            0 <= a < b < first_by_id(objects).len() ==> first_by_id(objects)[a].object_id
                != first_by_id(objects)[b].object_id,
    decreases objects.len(),
{
    if objects.len() > 0 {
        let rest = objects.drop_last();
        let last = objects.last();
        lemma_first_by_id(rest);
        let before = first_by_id(rest);
        let kept = first_by_id(objects);
        assert forall|id: u64| has_object(before, id) implies #[trigger] has_object(kept, id) by {
            let k = choose|k: int| 0 <= k < before.len() && (#[trigger] before[k]).object_id == id;
            assert(kept[k].object_id == id);
        }
        assert forall|i: int| 0 <= i < objects.len() implies has_object(
            kept,
            (#[trigger] objects[i]).object_id,
        ) by {
            if i < rest.len() {
                assert(has_object(before, rest[i].object_id));
            } else if !has_object(before, last.object_id) {
                assert(kept[before.len() as int].object_id == last.object_id);
            }
        }
        assert forall|id: u64| #[trigger] has_object(kept, id) implies has_object(objects, id) by {
            let k = choose|k: int| 0 <= k < kept.len() && (#[trigger] kept[k]).object_id == id;
            if k < before.len() {
                assert(before[k].object_id == id);
                assert(has_object(before, id));
                assert(has_object(rest, id));
                let j = choose|j: int| 0 <= j < rest.len() && (#[trigger] rest[j]).object_id == id;
                assert(objects[j].object_id == id);
            } else {
                assert(objects[objects.len() - 1].object_id == id);
            }
        }
        assert forall|a: int, b: int|
            #![trigger kept[a], kept[b]]
            0 <= a < b < kept.len() implies kept[a].object_id != kept[b].object_id by {
            if b < before.len() {
                assert(before[a].object_id != before[b].object_id);
            } else {
                assert(before[a].object_id == kept[a].object_id);
            }
        }
    }
}

proof fn lemma_first_is_kept(objects: Seq<ObjectModel>, i: int)
    requires
        0 <= i < objects.len(),
        forall|j: int| 0 <= j < i ==> (#[trigger] objects[j]).object_id != objects[i].object_id,
    ensures
        first_by_id(objects).contains(objects[i]),
    decreases objects.len(),
{
    let rest = objects.drop_last();
    let before = first_by_id(rest);
    let kept = first_by_id(objects);
    if i < rest.len() {
        assert forall|j: int| 0 <= j < i implies (#[trigger] rest[j]).object_id
            != rest[i].object_id by {
            assert(objects[j].object_id != objects[i].object_id);
        }
        lemma_first_is_kept(rest, i);
        let k = choose|k: int| 0 <= k < before.len() && before[k] == rest[i];
        assert(kept[k] == objects[i]);
    } else {
        lemma_first_by_id(rest);
        if has_object(before, objects[i].object_id) {
            assert(has_object(rest, objects[i].object_id));
            let j = choose|j: int|
                0 <= j < rest.len() && (#[trigger] rest[j]).object_id == objects[i].object_id;
            assert(objects[j].object_id != objects[i].object_id);
        }
        assert(kept[before.len() as int] == objects[i]);
    }
}

/// Bytes that groups `first..end` span.
pub open spec fn spans(groups: Seq<Seq<StreamDataBlock>>, first: int, end: int) -> int
    decreases end - first,
{
    if end <= first {
        0
    } else {
        spans(groups, first, end - 1) + span(groups[end - 1])
    }
}

/// A batch of groups is not empty and fits the cache unless it is one group; and it is as long
/// as it may be: the group after it would take it above the cache.
pub proof fn law_batch_fits_cache(groups: Seq<Seq<StreamDataBlock>>, first: int, cache: u64)
    requires
        0 <= first < groups.len(),
        span(groups[first]) >= 0,
    ensures
        ({
            let end = batch_end(groups, first, first, 0, cache);
            &&& first < end <= groups.len()
            &&& end == first + 1 || spans(groups, first, end) <= cache
            &&& end < groups.len() ==> spans(groups, first, end + 1) > cache
        }),
{
    lemma_batch(groups, first, first + 1, cache);
    assert(spans(groups, first, first + 1) == span(groups[first])) by {
        assert(spans(groups, first, first) == 0);
    }
}

proof fn lemma_batch(groups: Seq<Seq<StreamDataBlock>>, first: int, i: int, cache: u64)
    requires
        0 <= first < i <= groups.len(),
        i == first + 1 || spans(groups, first, i) <= cache,
    ensures
        ({
            let end = batch_end(groups, first, i, spans(groups, first, i), cache);
            &&& i <= end <= groups.len()
            &&& end == first + 1 || spans(groups, first, end) <= cache
            &&& end < groups.len() ==> spans(groups, first, end + 1) > cache
        }),
    decreases groups.len() - i,
{
    if i < groups.len() && spans(groups, first, i + 1) <= cache {
        lemma_batch(groups, first, i + 1, cache);
    }
}

proof fn lemma_block_is_planned(stages: Seq<Seq<Planned>>, b: StreamDataBlock) -> (i: int)
    requires
        stage_blocks(stages).contains(b),
    ensures
        0 <= i < stages.len(),
        planned_blocks(stages[i]).contains(b),
    decreases stages.len(),
{
    if stages.len() == 0 {
        0
    } else {
        let rest = stages.drop_last();
        let last = planned_blocks(stages.last());
        vstd::seq_lib::lemma_seq_concat_contains_all_elements(stage_blocks(rest), last, b);
        if stage_blocks(rest).contains(b) {
            let i = lemma_block_is_planned(rest, b);
            assert(rest[i] == stages[i]);
            i
        } else {
            stages.len() - 1
        }
    }
}

/// Every object of which a plan writes a block is consumed by the round.
pub proof fn law_written_objects_are_consumed(round: CompactionRound, b: StreamDataBlock)
    requires
        round.wf(),
        stage_blocks(plan_views(round.plans@)).contains(b),
        forall|i: int|
            0 <= i < round.plans@.len() ==> planned_blocks(
                (#[trigger] round.plans@[i]).objects(),
            ).len() <= usize::MAX,
    ensures
        is_consumed(round.plans@, round.to_compact@, b.object_id),
{
    let stages = plan_views(round.plans@);
    let i = lemma_block_is_planned(stages, b);
    let plan: CompactionPlan = round.plans@[i];
    assert(stages[i] == plan.objects());
    assert(plan.reads_what_it_writes());
    let blocks = planned_blocks(plan.objects());
    let reads = plan.stream_data_blocks_map@;
    law_stage_reads_what_it_writes(blocks, reads, b.object_id);
    let k = choose|k: int| 0 <= k < blocks.len() && blocks[k] == b;
    assert(blocks[k].object_id == b.object_id);
    assert(reads[b.object_id]@.contains(b));
    assert(reads.dom().contains(b.object_id));
    assert(in_map(reads, b));
    assert(plan_consumes(round.plans@, b.object_id));
}

/// The request writes the offset of a stream.
pub open spec fn request_writes(req: CommitStreamSetObjectRequest, stream: u64, x: int) -> bool {
    ||| exists|i: int|
        0 <= i < req.stream_ranges@.len() && (#[trigger] req.stream_ranges@[i]).stream_id == stream
            && req.stream_ranges@[i].start_offset <= x < req.stream_ranges@[i].end_offset
    ||| exists|i: int|
        0 <= i < req.stream_objects@.len() && (#[trigger] req.stream_objects@[i]).stream_id
            == stream && req.stream_objects@[i].start_offset <= x
            < req.stream_objects@[i].end_offset
}

proof fn lemma_ranges_come_from(outputs: Seq<(u64, u64, u64)>, stream: u64, k: int) -> (i: int)
    requires
        0 <= k < ranges_of(outputs, stream).len(),
    ensures
        0 <= i < outputs.len(),
        outputs[i].0 == stream,
        (outputs[i].1, outputs[i].2) == ranges_of(outputs, stream)[k],
    decreases outputs.len(),
{
    let rest = outputs.drop_last();
    let before = ranges_of(rest, stream);
    if k < before.len() {
        let i = lemma_ranges_come_from(rest, stream, k);
        assert(rest[i] == outputs[i]);
        i
    } else {
        outputs.len() - 1
    }
}

proof fn lemma_range_is_listed(outputs: Seq<(u64, u64, u64)>, stream: u64, i: int) -> (k: int)
    requires
        0 <= i < outputs.len(),
        outputs[i].0 == stream,
    ensures
        0 <= k < ranges_of(outputs, stream).len(),
        ranges_of(outputs, stream)[k] == (outputs[i].1, outputs[i].2),
    decreases outputs.len(),
{
    let rest = outputs.drop_last();
    let before = ranges_of(rest, stream);
    if i < rest.len() {
        let k = lemma_range_is_listed(rest, stream, i);
        assert(ranges_of(outputs, stream)[k] == before[k]);
        k
    } else {
        before.len() as int
    }
}

proof fn lemma_start_of(streams: Seq<StreamMetadata>, k: int)
    requires
        0 <= k < streams.len(),
        forall|i: int|
            k < i < streams.len() ==> (#[trigger] streams[i]).stream_id != streams[k].stream_id,
    ensures
        start_of(streams, streams[k].stream_id) == Some(streams[k].start_offset),
    decreases streams.len(),
{
    if k < streams.len() - 1 {
        let rest = streams.drop_last();
        assert(streams[streams.len() - 1].stream_id != streams[k].stream_id);
        assert forall|i: int| k < i < rest.len() implies (#[trigger] rest[i]).stream_id
            != rest[k].stream_id by {
            assert(streams[i].stream_id != streams[k].stream_id);
        }
        lemma_start_of(rest, k);
    }
}

/// Committing a request that passed loses no record: every offset of a block of a compacted
/// object is written again, unless the block ends at or below the start of its stream.
pub proof fn law_commit_loses_no_live_offset(
    streams: Seq<StreamMetadata>,
    block_map: Map<u64, Vec<StreamDataBlock>>,
    req: CommitStreamSetObjectRequest,
    k: int,
    i: int,
    s: int,
    x: int,
)
    requires
        no_loss(streams, block_map, req),
        0 <= k < req.compacted_object_ids@.len(),
        block_map.contains_key(req.compacted_object_ids@[k]),
        0 <= i < block_map[req.compacted_object_ids@[k]]@.len(),
        0 <= s < streams.len(),
        forall|j: int|
            s < j < streams.len() ==> (#[trigger] streams[j]).stream_id != streams[s].stream_id,
        ({
            let b = block_map[req.compacted_object_ids@[k]]@[i];
            &&& streams[s].stream_id == b.index.stream_id
            &&& streams[s].start_offset < b.index.end()
            &&& b.index.start_offset <= x < b.index.end()
        }),
    ensures
        request_writes(
            req,
            block_map[req.compacted_object_ids@[k]]@[i].index.stream_id,
            x,
        ),
{
    let b = block_map[req.compacted_object_ids@[k]]@[i];
    let stream = b.index.stream_id;
    lemma_start_of(streams, s);
    assert(!is_lost(streams, req, b));
    let outputs = output_ranges(req);
    let ranges = ranges_of(outputs, stream);
    assert(in_some(ranges, x));
    let r = choose|r: int| 0 <= r < ranges.len() && (#[trigger] ranges[r]).0 <= x < ranges[r].1;
    let o = lemma_ranges_come_from(outputs, stream, r);
    let n = req.stream_ranges@.len();
    if o < n {
        let w: ObjectStreamRange = req.stream_ranges@[o];
        assert(outputs[o] == (w.stream_id, w.start_offset, w.end_offset));
    } else {
        let w: StreamObject = req.stream_objects@[o - n];
        assert(outputs[o] == (w.stream_id, w.start_offset, w.end_offset));
    }
}

/// Committing a request that passed keeps the place of a block without offsets too: a range or
/// stream object that is written begins at or below it and ends at or above it, unless it lies at
/// or below the start of its stream.
pub proof fn law_commit_keeps_place_of_empty_block(
    streams: Seq<StreamMetadata>,
    block_map: Map<u64, Vec<StreamDataBlock>>,
    req: CommitStreamSetObjectRequest,
    k: int,
    i: int,
    s: int,
)
    requires
        no_loss(streams, block_map, req),
        0 <= k < req.compacted_object_ids@.len(),
        block_map.contains_key(req.compacted_object_ids@[k]),
        0 <= i < block_map[req.compacted_object_ids@[k]]@.len(),
        is_last_entry(
            streams,
            s,
            block_map[req.compacted_object_ids@[k]]@[i].index.stream_id,
        ),
        ({
            let b = block_map[req.compacted_object_ids@[k]]@[i];
            b.index.end_offset_delta == 0 && streams[s].start_offset < b.index.start_offset
        }),
    ensures
        is_inside_output(req, block_map[req.compacted_object_ids@[k]]@[i]),
{
    let b = block_map[req.compacted_object_ids@[k]]@[i];
    let stream = b.index.stream_id;
    lemma_start_of(streams, s);
    assert(!is_lost(streams, req, b));
    let outputs = output_ranges(req);
    let ranges = ranges_of(outputs, stream);
    let x = b.index.start_offset as int;
    assert(at_some(ranges, x));
    let r = choose|r: int| 0 <= r < ranges.len() && (#[trigger] ranges[r]).0 <= x <= ranges[r].1;
    let o = lemma_ranges_come_from(outputs, stream, r);
    let n = req.stream_ranges@.len();
    if o < n {
        let w: ObjectStreamRange = req.stream_ranges@[o];
        assert(outputs[o] == (w.stream_id, w.start_offset, w.end_offset));
        assert(is_inside(
            b,
            req.stream_ranges@[o].stream_id,
            req.stream_ranges@[o].start_offset,
            req.stream_ranges@[o].end_offset,
        ));
    } else {
        let w: StreamObject = req.stream_objects@[o - n];
        assert(outputs[o] == (w.stream_id, w.start_offset, w.end_offset));
        assert(is_inside(
            b,
            req.stream_objects@[o - n].stream_id,
            req.stream_objects@[o - n].start_offset,
            req.stream_objects@[o - n].end_offset,
        ));
    }
}

/// A request is not refused where every block of the compacted objects lies inside one range or
/// stream object that it writes.
pub proof fn law_complete_request_passes(
    streams: Seq<StreamMetadata>,
    block_map: Map<u64, Vec<StreamDataBlock>>,
    req: CommitStreamSetObjectRequest,
)
    requires
        forall|k: int, i: int|
            #![trigger block_map[req.compacted_object_ids@[k]]@[i]]
            0 <= k < req.compacted_object_ids@.len() && block_map.contains_key(
                req.compacted_object_ids@[k],
            ) && 0 <= i < block_map[req.compacted_object_ids@[k]]@.len() ==> is_inside_output(
                req,
                block_map[req.compacted_object_ids@[k]]@[i],
            ),
    ensures
        no_loss(streams, block_map, req),
{
    assert forall|k: int, i: int|
        #![trigger block_map[req.compacted_object_ids@[k]]@[i]]
        0 <= k < req.compacted_object_ids@.len() && block_map.contains_key(
            req.compacted_object_ids@[k],
        ) && 0 <= i < block_map[req.compacted_object_ids@[k]]@.len() implies !is_lost(
        streams,
        req,
        block_map[req.compacted_object_ids@[k]]@[i],
    ) by {
        let b = block_map[req.compacted_object_ids@[k]]@[i];
        let stream = b.index.stream_id;
        let outputs = output_ranges(req);
        let ranges = ranges_of(outputs, stream);
        let n = req.stream_ranges@.len();
        let o: int = if exists|j: int|
            0 <= j < n && is_inside(
                b,
                (#[trigger] req.stream_ranges@[j]).stream_id,
                req.stream_ranges@[j].start_offset,
                req.stream_ranges@[j].end_offset,
            ) {
            choose|j: int|
                0 <= j < n && is_inside(
                    b,
                    (#[trigger] req.stream_ranges@[j]).stream_id,
                    req.stream_ranges@[j].start_offset,
                    req.stream_ranges@[j].end_offset,
                )
        } else {
            n + choose|j: int|
                0 <= j < req.stream_objects@.len() && is_inside(
                    b,
                    (#[trigger] req.stream_objects@[j]).stream_id,
                    req.stream_objects@[j].start_offset,
                    req.stream_objects@[j].end_offset,
                )
        };
        assert(is_inside(b, outputs[o].0, outputs[o].1, outputs[o].2));
        let r = lemma_range_is_listed(outputs, stream, o);
        assert(ranges[r].0 <= b.index.start_offset && b.index.end() <= ranges[r].1);
        assert forall|x: int| b.index.start_offset <= x < b.index.end() implies #[trigger] in_some(
            ranges,
            x,
        ) by {
            assert(ranges[r].0 <= x < ranges[r].1);
        }
        assert(at_some(ranges, b.index.start_offset as int));
        assert(covers(ranges, b.index.start_offset as int, b.index.end()));
    }
}

/// The block lies inside a range of its stream.
pub open spec fn is_inside(b: StreamDataBlock, stream: u64, start: u64, end: u64) -> bool {
    b.index.stream_id == stream && start <= b.index.start_offset && b.index.end() <= end
}

/// The block lies inside one range or stream object of the request.
pub open spec fn is_inside_output(req: CommitStreamSetObjectRequest, b: StreamDataBlock) -> bool {
    ||| exists|j: int|
        0 <= j < req.stream_ranges@.len() && is_inside(
            b,
            (#[trigger] req.stream_ranges@[j]).stream_id,
            req.stream_ranges@[j].start_offset,
            req.stream_ranges@[j].end_offset,
        )
    ||| exists|j: int|
        0 <= j < req.stream_objects@.len() && is_inside(
            b,
            (#[trigger] req.stream_objects@[j]).stream_id,
            req.stream_objects@[j].start_offset,
            req.stream_objects@[j].end_offset,
        )
}

/// The last entry of a stream.
pub open spec fn is_last_entry(streams: Seq<StreamMetadata>, s: int, id: u64) -> bool {
    &&& 0 <= s < streams.len()
    &&& streams[s].stream_id == id
    &&& forall|j: int| s < j < streams.len() ==> (#[trigger] streams[j]).stream_id != id
}

/// Of a list of blocks stay those of a known stream whose last offset is not below the stream's
/// start; where a stream is named more than once, its last entry decides.
pub proof fn law_trimmed_blocks_are_dropped(
    streams: Seq<StreamMetadata>,
    blocks: Seq<StreamDataBlock>,
    b: StreamDataBlock,
)
    ensures
        live_blocks(streams, blocks).contains(b) <==> blocks.contains(b) && exists|s: int|
            #[trigger] is_last_entry(streams, s, b.index.stream_id) && streams[s].start_offset
                <= b.index.end() - 1,
{
    let f = |c: StreamDataBlock| is_live(streams, c);
    assert(live_blocks(streams, blocks) == blocks.filter(f));
    lemma_filter_members(blocks, f, b);
    let id = b.index.stream_id;
    if is_live(streams, b) {
        let s = lemma_start_is_named(streams, id);
        assert(is_last_entry(streams, s, id));
    }
    if exists|s: int| #[trigger]
        is_last_entry(streams, s, id) && streams[s].start_offset <= b.index.end() - 1 {
        let s = choose|s: int| #[trigger]
            is_last_entry(streams, s, id) && streams[s].start_offset <= b.index.end() - 1;
        lemma_start_of(streams, s);
    }
}

proof fn lemma_start_is_named(streams: Seq<StreamMetadata>, id: u64) -> (s: int)
    requires
        start_of(streams, id) is Some,
    ensures
        0 <= s < streams.len(),
        streams[s].stream_id == id,
        start_of(streams, id) == Some(streams[s].start_offset),
        forall|j: int| s < j < streams.len() ==> (#[trigger] streams[j]).stream_id != id,
    decreases streams.len(),
{
    if streams.len() == 0 {
        0
    } else if streams.last().stream_id == id {
        streams.len() - 1
    } else {
        let rest = streams.drop_last();
        let s = lemma_start_is_named(rest, id);
        assert(rest[s] == streams[s]);
        assert forall|j: int| s < j < streams.len() implies (#[trigger] streams[j]).stream_id
            != id by {
            if j < rest.len() {
                assert(rest[j].stream_id != id);
            }
        }
        s
    }
}

/// A group of blocks that stand one after the other in their object spans exactly their bytes.
pub proof fn law_adjacent_group_spans_its_bytes(group: Seq<StreamDataBlock>)
    requires
        group.len() > 0,
        are_adjacent(group, 0, group.len() as int),
    ensures
        span(group) == sizes(group),
    decreases group.len(),
{
    let rest = group.drop_last();
    let last = group.len() - 1;
    if rest.len() > 0 {
        assert forall|i: int, j: int|
            #![trigger rest[i], rest[j]]
            0 <= i && j == i + 1 && j < rest.len() implies rest[j].index.start_position
            == rest[i].index.end_pos() by {
            assert(group[j].index.start_position == group[i].index.end_pos());
        }
        law_adjacent_group_spans_its_bytes(rest);
        assert(group[last].index.start_position == group[last - 1].index.end_pos());
        assert(rest.last() == group[last - 1]);
        assert(rest[0] == group[0]);
    } else {
        assert(sizes(rest) == 0);
        assert(group[0] == group.last());
    }
}

} // verus!

//! Laws of planning a compaction.
use vstd::prelude::*;

use crate::collections::lemma_filter_members;
use crate::compact::analyzer::{
    cheapest_split, dispersion, is_analysis, is_least_dispersed, law_planning_keeps_blocks,
    objects_to_leave_out, of_object, of_stream, plan_within_limits, set_blocks, set_streams,
    stream_objects, uses_of, uses_sum, without, CompactionAnalyzer,
};
use crate::compact::builder::{
    cut_run, distinct_objects, draft_of, lemma_distinct_objects, lemma_run_start, objects_for, place,
    planned_blocks, run_start, stream_ids, Draft,
};
use crate::compact::group::is_run;
use crate::compact::plan::{
    is_sorted_map, lemma_sizes_add, lemma_sizes_nonneg, lemma_sizes_split, shared_only, sizes,
    CompactionType, Planned, StreamDataBlock,
};
use crate::compact::round::set_blocks_of_plans;
use crate::compact::stages::{
    close, fitting, groups_by_object, is_read_set, join, law_stages_keep_blocks, lemma_fitting,
    no_stages, position_keys, set_part, spill, stage_blocks, stage_objects, staged, stages_of,
    Staging,
};
use crate::order::{arranged, is_stable_order};

verus! {

/// No block begins below the end of the block of its stream before it.
pub open spec fn never_overlaps(blocks: Seq<StreamDataBlock>) -> bool {
    forall|i: int, j: int|
        #![trigger blocks[i], blocks[j]]
        0 <= i && j == i + 1 && j < blocks.len() && blocks[i].index.stream_id
            == blocks[j].index.stream_id ==> blocks[i].index.end() <= blocks[j].index.start_offset
}

proof fn lemma_draft_exists(split_size: u64, blocks: Seq<StreamDataBlock>)
    ensures
        draft_of(split_size, blocks) is Some <==> never_overlaps(blocks),
        draft_of(split_size, blocks) matches Some(d) ==> {
            &&& blocks.len() == 0 ==> d.filling.len() == 0
            &&& blocks.len() > 0 ==> d.filling.len() > 0 && d.filling.last() == blocks.last()
        },
    decreases blocks.len(),
{
    if blocks.len() > 0 {
        let rest = blocks.drop_last();
        let last = blocks.len() - 1;
        lemma_draft_exists(split_size, rest);
        if never_overlaps(blocks) {
            assert forall|i: int, j: int|
                #![trigger rest[i], rest[j]]
                0 <= i && j == i + 1 && j < rest.len() && rest[i].index.stream_id
                    == rest[j].index.stream_id implies rest[i].index.end()
                <= rest[j].index.start_offset by {
                assert(blocks[i].index.end() <= blocks[j].index.start_offset);
            }
            if rest.len() > 0 {
                assert(rest.last() == blocks[last - 1]);
                assert(blocks[last - 1].index.stream_id == blocks[last].index.stream_id
                    ==> blocks[last - 1].index.end() <= blocks[last].index.start_offset);
            }
        } else if never_overlaps(rest) {
            let (i, j) = choose|i: int, j: int|
                #![trigger blocks[i], blocks[j]]
                0 <= i && j == i + 1 && j < blocks.len() && blocks[i].index.stream_id
                    == blocks[j].index.stream_id && !(blocks[i].index.end()
                    <= blocks[j].index.start_offset);
            if j < last {
                assert(rest[i] == blocks[i] && rest[j] == blocks[j]);
                assert(false);
            }
            assert(rest.last() == blocks[last - 1]);
        }
    }
}

/// Blocks can be laid out exactly if no two neighbours of one stream overlap.
pub proof fn law_overlapping_blocks_are_refused(split_size: u64, blocks: Seq<StreamDataBlock>)
    ensures
        objects_for(split_size, blocks) is Some <==> never_overlaps(blocks),
{
    lemma_draft_exists(split_size, blocks);
}

/// Blocks `i..j` are of one stream.
pub open spec fn one_stream(blocks: Seq<StreamDataBlock>, i: int, j: int) -> bool {
    forall|a: int, b: int|
        #![trigger blocks[a], blocks[b]]
        i <= a < b < j ==> blocks[a].index.stream_id == blocks[b].index.stream_id
}

/// No stream has more than `max` bytes in a row.
pub open spec fn keeps_runs_below(max: u64, blocks: Seq<StreamDataBlock>) -> bool {
    forall|i: int, j: int|
        0 <= i <= j <= blocks.len() && one_stream(blocks, i, j) ==> sizes(
            #[trigger] blocks.subrange(i, j),
        ) <= max
}

/// The block comes later in the stream than where the last block ends.
pub open spec fn leaves_gap(a: StreamDataBlock, b: StreamDataBlock) -> bool {
    a.index.stream_id == b.index.stream_id && a.index.end() < b.index.start_offset
}

/// A stream object is one run; it is larger than the split size, or the stream has a gap after
/// it. A part of the stream set object has no run that is larger than the split size.
pub open spec fn is_sound_object(split_size: u64, p: Planned, next: Option<StreamDataBlock>) -> bool {
    match p.kind {
        CompactionType::Split => {
            &&& p.blocks.len() > 0
            &&& is_run(p.blocks)
            &&& sizes(p.blocks) > split_size || (next matches Some(b) && leaves_gap(
                p.blocks.last(),
                b,
            ))
        },
        CompactionType::Compact => keeps_runs_below(split_size, p.blocks),
    }
}

/// The block that follows an object.
pub open spec fn block_after(objects: Seq<Planned>, k: int, last: Option<StreamDataBlock>) -> Option<
    StreamDataBlock,
> {
    if k + 1 < objects.len() {
        Some(objects[k + 1].blocks[0])
    } else {
        last
    }
}

spec fn first_of(blocks: Seq<StreamDataBlock>) -> Option<StreamDataBlock> {
    if blocks.len() > 0 {
        Some(blocks[0])
    } else {
        None
    }
}

spec fn all_sound(split_size: u64, objects: Seq<Planned>, last: Option<StreamDataBlock>) -> bool {
    forall|k: int|
        0 <= k < objects.len() ==> is_sound_object(
            split_size,
            #[trigger] objects[k],
            block_after(objects, k, last),
        )
}

spec fn hold_bytes(blocks: Seq<StreamDataBlock>) -> bool {
    forall|i: int| 0 <= i < blocks.len() ==> (#[trigger] blocks[i]).index.size > 0
}

spec fn touches(blocks: Seq<StreamDataBlock>) -> bool {
    forall|i: int, j: int|
        #![trigger blocks[i], blocks[j]]
        0 <= i && j == i + 1 && j < blocks.len() && blocks[i].index.stream_id
            == blocks[j].index.stream_id ==> blocks[j].index.start_offset == blocks[i].index.end()
}

spec fn is_sound_draft(split_size: u64, d: Draft) -> bool {
    &&& hold_bytes(d.filling)
    &&& touches(d.filling)
    &&& keeps_runs_below(split_size, d.filling.take(run_start(d.filling)))
    &&& all_sound(split_size, d.objects, first_of(d.filling))
}

proof fn lemma_sound_push(
    split_size: u64,
    objects: Seq<Planned>,
    p: Planned,
    last: Option<StreamDataBlock>,
)
    requires
        p.blocks.len() > 0,
        all_sound(split_size, objects, Some(p.blocks[0])),
        is_sound_object(split_size, p, last),
    ensures
        all_sound(split_size, objects.push(p), last),
{
    let more = objects.push(p);
    assert forall|k: int| 0 <= k < more.len() implies is_sound_object(
        split_size,
        #[trigger] more[k],
        block_after(more, k, last),
    ) by {
        if k < objects.len() {
            assert(is_sound_object(
                split_size,
                objects[k],
                block_after(objects, k, Some(p.blocks[0])),
            ));
            assert(block_after(more, k, last) == block_after(objects, k, Some(p.blocks[0])));
        }
    }
}

proof fn lemma_some_bytes(blocks: Seq<StreamDataBlock>)
    requires
        hold_bytes(blocks),
    ensures
        sizes(blocks) == 0 <==> blocks.len() == 0,
{
    if blocks.len() > 0 {
        lemma_sizes_nonneg(blocks.drop_last());
        assert(blocks[blocks.len() - 1].index.size > 0);
    }
}

/// The run of the last stream leaves as a sound object.
proof fn lemma_cut_is_sound(split_size: u64, d: Draft, next: Option<StreamDataBlock>)
    requires
        is_sound_draft(split_size, d),
        d.filling.len() > 0,
        sizes(d.filling.skip(run_start(d.filling))) > split_size || (next matches Some(b)
            && leaves_gap(d.filling.last(), b)),
    ensures
        all_sound(split_size, cut_run(d), next),
{
    let h = run_start(d.filling);
    lemma_run_start(d.filling);
    let kept = d.filling.take(h);
    let run = d.filling.skip(h);
    assert forall|i: int| 0 <= i < kept.len() implies (#[trigger] kept[i]).index.size > 0 by {
        assert(d.filling[i].index.size > 0);
    }
    lemma_some_bytes(kept);
    let p = Planned { kind: CompactionType::Compact, blocks: kept };
    let q = Planned { kind: CompactionType::Split, blocks: run };
    assert forall|i: int, j: int|
        #![trigger run[i], run[j]]
        0 <= i && j == i + 1 && j < run.len() implies run[i].index.stream_id
        == run[j].index.stream_id && run[j].index.start_offset == run[i].index.end() by {
        assert(run[i] == d.filling[h + i]);
        assert(run[j] == d.filling[h + j]);
    }
    assert(run.last() == d.filling.last());
    let before = if sizes(kept) != 0 {
        d.objects.push(p)
    } else {
        d.objects
    };
    if sizes(kept) != 0 {
        assert(kept[0] == d.filling[0]);
        lemma_sound_push(split_size, d.objects, p, Some(run[0]));
    } else {
        assert(run[0] == d.filling[0]);
    }
    lemma_sound_push(split_size, before, q, next);
}

/// Once the last run is small enough, no run is too large.
proof fn lemma_filling_below(split_size: u64, filling: Seq<StreamDataBlock>)
    requires
        keeps_runs_below(split_size, filling.take(run_start(filling))),
        sizes(filling.skip(run_start(filling))) <= split_size,
    ensures
        keeps_runs_below(split_size, filling),
{
    let h = run_start(filling);
    lemma_run_start(filling);
    let kept = filling.take(h);
    let run = filling.skip(h);
    assert forall|i: int, j: int|
        0 <= i <= j <= filling.len() && one_stream(filling, i, j) implies sizes(
        #[trigger] filling.subrange(i, j),
    ) <= split_size by {
        if j <= h {
            assert(kept.subrange(i, j) =~= filling.subrange(i, j));
            assert(one_stream(kept, i, j)) by {
                assert forall|a: int, b: int|
                    #![trigger kept[a], kept[b]]
                    i <= a < b < j implies kept[a].index.stream_id == kept[b].index.stream_id by {
                    assert(filling[a].index.stream_id == filling[b].index.stream_id);
                }
            }
        } else if i >= h {
            assert(filling.subrange(i, j) =~= run.take(j - h).skip(i - h));
            lemma_sizes_split(run, j - h);
            lemma_sizes_split(run.take(j - h), i - h);
            lemma_sizes_nonneg(run.skip(j - h));
            lemma_sizes_nonneg(run.take(j - h).take(i - h));
            lemma_sizes_add(run.take(j - h), run.skip(j - h));
            lemma_sizes_add(run.take(j - h).take(i - h), run.take(j - h).skip(i - h));
            assert(run.take(j - h) + run.skip(j - h) =~= run);
            assert(run.take(j - h).take(i - h) + run.take(j - h).skip(i - h) =~= run.take(j - h));
        } else {
            assert(filling[h - 1].index.stream_id == filling[h].index.stream_id);
            assert(false);
        }
    }
}

proof fn lemma_draft_is_sound(split_size: u64, blocks: Seq<StreamDataBlock>)
    requires
        hold_bytes(blocks),
        draft_of(split_size, blocks) is Some,
    ensures
        is_sound_draft(split_size, draft_of(split_size, blocks)->0),
    decreases blocks.len(),
{
    let d = draft_of(split_size, blocks)->0;
    if blocks.len() == 0 {
        assert(keeps_runs_below(split_size, d.filling.take(run_start(d.filling)))) by {
            let none = d.filling.take(run_start(d.filling));
            assert forall|i: int, j: int|
                0 <= i <= j <= none.len() && one_stream(none, i, j) implies sizes(
                #[trigger] none.subrange(i, j),
            ) <= split_size by {
                assert(none.subrange(i, j).len() == 0);
            }
        }
    } else {
        let rest = blocks.drop_last();
        let b = blocks.last();
        assert forall|i: int| 0 <= i < rest.len() implies (#[trigger] rest[i]).index.size > 0 by {
            assert(blocks[i].index.size > 0);
        }
        assert(blocks[blocks.len() - 1].index.size > 0);
        lemma_draft_is_sound(split_size, rest);
        lemma_place_is_sound(split_size, draft_of(split_size, rest)->0, b);
    }
}

proof fn lemma_place_is_sound(split_size: u64, d: Draft, b: StreamDataBlock)
    requires
        is_sound_draft(split_size, d),
        b.index.size > 0,
        place(split_size, d, b) is Some,
    ensures
        is_sound_draft(split_size, place(split_size, d, b)->0),
{
    let e = place(split_size, d, b)->0;
    let h = run_start(d.filling);
    lemma_run_start(d.filling);
    let none = seq![b].take(0);
    assert(keeps_runs_below(split_size, none)) by {
        assert forall|i: int, j: int|
            0 <= i <= j <= none.len() && one_stream(none, i, j) implies sizes(
            #[trigger] none.subrange(i, j),
        ) <= split_size by {
            assert(none.subrange(i, j).len() == 0);
        }
    }
    if d.filling.len() == 0 {
        assert(e.filling.take(run_start(e.filling)) =~= none);
        assert forall|k: int| 0 <= k < e.objects.len() implies is_sound_object(
            split_size,
            #[trigger] e.objects[k],
            block_after(e.objects, k, first_of(e.filling)),
        ) by {
            assert(is_sound_object(
                split_size,
                d.objects[k],
                block_after(d.objects, k, first_of(d.filling)),
            ));
        }
    } else if e.objects == d.objects && e.filling == d.filling.push(b) {
        let f = e.filling;
        assert(f.drop_last() =~= d.filling);
        assert(f[0] == d.filling[0]);
        assert forall|i: int| 0 <= i < f.len() implies (#[trigger] f[i]).index.size > 0 by {
            if i < d.filling.len() {
                assert(d.filling[i].index.size > 0);
            }
        }
        assert forall|i: int, j: int|
            #![trigger f[i], f[j]]
            0 <= i && j == i + 1 && j < f.len() && f[i].index.stream_id
                == f[j].index.stream_id implies f[j].index.start_offset == f[i].index.end() by {
            if j < d.filling.len() {
                assert(d.filling[j].index.start_offset == d.filling[i].index.end());
            }
        }
        if d.filling.last().index.stream_id == b.index.stream_id {
            assert(f.take(run_start(f)) =~= d.filling.take(h));
        } else {
            lemma_filling_below(split_size, d.filling);
            assert(f.take(run_start(f)) =~= d.filling);
        }
    } else {
        lemma_cut_is_sound(split_size, d, Some(b));
        assert(e.filling.take(run_start(e.filling)) =~= none);
    }
}

/// Every stream object of a layout is one run of one stream, and was split out for a reason: it
/// is larger than the split size, or its stream has a gap after it. What goes to the stream set
/// object has no run that is larger than the split size.
pub proof fn law_large_runs_are_split_out(split_size: u64, blocks: Seq<StreamDataBlock>)
    requires
        forall|i: int| 0 <= i < blocks.len() ==> (#[trigger] blocks[i]).index.size > 0,
        objects_for(split_size, blocks) is Some,
    ensures
        ({
            let objects = objects_for(split_size, blocks)->0;
            forall|k: int|
                0 <= k < objects.len() ==> is_sound_object(
                    split_size,
                    #[trigger] objects[k],
                    block_after(objects, k, None),
                )
        }),
{
    lemma_draft_is_sound(split_size, blocks);
    let d = draft_of(split_size, blocks)->0;
    let objects = objects_for(split_size, blocks)->0;
    lemma_run_start(d.filling);
    if sizes(d.filling.skip(run_start(d.filling))) > split_size {
        if d.filling.len() == 0 {
            assert(d.filling.skip(run_start(d.filling)).len() == 0);
            assert(false);
        }
        lemma_cut_is_sound(split_size, d, None);
        assert(all_sound(split_size, objects, None));
    } else {
        lemma_filling_below(split_size, d.filling);
        let p = Planned { kind: CompactionType::Compact, blocks: d.filling };
        if d.filling.len() > 0 {
            lemma_sound_push(split_size, d.objects, p, None);
        } else {
            lemma_draft_exists(split_size, blocks);
            assert(d.objects.len() == 0);
        }
        assert(all_sound(split_size, objects, None));
    }
    assert forall|k: int| 0 <= k < objects.len() implies is_sound_object(
        split_size,
        #[trigger] objects[k],
        block_after(objects, k, None),
    ) by {}
}

/// The source objects of a list of blocks are exactly the objects of its blocks, each once, and
/// ordered by their first block.
pub proof fn law_source_objects_are_listed_once(blocks: Seq<StreamDataBlock>)
    ensures
        distinct_objects(blocks).no_duplicates(),
        forall|id: u64| #[trigger]
            distinct_objects(blocks).contains(id) <==> exists|i: int|
                0 <= i < blocks.len() && (#[trigger] blocks[i]).object_id == id,
        blocks.len() > 0 ==> distinct_objects(blocks).len() > 0 && distinct_objects(blocks)[0]
            == blocks[0].object_id,
    decreases blocks.len(),
{
    lemma_distinct_objects(blocks);
    if blocks.len() > 0 {
        law_source_objects_are_listed_once(blocks.drop_last());
        if blocks.len() == 1 {
            assert(distinct_objects(blocks.drop_last()).len() == 0);
        }
    }
}

/// Objects that fit the cache together are one stage.
pub proof fn law_fitting_objects_are_one_stage(cache: int, objects: Seq<Planned>)
    requires
        objects.len() > 0,
        sizes(planned_blocks(objects)) <= cache,
    ensures
        stages_of(cache, objects).len() == 1,
{
    lemma_all_in_one_stage(cache, objects);
}

proof fn lemma_all_in_one_stage(cache: int, objects: Seq<Planned>)
    requires
        sizes(planned_blocks(objects)) <= cache,
    ensures
        ({
            let st = staged(cache, objects);
            &&& st.stages.len() == 0
            &&& st.bytes == sizes(planned_blocks(objects))
            &&& objects.len() > 0 ==> st.splits.len() > 0 || st.set is Some
        }),
    decreases objects.len(),
{
    if objects.len() > 0 {
        let rest = objects.drop_last();
        let p = objects.last();
        lemma_sizes_add(planned_blocks(rest), p.blocks);
        lemma_sizes_nonneg(p.blocks);
        lemma_all_in_one_stage(cache, rest);
    }
}

/// The blocks that the stages write to the stream set object, the open stage's too.
spec fn set_total(st: Staging) -> Seq<StreamDataBlock> {
    set_blocks_of_plans(st.stages) + set_part(st.set)
}

spec fn only_splits(objects: Seq<Planned>) -> bool {
    forall|k: int|
        0 <= k < objects.len() ==> (#[trigger] objects[k]).kind == CompactionType::Split
}

proof fn lemma_no_set_blocks(objects: Seq<Planned>)
    requires
        only_splits(objects),
    ensures
        set_blocks(objects).len() == 0,
    decreases objects.len(),
{
    if objects.len() > 0 {
        let rest = objects.drop_last();
        assert forall|k: int| 0 <= k < rest.len() implies (#[trigger] rest[k]).kind
            == CompactionType::Split by {
            assert(objects[k].kind == CompactionType::Split);
        }
        lemma_no_set_blocks(rest);
        assert(objects[objects.len() - 1].kind == CompactionType::Split);
    }
}

proof fn lemma_stage_set(st: Staging)
    requires
        only_splits(st.splits),
    ensures
        set_blocks(stage_objects(st)) == set_part(st.set),
        set_total(close(st)) == set_total(st),
{
    lemma_no_set_blocks(st.splits);
    match st.set {
        None => {
            assert(set_blocks(stage_objects(st)) =~= set_part(st.set));
        },
        Some(b) => {
            assert(stage_objects(st).drop_last() =~= st.splits);
            assert(set_blocks(stage_objects(st)) =~= set_part(st.set));
        },
    }
    let closed = close(st);
    assert(closed.stages.drop_last() =~= st.stages);
    assert(set_total(closed) =~= set_total(st));
}

/// What an object adds to the stream set object.
spec fn set_share(p: Planned) -> Seq<StreamDataBlock> {
    if p.kind == CompactionType::Split {
        Seq::empty()
    } else {
        p.blocks
    }
}

proof fn lemma_join_set(st: Staging, p: Planned)
    requires
        only_splits(st.splits),
    ensures
        only_splits(join(st, p).splits),
        set_total(join(st, p)) == set_total(st) + set_share(p),
{
    assert(set_total(join(st, p)) =~= set_total(st) + set_share(p));
}

proof fn lemma_spill_set(cache: int, st: Staging, p: Planned)
    requires
        only_splits(st.splits),
    ensures
        ({
            let (spilt, left) = spill(cache, st, p);
            &&& only_splits(spilt.splits)
            &&& left.kind == p.kind
            &&& set_total(spilt) + set_share(left) == set_total(st) + set_share(p)
        }),
    decreases
            p.blocks.len() * 2 + if st.bytes != 0 {
                1int
            } else {
                0
            },
{
    let n = fitting(cache - st.bytes, p.blocks);
    lemma_fitting(cache - st.bytes, p.blocks);
    if st.bytes + sizes(p.blocks) <= cache || (n <= 0 && st.bytes == 0) || n > p.blocks.len() {
    } else {
        let head = Planned { kind: p.kind, blocks: p.blocks.take(n) };
        let tail = Planned { kind: p.kind, blocks: p.blocks.skip(n) };
        let taken = if n > 0 {
            join(st, head)
        } else {
            st
        };
        let left = if n > 0 {
            tail
        } else {
            p
        };
        if n > 0 {
            lemma_join_set(st, head);
            assert(p.blocks.take(n) + p.blocks.skip(n) =~= p.blocks);
            assert(set_total(st) + set_share(head) + set_share(tail) =~= set_total(st) + set_share(
                p,
            ));
        }
        lemma_stage_set(taken);
        lemma_spill_set(cache, close(taken), left);
    }
}

proof fn lemma_staged_set(cache: int, objects: Seq<Planned>)
    ensures
        only_splits(staged(cache, objects).splits),
        set_total(staged(cache, objects)) == set_blocks(objects),
    decreases objects.len(),
{
    if objects.len() == 0 {
        assert(set_total(no_stages()) =~= Seq::empty());
    } else {
        let rest = objects.drop_last();
        let p = objects.last();
        lemma_staged_set(cache, rest);
        let st = staged(cache, rest);
        lemma_spill_set(cache, st, p);
        let (spilt, left) = spill(cache, st, p);
        lemma_join_set(spilt, left);
        assert(set_blocks(objects) =~= set_blocks(rest) + set_share(p));
    }
}

/// The stages write to the stream set object exactly the blocks that were planned for it, in
/// order. All other blocks go to stream objects.
pub proof fn law_stages_keep_set_blocks(cache: int, objects: Seq<Planned>)
    ensures
        set_blocks_of_plans(stages_of(cache, objects)) == set_blocks(objects),
{
    lemma_staged_set(cache, objects);
    let st = staged(cache, objects);
    if st.splits.len() > 0 || st.set is Some {
        lemma_stage_set(st);
        assert(set_part(close(st).set) =~= Seq::empty());
        assert(set_total(close(st)) =~= set_blocks_of_plans(close(st).stages));
    } else {
        assert(set_total(st) =~= set_blocks_of_plans(st.stages));
    }
}

/// What a stage reads is what it writes: under each source object stand exactly the written
/// blocks of that object, in the order of their positions.
pub proof fn law_stage_reads_what_it_writes(
    blocks: Seq<StreamDataBlock>,
    reads: Map<u64, Vec<StreamDataBlock>>,
    id: u64,
)
    requires
        is_read_set(blocks, reads),
        blocks.len() <= usize::MAX,
    ensures
        reads.contains_key(id) <==> exists|i: int|
            0 <= i < blocks.len() && (#[trigger] blocks[i]).object_id == id,
        reads.contains_key(id) ==> {
            &&& forall|b: StreamDataBlock| #[trigger]
                reads[id]@.contains(b) <==> blocks.contains(b) && b.object_id == id
            &&& forall|i: int, j: int|
                #![trigger reads[id]@[i], reads[id]@[j]]
                0 <= i < j < reads[id]@.len() ==> reads[id]@[i].index.start_position
                    <= reads[id]@[j].index.start_position
        },
{
    let keys = position_keys(blocks);
    let perm = choose|perm: Seq<usize>|
        {
            &&& #[trigger] is_stable_order(keys, perm)
            &&& groups_by_object(arranged(blocks, perm), reads)
        };
    let sorted = arranged(blocks, perm);
    assert forall|b: StreamDataBlock| #[trigger] sorted.contains(b) <==> blocks.contains(b) by {
        if sorted.contains(b) {
            let i = choose|i: int| 0 <= i < sorted.len() && sorted[i] == b;
            assert(perm[i] < keys.len());
            assert(blocks[perm[i] as int] == b);
        }
        if blocks.contains(b) {
            let i = choose|i: int| 0 <= i < blocks.len() && blocks[i] == b;
            assert(perm.contains(i as usize));
            let k = choose|k: int| 0 <= k < perm.len() && perm[k] == i as usize;
            assert(sorted[k] == b);
        }
    }
    let mine = |b: StreamDataBlock| b.object_id == id;
    let list = of_object(sorted, id);
    assert(list == sorted.filter(mine));
    assert forall|b: StreamDataBlock| #[trigger] list.contains(b) <==> blocks.contains(b)
        && b.object_id == id by {
        lemma_filter_members(sorted, mine, b);
        assert(sorted.contains(b) <==> blocks.contains(b));
    }
    if reads.contains_key(id) {
        assert(reads[id]@ == list && list.len() > 0);
        assert(list.contains(list[0]));
        let b = list[0];
        let i = choose|i: int| 0 <= i < blocks.len() && blocks[i] == b;
        assert(blocks[i].object_id == id);
        assert forall|i: int, j: int|
            #![trigger reads[id]@[i], reads[id]@[j]]
            0 <= i < j < reads[id]@.len() implies reads[id]@[i].index.start_position
            <= reads[id]@[j].index.start_position by {
            let (x, y) = lemma_filter_positions(sorted, mine, i, j);
            assert(perm[x] < keys.len() && perm[y] < keys.len());
            assert(crate::order::comes_before(keys, perm[x] as int, perm[y] as int));
            assert(mine(list[i]) && mine(list[j])) by {
                assert(list.contains(list[i]) && list.contains(list[j]));
            }
            assert(keys[perm[x] as int] == (sorted[x].object_id, sorted[x].index.start_position));
            assert(keys[perm[y] as int] == (sorted[y].object_id, sorted[y].index.start_position));
        }
    }
    if exists|i: int| 0 <= i < blocks.len() && (#[trigger] blocks[i]).object_id == id {
        let i = choose|i: int| 0 <= i < blocks.len() && (#[trigger] blocks[i]).object_id == id;
        assert(blocks.contains(blocks[i]));
        assert(sorted.contains(blocks[i]));
        let k = choose|k: int| 0 <= k < sorted.len() && sorted[k] == blocks[i];
        assert(reads.contains_key(sorted[k].object_id));
    }
}

/// Where two items of a filtered list stood.
proof fn lemma_filter_positions<T>(s: Seq<T>, f: spec_fn(T) -> bool, i: int, j: int) -> (r: (
    int,
    int,
))
    requires
        0 <= i < j < s.filter(f).len(),
    ensures
        0 <= r.0 < r.1 < s.len(),
        s[r.0] == s.filter(f)[i],
        s[r.1] == s.filter(f)[j],
    decreases s.len(),
{
    reveal(Seq::filter);
    let rest = s.drop_last();
    let kept = rest.filter(f);
    if s.len() == 0 {
        (0, 1)
    } else if j < kept.len() {
        let (x, y) = lemma_filter_positions(rest, f, i, j);
        assert(s[x] == rest[x] && s[y] == rest[y]);
        (x, y)
    } else {
        assert(kept.contains(kept[i]));
        lemma_filter_members(rest, f, kept[i]);
        let x = choose|x: int| 0 <= x < rest.len() && rest[x] == kept[i];
        assert(s[x] == rest[x]);
        (x, s.len() - 1)
    }
}

/// The object takes a block from a source object.
pub open spec fn takes_from(p: Planned, id: u64) -> bool {
    exists|i: int| 0 <= i < p.blocks.len() && (#[trigger] p.blocks[i]).object_id == id
}

/// A source object is used by as many planned objects as take a block from it.
pub proof fn law_uses_are_counted(objects: Seq<Planned>, id: u64)
    ensures
        uses_of(objects, id) == objects.filter(|p: Planned| takes_from(p, id)).len(),
    decreases objects.len(),
{
    reveal(Seq::filter);
    if objects.len() > 0 {
        law_uses_are_counted(objects.drop_last(), id);
        lemma_distinct_objects(objects.last().blocks);
    }
}

/// The stream objects are counted that hold a block.
pub proof fn law_stream_objects_are_counted(objects: Seq<Planned>)
    ensures
        stream_objects(objects) == objects.filter(
            |p: Planned| p.kind == CompactionType::Split && p.blocks.len() > 0,
        ).len(),
    decreases objects.len(),
{
    reveal(Seq::filter);
    if objects.len() > 0 {
        law_stream_objects_are_counted(objects.drop_last());
    }
}

/// The stream object that is left out first holds the fewest blocks; among those with as few,
/// its source objects are used the least; among those used as little, it is the first. None is
/// left out only where there is none.
pub proof fn law_cheapest_split_is_left_out(objects: Seq<Planned>)
    ensures
        match cheapest_split(objects, objects.len() as int) {
            None => forall|j: int|
                0 <= j < objects.len() ==> (#[trigger] objects[j]).kind != CompactionType::Split,
            Some(k) => {
                &&& 0 <= k < objects.len()
                &&& objects[k].kind == CompactionType::Split
                &&& forall|j: int|
                    0 <= j < objects.len() && (#[trigger] objects[j]).kind
                        == CompactionType::Split ==> is_no_dearer(objects, k, j)
                &&& forall|j: int|
                    0 <= j < k && (#[trigger] objects[j]).kind == CompactionType::Split
                        ==> !is_no_dearer(objects, j, k)
            },
        },
{
    lemma_cheapest(objects, objects.len() as int);
}

/// Leaving out the object `a` costs no more than leaving out the object `b`.
pub open spec fn is_no_dearer(objects: Seq<Planned>, a: int, b: int) -> bool {
    ||| objects[a].blocks.len() < objects[b].blocks.len()
    ||| objects[a].blocks.len() == objects[b].blocks.len() && uses_sum(
        objects,
        distinct_objects(objects[a].blocks),
    ) <= uses_sum(objects, distinct_objects(objects[b].blocks))
}

proof fn lemma_cheapest(objects: Seq<Planned>, n: int)
    requires
        0 <= n <= objects.len(),
    ensures
        match cheapest_split(objects, n) {
            None => forall|j: int|
                0 <= j < n ==> (#[trigger] objects[j]).kind != CompactionType::Split,
            Some(k) => {
                &&& 0 <= k < n
                &&& objects[k].kind == CompactionType::Split
                &&& forall|j: int|
                    0 <= j < n && (#[trigger] objects[j]).kind == CompactionType::Split
                        ==> is_no_dearer(objects, k, j)
                &&& forall|j: int|
                    0 <= j < k && (#[trigger] objects[j]).kind == CompactionType::Split
                        ==> !is_no_dearer(objects, j, k)
            },
        },
    decreases n,
{
    if n > 0 {
        lemma_cheapest(objects, n - 1);
    }
}

/// Stream objects add nothing to the streams of the stream set object, and every other object
/// adds the number of its streams.
pub proof fn law_set_streams_are_counted(objects: Seq<Planned>, p: Planned)
    ensures
        p.kind == CompactionType::Split ==> set_streams(objects.push(p)) == set_streams(objects),
        p.kind == CompactionType::Compact ==> set_streams(objects.push(p)) == set_streams(objects)
            + stream_ids(p.blocks).len(),
        forall|s: u64| #[trigger]
            stream_ids(p.blocks).contains(s) <==> exists|i: int|
                0 <= i < p.blocks.len() && (#[trigger] p.blocks[i]).index.stream_id == s,
{
    assert(objects.push(p).drop_last() =~= objects);
    let ids = p.blocks.map_values(|b: StreamDataBlock| b.index.stream_id);
    assert forall|s: u64| #[trigger] stream_ids(p.blocks).contains(s) <==> exists|i: int|
        0 <= i < p.blocks.len() && (#[trigger] p.blocks[i]).index.stream_id == s by {
        if stream_ids(p.blocks).contains(s) {
            assert(ids.contains(s));
            let i = choose|i: int| 0 <= i < ids.len() && ids[i] == s;
            assert(p.blocks[i].index.stream_id == s);
        }
        if exists|i: int| 0 <= i < p.blocks.len() && (#[trigger] p.blocks[i]).index.stream_id == s {
            let i = choose|i: int|
                0 <= i < p.blocks.len() && (#[trigger] p.blocks[i]).index.stream_id == s;
            assert(ids[i] == s);
            assert(ids.contains(s));
        }
    }
}

/// Nothing is left out where the layout keeps both limits from the start.
pub proof fn law_nothing_is_left_out_within_limits(
    a: CompactionAnalyzer,
    sorted: Seq<StreamDataBlock>,
    m: Map<u64, Vec<StreamDataBlock>>,
    excluded: Set<u64>,
    objects: Seq<Planned>,
    id: u64,
)
    requires
        shared_only(m).contains_key(id),
        objects_for(a.split_size(), sorted) == Some(objects),
        set_streams(objects) <= a.max_set_streams(),
        stream_objects(objects) <= a.max_stream_objects(),
    ensures
        plan_within_limits(a, sorted, m, excluded) == (Some(objects), excluded),
{
    assert(shared_only(m).dom().contains(id));
}

/// Two blocks of one stream that come from different objects bring both objects into the
/// compaction, and an object takes part only where it has such a block.
pub proof fn law_objects_that_share_a_stream_take_part(
    m: Map<u64, Vec<StreamDataBlock>>,
    a: StreamDataBlock,
    b: StreamDataBlock,
)
    requires
        m.contains_key(a.object_id),
        m[a.object_id]@.contains(a),
        m.contains_key(b.object_id),
        m[b.object_id]@.contains(b),
        a.object_id != b.object_id,
        a.index.stream_id == b.index.stream_id,
    ensures
        shared_only(m).contains_key(a.object_id),
        shared_only(m).contains_key(b.object_id),
        shared_only(m)[a.object_id] == m[a.object_id],
{
    assert(m.dom().contains(a.object_id) && m.dom().contains(b.object_id));
    assert(crate::compact::plan::object_is_shared(m, a.object_id));
    assert(crate::compact::plan::object_is_shared(m, b.object_id));
}

/// An object whose streams no other object has takes no part.
pub proof fn law_object_alone_takes_no_part(m: Map<u64, Vec<StreamDataBlock>>, id: u64)
    requires
        crate::compact::round::keyed_by_object(m),
        forall|k: u64, i: int, j: int|
            #![trigger m[k]@[i], m[id]@[j]]
            m.contains_key(k) && k != id && 0 <= i < m[k]@.len() && m.contains_key(id) && 0 <= j
                < m[id]@.len() ==> m[k]@[i].index.stream_id != m[id]@[j].index.stream_id,
    ensures
        !shared_only(m).contains_key(id),
{
    if shared_only(m).contains_key(id) {
        assert(crate::compact::plan::object_is_shared(m, id));
        let (k1, b1, k2, b2) = choose|k1: u64, b1: StreamDataBlock, k2: u64, b2: StreamDataBlock|
            #![trigger m[k1]@.contains(b1), m[k2]@.contains(b2)]
            m.dom().contains(k1) && m[k1]@.contains(b1) && m.dom().contains(k2) && m[k2]@.contains(
                b2,
            ) && b1.object_id == id && b2.object_id != id && b1.index.stream_id
                == b2.index.stream_id;
        let i1 = choose|i: int| 0 <= i < m[k1]@.len() && m[k1]@[i] == b1;
        let i2 = choose|i: int| 0 <= i < m[k2]@.len() && m[k2]@[i] == b2;
        assert(m[k1]@[i1].object_id == k1);
        assert(m[k2]@[i2].object_id == k2);
        assert(m[k2]@[i2].index.stream_id != m[id]@[i1].index.stream_id);
    }
}

/// An analysis that plans anything writes every block of the objects that take part and are not
/// left out, once, and no other block. Every block holds bytes.
pub proof fn law_analysis_writes_every_block(
    a: CompactionAnalyzer,
    m: Map<u64, Vec<StreamDataBlock>>,
    excluded: Set<u64>,
    plans: Seq<Seq<Planned>>,
)
    requires
        is_analysis(a, m, Set::empty(), excluded, plans),
        plans.len() > 0,
        forall|sorted: Seq<StreamDataBlock>, i: int|
            #![trigger is_sorted_map(shared_only(m), sorted), sorted[i]]
            is_sorted_map(shared_only(m), sorted) && 0 <= i < sorted.len() ==> sorted[i].index.size
                > 0,
    ensures
        exists|sorted: Seq<StreamDataBlock>| #[trigger]
            is_sorted_map(shared_only(m), sorted) && stage_blocks(plans).to_multiset() == without(
                sorted,
                excluded,
            ).to_multiset(),
{
    let shared = shared_only(m);
    let sorted = choose|sorted: Seq<StreamDataBlock>|
        {
            let (objects, left_out) = plan_within_limits(a, sorted, shared, Set::empty());
            &&& #[trigger] is_sorted_map(shared, sorted)
            &&& excluded == left_out
            &&& plans == match objects {
                None => Seq::empty(),
                Some(o) => stages_of(a.cache_size() as int, o),
            }
        };
    let (objects, left_out) = plan_within_limits(a, sorted, shared, Set::empty());
    assert forall|i: int| 0 <= i < sorted.len() implies (#[trigger] sorted[i]).index.size > 0 by {
        assert(is_sorted_map(shared, sorted));
    }
    law_planning_keeps_blocks(a, sorted, shared, Set::empty());
    let gone = choose|gone: Set<u64>|
        {
            &&& left_out == Set::<u64>::empty().union(gone)
            &&& planned_blocks(objects->0) == #[trigger] without(sorted, gone)
        };
    assert(Set::<u64>::empty().union(gone) =~= gone);
    law_stages_keep_blocks(a.cache_size() as int, objects->0);
}

/// Where there are too many stream objects, what is left out are exactly the source objects of
/// the cheapest one.
pub proof fn law_left_out_objects_free_a_stream_object(objects: Seq<Planned>, k: int, id: u64)
    requires
        cheapest_split(objects, objects.len() as int) == Some(k),
    ensures
        objects_to_leave_out(CompactionType::Split, objects).contains(id) <==> takes_from(
            objects[k],
            id,
        ),
{
    lemma_distinct_objects(objects[k].blocks);
    assert(distinct_objects(objects[k].blocks).to_set().contains(id) <==> distinct_objects(
        objects[k].blocks,
    ).contains(id));
}

proof fn lemma_least_dispersed(blocks: Seq<StreamDataBlock>, n: int) -> (s: u64)
    requires
        0 < n <= blocks.len(),
    ensures
        exists|i: int| 0 <= i < n && (#[trigger] blocks[i]).index.stream_id == s,
        forall|i: int|
            0 <= i < n ==> dispersion(blocks, s) < dispersion(
                blocks,
                (#[trigger] blocks[i]).index.stream_id,
            ) || (dispersion(blocks, s) == dispersion(blocks, blocks[i].index.stream_id) && s
                <= blocks[i].index.stream_id),
    decreases n,
{
    let t = blocks[n - 1].index.stream_id;
    if n == 1 {
        assert(blocks[0].index.stream_id == t);
        t
    } else {
        let s = lemma_least_dispersed(blocks, n - 1);
        let better = dispersion(blocks, t) < dispersion(blocks, s) || (dispersion(blocks, t)
            == dispersion(blocks, s) && t <= s);
        if better {
            assert(blocks[n - 1].index.stream_id == t);
            t
        } else {
            let i = choose|i: int| 0 <= i < n - 1 && (#[trigger] blocks[i]).index.stream_id == s;
            assert(blocks[i].index.stream_id == s);
            s
        }
    }
}

proof fn lemma_stream_is_listed(blocks: Seq<StreamDataBlock>, s: u64)
    ensures
        stream_ids(blocks).contains(s) <==> exists|i: int|
            0 <= i < blocks.len() && (#[trigger] blocks[i]).index.stream_id == s,
{
    law_set_streams_are_counted(
        Seq::empty(),
        Planned { kind: CompactionType::Compact, blocks },
    );
}

/// A stream of the stream set object whose source objects are exactly those left out. The source
/// objects of no other stream hold fewer streams, counted once per object; of those that hold as
/// few it has the lowest id.
pub open spec fn is_freed_stream(objects: Seq<Planned>, s: u64) -> bool {
    let blocks = set_blocks(objects);
    &&& exists|i: int| 0 <= i < blocks.len() && (#[trigger] blocks[i]).index.stream_id == s
    &&& forall|id: u64| #[trigger]
        objects_to_leave_out(CompactionType::Compact, objects).contains(id) <==> exists|i: int|
            0 <= i < blocks.len() && (#[trigger] blocks[i]).index.stream_id == s
                && blocks[i].object_id == id
    &&& forall|i: int|
        0 <= i < blocks.len() ==> dispersion(blocks, s) <= dispersion(
            blocks,
            (#[trigger] blocks[i]).index.stream_id,
        ) && (dispersion(blocks, s) == dispersion(blocks, blocks[i].index.stream_id) ==> s
            <= blocks[i].index.stream_id)
}

/// Where there are too many streams in the stream set object, what is left out are exactly the
/// source objects of one of its streams, which spread over as few streams as any.
pub proof fn law_left_out_objects_free_a_stream(objects: Seq<Planned>)
    requires
        set_blocks(objects).len() > 0,
    ensures
        exists|s: u64| #[trigger] is_freed_stream(objects, s),
{
    let blocks = set_blocks(objects);
    let least = lemma_least_dispersed(blocks, blocks.len() as int);
    lemma_stream_is_listed(blocks, least);
    assert forall|s: u64| #[trigger] stream_ids(blocks).contains(s) implies dispersion(
        blocks,
        least,
    ) < dispersion(blocks, s) || (dispersion(blocks, least) == dispersion(blocks, s) && least
        <= s) by {
        lemma_stream_is_listed(blocks, s);
        let i = choose|i: int| 0 <= i < blocks.len() && (#[trigger] blocks[i]).index.stream_id == s;
        assert(blocks[i].index.stream_id == s);
    }
    assert(is_least_dispersed(blocks, least));
    let s = choose|s: u64| is_least_dispersed(set_blocks(objects), s);
    assert(is_least_dispersed(blocks, s));
    let mine = |b: StreamDataBlock| b.index.stream_id == s;
    let run = of_stream(blocks, s);
    assert(run == blocks.filter(mine));
    lemma_distinct_objects(run);
    let gone = objects_to_leave_out(CompactionType::Compact, objects);
    assert forall|id: u64| #[trigger] gone.contains(id) <==> exists|i: int|
        0 <= i < blocks.len() && (#[trigger] blocks[i]).index.stream_id == s && blocks[i].object_id
            == id by {
        assert(gone.contains(id) <==> distinct_objects(run).contains(id));
        if gone.contains(id) {
            let k = choose|k: int| 0 <= k < run.len() && (#[trigger] run[k]).object_id == id;
            assert(run.contains(run[k]));
            lemma_filter_members(blocks, mine, run[k]);
            let i = choose|i: int| 0 <= i < blocks.len() && blocks[i] == run[k];
            assert(blocks[i].index.stream_id == s && blocks[i].object_id == id);
        }
        if exists|i: int|
            0 <= i < blocks.len() && (#[trigger] blocks[i]).index.stream_id == s
                && blocks[i].object_id == id {
            let i = choose|i: int|
                0 <= i < blocks.len() && (#[trigger] blocks[i]).index.stream_id == s
                    && blocks[i].object_id == id;
            assert(blocks.contains(blocks[i]));
            lemma_filter_members(blocks, mine, blocks[i]);
            let k = choose|k: int| 0 <= k < run.len() && run[k] == blocks[i];
            assert(run[k].object_id == id);
        }
    }
    assert forall|i: int| 0 <= i < blocks.len() implies dispersion(blocks, s) <= dispersion(
        blocks,
        (#[trigger] blocks[i]).index.stream_id,
    ) && (dispersion(blocks, s) == dispersion(blocks, blocks[i].index.stream_id) ==> s
        <= blocks[i].index.stream_id) by {
        lemma_stream_is_listed(blocks, blocks[i].index.stream_id);
        assert(stream_ids(blocks).contains(blocks[i].index.stream_id));
    }
    lemma_stream_is_listed(blocks, s);
    assert(is_freed_stream(objects, s));
}

} // verus!

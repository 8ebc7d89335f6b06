//! Laws of how compacted objects are read and written.
use vstd::prelude::*;

use crate::codec::be::{
    be_seq, field, law_be_read_of_write, lemma_be_seq_len, lemma_pow256_values,
};
use crate::compact::executor::{
    chunks_of, continuous_steps, index_of_group, indices_of, object_end, range_of_group, read_steps,
    segment_end, stream_object_of, stream_ranges_of, ReadStep,
};
use crate::compact::group::{
    grouping, groups_of, is_indexable, is_run, joined, law_grouping_keeps_blocks,
    law_limit_groups_are_indexable, law_limit_groups_are_maximal, law_offset_groups_are_runs,
    lemma_offset_step, records_in, BlockPredicate, GroupByLimitPredicate, GroupByOffsetPredicate, NO_STREAM,
};
use crate::compact::merge::tiles;
use crate::compact::merge_laws::counted_records;
use crate::compact::plan::{
    all_valid, lemma_sizes_add, lemma_sizes_nonneg, lemma_sizes_push, lemma_sizes_split, sizes,
    StreamDataBlock,
};
use crate::compact::stages::{fitting, lemma_fitting};
use crate::object::{DataBlockIndex, ObjectStreamRange, FOOTER_SIZE};

verus! {

/// One of the blocks holds the offset of the stream.
pub open spec fn blocks_hold(blocks: Seq<StreamDataBlock>, stream: u64, x: int) -> bool {
    exists|i: int|
        0 <= i < blocks.len() && (#[trigger] blocks[i]).index.stream_id == stream
            && blocks[i].index.start_offset <= x < blocks[i].index.end()
}

/// One of the ranges holds the offset of the stream.
pub open spec fn ranges_hold(ranges: Seq<ObjectStreamRange>, stream: u64, x: int) -> bool {
    exists|i: int|
        0 <= i < ranges.len() && (#[trigger] ranges[i]).stream_id == stream
            && ranges[i].start_offset <= x < ranges[i].end_offset
}

/// One of the entries holds the offset of the stream.
pub open spec fn entries_hold(entries: Seq<DataBlockIndex>, stream: u64, x: int) -> bool {
    exists|i: int|
        0 <= i < entries.len() && (#[trigger] entries[i]).stream_id == stream
            && entries[i].start_offset <= x < entries[i].end()
}

/// A run holds the offsets from its first block to its last one, and no others.
proof fn lemma_run_holds(run: Seq<StreamDataBlock>, stream: u64, x: int)
    requires
        run.len() > 0,
        is_run(run),
    ensures
        run[0].index.stream_id == run.last().index.stream_id,
        run[0].index.start_offset <= run.last().index.end(),
        blocks_hold(run, stream, x) <==> run[0].index.stream_id == stream
            && run[0].index.start_offset <= x < run.last().index.end(),
    decreases run.len(),
{
    let rest = run.drop_last();
    let last = run.len() - 1;
    if rest.len() > 0 {
        assert forall|i: int, j: int|
            #![trigger rest[i], rest[j]]
            0 <= i && j == i + 1 && j < rest.len() implies rest[i].index.stream_id
            == rest[j].index.stream_id && rest[j].index.start_offset == rest[i].index.end() by {
            assert(run[i].index.stream_id == run[j].index.stream_id);
        }
        lemma_run_holds(rest, stream, x);
        assert(run[last - 1].index.stream_id == run[last].index.stream_id);
        assert(rest.last() == run[last - 1]);
        assert(rest[0] == run[0]);
        if blocks_hold(rest, stream, x) {
            let i = choose|i: int|
                0 <= i < rest.len() && (#[trigger] rest[i]).index.stream_id == stream
                    && rest[i].index.start_offset <= x < rest[i].index.end();
            assert(run[i] == rest[i]);
            assert(blocks_hold(run, stream, x));
        }
        if blocks_hold(run, stream, x) {
            let i = choose|i: int|
                0 <= i < run.len() && (#[trigger] run[i]).index.stream_id == stream
                    && run[i].index.start_offset <= x < run[i].index.end();
            if i < last {
                assert(rest[i] == run[i]);
                assert(blocks_hold(rest, stream, x));
            }
        }
        if run[0].index.stream_id == stream && run[0].index.start_offset <= x
            < run.last().index.end() && !blocks_hold(rest, stream, x) {
            assert(run[last].index.start_offset <= x);
            assert(blocks_hold(run, stream, x));
        }
    } else {
        assert(run[0] == run.last());
        if run[0].index.stream_id == stream && run[0].index.start_offset <= x
            < run.last().index.end() {
            assert(blocks_hold(run, stream, x));
        }
    }
}

proof fn lemma_hold_add(a: Seq<StreamDataBlock>, b: Seq<StreamDataBlock>, stream: u64, x: int)
    ensures
        blocks_hold(a + b, stream, x) <==> blocks_hold(a, stream, x) || blocks_hold(b, stream, x),
{
    let c = a + b;
    if blocks_hold(a, stream, x) {
        let i = choose|i: int|
            0 <= i < a.len() && (#[trigger] a[i]).index.stream_id == stream
                && a[i].index.start_offset <= x < a[i].index.end();
        assert(c[i] == a[i]);
    }
    if blocks_hold(b, stream, x) {
        let i = choose|i: int|
            0 <= i < b.len() && (#[trigger] b[i]).index.stream_id == stream
                && b[i].index.start_offset <= x < b[i].index.end();
        assert(c[a.len() + i] == b[i]);
    }
    if blocks_hold(c, stream, x) {
        let i = choose|i: int|
            0 <= i < c.len() && (#[trigger] c[i]).index.stream_id == stream
                && c[i].index.start_offset <= x < c[i].index.end();
        if i < a.len() {
            assert(a[i] == c[i]);
        } else {
            assert(b[i - a.len()] == c[i]);
        }
    }
}

/// Bytes that a list of ranges counts.
pub open spec fn range_bytes(ranges: Seq<ObjectStreamRange>) -> int
    decreases ranges.len(),
{
    if ranges.len() == 0 {
        0
    } else {
        range_bytes(ranges.drop_last()) + ranges.last().size
    }
}

spec fn are_runs(groups: Seq<Seq<StreamDataBlock>>) -> bool {
    forall|k: int|
        0 <= k < groups.len() ==> (#[trigger] groups[k]).len() > 0 && is_run(groups[k])
            && all_valid(groups[k])
}

proof fn lemma_runs_drop(groups: Seq<Seq<StreamDataBlock>>)
    requires
        are_runs(groups),
        groups.len() > 0,
    ensures
        are_runs(groups.drop_last()),
        groups.last().len() > 0,
        is_run(groups.last()),
        all_valid(groups.last()),
{
    let rest = groups.drop_last();
    assert forall|k: int| 0 <= k < rest.len() implies (#[trigger] rest[k]).len() > 0 && is_run(
        rest[k],
    ) && all_valid(rest[k]) by {
        assert(groups[k].len() > 0);
    }
    assert(groups[groups.len() - 1].len() > 0);
}

proof fn lemma_ranges_of_groups(groups: Seq<Seq<StreamDataBlock>>, stream: u64, x: int)
    requires
        are_runs(groups),
        sizes(joined(groups)) <= u64::MAX,
    ensures
        ranges_hold(stream_ranges_of(groups), stream, x) <==> blocks_hold(
            joined(groups),
            stream,
            x,
        ),
        range_bytes(stream_ranges_of(groups)) == sizes(joined(groups)),
        stream_ranges_of(groups).len() == groups.len(),
    decreases groups.len(),
{
    if groups.len() > 0 {
        lemma_runs_drop(groups);
        let rest = groups.drop_last();
        let g = groups.last();
        lemma_sizes_add(joined(rest), g);
        lemma_sizes_nonneg(joined(rest));
        lemma_sizes_nonneg(g);
        lemma_ranges_of_groups(rest, stream, x);
        lemma_run_holds(g, stream, x);
        lemma_hold_add(joined(rest), g, stream, x);
        let before = stream_ranges_of(rest);
        let r = range_of_group(g);
        let all = stream_ranges_of(groups);
        assert(all == before.push(r));
        assert(all.drop_last() =~= before);
        assert(g.last().index.valid()) by {
            assert(g[g.len() - 1].index.valid());
        }
        if ranges_hold(before, stream, x) {
            let i = choose|i: int|
                0 <= i < before.len() && (#[trigger] before[i]).stream_id == stream
                    && before[i].start_offset <= x < before[i].end_offset;
            assert(all[i] == before[i]);
        }
        if r.stream_id == stream && r.start_offset <= x < r.end_offset {
            assert(all[before.len() as int] == r);
        }
        if ranges_hold(all, stream, x) {
            let i = choose|i: int|
                0 <= i < all.len() && (#[trigger] all[i]).stream_id == stream
                    && all[i].start_offset <= x < all[i].end_offset;
            if i < before.len() {
                assert(before[i] == all[i]);
            }
        }
    }
}

proof fn lemma_group_is_part(groups: Seq<Seq<StreamDataBlock>>, k: int)
    requires
        0 <= k < groups.len(),
        all_valid(joined(groups)),
    ensures
        all_valid(groups[k]),
    decreases groups.len(),
{
    let rest = groups.drop_last();
    let all = joined(groups);
    let before = joined(rest);
    assert forall|i: int| 0 <= i < before.len() implies (#[trigger] before[i]).index.valid() by {
        assert(all[i] == before[i]);
    }
    if k < rest.len() {
        lemma_group_is_part(rest, k);
        assert(rest[k] == groups[k]);
    } else {
        let g = groups.last();
        assert forall|i: int| 0 <= i < g.len() implies (#[trigger] g[i]).index.valid() by {
            assert(all[before.len() + i] == g[i]);
        }
    }
}

/// The stream ranges of a stream set object hold exactly the offsets of the blocks that are
/// written to it, and their sizes add up to its data.
pub proof fn law_ranges_hold_what_is_written(
    p: GroupByOffsetPredicate,
    blocks: Seq<StreamDataBlock>,
    stream: u64,
    x: int,
)
    requires
        p.fresh(),
        all_valid(blocks),
        sizes(blocks) <= u64::MAX,
        forall|i: int|
            0 <= i < blocks.len() ==> (#[trigger] blocks[i]).index.stream_id != NO_STREAM,
    ensures
        ranges_hold(stream_ranges_of(groups_of(p, blocks)), stream, x) <==> blocks_hold(
            blocks,
            stream,
            x,
        ),
        range_bytes(stream_ranges_of(groups_of(p, blocks))) == sizes(blocks),
{
    let groups = groups_of(p, blocks);
    if blocks.len() > 0 {
        assert(blocks[0].index.valid());
        lemma_offset_step(p, blocks[0]);
    }
    law_grouping_keeps_blocks(p, blocks);
    law_offset_groups_are_runs(p, blocks);
    assert forall|k: int| 0 <= k < groups.len() implies (#[trigger] groups[k]).len() > 0
        && is_run(groups[k]) && all_valid(groups[k]) by {
        lemma_group_is_part(groups, k);
    }
    lemma_ranges_of_groups(groups, stream, x);
}

/// The second block goes on where the first one ends.
pub open spec fn continues(a: StreamDataBlock, b: StreamDataBlock) -> bool {
    a.index.stream_id == b.index.stream_id && b.index.start_offset == a.index.end()
}

spec fn ends_are_breaks(groups: Seq<Seq<StreamDataBlock>>) -> bool {
    forall|k: int, n: int|
        #![trigger groups[k], groups[n]]
        0 <= k && n == k + 1 && n < groups.len() ==> !continues(groups[k].last(), groups[n][0])
}

proof fn lemma_offset_breaks(p: GroupByOffsetPredicate, blocks: Seq<StreamDataBlock>)
    requires
        p.fresh(),
        all_valid(blocks),
        forall|i: int|
            0 <= i < blocks.len() ==> (#[trigger] blocks[i]).index.stream_id != NO_STREAM,
    ensures
        ({
            let g = grouping(p, blocks);
            &&& blocks.len() == 0 ==> g.predicate == p && g.open_group.len() == 0
                && g.closed_groups.len() == 0
            &&& blocks.len() > 0 ==> {
                &&& g.open_group.len() > 0
                &&& g.open_group.last() == blocks.last()
                &&& !g.predicate.fresh()
                &&& g.predicate.stream() == blocks.last().index.stream_id
                &&& g.predicate.next() == blocks.last().index.end()
                &&& ends_are_breaks(g.closed_groups.push(g.open_group))
            }
        }),
    decreases blocks.len(),
{
    if blocks.len() > 0 {
        let rest = blocks.drop_last();
        let b = blocks.last();
        assert forall|i: int| 0 <= i < rest.len() implies (#[trigger] rest[i]).index.stream_id
            != NO_STREAM && rest[i].index.valid() by {
            assert(blocks[i].index.stream_id != NO_STREAM);
            assert(blocks[i].index.valid());
        }
        lemma_offset_breaks(p, rest);
        let h = grouping(p, rest);
        let g = grouping(p, blocks);
        assert(blocks[blocks.len() - 1].index.valid());
        assert(blocks[blocks.len() - 1].index.stream_id != NO_STREAM);
        lemma_offset_step(h.predicate, b);
        let before = h.closed_groups.push(h.open_group);
        let after = g.closed_groups.push(g.open_group);
        if rest.len() > 0 {
            assert forall|k: int, n: int|
                #![trigger after[k], after[n]]
                0 <= k && n == k + 1 && n < after.len() implies !continues(
                after[k].last(),
                after[n][0],
            ) by {
                if n < before.len() {
                    assert(!continues(before[k].last(), before[n][0]));
                    assert(before[k] == after[k]);
                } else {
                    assert(after[k] == h.open_group);
                }
            }
        }
    }
}

/// Groups by offset are as long as they may be: one ends only where the next block does not go
/// on where the last one ends.
pub proof fn law_offset_groups_end_at_breaks(
    p: GroupByOffsetPredicate,
    blocks: Seq<StreamDataBlock>,
)
    requires
        p.fresh(),
        all_valid(blocks),
        forall|i: int|
            0 <= i < blocks.len() ==> (#[trigger] blocks[i]).index.stream_id != NO_STREAM,
    ensures
        forall|k: int, n: int|
            #![trigger groups_of(p, blocks)[k], groups_of(p, blocks)[n]]
            0 <= k && n == k + 1 && n < groups_of(p, blocks).len() ==> !continues(
                groups_of(p, blocks)[k].last(),
                groups_of(p, blocks)[n][0],
            ),
{
    lemma_offset_breaks(p, blocks);
}

proof fn lemma_counted_entries(entries: Seq<DataBlockIndex>, e: DataBlockIndex)
    ensures
        counted_records(entries.push(e)) == counted_records(entries) + e.record_count,
{
    assert(entries.push(e).drop_last() =~= entries);
}

proof fn lemma_records_add(a: Seq<StreamDataBlock>, b: Seq<StreamDataBlock>)
    ensures
        records_in(a + b) == records_in(a) + records_in(b),
        records_in(b) >= 0,
    decreases b.len(),
{
    if b.len() == 0 {
        assert(a + b =~= a);
    } else {
        assert((a + b).drop_last() =~= a + b.drop_last());
        lemma_records_add(a, b.drop_last());
    }
}

proof fn lemma_indices_of_groups(groups: Seq<Seq<StreamDataBlock>>, stream: u64, x: int)
    requires
        are_runs(groups),
        forall|k: int|
            0 <= k < groups.len() ==> is_indexable(#[trigger] groups[k]) && sizes(groups[k])
                <= u32::MAX,
        sizes(joined(groups)) <= u64::MAX,
    ensures
        entries_hold(indices_of(groups), stream, x) <==> blocks_hold(joined(groups), stream, x),
        counted_records(indices_of(groups)) == records_in(joined(groups)),
        tiles(indices_of(groups), sizes(joined(groups))),
        crate::compact::executor::group_sizes(groups) == sizes(joined(groups)),
    decreases groups.len(),
{
    if groups.len() > 0 {
        lemma_runs_drop(groups);
        let rest = groups.drop_last();
        let g = groups.last();
        lemma_sizes_add(joined(rest), g);
        lemma_sizes_nonneg(joined(rest));
        lemma_sizes_nonneg(g);
        lemma_records_add(joined(rest), g);
        lemma_records_add(Seq::empty(), g);
        assert(is_indexable(groups[groups.len() - 1]));
        assert forall|k: int| 0 <= k < rest.len() implies is_indexable(#[trigger] rest[k])
            && sizes(rest[k]) <= u32::MAX by {
            assert(is_indexable(groups[k]));
        }
        lemma_indices_of_groups(rest, stream, x);
        lemma_run_holds(g, stream, x);
        lemma_hold_add(joined(rest), g, stream, x);
        let before = indices_of(rest);
        let e = index_of_group(g, crate::compact::executor::group_sizes(rest));
        let all = indices_of(groups);
        assert(all == before.push(e));
        assert(all.drop_last() =~= before);
        lemma_counted_entries(before, e);
        assert(e.end() == g.last().index.end());
        if entries_hold(before, stream, x) {
            let i = choose|i: int|
                0 <= i < before.len() && (#[trigger] before[i]).stream_id == stream
                    && before[i].start_offset <= x < before[i].end();
            assert(all[i] == before[i]);
        }
        if e.stream_id == stream && e.start_offset <= x < e.end() {
            assert(all[before.len() as int] == e);
        }
        if entries_hold(all, stream, x) {
            let i = choose|i: int|
                0 <= i < all.len() && (#[trigger] all[i]).stream_id == stream
                    && all[i].start_offset <= x < all[i].end();
            if i < before.len() {
                assert(before[i] == all[i]);
            }
        }
    }
}

/// The index of a written object holds exactly the offsets of the blocks written to it, counts
/// their records, and covers its data from the start without a gap. Entries of 4 GiB or more
/// would not fit the format, so the threshold stays below that.
pub proof fn law_index_holds_what_is_written(
    p: GroupByLimitPredicate,
    blocks: Seq<StreamDataBlock>,
    stream: u64,
    x: int,
)
    requires
        p.fresh(),
        p.ready(),
        p.threshold() <= u32::MAX,
        all_valid(blocks),
        sizes(blocks) <= u64::MAX,
        forall|i: int|
            0 <= i < blocks.len() ==> (#[trigger] blocks[i]).index.stream_id != NO_STREAM,
    ensures
        entries_hold(indices_of(groups_of(p, blocks)), stream, x) <==> blocks_hold(
            blocks,
            stream,
            x,
        ),
        counted_records(indices_of(groups_of(p, blocks))) == records_in(blocks),
        tiles(indices_of(groups_of(p, blocks)), sizes(blocks)),
{
    let groups = groups_of(p, blocks);
    law_limit_groups_are_indexable(p, blocks);
    law_limit_groups_are_maximal(p, blocks);
    assert forall|k: int| 0 <= k < groups.len() implies (#[trigger] groups[k]).len() > 0
        && is_run(groups[k]) && all_valid(groups[k]) && is_indexable(groups[k]) && sizes(groups[k])
        <= u32::MAX by {
        lemma_group_is_part(groups, k);
        let g = groups[k];
        if g.len() == 1 {
            assert(g =~= Seq::empty().push(g[0]));
            lemma_sizes_push(Seq::empty(), g[0]);
        }
    }
    lemma_indices_of_groups(groups, stream, x);
}

/// The stream object that a run was written to holds exactly the offsets of its blocks.
pub proof fn law_stream_object_holds_what_is_written(
    run: Seq<StreamDataBlock>,
    object_id: u64,
    object_size: u64,
    attributes: u32,
    stream: u64,
    x: int,
)
    requires
        run.len() > 0,
        is_run(run),
        all_valid(run),
    ensures
        ({
            let o = stream_object_of(run, object_id, object_size, attributes);
            blocks_hold(run, stream, x) <==> o.stream_id == stream && o.start_offset <= x
                < o.end_offset
        }),
{
    lemma_run_holds(run, stream, x);
    assert(run[run.len() - 1].index.valid());
}

/// Blocks `first..end` stand one after the other in their object.
pub open spec fn are_adjacent(blocks: Seq<StreamDataBlock>, first: int, end: int) -> bool {
    forall|i: int, j: int|
        #![trigger blocks[i], blocks[j]]
        first <= i && j == i + 1 && j < end ==> blocks[j].index.start_position
            == blocks[i].index.end_pos()
}

/// A request reads blocks that stand one after the other, below the limit; a block that is read
/// in chunks has at least as many bytes as the limit. A limit of 0 is none.
pub open spec fn is_sound_read(max: u64, blocks: Seq<StreamDataBlock>, step: ReadStep) -> bool {
    match step {
        ReadStep::Run { first, end } => {
            &&& first < end <= blocks.len()
            &&& are_adjacent(blocks, first as int, end as int)
            &&& max > 0 ==> sizes(blocks.subrange(first as int, end as int)) < max
        },
        ReadStep::Chunked { block } => block < blocks.len() && 0 < max
            <= blocks[block as int].index.size,
    }
}

proof fn lemma_segment(blocks: Seq<StreamDataBlock>, from: int, n: int)
    requires
        0 <= from < n,
        n <= blocks.len(),
        are_adjacent(blocks, from, n),
    ensures
        n <= segment_end(blocks, n) <= blocks.len(),
        are_adjacent(blocks, from, segment_end(blocks, n)),
    decreases blocks.len() - n,
{
    if n < blocks.len() && blocks[n].index.start_position == blocks[n - 1].index.end_pos() {
        lemma_segment(blocks, from, n + 1);
    }
}

proof fn lemma_continuous_reads(
    max: u64,
    blocks: Seq<StreamDataBlock>,
    end: int,
    from: int,
    k: int,
)
    requires
        0 <= from,
        end <= blocks.len() <= usize::MAX,
        are_adjacent(blocks, from, end),
        0 <= k < continuous_steps(max, blocks.take(end), from).len(),
        end >= 0,
    ensures
        is_sound_read(max, blocks, continuous_steps(max, blocks.take(end), from)[k]),
    decreases end - from,
{
    let part = blocks.take(end);
    if from < end && max > 0 {
        let n = fitting(max - 1, part.skip(from));
        lemma_fitting(max - 1, part.skip(from));
        if n <= 0 {
            if k > 0 {
                lemma_continuous_reads(max, blocks, end, from + 1, k - 1);
                assert(continuous_steps(max, part, from)[k] == continuous_steps(
                    max,
                    part,
                    from + 1,
                )[k - 1]);
            } else {
                assert(part.skip(from)[0] == blocks[from]);
            }
        } else {
            if k > 0 {
                lemma_continuous_reads(max, blocks, end, from + n, k - 1);
                assert(continuous_steps(max, part, from)[k] == continuous_steps(
                    max,
                    part,
                    from + n,
                )[k - 1]);
            } else {
                assert(blocks.subrange(from, from + n) =~= part.skip(from).take(n));
            }
        }
    }
}

proof fn lemma_reads(max: u64, blocks: Seq<StreamDataBlock>, from: int, k: int)
    requires
        0 <= from,
        blocks.len() <= usize::MAX,
        0 <= k < read_steps(max, blocks, from).len(),
    ensures
        is_sound_read(max, blocks, read_steps(max, blocks, from)[k]),
    decreases blocks.len() - from,
{
    if from < blocks.len() {
        lemma_segment(blocks, from, from + 1);
        let end = segment_end(blocks, from + 1);
        let head = continuous_steps(max, blocks.take(end), from);
        if k < head.len() {
            lemma_continuous_reads(max, blocks, end, from, k);
            assert(read_steps(max, blocks, from)[k] == head[k]);
        } else {
            lemma_reads(max, blocks, end, k - head.len());
            assert(read_steps(max, blocks, from)[k] == read_steps(max, blocks, end)[k
                - head.len()]);
        }
    }
}

/// Every read is sound: what is read together stands together and stays below the limit, and
/// only blocks that reach the limit alone are read in chunks.
pub proof fn law_reads_are_sound(max: u64, blocks: Seq<StreamDataBlock>, k: int)
    requires
        blocks.len() <= usize::MAX,
        0 <= k < read_steps(max, blocks, 0).len(),
    ensures
        is_sound_read(max, blocks, read_steps(max, blocks, 0)[k]),
{
    lemma_reads(max, blocks, 0, k);
}

proof fn lemma_all_fit(room: int, blocks: Seq<StreamDataBlock>)
    requires
        sizes(blocks) <= room,
    ensures
        fitting(room, blocks) == blocks.len(),
    decreases blocks.len(),
{
    if blocks.len() > 0 {
        lemma_sizes_split(blocks, 1);
        assert(blocks.take(1) =~= Seq::empty().push(blocks[0]));
        lemma_sizes_push(Seq::empty(), blocks[0]);
        lemma_sizes_nonneg(blocks.skip(1));
        lemma_sizes_add(blocks.take(1), blocks.skip(1));
        assert(blocks.take(1) + blocks.skip(1) =~= blocks);
        lemma_all_fit(room - blocks[0].index.size, blocks.skip(1));
    }
}

proof fn lemma_one_segment(blocks: Seq<StreamDataBlock>, n: int)
    requires
        1 <= n <= blocks.len(),
        are_adjacent(blocks, 0, blocks.len() as int),
    ensures
        segment_end(blocks, n) == blocks.len(),
    decreases blocks.len() - n,
{
    if n < blocks.len() {
        assert(blocks[n].index.start_position == blocks[n - 1].index.end_pos());
        lemma_one_segment(blocks, n + 1);
    }
}

/// Blocks that stand one after the other and stay below the limit together are one read.
pub proof fn law_adjacent_blocks_are_one_read(max: u64, blocks: Seq<StreamDataBlock>)
    requires
        0 < blocks.len() <= usize::MAX,
        are_adjacent(blocks, 0, blocks.len() as int),
        max == 0 || sizes(blocks) < max,
    ensures
        read_steps(max, blocks, 0) == seq![
            ReadStep::Run { first: 0, end: blocks.len() as usize },
        ],
{
    lemma_one_segment(blocks, 1);
    let n = blocks.len() as int;
    assert(blocks.take(n) =~= blocks);
    assert(blocks.skip(0) =~= blocks);
    if max > 0 {
        lemma_all_fit(max - 1, blocks);
    }
    assert(continuous_steps(max, blocks, n) =~= Seq::empty());
    assert(read_steps(max, blocks, n) =~= Seq::empty());
    assert(read_steps(max, blocks, 0) =~= seq![ReadStep::Run { first: 0, end: n as usize }]);
}

/// The chunks of a block cover it from start to end, each goes on where the one before ends, and
/// each but the last has exactly the largest size.
pub proof fn law_chunks_cover_block(start: u64, end: u64, max: u64)
    requires
        max > 0,
        start < end,
    ensures
        ({
            let chunks = chunks_of(start as int, end as int, max as int);
            &&& chunks.len() > 0
            &&& chunks[0].0 == start
            &&& chunks.last().1 == end
            &&& forall|i: int|
                0 <= i < chunks.len() ==> (#[trigger] chunks[i]).0 < chunks[i].1 && chunks[i].1
                    - chunks[i].0 <= max
            &&& forall|i: int, j: int|
                #![trigger chunks[i], chunks[j]]
                0 <= i && j == i + 1 && j < chunks.len() ==> chunks[i].1 == chunks[j].0
                    && chunks[i].1 - chunks[i].0 == max
        }),
    decreases end - start,
{
    let chunks = chunks_of(start as int, end as int, max as int);
    if start + max < end {
        let next: u64 = (start + max) as u64;
        law_chunks_cover_block(next, end, max);
        let rest = chunks_of(next as int, end as int, max as int);
        assert(chunks =~= seq![(start, next)] + rest);
        assert(forall|i: int| 1 <= i < chunks.len() ==> chunks[i] == rest[i - 1]);
        assert forall|i: int, j: int|
            #![trigger chunks[i], chunks[j]]
            0 <= i && j == i + 1 && j < chunks.len() implies chunks[i].1 == chunks[j].0
            && chunks[i].1 - chunks[i].0 == max by {
            if i > 0 {
                assert(rest[i - 1].1 == rest[j - 1].0);
            }
        }
        assert(chunks.last() == rest.last());
    } else {
        assert(chunks_of(end as int, end as int, max as int) =~= Seq::empty());
        assert(chunks =~= seq![(start, end)]);
    }
}

/// The footer of an object, its last bytes, gives back the position of the index, its length and
/// the magic number. In front of it stands the index, and in front of that the data that waited.
pub proof fn law_footer_gives_index_back(
    waiting: Seq<u8>,
    index: Seq<u8>,
    index_position: u64,
    footer_magic: u64,
)
    requires
        index.len() <= u32::MAX,
    ensures
        ({
            let end = object_end(waiting, index, index_position, footer_magic);
            let at = end.len() - FOOTER_SIZE;
            &&& at == waiting.len() + index.len()
            &&& end.take(waiting.len() as int) == waiting
            &&& end.subrange(waiting.len() as int, at) == index
            &&& field(end, at, 8) == index_position
            &&& field(end, at + 8, 4) == index.len()
            &&& field(end, end.len() - 8, 8) == footer_magic
            &&& forall|i: int| at + 12 <= i < end.len() - 8 ==> #[trigger] end[i] == 0
        }),
{
    let end = object_end(waiting, index, index_position, footer_magic);
    let at: int = (waiting.len() + index.len()) as int;
    lemma_be_seq_len(index_position as nat, 8);
    lemma_be_seq_len(index.len(), 4);
    lemma_be_seq_len(footer_magic as nat, 8);
    lemma_pow256_values();
    law_be_read_of_write(index_position as nat, 8);
    law_be_read_of_write(index.len(), 4);
    law_be_read_of_write(footer_magic as nat, 8);
    assert(end.take(waiting.len() as int) =~= waiting);
    assert(end.subrange(waiting.len() as int, at) =~= index);
    assert(end.subrange(at, at + 8) =~= be_seq(index_position as nat, 8));
    assert(end.subrange(at + 8, at + 12) =~= be_seq(index.len(), 4));
    assert(end.subrange(at + 40, at + 48) =~= be_seq(footer_magic as nat, 8));
}

} // verus!

//! Compaction execution: how source blocks are read in few requests, and how they are
//! written, byte for byte, into new objects with a fresh index.
use bytes::Bytes;
use std::collections::BTreeMap;
use vstd::prelude::*;

use crate::buffer::{bytes_as_slice, bytes_clone, bytes_seq, bytes_slice};
use crate::codec::be::{be_seq, put_be, put_slice};
use crate::compact::group::{
    group_stream_data_blocks, group_views, groups_of, is_indexable, law_grouping_keeps_blocks,
    law_limit_groups_are_indexable, lemma_limit_step, lemma_records_push, records_in,
    GroupByLimitPredicate, NO_STREAM,
};
use crate::compact::plan::{
    all_valid, lemma_sizes_add, lemma_sizes_nonneg, lemma_sizes_push, lemma_sizes_split, sizes,
    StreamDataBlock,
};
use crate::compact::stages::{fitting, lemma_fitting};
use crate::manager::StreamObject;
use crate::object::{
    DataBlockIndex, ObjectStreamRange, FOOTER_SIZE, NO_BLOCK_ID, UNKNOWN_EPOCH,
};

verus! {

pub const S3_OBJECT_TTL_MINUTES: u64 = 24 * 60;

pub const S3_OBJECT_MAX_READ_BATCH: u64 = 16 * 1024 * 1024;

/// Index entries of a written object cover at most this many bytes, unless one block is
/// larger.
pub const DATA_BLOCK_GROUP_SIZE_THRESHOLD: u64 = 1024 * 1024;

/// The index entry that describes a group written at `position`.
pub open spec fn index_of_group(group: Seq<StreamDataBlock>, position: int) -> DataBlockIndex {
    DataBlockIndex {
        block_id: NO_BLOCK_ID,
        stream_id: group[0].index.stream_id,
        start_offset: group[0].index.start_offset,
        end_offset_delta: (group.last().index.end() - group[0].index.start_offset) as u32,
        record_count: records_in(group) as u32,
        start_position: position as u64,
        size: (sizes(group) % 0x1_0000_0000) as u32,
    }
}

/// Bytes in a list of groups.
pub open spec fn group_sizes(groups: Seq<Seq<StreamDataBlock>>) -> int
    decreases groups.len(),
{
    if groups.len() == 0 {
        0
    } else {
        group_sizes(groups.drop_last()) + sizes(groups.last())
    }
}

proof fn lemma_group_sizes_nonneg(groups: Seq<Seq<StreamDataBlock>>)
    ensures
        group_sizes(groups) >= 0,
    decreases groups.len(),
{
    if groups.len() > 0 {
        lemma_group_sizes_nonneg(groups.drop_last());
        lemma_sizes_nonneg(groups.last());
    }
}

proof fn lemma_group_sizes_prefix(groups: Seq<Seq<StreamDataBlock>>, n: int)
    requires
        0 <= n <= groups.len(),
    ensures
        group_sizes(groups.take(n)) <= group_sizes(groups),
    decreases groups.len(),
{
    if n < groups.len() {
        lemma_group_sizes_prefix(groups.drop_last(), n);
        assert(groups.drop_last().take(n) =~= groups.take(n));
        lemma_sizes_nonneg(groups.last());
    } else {
        assert(groups.take(n) =~= groups);
    }
}

/// The index entries of a list of groups written one after the other. Empty groups have
/// none.
pub open spec fn indices_of(groups: Seq<Seq<StreamDataBlock>>) -> Seq<DataBlockIndex>
    decreases groups.len(),
{
    if groups.len() == 0 {
        Seq::empty()
    } else {
        let before = indices_of(groups.drop_last());
        if groups.last().len() == 0 {
            before
        } else {
            before.push(index_of_group(groups.last(), group_sizes(groups.drop_last())))
        }
    }
}

/// The group is empty, or one index entry can describe it.
pub open spec fn describable(group: Seq<StreamDataBlock>) -> bool {
    group.len() > 0 ==> {
        &&& 0 <= group.last().index.end() - group[0].index.start_offset <= u32::MAX
        &&& records_in(group) <= u32::MAX
        &&& all_valid(group)
    }
}

/// Bytes and records in a group.
fn group_totals(group: &Vec<StreamDataBlock>) -> (r: (u64, u32))
    requires
        sizes(group@) <= u64::MAX,
        records_in(group@) <= u32::MAX,
    ensures
        r.0 == sizes(group@),
        r.1 == records_in(group@),
{
    let mut bytes: u64 = 0;
    let mut records: u32 = 0;
    let mut i: usize = 0;
    assert(group@.take(0) =~= Seq::empty());
    while i < group.len()
        invariant
            i <= group@.len(),
            sizes(group@) <= u64::MAX,
            records_in(group@) <= u32::MAX,
            bytes == sizes(group@.take(i as int)),
            records == records_in(group@.take(i as int)),
        decreases group@.len() - i,
    {
        proof {
            assert(group@.take(i + 1) =~= group@.take(i as int).push(group@[i as int]));
            lemma_sizes_push(group@.take(i as int), group@[i as int]);
            lemma_records_push(group@.take(i as int), group@[i as int]);
            lemma_sizes_split(group@, i + 1);
            lemma_records_prefix(group@, i + 1);
        }
        bytes = bytes + group[i].index.size as u64;
        records = records + group[i].index.record_count;
        i += 1;
    }
    assert(group@.take(i as int) =~= group@);
    (bytes, records)
}

proof fn lemma_records_prefix(blocks: Seq<StreamDataBlock>, n: int)
    requires
        0 <= n <= blocks.len(),
    ensures
        records_in(blocks.take(n)) <= records_in(blocks),
    decreases blocks.len(),
{
    if n < blocks.len() {
        lemma_records_prefix(blocks.drop_last(), n);
        assert(blocks.drop_last().take(n) =~= blocks.take(n));
    } else {
        assert(blocks.take(n) =~= blocks);
    }
}

/// Index entries of groups that are written one after the other from position 0.
pub fn build_data_block_indices_from_group(groups: &Vec<Vec<StreamDataBlock>>) -> (r: Vec<
    DataBlockIndex,
>)
    requires
        forall|k: int| 0 <= k < groups@.len() ==> describable(#[trigger] groups@[k]@),
        group_sizes(group_views(groups@)) <= u64::MAX,
    ensures
        r@ == indices_of(group_views(groups@)),
{
    let ghost views = group_views(groups@);
    let mut indices: Vec<DataBlockIndex> = Vec::new();
    let mut position: u64 = 0;
    let mut i: usize = 0;
    assert(views.take(0) =~= Seq::empty());
    while i < groups.len()
        invariant
            i <= groups@.len(),
            views == group_views(groups@),
            forall|k: int| 0 <= k < groups@.len() ==> describable(#[trigger] groups@[k]@),
            group_sizes(views) <= u64::MAX,
            position == group_sizes(views.take(i as int)),
            indices@ == indices_of(views.take(i as int)),
        decreases groups@.len() - i,
    {
        let group = &groups[i];
        proof {
            assert(views[i as int] == group@);
            assert(views.take(i + 1).drop_last() =~= views.take(i as int));
            assert(views.take(i + 1).last() == group@);
            assert(describable(groups@[i as int]@));
            lemma_group_sizes_prefix(views, i + 1);
            lemma_group_sizes_nonneg(views.take(i as int));
            lemma_sizes_nonneg(group@);
        }
        let n: usize = group.len();
        if n > 0 {
            let first = group[0];
            let last = group[n - 1];
            assert(last.index.valid());
            let (group_size, record_count) = group_totals(group);
            indices.push(
                DataBlockIndex {
                    block_id: NO_BLOCK_ID,
                    stream_id: first.index.stream_id,
                    start_offset: first.index.start_offset,
                    end_offset_delta: (last.index.end_offset() - first.index.start_offset) as u32,
                    record_count,
                    start_position: position,
                    size: (group_size % 0x1_0000_0000) as u32,
                },
            );
            position = position + group_size;
        } else {
            assert(sizes(group@) == 0);
        }
        i += 1;
    }
    assert(views.take(i as int) =~= views);
    indices
}

/// The stream range that a group of blocks makes up.
pub open spec fn range_of_group(group: Seq<StreamDataBlock>) -> ObjectStreamRange {
    ObjectStreamRange {
        stream_id: group[0].index.stream_id,
        epoch: UNKNOWN_EPOCH,
        start_offset: group[0].index.start_offset,
        end_offset: group.last().index.end() as u64,
        size: sizes(group) as u64,
    }
}

/// The stream ranges of a list of groups. Empty groups have none.
pub open spec fn stream_ranges_of(groups: Seq<Seq<StreamDataBlock>>) -> Seq<ObjectStreamRange>
    decreases groups.len(),
{
    if groups.len() == 0 {
        Seq::empty()
    } else {
        let before = stream_ranges_of(groups.drop_last());
        if groups.last().len() == 0 {
            before
        } else {
            before.push(range_of_group(groups.last()))
        }
    }
}

/// Stream ranges of groups inside a new stream set object. Their epoch is not known.
pub fn build_object_stream_ranges_from_group(groups: &Vec<Vec<StreamDataBlock>>) -> (r: Vec<
    ObjectStreamRange,
>)
    requires
        forall|k: int| 0 <= k < groups@.len() ==> all_valid(#[trigger] groups@[k]@),
        forall|k: int| 0 <= k < groups@.len() ==> sizes(#[trigger] groups@[k]@) <= u64::MAX,
    ensures
        r@ == stream_ranges_of(group_views(groups@)),
{
    let ghost views = group_views(groups@);
    let mut ranges: Vec<ObjectStreamRange> = Vec::new();
    let mut i: usize = 0;
    assert(views.take(0) =~= Seq::empty());
    while i < groups.len()
        invariant
            i <= groups@.len(),
            views == group_views(groups@),
            forall|k: int| 0 <= k < groups@.len() ==> all_valid(#[trigger] groups@[k]@),
            forall|k: int| 0 <= k < groups@.len() ==> sizes(#[trigger] groups@[k]@) <= u64::MAX,
            ranges@ == stream_ranges_of(views.take(i as int)),
        decreases groups@.len() - i,
    {
        let group = &groups[i];
        proof {
            assert(views[i as int] == group@);
            assert(views.take(i + 1).drop_last() =~= views.take(i as int));
            assert(views.take(i + 1).last() == group@);
            assert(all_valid(groups@[i as int]@));
            assert(sizes(groups@[i as int]@) <= u64::MAX);
            assert(group@.skip(0) =~= group@);
        }
        let n: usize = group.len();
        if n > 0 {
            let last = group[n - 1];
            assert(last.index.valid());
            ranges.push(
                ObjectStreamRange {
                    stream_id: group[0].index.stream_id,
                    epoch: UNKNOWN_EPOCH,
                    start_offset: group[0].index.start_offset,
                    end_offset: last.index.end_offset(),
                    size: crate::compact::plan::total_size(group, 0),
                },
            );
        }
        i += 1;
    }
    assert(views.take(i as int) =~= views);
    ranges
}

/// One step of reading blocks of an object, by their positions in the list.
#[derive(Debug, Clone, Copy, PartialEq, Eq, Structural)]
pub enum ReadStep {
    /// One request covers the blocks from `first` up to `end`.
    Run { first: usize, end: usize },
    /// The block is too large for one request and is read in chunks.
    Chunked { block: usize },
}

/// Reads of blocks that follow each other, from `from` on. A request takes as many blocks
/// as stay below `max` bytes; a block of `max` bytes or more is read in chunks. A `max` of
/// 0 is no limit.
pub open spec fn continuous_steps(max: u64, blocks: Seq<StreamDataBlock>, from: int) -> Seq<
    ReadStep,
>
    decreases blocks.len() - from,
{
    if from < 0 || from >= blocks.len() {
        Seq::empty()
    } else if max == 0 {
        seq![ReadStep::Run { first: from as usize, end: blocks.len() as usize }]
    } else {
        let n = fitting(max - 1, blocks.skip(from));
        if n <= 0 || from + n > blocks.len() {
            seq![ReadStep::Chunked { block: from as usize }] + continuous_steps(
                max,
                blocks,
                from + 1,
            )
        } else {
            seq![ReadStep::Run { first: from as usize, end: (from + n) as usize }]
                + continuous_steps(max, blocks, from + n)
        }
    }
}

/// The end of the longest list of blocks from `from` that follow each other in the
/// object, the first `n` blocks being known to.
pub open spec fn segment_end(blocks: Seq<StreamDataBlock>, n: int) -> int
    decreases blocks.len() - n,
{
    if n < 1 || n >= blocks.len() {
        blocks.len() as int
    } else if blocks[n].index.start_position != blocks[n - 1].index.end_pos() {
        n
    } else {
        segment_end(blocks, n + 1)
    }
}

proof fn lemma_segment_end(blocks: Seq<StreamDataBlock>, n: int)
    requires
        1 <= n <= blocks.len(),
    ensures
        n <= segment_end(blocks, n) <= blocks.len(),
    decreases blocks.len() - n,
{
    if n < blocks.len() {
        if blocks[n].index.start_position == blocks[n - 1].index.end_pos() {
            lemma_segment_end(blocks, n + 1);
        }
    }
}

/// Reads of a list of blocks of one object: blocks that follow each other are read
/// together.
pub open spec fn read_steps(max: u64, blocks: Seq<StreamDataBlock>, from: int) -> Seq<ReadStep>
    decreases blocks.len() - from,
{
    if from < 0 || from >= blocks.len() {
        Seq::empty()
    } else {
        let end = segment_end(blocks, from + 1);
        if end <= from || end > blocks.len() {
            Seq::empty()
        } else {
            continuous_steps(max, blocks.take(end), from) + read_steps(max, blocks, end)
        }
    }
}

fn plan_continuous(
    blocks: &Vec<StreamDataBlock>,
    from: usize,
    end: usize,
    max_read_batch_size: u64,
    out: &mut Vec<ReadStep>,
)
    requires
        from <= end <= blocks@.len(),
    ensures
        final(out)@ == old(out)@ + continuous_steps(
            max_read_batch_size,
            blocks@.take(end as int),
            from as int,
        ),
{
    let ghost part = blocks@.take(end as int);
    let ghost goal = old(out)@ + continuous_steps(max_read_batch_size, part, from as int);
    if max_read_batch_size == 0 {
        if from < end {
            out.push(ReadStep::Run { first: from, end });
        }
        assert(out@ =~= goal);
        return;
    }
    let mut start: usize = from;
    while start < end
        invariant
            from <= start <= end <= blocks@.len(),
            max_read_batch_size > 0,
            part == blocks@.take(end as int),
            goal == out@ + continuous_steps(max_read_batch_size, part, start as int),
        decreases end - start,
    {
        let mut i: usize = start;
        let mut room: u64 = max_read_batch_size - 1;
        let ghost rest = part.skip(start as int);
        assert(rest.skip(0) =~= rest);
        while i < end && blocks[i].index.size as u64 <= room
            invariant
                start <= i <= end <= blocks@.len(),
                part == blocks@.take(end as int),
                rest == part.skip(start as int),
                fitting(max_read_batch_size - 1, rest) == i - start + fitting(
                    room as int,
                    rest.skip(i - start),
                ),
            decreases end - i,
        {
            proof {
                assert(rest.skip(i - start)[0] == blocks@[i as int]);
                assert(rest.skip(i - start).skip(1) =~= rest.skip(i + 1 - start));
            }
            room = room - blocks[i].index.size as u64;
            i += 1;
        }
        proof {
            if i < end {
                assert(rest.skip(i - start)[0] == blocks@[i as int]);
            }
            assert(fitting(max_read_batch_size - 1, rest) == i - start);
        }
        let ghost before = out@;
        if i == start {
            out.push(ReadStep::Chunked { block: start });
            assert(out@ + continuous_steps(max_read_batch_size, part, start + 1) =~= goal);
            start = start + 1;
        } else {
            out.push(ReadStep::Run { first: start, end: i });
            assert(out@ + continuous_steps(max_read_batch_size, part, i as int) =~= goal);
            start = i;
        }
    }
    assert(out@ =~= goal);
}

/// Plans the reads of blocks of one object, coalescing blocks that follow each other.
pub fn plan_reads(blocks: &Vec<StreamDataBlock>, max_read_batch_size: u64) -> (r: Vec<ReadStep>)
    requires
        all_valid(blocks@),
    ensures
        r@ == read_steps(max_read_batch_size, blocks@, 0),
{
    let mut out: Vec<ReadStep> = Vec::new();
    let n: usize = blocks.len();
    let mut start: usize = 0;
    let ghost goal = read_steps(max_read_batch_size, blocks@, 0);
    assert(out@ + goal =~= goal);
    while start < n
        invariant
            start <= n == blocks@.len(),
            all_valid(blocks@),
            goal == out@ + read_steps(max_read_batch_size, blocks@, start as int),
        decreases n - start,
    {
        let mut end: usize = start + 1;
        while end < n && blocks[end].block_start_position() == blocks[end - 1].index.end_position()
            invariant
                start < end <= n == blocks@.len(),
                all_valid(blocks@),
                segment_end(blocks@, start + 1) == segment_end(blocks@, end as int),
            decreases n - end,
        {
            end += 1;
        }
        assert(segment_end(blocks@, start + 1) == end);
        let ghost before = out@;
        plan_continuous(blocks, start, end, max_read_batch_size, &mut out);
        assert(out@ + read_steps(max_read_batch_size, blocks@, end as int) =~= before + read_steps(
            max_read_batch_size,
            blocks@,
            start as int,
        ));
        start = end;
    }
    assert(out@ =~= goal);
    out
}

/// The blocks that a list of steps reads, in order.
pub open spec fn blocks_read(blocks: Seq<StreamDataBlock>, steps: Seq<ReadStep>) -> Seq<
    StreamDataBlock,
>
    decreases steps.len(),
{
    if steps.len() == 0 {
        Seq::empty()
    } else {
        blocks_read(blocks, steps.drop_last()) + match steps.last() {
            ReadStep::Run { first, end } => blocks.subrange(first as int, end as int),
            ReadStep::Chunked { block } => seq![blocks[block as int]],
        }
    }
}

proof fn lemma_blocks_read_add(blocks: Seq<StreamDataBlock>, a: Seq<ReadStep>, b: Seq<ReadStep>)
    ensures
        blocks_read(blocks, a + b) == blocks_read(blocks, a) + blocks_read(blocks, b),
    decreases b.len(),
{
    if b.len() == 0 {
        assert(a + b =~= a);
        assert(blocks_read(blocks, a) + blocks_read(blocks, b) =~= blocks_read(blocks, a));
    } else {
        lemma_blocks_read_add(blocks, a, b.drop_last());
        assert((a + b).drop_last() =~= a + b.drop_last());
        assert(blocks_read(blocks, a + b) =~= blocks_read(blocks, a) + blocks_read(blocks, b));
    }
}

proof fn lemma_blocks_read_one(blocks: Seq<StreamDataBlock>, s: ReadStep)
    ensures
        blocks_read(blocks, seq![s]) == match s {
            ReadStep::Run { first, end } => blocks.subrange(first as int, end as int),
            ReadStep::Chunked { block } => seq![blocks[block as int]],
        },
{
    let one = seq![s];
    assert(one.drop_last() =~= Seq::empty());
    assert(one.last() == s);
    assert(blocks_read(blocks, one.drop_last()) =~= Seq::empty());
    assert(blocks_read(blocks, seq![s]) =~= match s {
        ReadStep::Run { first, end } => blocks.subrange(first as int, end as int),
        ReadStep::Chunked { block } => seq![blocks[block as int]],
    });
}

/// Every block is read once, in order.
pub proof fn law_reads_cover_blocks(max: u64, blocks: Seq<StreamDataBlock>)
    requires
        blocks.len() <= usize::MAX,
    ensures
        blocks_read(blocks, read_steps(max, blocks, 0)) == blocks,
{
    lemma_reads_cover(max, blocks, 0);
    assert(blocks.skip(0) =~= blocks);
}

proof fn lemma_reads_cover(max: u64, blocks: Seq<StreamDataBlock>, from: int)
    requires
        blocks.len() <= usize::MAX,
        0 <= from <= blocks.len(),
    ensures
        blocks_read(blocks, read_steps(max, blocks, from)) == blocks.skip(from),
    decreases blocks.len() - from,
{
    if from < blocks.len() {
        let end = segment_end(blocks, from + 1);
        lemma_segment_end(blocks, from + 1);
        lemma_reads_cover(max, blocks, end);
        lemma_continuous_cover(max, blocks, end, from);
        lemma_blocks_read_add(
            blocks,
            continuous_steps(max, blocks.take(end), from),
            read_steps(max, blocks, end),
        );
        assert(blocks.subrange(from, end) + blocks.skip(end) =~= blocks.skip(from));
    } else {
        assert(blocks.skip(from) =~= Seq::empty());
    }
}

proof fn lemma_continuous_cover(max: u64, blocks: Seq<StreamDataBlock>, end: int, from: int)
    requires
        0 <= from <= end <= blocks.len() <= usize::MAX,
    ensures
        blocks_read(blocks, continuous_steps(max, blocks.take(end), from)) == blocks.subrange(
            from,
            end,
        ),
    decreases end - from,
{
    let part = blocks.take(end);
    if from < end {
        if max == 0 {
            lemma_blocks_read_one(blocks, ReadStep::Run { first: from as usize, end: end as usize });
        } else {
            let n = fitting(max - 1, part.skip(from));
            lemma_fitting(max - 1, part.skip(from));
            if n <= 0 {
                lemma_continuous_cover(max, blocks, end, from + 1);
                let s = ReadStep::Chunked { block: from as usize };
                lemma_blocks_read_one(blocks, s);
                lemma_blocks_read_add(blocks, seq![s], continuous_steps(max, part, from + 1));
                assert(seq![blocks[from]] + blocks.subrange(from + 1, end) =~= blocks.subrange(
                    from,
                    end,
                ));
            } else {
                lemma_continuous_cover(max, blocks, end, from + n);
                let s = ReadStep::Run { first: from as usize, end: (from + n) as usize };
                lemma_blocks_read_one(blocks, s);
                lemma_blocks_read_add(blocks, seq![s], continuous_steps(max, part, from + n));
                assert(blocks.subrange(from, from + n) + blocks.subrange(from + n, end)
                    =~= blocks.subrange(from, end));
            }
        }
    } else {
        assert(blocks.subrange(from, end) =~= Seq::empty());
    }
}

/// Chunks of at most `max` bytes that cover `[start, end)` in order.
pub open spec fn chunks_of(start: int, end: int, max: int) -> Seq<(u64, u64)>
    decreases end - start,
{
    if max <= 0 || start >= end {
        Seq::empty()
    } else {
        let next = if start + max < end {
            start + max
        } else {
            end
        };
        seq![(start as u64, next as u64)] + chunks_of(next, end, max)
    }
}

/// The chunks in which an oversized block is read.
pub fn chunk_ranges(start: u64, end: u64, max: u64) -> (r: Vec<(u64, u64)>)
    requires
        max > 0,
    ensures
        r@ == chunks_of(start as int, end as int, max as int),
{
    let mut out: Vec<(u64, u64)> = Vec::new();
    let mut position: u64 = start;
    let ghost goal = chunks_of(start as int, end as int, max as int);
    assert(out@ + goal =~= goal);
    while position < end
        invariant
            max > 0,
            goal == out@ + chunks_of(position as int, end as int, max as int),
        decreases end - position,
    {
        let next: u64 = if end - position > max {
            position + max
        } else {
            end
        };
        let ghost before = out@;
        out.push((position, next));
        assert(out@ + chunks_of(next as int, end as int, max as int) =~= before + chunks_of(
            position as int,
            end as int,
            max as int,
        ));
        position = next;
    }
    assert(out@ =~= goal);
    out
}

/// A block with its bytes.
#[derive(Debug)]
pub struct FetchedBlock {
    pub block: StreamDataBlock,
    pub data: Bytes,
}

/// Each block with its bytes, cut out of the bytes of the run that they were read in.
pub open spec fn is_cut_of(
    fetched: Seq<FetchedBlock>,
    blocks: Seq<StreamDataBlock>,
    data: Seq<u8>,
) -> bool {
    &&& fetched.len() == blocks.len()
    &&& forall|i: int|
        0 <= i < blocks.len() ==> (#[trigger] fetched[i]).block == blocks[i] && bytes_seq(
            fetched[i].data,
        ) == data.subrange(sizes(blocks.take(i)), sizes(blocks.take(i + 1)))
}

/// Cuts the bytes of a run into its blocks, without copying.
pub fn cut_run_data(blocks: &Vec<StreamDataBlock>, data: &Bytes) -> (r: Vec<FetchedBlock>)
    requires
        sizes(blocks@) <= bytes_seq(*data).len(),
    ensures
        is_cut_of(r@, blocks@, bytes_seq(*data)),
{
    let total: usize = bytes_as_slice(data).len();
    let mut out: Vec<FetchedBlock> = Vec::new();
    let mut cursor: usize = 0;
    let mut i: usize = 0;
    assert(blocks@.take(0) =~= Seq::empty());
    while i < blocks.len()
        invariant
            i <= blocks@.len(),
            total == bytes_seq(*data).len(),
            sizes(blocks@) <= total,
            cursor == sizes(blocks@.take(i as int)),
            is_cut_of(out@, blocks@.take(i as int), bytes_seq(*data)),
        decreases blocks@.len() - i,
    {
        let block = blocks[i];
        let ghost seen = blocks@.take(i as int);
        let ghost before = out@;
        proof {
            assert(blocks@.take(i + 1) =~= seen.push(block));
            lemma_sizes_push(seen, block);
            lemma_sizes_split(blocks@, i + 1);
            lemma_sizes_nonneg(seen);
        }
        let size: usize = block.index.size as usize;
        let piece = bytes_slice(data, cursor, cursor + size);
        out.push(FetchedBlock { block, data: piece });
        cursor = cursor + size;
        proof {
            let now = blocks@.take(i + 1);
            assert forall|j: int| 0 <= j < now.len() implies (#[trigger] out@[j]).block == now[j]
                && bytes_seq(out@[j].data) == bytes_seq(*data).subrange(
                sizes(now.take(j)),
                sizes(now.take(j + 1)),
            ) by {
                if j < i {
                    assert(out@[j] == before[j]);
                    assert(before[j].block == seen[j]);
                    assert(now.take(j) =~= seen.take(j));
                    assert(now.take(j + 1) =~= seen.take(j + 1));
                } else {
                    assert(now.take(j) =~= seen);
                    assert(now.take(j + 1) =~= now);
                }
            }
        }
        i += 1;
    }
    assert(blocks@.take(i as int) =~= blocks@);
    out
}

/// The end of an object: what of its data waits, its index, and its footer.
pub open spec fn object_end(
    waiting: Seq<u8>,
    index: Seq<u8>,
    index_position: u64,
    footer_magic: u64,
) -> Seq<u8> {
    waiting + index + be_seq(index_position as nat, 8) + be_seq(index.len() as nat, 4) + Seq::new(
        28,
        |i: int| 0u8,
    ) + be_seq(footer_magic as nat, 8)
}

/// Appends index and footer to the data that waits.
pub fn build_object_end(
    waiting: Vec<u8>,
    index: &[u8],
    index_position: u64,
    footer_magic: u64,
) -> (r: Vec<u8>)
    ensures
        r@ == object_end(waiting@, index@, index_position, footer_magic),
        r@.len() == waiting@.len() + index@.len() + FOOTER_SIZE,
{
    let mut out = waiting;
    put_slice(&mut out, index);
    put_be(&mut out, index_position, 8);
    put_be(&mut out, index.len() as u64, 4);
    let ghost head = out@;
    let mut n: usize = 0;
    while n < 28
        invariant
            n <= 28,
            out@ == head + Seq::new(n as nat, |i: int| 0u8),
        decreases 28 - n,
    {
        out.push(0);
        n += 1;
        assert(out@ =~= head + Seq::new(n as nat, |i: int| 0u8));
    }
    put_be(&mut out, footer_magic, 8);
    proof {
        crate::codec::be::lemma_be_seq_len(index_position as nat, 8);
        crate::codec::be::lemma_be_seq_len(index@.len() as nat, 4);
        crate::codec::be::lemma_be_seq_len(footer_magic as nat, 8);
        assert(out@ =~= object_end(waiting@, index@, index_position, footer_magic));
    }
    out
}

/// Writer that forwards block bytes verbatim in parts and builds a fresh index.
#[derive(Debug)]
pub struct DataBlockWriter {
    object_id: u64,
    part_size_threshold: usize,
    waiting: Vec<u8>,
    completed_blocks: Vec<StreamDataBlock>,
    next_data_block_position: u64,
}

/// What is left to do when all blocks were written: the index entries to encode, where
/// they go, and the data that still waits to be sent before them.
#[derive(Debug)]
pub struct WriterEnd {
    pub indices: Vec<DataBlockIndex>,
    pub index_position: u64,
    pub waiting: Vec<u8>,
}

impl DataBlockWriter {
    pub closed spec fn id(&self) -> u64 {
        self.object_id
    }

    pub closed spec fn threshold(&self) -> usize {
        self.part_size_threshold
    }

    /// Bytes that were not handed out yet.
    pub closed spec fn pending(&self) -> Seq<u8> {
        self.waiting@
    }

    /// The blocks written so far.
    pub closed spec fn blocks(&self) -> Seq<StreamDataBlock> {
        self.completed_blocks@
    }

    pub closed spec fn wf(&self) -> bool {
        &&& self.next_data_block_position == sizes(self.completed_blocks@)
        &&& all_valid(self.completed_blocks@)
        &&& forall|i: int|
            0 <= i < self.completed_blocks@.len() ==> (
            #[trigger] self.completed_blocks@[i]).index.stream_id != NO_STREAM
    }

    pub fn open(object_id: u64, part_size_threshold: usize) -> (r: Self)
        ensures
            r.wf(),
            r.id() == object_id,
            r.threshold() == part_size_threshold,
            r.pending() == Seq::<u8>::empty(),
            r.blocks() == Seq::<StreamDataBlock>::empty(),
    {
        DataBlockWriter {
            object_id,
            part_size_threshold,
            waiting: Vec::new(),
            completed_blocks: Vec::new(),
            next_data_block_position: 0,
        }
    }

    pub fn object_id(&self) -> (r: u64)
        ensures
            r == self.id(),
    {
        self.object_id
    }

    /// Adds a block. Once enough bytes wait, they are handed out as a part to upload.
    pub fn write(&mut self, block: &StreamDataBlock, data: &[u8]) -> (r: Option<Vec<u8>>)
        requires
            old(self).wf(),
            block.index.valid(),
            block.index.stream_id != NO_STREAM,
            data@.len() == block.index.size,
            sizes(old(self).blocks()) + block.index.size <= u64::MAX,
        ensures
            final(self).wf(),
            final(self).id() == old(self).id(),
            final(self).threshold() == old(self).threshold(),
            final(self).blocks() == old(self).blocks().push(*block),
            ({
                let all = old(self).pending() + data@;
                if all.len() >= old(self).threshold() {
                    r is Some && r->0@ == all && final(self).pending() == Seq::<u8>::empty()
                } else {
                    r is None && final(self).pending() == all
                }
            }),
            r matches Some(part) ==> part@.len() >= old(self).threshold(),
            final(self).pending().len() == 0 || final(self).pending().len() < old(self).threshold(),
    {
        proof {
            lemma_sizes_push(self.completed_blocks@, *block);
        }
        put_slice(&mut self.waiting, data);
        self.completed_blocks.push(*block);
        self.next_data_block_position = self.next_data_block_position + block.index.size as u64;
        if self.waiting.len() >= self.part_size_threshold {
            let mut part: Vec<u8> = Vec::new();
            part.append(&mut self.waiting);
            assert(part@ =~= old(self).waiting@ + data@);
            Some(part)
        } else {
            None
        }
    }

    /// Ends the data: the index entries of the blocks, grouped up to the size threshold,
    /// and the data that waits.
    pub fn close(self) -> (r: WriterEnd)
        requires
            self.wf(),
            sizes(self.blocks()) <= u64::MAX,
        ensures
            r.waiting@ == self.pending(),
            r.index_position == sizes(self.blocks()),
            exists|p: GroupByLimitPredicate|
                {
                    &&& #[trigger] p.fresh()
                    &&& p.threshold() == DATA_BLOCK_GROUP_SIZE_THRESHOLD
                    &&& r.indices@ == indices_of(groups_of(p, self.blocks()))
                },
    {
        let mut predicate = GroupByLimitPredicate::new(DATA_BLOCK_GROUP_SIZE_THRESHOLD);
        let ghost p = predicate;
        let groups = group_stream_data_blocks(&self.completed_blocks, &mut predicate);
        proof {
            let blocks = self.completed_blocks@;
            law_limit_groups_are_indexable(p, blocks);
            if blocks.len() > 0 {
                lemma_limit_step(p, blocks[0]);
            }
            law_grouping_keeps_blocks(p, blocks);
            lemma_joined_sizes(groups_of(p, blocks));
            lemma_joined_valid(groups_of(p, blocks));
            assert forall|k: int| 0 <= k < groups@.len() implies describable(
                #[trigger] groups@[k]@,
            ) by {
                assert(group_views(groups@)[k] == groups@[k]@);
                assert(is_indexable(groups_of(p, blocks)[k]));
            }
        }
        let indices = build_data_block_indices_from_group(&groups);
        WriterEnd {
            indices,
            index_position: self.next_data_block_position,
            waiting: self.waiting,
        }
    }
}

proof fn lemma_joined_sizes(groups: Seq<Seq<StreamDataBlock>>)
    ensures
        sizes(crate::compact::group::joined(groups)) == group_sizes(groups),
    decreases groups.len(),
{
    if groups.len() > 0 {
        lemma_joined_sizes(groups.drop_last());
        lemma_sizes_add(crate::compact::group::joined(groups.drop_last()), groups.last());
    }
}

proof fn lemma_joined_valid(groups: Seq<Seq<StreamDataBlock>>)
    requires
        all_valid(crate::compact::group::joined(groups)),
    ensures
        forall|k: int| 0 <= k < groups.len() ==> all_valid(#[trigger] groups[k]),
    decreases groups.len(),
{
    if groups.len() > 0 {
        let all = crate::compact::group::joined(groups);
        let rest = crate::compact::group::joined(groups.drop_last());
        assert forall|i: int| 0 <= i < rest.len() implies (#[trigger] rest[i]).index.valid() by {
            assert(all[i] == rest[i]);
        }
        lemma_joined_valid(groups.drop_last());
        assert forall|i: int| 0 <= i < groups.last().len() implies (
        #[trigger] groups.last()[i]).index.valid() by {
            assert(all[rest.len() + i] == groups.last()[i]);
        }
        assert forall|k: int| 0 <= k < groups.len() implies all_valid(#[trigger] groups[k]) by {
            if k < groups.len() - 1 {
                assert(groups.drop_last()[k] == groups[k]);
            }
        }
    }
}

/// Size of a finished object: data, index, footer.
pub fn finished_object_size(index_position: u64, index_len: usize) -> (r: u64)
    requires
        index_position + index_len + FOOTER_SIZE <= u64::MAX,
    ensures
        r == index_position + index_len + FOOTER_SIZE,
{
    index_position + index_len as u64 + FOOTER_SIZE as u64
}

/// Bytes of fetched blocks, by source object and position.
#[derive(Debug)]
pub struct BlockData {
    by_object: BTreeMap<u64, BTreeMap<u64, Bytes>>,
}

impl BlockData {
    /// The bytes of the block at a position of an object, if they were fetched.
    pub closed spec fn data(&self, object_id: u64, position: u64) -> Option<Seq<u8>> {
        if self.by_object@.contains_key(object_id) && self.by_object@[object_id]@.contains_key(
            position,
        ) {
            Some(bytes_seq(self.by_object@[object_id]@[position]))
        } else {
            None
        }
    }

    pub fn new() -> (r: Self)
        ensures
            forall|o: u64, p: u64| #[trigger] r.data(o, p) is None,
    {
        BlockData { by_object: BTreeMap::new() }
    }

    pub fn insert(&mut self, fetched: FetchedBlock)
        ensures
            forall|o: u64, p: u64| #[trigger]
                final(self).data(o, p) == (if o == fetched.block.object_id && p
                    == fetched.block.index.start_position {
                    Some(bytes_seq(fetched.data))
                } else {
                    old(self).data(o, p)
                }),
    {
        broadcast use vstd::std_specs::btree::group_btree_axioms;

        let id: u64 = fetched.block.object_id;
        let mut tree = match self.by_object.remove(&id) {
            Some(t) => t,
            None => BTreeMap::new(),
        };
        tree.insert(fetched.block.index.start_position, fetched.data);
        self.by_object.insert(id, tree);
    }

    /// The bytes of a block, if they were fetched.
    pub fn get(&self, block: &StreamDataBlock) -> (r: Option<Bytes>)
        ensures
            match self.data(block.object_id, block.index.start_position) {
                Some(d) => r is Some && bytes_seq(r->0) == d,
                None => r is None,
            },
    {
        broadcast use vstd::std_specs::btree::group_btree_axioms;

        match self.by_object.get(&block.object_id) {
            Some(tree) => match tree.get(&block.index.start_position) {
                Some(data) => Some(bytes_clone(data)),
                None => None,
            },
            None => None,
        }
    }
}

/// The stream object that a list of written blocks makes up.
pub open spec fn stream_object_of(
    blocks: Seq<StreamDataBlock>,
    object_id: u64,
    object_size: u64,
    attributes: u32,
) -> StreamObject {
    StreamObject {
        object_id,
        object_size,
        stream_id: blocks[0].index.stream_id,
        start_offset: blocks[0].index.start_offset,
        end_offset: blocks.last().index.end() as u64,
        attributes,
    }
}

/// Describes the stream object that a list of blocks was written to.
pub fn describe_stream_object(
    blocks: &Vec<StreamDataBlock>,
    object_id: u64,
    object_size: u64,
    attributes: u32,
) -> (r: StreamObject)
    requires
        blocks@.len() > 0,
        blocks@.last().index.valid(),
    ensures
        r == stream_object_of(blocks@, object_id, object_size, attributes),
{
    StreamObject {
        object_id,
        object_size,
        stream_id: blocks[0].index.stream_id,
        start_offset: blocks[0].index.start_offset,
        end_offset: blocks[blocks.len() - 1].index.end_offset(),
        attributes,
    }
}

} // verus!

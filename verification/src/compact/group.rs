//! Grouping of consecutive blocks by stateful predicates.
use vstd::prelude::*;

use crate::compact::plan::{lemma_sizes_push, sizes, StreamDataBlock};

verus! {

/// A stateful test: does the block continue the group of the blocks tested before it?
pub trait BlockPredicate: Sized {
    /// The state can be tested further.
    spec fn ready(self) -> bool;

    /// The answer for a block, and the state afterwards.
    spec fn step(self, block: StreamDataBlock) -> (bool, Self);

    fn test(&mut self, block: &StreamDataBlock) -> (r: bool)
        requires
            old(self).ready(),
            block.index.valid(),
        ensures
            (r, *final(self)) == old(self).step(*block),
            final(self).ready(),
    ;
}

/// Stream that no block is of: no group has begun.
pub const NO_STREAM: u64 = u64::MAX;

/// Cuts groups at stream change, offset discontinuity, or size/count/delta overflow.
#[derive(Debug)]
pub struct GroupByLimitPredicate {
    block_size_threshold: u64,
    stream_id: u64,
    start_offset: u64,
    next_start_offset: u64,
    block_size: u64,
    record_cnt: u64,
}

impl GroupByLimitPredicate {
    pub closed spec fn threshold(self) -> u64 {
        self.block_size_threshold
    }

    /// No group has begun.
    pub closed spec fn fresh(self) -> bool {
        self.stream_id == NO_STREAM
    }

    /// The stream of the group.
    pub closed spec fn stream(self) -> u64 {
        self.stream_id
    }

    /// First offset of the group.
    pub closed spec fn start(self) -> u64 {
        self.start_offset
    }

    /// The offset at which the group goes on.
    pub closed spec fn next(self) -> u64 {
        self.next_start_offset
    }

    /// Bytes in the group.
    pub closed spec fn bytes(self) -> u64 {
        self.block_size
    }

    /// Records in the group.
    pub closed spec fn records(self) -> u64 {
        self.record_cnt
    }

    /// The block cannot join the group.
    pub open spec fn cuts(self, block: StreamDataBlock) -> bool {
        ||| self.fresh()
        ||| block.index.stream_id != self.stream()
        ||| block.index.start_offset != self.next()
        ||| self.bytes() + block.index.size >= self.threshold()
        ||| self.records() + block.index.record_count > i32::MAX
        ||| block.index.end() - self.start() > i32::MAX
    }

    pub fn new(block_size_threshold: u64) -> (r: Self)
        ensures
            r.fresh(),
            r.ready(),
            r.threshold() == block_size_threshold,
    {
        GroupByLimitPredicate {
            block_size_threshold,
            stream_id: NO_STREAM,
            start_offset: 0,
            next_start_offset: 0,
            block_size: 0,
            record_cnt: 0,
        }
    }
}

impl BlockPredicate for GroupByLimitPredicate {
    closed spec fn ready(self) -> bool {
        &&& self.record_cnt <= u32::MAX
        &&& self.start_offset <= self.next_start_offset
    }

    closed spec fn step(self, block: StreamDataBlock) -> (bool, Self) {
        let cut = self.cuts(block);
        (
            !cut || self.fresh(),
            GroupByLimitPredicate {
                block_size_threshold: self.block_size_threshold,
                stream_id: if cut { block.index.stream_id } else { self.stream_id },
                start_offset: if cut { block.index.start_offset } else { self.start_offset },
                next_start_offset: block.index.end() as u64,
                block_size: (if cut { 0 } else { self.block_size as int } + block.index.size) as u64,
                record_cnt: (if cut { 0 } else { self.record_cnt as int }
                    + block.index.record_count) as u64,
            },
        )
    }

    fn test(&mut self, block: &StreamDataBlock) -> (r: bool) {
        let size: u64 = block.index.size as u64;
        let end: u64 = block.index.end_offset();
        let mut flag: bool = true;
        if self.stream_id == NO_STREAM || block.index.stream_id != self.stream_id
            || block.index.start_offset != self.next_start_offset || self.block_size_threshold
            <= size || self.block_size >= self.block_size_threshold - size || self.record_cnt
            + block.index.record_count as u64 > i32::MAX as u64 || end - self.start_offset
            > i32::MAX as u64 {
            if self.stream_id != NO_STREAM {
                flag = false;
            }
            self.stream_id = block.index.stream_id;
            self.start_offset = block.index.start_offset;
            self.block_size = 0;
            self.record_cnt = 0;
        }
        self.next_start_offset = end;
        self.block_size = self.block_size + size;
        self.record_cnt = self.record_cnt + block.index.record_count as u64;
        flag
    }
}

/// Cuts groups at stream change or offset discontinuity.
#[derive(Debug)]
pub struct GroupByOffsetPredicate {
    curr_stream_id: u64,
    next_start_offset: u64,
}

impl GroupByOffsetPredicate {
    /// No group has begun.
    pub closed spec fn fresh(self) -> bool {
        self.curr_stream_id == NO_STREAM
    }

    /// The stream of the group.
    pub closed spec fn stream(self) -> u64 {
        self.curr_stream_id
    }

    /// The offset at which the group goes on.
    pub closed spec fn next(self) -> u64 {
        self.next_start_offset
    }

    pub fn new() -> (r: Self)
        ensures
            r.fresh(),
            r.ready(),
    {
        GroupByOffsetPredicate { curr_stream_id: NO_STREAM, next_start_offset: 0 }
    }
}

impl BlockPredicate for GroupByOffsetPredicate {
    open spec fn ready(self) -> bool {
        true
    }

    closed spec fn step(self, block: StreamDataBlock) -> (bool, Self) {
        (
            self.fresh() || (self.stream() == block.index.stream_id && self.next()
                == block.index.start_offset),
            GroupByOffsetPredicate {
                curr_stream_id: block.index.stream_id,
                next_start_offset: block.index.end() as u64,
            },
        )
    }

    fn test(&mut self, block: &StreamDataBlock) -> (r: bool) {
        let joins: bool = self.curr_stream_id == NO_STREAM || (self.curr_stream_id
            == block.index.stream_id && self.next_start_offset == block.index.start_offset);
        self.curr_stream_id = block.index.stream_id;
        self.next_start_offset = block.index.end_offset();
        joins
    }
}

/// What the limit predicate answers, and what it has seen afterwards.
pub proof fn lemma_limit_step(p: GroupByLimitPredicate, block: StreamDataBlock)
    requires
        p.ready(),
        block.index.valid(),
    ensures
        p.step(block).0 <==> (!p.cuts(block) || p.fresh()),
        p.step(block).1.threshold() == p.threshold(),
        p.step(block).1.next() == block.index.end(),
        p.step(block).1.stream() == block.index.stream_id,
        p.cuts(block) ==> {
            &&& p.step(block).1.start() == block.index.start_offset
            &&& p.step(block).1.bytes() == block.index.size
            &&& p.step(block).1.records() == block.index.record_count
        },
        !p.cuts(block) ==> {
            &&& p.step(block).1.start() == p.start()
            &&& p.step(block).1.bytes() == p.bytes() + block.index.size
            &&& p.step(block).1.records() == p.records() + block.index.record_count
        },
{
}

/// What the offset predicate answers, and what it has seen afterwards.
pub proof fn lemma_offset_step(p: GroupByOffsetPredicate, block: StreamDataBlock)
    requires
        block.index.valid(),
    ensures
        p.step(block).0 <==> p.fresh() || (p.stream() == block.index.stream_id && p.next()
            == block.index.start_offset),
        p.step(block).1.stream() == block.index.stream_id,
        p.step(block).1.next() == block.index.end(),
        p.step(block).1.fresh() <==> block.index.stream_id == NO_STREAM,
{
}

/// Groups closed so far, the open group, and the predicate after it.
pub struct Grouping<P> {
    pub closed_groups: Seq<Seq<StreamDataBlock>>,
    pub open_group: Seq<StreamDataBlock>,
    pub predicate: P,
}

/// The grouping of a list of blocks: a block that the predicate accepts joins the open
/// group, any other one closes it and begins the next. A refused block with no open
/// group is left out.
pub open spec fn grouping<P: BlockPredicate>(p: P, blocks: Seq<StreamDataBlock>) -> Grouping<P>
    decreases blocks.len(),
{
    if blocks.len() == 0 {
        Grouping { closed_groups: Seq::empty(), open_group: Seq::empty(), predicate: p }
    } else {
        let g = grouping(p, blocks.drop_last());
        let b = blocks.last();
        let (joins, next) = g.predicate.step(b);
        if joins {
            Grouping {
                closed_groups: g.closed_groups,
                open_group: g.open_group.push(b),
                predicate: next,
            }
        } else if g.open_group.len() > 0 {
            Grouping {
                closed_groups: g.closed_groups.push(g.open_group),
                open_group: seq![b],
                predicate: next,
            }
        } else {
            Grouping {
                closed_groups: g.closed_groups,
                open_group: g.open_group,
                predicate: next,
            }
        }
    }
}

/// The groups of a list of blocks, the last one closed.
pub open spec fn groups_of<P: BlockPredicate>(
    p: P,
    blocks: Seq<StreamDataBlock>,
) -> Seq<Seq<StreamDataBlock>> {
    let g = grouping(p, blocks);
    if g.open_group.len() > 0 {
        g.closed_groups.push(g.open_group)
    } else {
        g.closed_groups
    }
}

/// The block lists of a list of vectors.
pub open spec fn group_views(groups: Seq<Vec<StreamDataBlock>>) -> Seq<Seq<StreamDataBlock>> {
    groups.map_values(|g: Vec<StreamDataBlock>| g@)
}

/// Group consecutive blocks while `predicate` holds.
pub fn group_stream_data_blocks<P: BlockPredicate>(
    blocks: &Vec<StreamDataBlock>,
    predicate: &mut P,
) -> (r: Vec<Vec<StreamDataBlock>>)
    requires
        old(predicate).ready(),
        crate::compact::plan::all_valid(blocks@),
    ensures
        group_views(r@) == groups_of(*old(predicate), blocks@),
        *final(predicate) == grouping(*old(predicate), blocks@).predicate,
        final(predicate).ready(),
{
    let ghost p0 = *predicate;
    let mut groups: Vec<Vec<StreamDataBlock>> = Vec::new();
    let mut curr: Vec<StreamDataBlock> = Vec::new();
    let mut i: usize = 0;
    assert(group_views(groups@) =~= Seq::empty());
    assert(blocks@.take(0) =~= Seq::empty());
    while i < blocks.len()
        invariant
            i <= blocks@.len(),
            crate::compact::plan::all_valid(blocks@),
            predicate.ready(),
            group_views(groups@) == grouping(p0, blocks@.take(i as int)).closed_groups,
            curr@ == grouping(p0, blocks@.take(i as int)).open_group,
            *predicate == grouping(p0, blocks@.take(i as int)).predicate,
        decreases blocks@.len() - i,
    {
        let block = blocks[i];
        proof {
            assert(blocks@.take(i + 1).drop_last() =~= blocks@.take(i as int));
            assert(blocks@.take(i + 1).last() == block);
        }
        if predicate.test(&block) {
            curr.push(block);
        } else if curr.len() > 0 {
            let mut next: Vec<StreamDataBlock> = Vec::new();
            next.push(block);
            let ghost before = groups@;
            groups.push(curr);
            curr = next;
            assert(group_views(groups@) =~= group_views(before).push(groups@.last()@));
            assert(curr@ =~= seq![block]);
        }
        i += 1;
    }
    assert(blocks@.take(i as int) =~= blocks@);
    if curr.len() > 0 {
        let ghost before = groups@;
        groups.push(curr);
        assert(group_views(groups@) =~= group_views(before).push(groups@.last()@));
    }
    groups
}

/// The blocks of a list of groups, one after the other.
pub open spec fn joined(groups: Seq<Seq<StreamDataBlock>>) -> Seq<StreamDataBlock>
    decreases groups.len(),
{
    if groups.len() == 0 {
        Seq::empty()
    } else {
        joined(groups.drop_last()) + groups.last()
    }
}

/// Grouping loses no block and keeps their order, where the first block is accepted.
pub proof fn law_grouping_keeps_blocks<P: BlockPredicate>(p: P, blocks: Seq<StreamDataBlock>)
    requires
        blocks.len() > 0 ==> p.step(blocks[0]).0,
    ensures
        joined(groups_of(p, blocks)) == blocks,
{
    lemma_grouping_keeps(p, blocks);
    let g = grouping(p, blocks);
    if g.open_group.len() > 0 {
        assert(g.closed_groups.push(g.open_group).drop_last() =~= g.closed_groups);
    } else {
        assert(joined(g.closed_groups) + g.open_group =~= joined(g.closed_groups));
    }
}

proof fn lemma_grouping_keeps<P: BlockPredicate>(p: P, blocks: Seq<StreamDataBlock>)
    requires
        blocks.len() > 0 ==> p.step(blocks[0]).0,
    ensures
        joined(grouping(p, blocks).closed_groups) + grouping(p, blocks).open_group == blocks,
        blocks.len() > 0 ==> grouping(p, blocks).open_group.len() > 0,
    decreases blocks.len(),
{
    if blocks.len() > 0 {
        let rest = blocks.drop_last();
        let g = grouping(p, rest);
        if rest.len() > 0 {
            assert(rest[0] == blocks[0]);
        }
        lemma_grouping_keeps(p, rest);
        assert(blocks =~= rest.push(blocks.last()));
        if g.open_group.len() > 0 {
            assert(g.closed_groups.push(g.open_group).drop_last() =~= g.closed_groups);
        }
        assert(joined(grouping(p, blocks).closed_groups) + grouping(p, blocks).open_group
            =~= blocks);
    } else {
        assert(joined(grouping(p, blocks).closed_groups) + grouping(p, blocks).open_group
            =~= blocks);
    }
}

/// A run: blocks of one stream, each beginning where the one before ends.
pub open spec fn is_run(blocks: Seq<StreamDataBlock>) -> bool {
    forall|i: int, j: int|
        #![trigger blocks[i], blocks[j]]
        0 <= i && j == i + 1 && j < blocks.len() ==> blocks[i].index.stream_id
            == blocks[j].index.stream_id && blocks[j].index.start_offset == blocks[i].index.end()
}

/// Groups by offset are not empty, and each of them is a run.
pub proof fn law_offset_groups_are_runs(p: GroupByOffsetPredicate, blocks: Seq<StreamDataBlock>)
    requires
        p.fresh(),
        crate::compact::plan::all_valid(blocks),
        forall|i: int|
            0 <= i < blocks.len() ==> (#[trigger] blocks[i]).index.stream_id != NO_STREAM,
    ensures
        forall|k: int|
            0 <= k < groups_of(p, blocks).len() ==> (#[trigger] groups_of(p, blocks)[k]).len() > 0
                && is_run(groups_of(p, blocks)[k]),
{
    lemma_offset_groups(p, blocks);
}

proof fn lemma_offset_groups(p: GroupByOffsetPredicate, blocks: Seq<StreamDataBlock>)
    requires
        p.fresh(),
        crate::compact::plan::all_valid(blocks),
        forall|i: int|
            0 <= i < blocks.len() ==> (#[trigger] blocks[i]).index.stream_id != NO_STREAM,
    ensures
        ({
            let g = grouping(p, blocks);
            &&& forall|k: int|
                0 <= k < g.closed_groups.len() ==> (#[trigger] g.closed_groups[k]).len() > 0
                    && is_run(g.closed_groups[k])
            &&& is_run(g.open_group)
            &&& blocks.len() > 0 ==> {
                &&& g.open_group.len() > 0
                &&& g.open_group.last() == blocks.last()
                &&& !g.predicate.fresh()
                &&& g.predicate.stream() == blocks.last().index.stream_id
                &&& g.predicate.next() == blocks.last().index.end()
            }
        }),
    decreases blocks.len(),
{
    if blocks.len() > 0 {
        let rest = blocks.drop_last();
        lemma_offset_groups(p, rest);
        lemma_offset_step(grouping(p, rest).predicate, blocks.last());
        assert(blocks.last().index.stream_id != NO_STREAM);
    }
}


/// Records in a list of blocks.
pub open spec fn records_in(blocks: Seq<StreamDataBlock>) -> int
    decreases blocks.len(),
{
    if blocks.len() == 0 {
        0
    } else {
        records_in(blocks.drop_last()) + blocks.last().index.record_count
    }
}

pub proof fn lemma_records_push(blocks: Seq<StreamDataBlock>, b: StreamDataBlock)
    ensures
        records_in(blocks.push(b)) == records_in(blocks) + b.index.record_count,
{
    assert(blocks.push(b).drop_last() =~= blocks);
}

/// One index entry can describe the group: its offsets and its records fit 32 bits.
pub open spec fn is_indexable(group: Seq<StreamDataBlock>) -> bool {
    &&& group.len() > 0
    &&& is_run(group)
    &&& 0 <= group.last().index.end() - group[0].index.start_offset <= u32::MAX
    &&& records_in(group) <= u32::MAX
}

/// Groups by limit are runs that one index entry can describe, and stay below the size
/// threshold unless they are a single block.
pub proof fn law_limit_groups_are_indexable(p: GroupByLimitPredicate, blocks: Seq<StreamDataBlock>)
    requires
        p.fresh(),
        p.ready(),
        crate::compact::plan::all_valid(blocks),
        forall|i: int|
            0 <= i < blocks.len() ==> (#[trigger] blocks[i]).index.stream_id != NO_STREAM,
    ensures
        forall|k: int|
            0 <= k < groups_of(p, blocks).len() ==> is_indexable(
                #[trigger] groups_of(p, blocks)[k],
            ),
        forall|k: int|
            0 <= k < groups_of(p, blocks).len() ==> (#[trigger] groups_of(p, blocks)[k]).len() == 1
                || sizes(groups_of(p, blocks)[k]) < p.threshold(),
{
    lemma_limit_groups(p, blocks);
}

/// What the predicate has seen is the open group.
pub open spec fn tracks(p: GroupByLimitPredicate, open: Seq<StreamDataBlock>) -> bool {
    &&& open.len() > 0
    &&& !p.fresh()
    &&& p.stream() == open.last().index.stream_id
    &&& p.start() == open[0].index.start_offset
    &&& p.next() == open.last().index.end()
    &&& p.bytes() == sizes(open)
    &&& p.records() == records_in(open)
}

proof fn lemma_limit_groups(p: GroupByLimitPredicate, blocks: Seq<StreamDataBlock>)
    requires
        p.fresh(),
        p.ready(),
        crate::compact::plan::all_valid(blocks),
        forall|i: int|
            0 <= i < blocks.len() ==> (#[trigger] blocks[i]).index.stream_id != NO_STREAM,
    ensures
        ({
            let g = grouping(p, blocks);
            &&& g.predicate.ready()
            &&& g.predicate.threshold() == p.threshold()
            &&& forall|k: int|
                0 <= k < g.closed_groups.len() ==> is_indexable(#[trigger] g.closed_groups[k])
            &&& forall|k: int|
                0 <= k < g.closed_groups.len() ==> (#[trigger] g.closed_groups[k]).len() == 1
                    || sizes(g.closed_groups[k]) < p.threshold()
            &&& blocks.len() == 0 ==> g.predicate == p && g.open_group.len() == 0
            &&& blocks.len() > 0 ==> {
                &&& tracks(g.predicate, g.open_group)
                &&& is_indexable(g.open_group)
                &&& g.open_group.len() == 1 || sizes(g.open_group) < p.threshold()
            }
        }),
    decreases blocks.len(),
{
    if blocks.len() > 0 {
        let rest = blocks.drop_last();
        let b = blocks.last();
        lemma_limit_groups(p, rest);
        let g = grouping(p, rest);
        assert(b.index.valid() && b.index.stream_id != NO_STREAM) by {
            assert(blocks[blocks.len() - 1].index.valid());
        }
        lemma_limit_step(g.predicate, b);
        lemma_ready_step(g.predicate, b);
        lemma_sizes_push(g.open_group, b);
        lemma_records_push(g.open_group, b);
        lemma_sizes_push(Seq::empty(), b);
        lemma_records_push(Seq::empty(), b);
        assert(seq![b] =~= Seq::empty().push(b));
        let h = grouping(p, blocks);
        assert(h.predicate == g.predicate.step(b).1);
        if rest.len() == 0 {
            assert(g.open_group =~= Seq::empty());
            assert(h.open_group =~= seq![b]);
        }
    }
}

/// A group of several blocks keeps the limits: its bytes stay below the threshold, and its
/// records and its offsets fit 31 bits.
pub open spec fn within_limits(group: Seq<StreamDataBlock>, threshold: u64) -> bool {
    group.len() > 1 ==> {
        &&& sizes(group) < threshold
        &&& records_in(group) <= i32::MAX
        &&& group.last().index.end() - group[0].index.start_offset <= i32::MAX
    }
}

/// The block could not have joined the group.
pub open spec fn cannot_join(
    group: Seq<StreamDataBlock>,
    block: StreamDataBlock,
    threshold: u64,
) -> bool {
    ||| block.index.stream_id != group.last().index.stream_id
    ||| block.index.start_offset != group.last().index.end()
    ||| !within_limits(group.push(block), threshold)
}

/// Every cut between groups was forced.
spec fn cuts_are_forced(groups: Seq<Seq<StreamDataBlock>>, threshold: u64) -> bool {
    forall|k: int, n: int|
        #![trigger groups[k], groups[n]]
        0 <= k && n == k + 1 && n < groups.len() ==> cannot_join(groups[k], groups[n][0], threshold)
}

/// Groups by limit keep the limits, together they are the blocks, and each cut was forced:
/// the first block of a group could not have joined the group before it.
pub proof fn law_limit_groups_are_maximal(p: GroupByLimitPredicate, blocks: Seq<StreamDataBlock>)
    requires
        p.fresh(),
        p.ready(),
        crate::compact::plan::all_valid(blocks),
        forall|i: int|
            0 <= i < blocks.len() ==> (#[trigger] blocks[i]).index.stream_id != NO_STREAM,
    ensures
        joined(groups_of(p, blocks)) == blocks,
        forall|k: int|
            0 <= k < groups_of(p, blocks).len() ==> (#[trigger] groups_of(p, blocks)[k]).len() > 0
                && within_limits(groups_of(p, blocks)[k], p.threshold()),
        forall|k: int, n: int|
            #![trigger groups_of(p, blocks)[k], groups_of(p, blocks)[n]]
            0 <= k && n == k + 1 && n < groups_of(p, blocks).len() ==> cannot_join(
                groups_of(p, blocks)[k],
                groups_of(p, blocks)[n][0],
                p.threshold(),
            ),
{
    if blocks.len() > 0 {
        assert(blocks[0].index.valid());
        lemma_limit_step(p, blocks[0]);
    }
    law_grouping_keeps_blocks(p, blocks);
    lemma_limit_groups(p, blocks);
    lemma_forced_cuts(p, blocks);
}

proof fn lemma_forced_cuts(p: GroupByLimitPredicate, blocks: Seq<StreamDataBlock>)
    requires
        p.fresh(),
        p.ready(),
        crate::compact::plan::all_valid(blocks),
        forall|i: int|
            0 <= i < blocks.len() ==> (#[trigger] blocks[i]).index.stream_id != NO_STREAM,
    ensures
        ({
            let g = grouping(p, blocks);
            &&& forall|k: int|
                0 <= k < g.closed_groups.len() ==> within_limits(
                    #[trigger] g.closed_groups[k],
                    p.threshold(),
                )
            &&& within_limits(g.open_group, p.threshold())
            &&& cuts_are_forced(groups_of(p, blocks), p.threshold())
        }),
    decreases blocks.len(),
{
    if blocks.len() > 0 {
        let rest = blocks.drop_last();
        let b = blocks.last();
        lemma_forced_cuts(p, rest);
        lemma_limit_groups(p, rest);
        lemma_limit_groups(p, blocks);
        let g = grouping(p, rest);
        let h = grouping(p, blocks);
        assert(b.index.valid()) by {
            assert(blocks[blocks.len() - 1].index.valid());
        }
        lemma_limit_step(g.predicate, b);
        lemma_sizes_push(g.open_group, b);
        lemma_records_push(g.open_group, b);
        let before = groups_of(p, rest);
        let after = groups_of(p, blocks);
        assert forall|k: int, n: int|
            #![trigger after[k], after[n]]
            0 <= k && n == k + 1 && n < after.len() implies cannot_join(
            after[k],
            after[n][0],
            p.threshold(),
        ) by {
            assert(after.last() == h.open_group);
            if n < h.closed_groups.len() {
                assert(after[k] == before[k] && after[n] == before[n]);
            } else if g.predicate.step(b).0 {
                if g.open_group.len() > 0 {
                    assert(after[k] == before[k]);
                    assert(before[n] == g.open_group);
                    assert(h.open_group[0] == g.open_group[0]);
                }
            } else {
                assert(after[k] == g.open_group);
                assert(h.open_group[0] == b);
            }
        }
    }
}

proof fn lemma_ready_step(p: GroupByLimitPredicate, block: StreamDataBlock)
    requires
        p.ready(),
        block.index.valid(),
    ensures
        p.step(block).1.ready(),
        p.step(block).1.fresh() <==> block.index.stream_id == NO_STREAM,
{
}

} // verus!

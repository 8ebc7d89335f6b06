//! One read of a range: which blocks it takes, and what it extracts from them.
use vstd::prelude::*;

use crate::api::{CacheAccessType, ReadDataBlock};
use crate::cache::blockcache::block_table::index_of;
use crate::cache::blockcache::data_block::{picked, LoadState};
use crate::cache::blockcache::data_block_cache::DataBlockCache;
use crate::cache::blockcache::window::{
    floor_slot, is_window, walk_from, BlockWindow, SlotModel, WalkOutcome, WindowModel,
};
use crate::cache::log_cache::is_gapless;
use crate::cache::stream_cache::record_views;
use crate::codec::record::{
    is_batch, rec_base_offset, rec_last_offset, rec_size, StreamRecordBatch,
};
use crate::error::{StreamError, Unexpected};
use crate::object::DataBlockIndex;

verus! {

/// A byte budget as a signed number.
pub open spec fn budget_of(max_bytes: usize) -> int {
    if max_bytes <= i64::MAX {
        max_bytes as int
    } else {
        i64::MAX as int
    }
}

fn signed_budget(max_bytes: usize) -> (r: i64)
    ensures
        r == budget_of(max_bytes),
{
    let b: u64 = max_bytes as u64;
    if b <= i64::MAX as u64 {
        b as i64
    } else {
        i64::MAX
    }
}

/// The search for the blocks of a range: the window is walked, and more of the index is
/// loaded when it runs out.
#[derive(Debug)]
pub struct BlockSearch {
    pub cursor: u64,
    pub end_offset: Option<u64>,
    pub remaining: i64,
    pub readahead: bool,
    /// Index entries of the blocks that were taken so far.
    pub collected: Vec<DataBlockIndex>,
}

/// Index entries of some slots.
pub open spec fn indexes(slots: Seq<SlotModel>) -> Seq<DataBlockIndex> {
    slots.map_values(|s: SlotModel| s.index)
}

/// Each block begins where the one before it ends.
pub open spec fn is_chain(blocks: Seq<DataBlockIndex>) -> bool {
    &&& forall|i: int| 0 <= i < blocks.len() ==> (#[trigger] blocks[i]).valid()
    &&& forall|i: int, j: int|
        #![trigger blocks[i], blocks[j]]
        0 <= i && j == i + 1 && j < blocks.len() ==> blocks[i].end() == blocks[j].start_offset
}

impl BlockSearch {
    pub open spec fn wf(&self) -> bool {
        &&& self.remaining >= 0
        &&& forall|i: int| 0 <= i < self.collected@.len() ==> (#[trigger] self.collected@[i]).valid()
    }

    pub fn new(start_offset: u64, end_offset: Option<u64>, max_bytes: usize, readahead: bool) -> (r:
        Self)
        ensures
            r.wf(),
            r.cursor == start_offset,
            r.end_offset == end_offset,
            r.remaining == budget_of(max_bytes),
            r.readahead == readahead,
            r.collected@ == Seq::<DataBlockIndex>::empty(),
    {
        BlockSearch {
            cursor: start_offset,
            end_offset,
            remaining: signed_budget(max_bytes),
            readahead,
            collected: Vec::new(),
        }
    }

    /// Walks the window once. Returns how the walk ended, and the slots that it took, for
    /// which the cache is to be asked now.
    pub fn walk(&mut self, window: &BlockWindow) -> (r: Result<
        (WalkOutcome, usize, usize),
        StreamError,
    >)
        requires
            old(self).wf(),
            is_window(window@),
        ensures
            r is Err || r matches Ok((WalkOutcome::Fulfilled, _, _)) || final(self).wf(),
            final(self).cursor == old(self).cursor,
            final(self).end_offset == old(self).end_offset,
            final(self).readahead == old(self).readahead,
            match floor_slot(window@.slots, old(self).cursor) {
                None => {
                    &&& final(self).collected@ == old(self).collected@
                    &&& final(self).remaining == old(self).remaining
                    &&& r == (if window@.slots.len() == 0 {
                        Ok::<(WalkOutcome, usize, usize), StreamError>(
                            (WalkOutcome::NeedMore, 0, 0),
                        )
                    } else if old(self).readahead {
                        Ok((WalkOutcome::ReadaheadDone, 0, 0))
                    } else {
                        Err(
                            StreamError::Unexpected(
                                Unexpected::NoFloorBlock { offset: old(self).cursor },
                            ),
                        )
                    })
                },
                Some(f) => if old(self).cursor >= window@.loaded_end {
                    &&& final(self).collected@ == old(self).collected@
                    &&& final(self).remaining == old(self).remaining
                    &&& r == Ok::<(WalkOutcome, usize, usize), StreamError>(
                        (WalkOutcome::NeedMore, 0, 0),
                    )
                } else {
                    let (stop, fulfilled, left) = walk_from(
                        window@.slots,
                        f,
                        true,
                        old(self).cursor,
                        old(self).end_offset,
                        old(self).remaining as int,
                    );
                    &&& 0 <= f < stop <= window@.slots.len()
                    &&& final(self).remaining == left
                    &&& final(self).collected@ == old(self).collected@ + indexes(
                        window@.slots.subrange(f, stop),
                    )
                    &&& r == Ok::<(WalkOutcome, usize, usize), StreamError>(
                        (
                            if fulfilled {
                                WalkOutcome::Fulfilled
                            } else {
                                WalkOutcome::NeedMore
                            },
                            f as usize,
                            stop as usize,
                        ),
                    )
                },
            },
    {
        let slots: usize = window.len();
        assert(slots == window@.slots.len());
        let mut remaining: i64 = self.remaining;
        let walked = window.walk_window(
            self.cursor,
            self.end_offset,
            &mut remaining,
            self.readahead,
        );
        self.remaining = remaining;
        let (outcome, from, to) = match walked {
            Ok(w) => w,
            Err(e) => {
                return Err(e);
            },
        };
        let ghost before = self.collected@;
        let mut i: usize = from;
        while i < to
            invariant
                from <= i <= to <= window@.slots.len(),
                is_window(window@),
                self.cursor == old(self).cursor,
                self.end_offset == old(self).end_offset,
                self.readahead == old(self).readahead,
                self.remaining == remaining,
                forall|k: int|
                    0 <= k < self.collected@.len() ==> (#[trigger] self.collected@[k]).valid(),
                self.collected@ == before + indexes(
                    window@.slots.subrange(from as int, i as int),
                ),
            decreases to - i,
        {
            let index = window.slot(i).index;
            let ghost prior = self.collected@;
            self.collected.push(index);
            proof {
                assert(window@.slots[i as int].index.valid());
                assert(self.collected@ =~= before + indexes(
                    window@.slots.subrange(from as int, i + 1),
                ));
                assert forall|k: int| 0 <= k < self.collected@.len() implies (
                #[trigger] self.collected@[k]).valid() by {
                    if k < prior.len() {
                        assert(prior[k].valid());
                    }
                }
            }
            i += 1;
        }
        assert(self.collected@ =~= before + indexes(
            window@.slots.subrange(from as int, to as int),
        ));
        Ok((outcome, from, to))
    }

    /// More of the index was asked for. `more` says whether any was loaded, up to
    /// `loaded_end`. True, where the search ends with what it has.
    pub fn after_load(&mut self, more: bool, loaded_end: u64) -> (r: Result<bool, StreamError>)
        requires
            old(self).wf(),
        ensures
            final(self).end_offset == old(self).end_offset,
            final(self).readahead == old(self).readahead,
            final(self).remaining == old(self).remaining,
            final(self).collected@ == old(self).collected@,
            r == (if !more && old(self).readahead {
                Ok::<bool, StreamError>(true)
            } else if !more && (old(self).end_offset matches Some(e) && e > loaded_end) {
                Err(
                    StreamError::Unexpected(
                        Unexpected::IndexEndsEarly {
                            end: old(self).end_offset->0,
                            loaded: loaded_end,
                        },
                    ),
                )
            } else {
                Ok(false)
            }),
            r == Ok::<bool, StreamError>(false) ==> final(self).cursor == (if old(
                self,
            ).collected@.len() > 0 {
                old(self).collected@.last().end()
            } else {
                old(self).cursor as int
            }),
    {
        if !more {
            if self.readahead {
                return Ok(true);
            }
            match self.end_offset {
                Some(end) => {
                    if end > loaded_end {
                        return Err(
                            StreamError::Unexpected(
                                Unexpected::IndexEndsEarly { end, loaded: loaded_end },
                            ),
                        );
                    }
                },
                None => {},
            }
        }
        let n: usize = self.collected.len();
        if n > 0 {
            assert(self.collected@[n - 1].valid());
            self.cursor = self.collected[n - 1].end_offset();
        }
        Ok(false)
    }
}

/// The blocks that one walk takes form a chain that holds the cursor.
pub proof fn law_walked_blocks_are_chain(w: WindowModel, from: int, to: int)
    requires
        is_window(w),
        0 <= from <= to <= w.slots.len(),
    ensures
        is_chain(indexes(w.slots.subrange(from, to))),
{
    let c = indexes(w.slots.subrange(from, to));
    assert forall|i: int| 0 <= i < c.len() implies (#[trigger] c[i]).valid() by {
        assert(w.slots[from + i].index.valid());
    }
    assert forall|i: int, j: int|
        #![trigger c[i], c[j]]
        0 <= i && j == i + 1 && j < c.len() implies c[i].end() == c[j].start_offset by {
        assert(w.slots[from + i].index.end() == w.slots[from + j].index.start_offset);
    }
}

/// One block handed to a read or a readahead.
#[derive(Debug, Clone, Copy, PartialEq, Eq, Structural)]
pub struct BlockRead {
    pub index: DataBlockIndex,
    pub handle: u64,
    pub was_loaded: bool,
}

/// A read so far.
#[verifier::ext_equal]
pub struct RunModel {
    pub next_start: u64,
    pub end: u64,
    pub remaining: int,
    pub records: Seq<Seq<u8>>,
}

/// Bytes of some records.
pub open spec fn bytes_of(records: Seq<Seq<u8>>) -> int
    decreases records.len(),
{
    if records.len() == 0 {
        0
    } else {
        rec_size(records[0]) + bytes_of(records.skip(1))
    }
}

/// The read after one block that holds its next offset: the records that overlap what is
/// left of the range.
pub open spec fn took_block(run: RunModel, index: DataBlockIndex, records: Seq<Seq<u8>>) -> RunModel {
    let next_end = if run.end <= index.end() {
        run.end
    } else {
        index.end() as u64
    };
    let taken = picked(records, run.next_start, next_end, run.remaining);
    RunModel {
        next_start: next_end,
        remaining: run.remaining - bytes_of(taken),
        records: run.records + taken,
        ..run
    }
}

/// The range is read, or the budget is used up.
pub open spec fn is_done(run: RunModel) -> bool {
    run.next_start >= run.end || run.remaining <= 0
}

/// The block does not hold the next offset.
pub open spec fn misses(run: RunModel, index: DataBlockIndex) -> bool {
    run.next_start < index.start_offset || run.next_start >= index.end()
}

/// How many blocks a read takes, the last of which ends it or is the first that misses the
/// next offset.
pub open spec fn blocks_taken(run: RunModel, reads: Seq<(DataBlockIndex, Seq<Seq<u8>>)>) -> int
    decreases reads.len(),
{
    if reads.len() == 0 || misses(run, reads[0].0) {
        0
    } else {
        let next = took_block(run, reads[0].0, reads[0].1);
        if is_done(next) {
            1
        } else {
            1 + blocks_taken(next, reads.skip(1))
        }
    }
}

/// The read after a number of blocks.
pub open spec fn took_blocks(run: RunModel, reads: Seq<(DataBlockIndex, Seq<Seq<u8>>)>) -> RunModel
    decreases reads.len(),
{
    if reads.len() == 0 {
        run
    } else {
        took_block(took_blocks(run, reads.drop_last()), reads.last().0, reads.last().1)
    }
}

proof fn lemma_bytes_push(records: Seq<Seq<u8>>, r: Seq<u8>)
    ensures
        bytes_of(records.push(r)) == bytes_of(records) + rec_size(r),
    decreases records.len(),
{
    if records.len() == 0 {
        assert(records.push(r).skip(1) =~= Seq::empty());
        assert(bytes_of(records.push(r).skip(1)) == 0);
    } else {
        assert(records.push(r).skip(1) =~= records.skip(1).push(r));
        lemma_bytes_push(records.skip(1), r);
    }
}

/// What is picked exceeds the budget by less than one record.
proof fn lemma_picked_bytes(records: Seq<Seq<u8>>, start: u64, end: u64, budget: int)
    requires
        forall|i: int| 0 <= i < records.len() ==> is_batch(#[trigger] records[i]),
    ensures
        forall|i: int|
            0 <= i < picked(records, start, end, budget).len() ==> is_batch(
                #[trigger] picked(records, start, end, budget)[i],
            ),
        bytes_of(picked(records, start, end, budget)) <= u32::MAX + (if budget > 0 {
            budget
        } else {
            0
        }),
        0 <= bytes_of(picked(records, start, end, budget)),
    decreases records.len(),
{
    let out = picked(records, start, end, budget);
    if records.len() > 0 {
        let first = records[0];
        let rest = records.skip(1);
        assert(is_batch(first));
        assert forall|i: int| 0 <= i < rest.len() implies is_batch(#[trigger] rest[i]) by {
            assert(is_batch(records[i + 1]));
        }
        if rec_base_offset(first) < end && rec_last_offset(first) > start {
            let left = budget - rec_size(first);
            if left > 0 {
                lemma_picked_bytes(rest, start, end, left);
                assert(out.skip(1) =~= picked(rest, start, end, left));
                assert forall|i: int| 0 <= i < out.len() implies is_batch(#[trigger] out[i]) by {
                    if i > 0 {
                        assert(is_batch(picked(rest, start, end, left)[i - 1]));
                    }
                }
            } else {
                assert(out.skip(1) =~= Seq::empty());
                assert(bytes_of(out.skip(1)) == 0);
            }
        } else if rec_base_offset(first) < end {
            lemma_picked_bytes(rest, start, end, budget);
        }
    }
}

/// A read of a range.
#[derive(Debug)]
pub struct ReadRun {
    next_start: u64,
    end_offset: u64,
    remaining: i64,
    cache_miss: bool,
    records: Vec<StreamRecordBatch>,
}

/// The blocks with what they hold.
pub open spec fn with_records(cache: DataBlockCache, reads: Seq<BlockRead>) -> Seq<
    (DataBlockIndex, Seq<Seq<u8>>),
> {
    reads.map_values(
        |r: BlockRead|
            (r.index, cache@.table.blocks[index_of(cache@.table.blocks, r.handle)->0].records),
    )
}

/// Every block is loaded.
pub open spec fn all_loaded(cache: DataBlockCache, reads: Seq<BlockRead>) -> bool {
    forall|i: int|
        0 <= i < reads.len() ==> {
            &&& (#[trigger] reads[i]).index.valid()
            &&& index_of(cache@.table.blocks, reads[i].handle) matches Some(k)
            &&& cache@.table.blocks[k].load == LoadState::Loaded
            &&& forall|j: int|
                0 <= j < cache@.table.blocks[k].records.len() ==> is_batch(
                    #[trigger] cache@.table.blocks[k].records[j],
                )
        }
}

impl View for ReadRun {
    type V = RunModel;

    closed spec fn view(&self) -> RunModel {
        RunModel {
            next_start: self.next_start,
            end: self.end_offset,
            remaining: self.remaining as int,
            records: record_views(self.records@),
        }
    }
}

impl ReadRun {
    pub closed spec fn missed(&self) -> bool {
        self.cache_miss
    }

    /// The budget stays within what was asked for, and the records are batches.
    pub open spec fn wf(&self) -> bool {
        &&& -(u32::MAX as int) <= self@.remaining <= usize::MAX
        &&& self@.remaining <= i64::MAX
        &&& forall|i: int| 0 <= i < self@.records.len() ==> is_batch(#[trigger] self@.records[i])
    }

    pub fn new(start_offset: u64, end_offset: u64, max_bytes: usize) -> (r: Self)
        ensures
            r.wf(),
            !r.missed(),
            r@ == (RunModel {
                next_start: start_offset,
                end: end_offset,
                remaining: budget_of(max_bytes),
                records: Seq::empty(),
            }),
    {
        let r = ReadRun {
            next_start: start_offset,
            end_offset,
            remaining: signed_budget(max_bytes),
            cache_miss: false,
            records: Vec::new(),
        };
        assert(r@.records =~= Seq::empty());
        r
    }

    /// The search for the blocks of what is left.
    pub fn next_search(&self) -> (r: BlockSearch)
        requires
            self.wf(),
        ensures
            r.wf(),
            r.cursor == self@.next_start,
            r.end_offset == Some(self@.end),
            r.remaining == (if self@.remaining > 0 {
                self@.remaining
            } else {
                0
            }),
            !r.readahead,
            r.collected@ == Seq::<DataBlockIndex>::empty(),
    {
        let budget: i64 = if self.remaining > 0 {
            self.remaining
        } else {
            0
        };
        BlockSearch::new(self.next_start, Some(self.end_offset), budget as usize, false)
    }

    /// The search gave these blocks. There has to be one; a block that is not loaded yet
    /// makes the read a cache miss.
    pub fn note_blocks(&mut self, reads: &Vec<BlockRead>) -> (r: Result<(), StreamError>)
        requires
            old(self).wf(),
        ensures
            final(self).wf(),
            final(self)@ == old(self)@,
            r == (if reads@.len() == 0 {
                Err::<(), StreamError>(
                    StreamError::Unexpected(
                        Unexpected::EmptyBlocks { start: old(self)@.next_start, end: old(self)@.end },
                    ),
                )
            } else {
                Ok(())
            }),
            final(self).missed() == (old(self).missed() || exists|i: int|
                0 <= i < reads@.len() && !(#[trigger] reads@[i]).was_loaded),
    {
        if reads.len() == 0 {
            return Err(
                StreamError::Unexpected(
                    Unexpected::EmptyBlocks { start: self.next_start, end: self.end_offset },
                ),
            );
        }
        let mut miss: bool = false;
        let mut i: usize = 0;
        while i < reads.len()
            invariant
                i <= reads@.len(),
                *self == *old(self),
                miss == exists|j: int| 0 <= j < i && !(#[trigger] reads@[j]).was_loaded,
            decreases reads@.len() - i,
        {
            if !reads[i].was_loaded {
                miss = true;
            }
            i += 1;
        }
        if miss {
            self.cache_miss = true;
        }
        Ok(())
    }

    /// Takes the records out of the loaded blocks. True, where the read is done.
    pub fn take_records(&mut self, cache: &DataBlockCache, reads: &Vec<BlockRead>) -> (r: Result<
        bool,
        StreamError,
    >)
        requires
            old(self).wf(),
            old(self)@.remaining >= 0,
            cache.wf(),
            all_loaded(*cache, reads@),
        ensures
            final(self).wf(),
            final(self).missed() == old(self).missed(),
            ({
                let all = with_records(*cache, reads@);
                let n = blocks_taken(old(self)@, all);
                let end = took_blocks(old(self)@, all.take(n));
                &&& final(self)@ == end
                &&& r == (if n > 0 && is_done(end) {
                    Ok::<bool, StreamError>(true)
                } else if n < reads@.len() {
                    Err(
                        StreamError::Unexpected(
                            Unexpected::OffsetOutsideBlock {
                                offset: end.next_start,
                                start: reads@[n].index.start_offset,
                                end: reads@[n].index.end() as u64,
                            },
                        ),
                    )
                } else if end.next_start == old(self)@.next_start {
                    Err(StreamError::Unexpected(Unexpected::NoRecordInBlocks))
                } else {
                    Ok(false)
                })
            }),
    {
        let ghost all = with_records(*cache, reads@);
        let ghost start = self@;
        let ghost n = blocks_taken(start, all);
        let iteration_start: u64 = self.next_start;
        let mut i: usize = 0;
        proof {
            assert(all.skip(0) =~= all);
            assert(all.take(0) =~= Seq::empty());
        }
        while i < reads.len()
            invariant
                i <= reads@.len(),
                all == with_records(*cache, reads@),
                start == old(self)@,
                n == blocks_taken(start, all),
                self.wf(),
                self@.remaining >= 0,
                cache.wf(),
                all_loaded(*cache, reads@),
                self.missed() == old(self).missed(),
                iteration_start == start.next_start,
                self@ == took_blocks(start, all.take(i as int)),
                i > 0 ==> !is_done(self@),
                n == i + blocks_taken(self@, all.skip(i as int)),
            decreases reads@.len() - i,
        {
            let read = reads[i];
            let index = read.index;
            let ghost k = index_of(cache@.table.blocks, read.handle)->0;
            let ghost held = cache@.table.blocks[k].records;
            proof {
                assert(reads@[i as int].index.valid());
                assert(all[i as int] == (index, held));
                assert(all.skip(i as int)[0] == all[i as int]);
                assert(all.skip(i as int).skip(1) =~= all.skip(i + 1));
                assert(all.take(i + 1).drop_last() =~= all.take(i as int));
                assert(all.take(i + 1).last() == all[i as int]);
            }
            let index_end: u64 = index.end_offset();
            if self.next_start < index.start_offset || self.next_start >= index_end {
                return Err(
                    StreamError::Unexpected(
                        Unexpected::OffsetOutsideBlock {
                            offset: self.next_start,
                            start: index.start_offset,
                            end: index_end,
                        },
                    ),
                );
            }
            let ghost before = self@;
            let next_end: u64 = if self.end_offset <= index_end {
                self.end_offset
            } else {
                index_end
            };
            let taken = cache.get_records(read.handle, self.next_start, next_end, self.remaining);
            proof {
                lemma_picked_bytes(held, before.next_start, next_end, before.remaining);
            }
            self.next_start = next_end;
            self.extend(taken);
            assert(self@ == took_block(before, index, held));
            i += 1;
            if self.next_start >= self.end_offset || self.remaining <= 0 {
                return Ok(true);
            }
        }
        assert(all.take(i as int) =~= all);
        if self.next_start == iteration_start {
            return Err(StreamError::Unexpected(Unexpected::NoRecordInBlocks));
        }
        Ok(false)
    }

    /// Adds records, and counts them against the budget.
    fn extend(&mut self, taken: Vec<StreamRecordBatch>)
        requires
            old(self).wf(),
            old(self)@.remaining >= 0,
            forall|i: int|
                0 <= i < record_views(taken@).len() ==> is_batch(
                    #[trigger] record_views(taken@)[i],
                ),
            0 <= bytes_of(record_views(taken@)) <= u32::MAX + old(self)@.remaining,
        ensures
            final(self).wf(),
            final(self).missed() == old(self).missed(),
            final(self)@ == (RunModel {
                remaining: old(self)@.remaining - bytes_of(record_views(taken@)),
                records: old(self)@.records + record_views(taken@),
                ..old(self)@
            }),
    {
        let ghost views = record_views(taken@);
        let ghost start = self@;
        let mut i: usize = 0;
        proof {
            assert(views.take(0) =~= Seq::empty());
            assert(start.records + views.take(0) =~= start.records);
        }
        while i < taken.len()
            invariant
                i <= taken@.len(),
                views == record_views(taken@),
                start == old(self)@,
                0 <= start.remaining <= i64::MAX,
                self.missed() == old(self).missed(),
                forall|k: int| 0 <= k < views.len() ==> is_batch(#[trigger] views[k]),
                0 <= bytes_of(views) <= u32::MAX + start.remaining,
                self@ == (RunModel {
                    remaining: start.remaining - bytes_of(views.take(i as int)),
                    records: start.records + views.take(i as int),
                    ..start
                }),
            decreases taken@.len() - i,
        {
            proof {
                assert(views[i as int] == taken@[i as int]@);
                assert(is_batch(views[i as int]));
                assert(views.take(i + 1) =~= views.take(i as int).push(views[i as int]));
                lemma_bytes_push(views.take(i as int), views[i as int]);
                lemma_bytes_prefix(views, i + 1);
                lemma_bytes_prefix(views, i as int);
            }
            let ghost prior = self.records@;
            let size: usize = taken[i].size();
            self.remaining = self.remaining - size as i64;
            self.records.push(taken[i].clone());
            proof {
                assert(self@.records =~= record_views(prior).push(views[i as int]));
                assert(self@.records =~= start.records + views.take(i + 1));
            }
            i += 1;
        }
        proof {
            assert(views.take(i as int) =~= views);
            assert forall|k: int| 0 <= k < self@.records.len() implies is_batch(
                #[trigger] self@.records[k],
            ) by {
                if k < start.records.len() {
                    assert(is_batch(start.records[k]));
                } else {
                    assert(is_batch(views[k - start.records.len()]));
                }
            }
        }
    }

    /// What the read gives.
    pub fn finish(self) -> (r: ReadDataBlock)
        ensures
            record_views(r.records@) == self@.records,
            r.cache_access == (if self.missed() {
                CacheAccessType::BlockCacheMiss
            } else {
                CacheAccessType::BlockCacheHit
            }),
    {
        ReadDataBlock {
            records: self.records,
            cache_access: if self.cache_miss {
                CacheAccessType::BlockCacheMiss
            } else {
                CacheAccessType::BlockCacheHit
            },
        }
    }
}

proof fn lemma_bytes_prefix(records: Seq<Seq<u8>>, n: int)
    requires
        0 <= n <= records.len(),
        forall|i: int| 0 <= i < records.len() ==> is_batch(#[trigger] records[i]),
    ensures
        0 <= bytes_of(records.take(n)) <= bytes_of(records),
    decreases records.len(),
{
    if records.len() > 0 {
        let rest = records.skip(1);
        assert(is_batch(records[0]));
        assert forall|i: int| 0 <= i < rest.len() implies is_batch(#[trigger] rest[i]) by {
            assert(is_batch(records[i + 1]));
        }
        if n > 0 {
            assert(records.take(n).skip(1) =~= rest.take(n - 1));
            lemma_bytes_prefix(rest, n - 1);
        } else {
            assert(records.take(0) =~= Seq::empty());
            lemma_bytes_prefix(rest, 0);
        }
    } else {
        assert(records.take(n) =~= Seq::empty());
    }
}

/// The batches follow each other without a gap, and none of them is empty.
pub open spec fn is_solid(records: Seq<Seq<u8>>) -> bool {
    &&& is_gapless(records)
    &&& forall|i: int|
        0 <= i < records.len() ==> rec_base_offset(#[trigger] records[i]) < rec_last_offset(
            records[i],
        )
}

/// The block holds exactly the offsets that its index entry says.
pub open spec fn holds_range(index: DataBlockIndex, records: Seq<Seq<u8>>) -> bool {
    &&& is_solid(records)
    &&& records.len() > 0
    &&& rec_base_offset(records[0]) == index.start_offset
    &&& rec_last_offset(records.last()) == index.end()
}

proof fn lemma_solid_skip(records: Seq<Seq<u8>>)
    requires
        is_solid(records),
        records.len() > 0,
    ensures
        is_solid(records.skip(1)),
        records.len() > 1 ==> rec_base_offset(records.skip(1)[0]) == rec_last_offset(records[0]),
        records.len() > 1 ==> records.skip(1).last() == records.last(),
{
    let rest = records.skip(1);
    assert forall|i: int, j: int|
        #![trigger rest[i], rest[j]]
        0 <= i && j == i + 1 && j < rest.len() implies rec_base_offset(rest[j]) == rec_last_offset(
        rest[i],
    ) by {
        assert(rec_base_offset(records[j + 1]) == rec_last_offset(records[i + 1]));
    }
    assert forall|i: int| 0 <= i < rest.len() implies rec_base_offset(#[trigger] rest[i])
        < rec_last_offset(rest[i]) by {
        assert(rec_base_offset(records[i + 1]) < rec_last_offset(records[i + 1]));
    }
    if records.len() > 1 {
        assert(rec_base_offset(records[1]) == rec_last_offset(records[0]));
    }
}

/// What is picked of records that begin at or below the start is a range of them that holds
/// the start; it stops at the end of the range or where the budget is used up.
proof fn lemma_picked_range(records: Seq<Seq<u8>>, start: u64, end: u64, budget: int) -> (from: int)
    requires
        is_solid(records),
        records.len() > 0,
        start < rec_last_offset(records.last()),
        rec_base_offset(records[0]) <= start || start < rec_last_offset(records[0]),
        rec_base_offset(records[0]) < end,
        start < end,
    ensures
        ({
            let out = picked(records, start, end, budget);
            &&& 0 <= from
            &&& out.len() > 0
            &&& from + out.len() <= records.len()
            &&& out == records.subrange(from, from + out.len())
            &&& start < rec_last_offset(records[0]) ==> from == 0
            &&& rec_base_offset(records[0]) <= start ==> rec_base_offset(out[0]) <= start
            &&& start < rec_last_offset(out[0])
            &&& budget - bytes_of(out) > 0 ==> from + out.len() == records.len()
                || rec_base_offset(records[from + out.len()]) >= end
            &&& forall|i: int| 0 <= i < out.len() ==> rec_base_offset(#[trigger] out[i]) < end
        }),
    decreases records.len(),
{
    let first = records[0];
    let rest = records.skip(1);
    let out = picked(records, start, end, budget);
    lemma_solid_skip(records);
    assert(rec_base_offset(records[0]) < rec_last_offset(records[0]));
    if rec_last_offset(first) > start {
        let left = budget - rec_size(first);
        if left <= 0 {
            assert(out =~= records.subrange(0, 1));
            assert(out.skip(1) =~= Seq::empty());
            assert(bytes_of(out) == rec_size(first) + bytes_of(out.skip(1)));
        } else if rest.len() == 0 {
            assert(picked(rest, start, end, left) =~= Seq::empty());
            assert(out =~= records.subrange(0, 1));
        } else if rec_base_offset(rest[0]) >= end {
            assert(picked(rest, start, end, left) =~= Seq::empty());
            assert(out =~= records.subrange(0, 1));
            assert(rest[0] == records[1]);
        } else {
            assert(rest.last() == records.last());
            assert(rec_base_offset(rest[0]) < rec_last_offset(rest[0]));
            let f = lemma_picked_range(rest, start, end, left);
            let tail = picked(rest, start, end, left);
            assert(out =~= seq![first] + tail);
            assert(out.skip(1) =~= tail);
            assert(out =~= records.subrange(0, out.len() as int)) by {
                assert forall|i: int| 0 <= i < out.len() implies out[i] == records[i] by {
                    if i > 0 {
                        assert(tail[i - 1] == rest[i - 1]);
                    }
                }
            }
            assert forall|i: int| 0 <= i < out.len() implies rec_base_offset(#[trigger] out[i])
                < end by {
                if i > 0 {
                    assert(rec_base_offset(tail[i - 1]) < end);
                }
            }
            if tail.len() < rest.len() {
                assert(rest[tail.len() as int] == records[out.len() as int]);
            }
        }
        0
    } else {
        assert(rest.len() > 0);
        assert(out == picked(rest, start, end, budget));
        let f = lemma_picked_range(rest, start, end, budget);
        assert(out =~= records.subrange(f + 1, f + 1 + out.len()));
        if f + out.len() < rest.len() {
            assert(rest[f + out.len()] == records[f + 1 + out.len()]);
        }
        f + 1
    }
}

/// A read that came to the end of a block: its records follow each other without a gap, up
/// to its next offset where it is not done.
pub open spec fn is_sound(run: RunModel, start: u64) -> bool {
    &&& is_solid(run.records)
    &&& run.records.len() > 0
    &&& rec_base_offset(run.records[0]) <= start < rec_last_offset(run.records[0])
    &&& forall|i: int|
        0 <= i < run.records.len() ==> rec_base_offset(#[trigger] run.records[i]) < run.end
    &&& run.remaining > 0 ==> rec_last_offset(run.records.last()) >= run.next_start
    &&& !is_done(run) ==> rec_last_offset(run.records.last()) == run.next_start
}

proof fn lemma_took_block_sound(
    run: RunModel,
    start: u64,
    index: DataBlockIndex,
    records: Seq<Seq<u8>>,
)
    requires
        holds_range(index, records),
        index.valid(),
        run.next_start < run.end,
        if run.records.len() == 0 {
            run.next_start == start && index.start_offset <= start < index.end()
        } else {
            is_sound(run, start) && !is_done(run) && run.next_start == index.start_offset
        },
    ensures
        is_sound(took_block(run, index, records), start),
        !is_done(took_block(run, index, records)) ==> took_block(run, index, records).next_start
            == index.end(),
{
    let next = took_block(run, index, records);
    let next_end = next.next_start;
    assert(rec_base_offset(records[0]) < rec_last_offset(records[0]));
    if records.len() == 1 {
        assert(records.last() == records[0]);
    }
    lemma_solid_order(records, 0, records.len() - 1);
    let from = lemma_picked_range(records, run.next_start, next_end, run.remaining);
    let taken = picked(records, run.next_start, next_end, run.remaining);
    let all = next.records;
    assert(all.last() == taken.last());
    assert forall|i: int| 0 <= i < all.len() implies rec_base_offset(#[trigger] all[i])
        < rec_last_offset(all[i]) && rec_base_offset(all[i]) < run.end by {
        if i < run.records.len() {
            assert(all[i] == run.records[i]);
            assert(rec_base_offset(run.records[i]) < rec_last_offset(run.records[i]));
        } else {
            let k = i - run.records.len();
            assert(all[i] == taken[k]);
            assert(taken[k] == records[from + k]);
            assert(rec_base_offset(taken[k]) < next_end);
        }
    }
    assert forall|i: int, j: int|
        #![trigger all[i], all[j]]
        0 <= i && j == i + 1 && j < all.len() implies rec_base_offset(all[j]) == rec_last_offset(
        all[i],
    ) by {
        let n = run.records.len();
        if j < n {
            assert(all[i] == run.records[i] && all[j] == run.records[j]);
        } else if i >= n {
            assert(all[i] == records[from + i - n] && all[j] == records[from + j - n]);
        } else {
            assert(all[i] == run.records.last());
            assert(from == 0);
            assert(all[j] == records[0]);
        }
    }
    assert(taken.last() == records[from + taken.len() - 1]);
    if next.remaining > 0 {
        if from + taken.len() < records.len() {
            let k = from + taken.len();
            assert(rec_base_offset(records[k]) == rec_last_offset(records[k - 1]));
        } else {
            assert(taken.last() == records.last());
        }
        if !is_done(next) {
            if from + taken.len() < records.len() {
                let k = from + taken.len();
                lemma_solid_order(records, k as int, records.len() - 1);
                assert(rec_base_offset(records[k as int]) < rec_last_offset(records.last()));
                assert(false);
            }
        }
    }
}

proof fn lemma_solid_order(records: Seq<Seq<u8>>, i: int, j: int)
    requires
        is_solid(records),
        0 <= i <= j < records.len(),
    ensures
        rec_base_offset(records[i]) < rec_last_offset(records[j]),
        rec_last_offset(records[i]) <= rec_last_offset(records[j]),
    decreases j - i,
{
    assert(rec_base_offset(records[i]) < rec_last_offset(records[i]));
    if i < j {
        lemma_solid_order(records, i, j - 1);
        assert(rec_base_offset(records[j]) == rec_last_offset(records[j - 1]));
        assert(rec_base_offset(records[j]) < rec_last_offset(records[j]));
    }
}

/// A read over a chain of blocks, each of which holds what its index entry says: the records
/// follow each other without a gap, the first one holds the start offset, none begins at or
/// above the end offset, and they reach the end offset unless the budget is used up.
pub proof fn law_read_is_gapless(
    run: RunModel,
    start: u64,
    reads: Seq<(DataBlockIndex, Seq<Seq<u8>>)>,
    n: int,
)
    requires
        run.records.len() == 0,
        run.next_start == start < run.end,
        0 < n <= blocks_taken(run, reads),
        forall|i: int|
            0 <= i < reads.len() ==> (#[trigger] reads[i]).0.valid() && holds_range(
                reads[i].0,
                reads[i].1,
            ),
        forall|i: int, j: int|
            #![trigger reads[i], reads[j]]
            0 <= i && j == i + 1 && j < reads.len() ==> reads[i].0.end()
                == reads[j].0.start_offset,
    ensures
        n <= reads.len(),
        is_sound(took_blocks(run, reads.take(n)), start),
    decreases n,
{
    lemma_taken_step(run, reads, n);
    assert(reads.take(n).drop_last() =~= reads.take(n - 1));
    assert(reads.take(n).last() == reads[n - 1]);
    let before = took_blocks(run, reads.take(n - 1));
    assert(reads[n - 1].0.valid());
    if n == 1 {
        assert(reads.take(0) =~= Seq::empty());
        lemma_took_block_sound(run, start, reads[0].0, reads[0].1);
    } else {
        law_read_is_gapless(run, start, reads, n - 1);
        lemma_chain_next(run, reads, n - 1);
        assert(reads[n - 2].0.end() == reads[n - 1].0.start_offset);
        lemma_took_block_sound(before, start, reads[n - 1].0, reads[n - 1].1);
    }
}

/// The next offset after a block that did not end the read is the end of that block.
proof fn lemma_chain_next(run: RunModel, reads: Seq<(DataBlockIndex, Seq<Seq<u8>>)>, n: int)
    requires
        0 < n <= reads.len(),
        reads[n - 1].0.valid(),
        !is_done(took_blocks(run, reads.take(n))),
    ensures
        took_blocks(run, reads.take(n)).next_start == reads[n - 1].0.end(),
{
    assert(reads.take(n).last() == reads[n - 1]);
}

/// Every block but the last one that a read takes leaves it undone, and holds its next
/// offset.
proof fn lemma_taken_step(run: RunModel, reads: Seq<(DataBlockIndex, Seq<Seq<u8>>)>, n: int)
    requires
        0 < n <= blocks_taken(run, reads),
    ensures
        n <= reads.len(),
        !misses(took_blocks(run, reads.take(n - 1)), reads[n - 1].0),
        n > 1 ==> !is_done(took_blocks(run, reads.take(n - 1))),
    decreases n,
{
    if n == 1 {
        assert(reads.take(0) =~= Seq::empty());
    } else {
        let next = took_block(run, reads[0].0, reads[0].1);
        let rest = reads.skip(1);
        lemma_taken_step(next, rest, n - 1);
        lemma_took_front(run, reads.take(n - 1));
        assert(reads.take(n - 1).skip(1) =~= rest.take(n - 2));
        assert(reads.take(n - 1)[0] == reads[0]);
        assert(rest[n - 2] == reads[n - 1]);
        if n == 2 {
            assert(rest.take(0) =~= Seq::empty());
        }
    }
}

proof fn lemma_took_front(run: RunModel, reads: Seq<(DataBlockIndex, Seq<Seq<u8>>)>)
    requires
        reads.len() > 0,
    ensures
        took_blocks(run, reads) == took_blocks(
            took_block(run, reads[0].0, reads[0].1),
            reads.skip(1),
        ),
    decreases reads.len(),
{
    if reads.len() == 1 {
        assert(reads.drop_last() =~= Seq::empty());
        assert(reads.skip(1) =~= Seq::empty());
        assert(reads.last() == reads[0]);
        assert(took_blocks(run, reads.drop_last()) == run);
        let next = took_block(run, reads[0].0, reads[0].1);
        assert(took_blocks(next, reads.skip(1)) == next);
    } else {
        lemma_took_front(run, reads.drop_last());
        assert(reads.drop_last().skip(1) =~= reads.skip(1).drop_last());
        assert(reads.skip(1).last() == reads.last());
        assert(reads.drop_last()[0] == reads[0]);
    }
}

} // verus!

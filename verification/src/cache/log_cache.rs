//! The readable in-memory twin of the delta WAL.
//!
//! An active block takes puts; sealed blocks wait for their upload. Records are grouped
//! per stream inside each block, in offset order. A block is marked free once its upload
//! is committed. Free blocks are released from the oldest on while the cache is over 90%
//! of its capacity or holds more than 64 blocks, and small neighbouring free blocks are
//! merged to speed up reads.
//!
//! - A range that is fully cached is served.
//! - Of a range that only its end is cached of, the cached tail is served, if it reaches
//!   the end of the range; the block cache serves the head.
//! - Any other range is not served.
use vstd::prelude::*;

use crate::cache::log_block::{
    block_get, block_put, block_range, block_takes, bounds_of, cache_of, discontinuous,
    is_discontinuous, joined_blocks, merge_blocks, new_block, wrapping_diff, wrapping_sum,
    BlockModel, LogCacheBlock, StreamRangeBound, MATCH_ALL_STREAMS,
};
use crate::cache::stream_cache::{
    budget_after, cache_get, cache_ok, covering, holds_offset, is_chained, is_continuous, is_read,
    lemma_chain_order, lemma_covering, lemma_serve_end, occupied_bytes, record_views, serve_end,
    starts_at, CacheModel,
};
use crate::codec::record::{
    is_batch, rec_base_offset, rec_last_offset, rec_size, StreamRecordBatch, OBJECT_OVERHEAD,
};
use crate::collections::sorted_keys;
use crate::object::RecordOffset;

verus! {

pub const MAX_BLOCKS_COUNT: usize = 64;

pub const MERGE_BLOCK_THRESHOLD: usize = 8;

/// A block that was released: its id, the bounds of its streams by stream id, and whether it
/// was merged from others.
#[derive(Debug)]
pub struct FreedBlock {
    pub block_id: u64,
    pub bounds: Vec<StreamRangeBound>,
    pub merged: bool,
}

/// What the cache holds, and the blocks released since that was last asked for.
#[verifier::ext_equal]
pub struct LogCacheModel {
    pub blocks: Seq<BlockModel>,
    pub capacity: u64,
    pub block_max_size: u64,
    pub block_max_streams: usize,
    pub size: u64,
    pub last_record_offset: Option<RecordOffset>,
    pub next_block_id: u64,
    pub freed: Seq<(u64, Seq<StreamRangeBound>, bool)>,
}

/// A cache that holds nothing yet, with its first active block.
pub open spec fn new_cache(
    capacity: u64,
    block_max_size: u64,
    block_max_streams: usize,
) -> LogCacheModel {
    LogCacheModel {
        blocks: seq![new_block(0, block_max_size, block_max_streams)],
        capacity,
        block_max_size,
        block_max_streams,
        size: 0,
        last_record_offset: None,
        next_block_id: 1,
        freed: Seq::empty(),
    }
}

/// Too much is cached, in bytes or in blocks.
pub open spec fn over_limit(capacity: u64, size: u64, blocks: nat) -> bool {
    size > capacity / 10 * 9 || blocks > MAX_BLOCKS_COUNT
}

/// What is told of a block that is released.
pub open spec fn freed_of(b: BlockModel) -> (u64, Seq<StreamRangeBound>, bool) {
    (b.id, bounds_of(b.streams, sorted_keys(b.streams)), b.merged)
}

/// The released blocks that were not merged from others.
pub open spec fn unmerged(freed: Seq<(u64, Seq<StreamRangeBound>, bool)>) -> Seq<
    (u64, Seq<StreamRangeBound>, bool),
>
    decreases freed.len(),
{
    if freed.len() == 0 {
        freed
    } else if freed.last().2 {
        unmerged(freed.drop_last())
    } else {
        unmerged(freed.drop_last()).push(freed.last())
    }
}

/// Free blocks are released, the oldest first, as long as too much is cached.
pub open spec fn released(m: LogCacheModel) -> LogCacheModel
    decreases m.blocks.len(),
{
    if m.blocks.len() == 0 || !over_limit(m.capacity, m.size, m.blocks.len()) || !m.blocks[0].free {
        m
    } else {
        released(
            LogCacheModel {
                blocks: m.blocks.skip(1),
                size: wrapping_diff(m.size as int, m.blocks[0].size as int),
                freed: m.freed.push(freed_of(m.blocks[0])),
                ..m
            },
        )
    }
}

/// Neighbouring free blocks are merged from `i` on, where they are small enough and no
/// stream has a gap between them, as long as there are many blocks.
pub open spec fn merged_from(m: LogCacheModel, i: int) -> LogCacheModel
    decreases m.blocks.len(), m.blocks.len() - i,
{
    if i < 0 || m.blocks.len() <= MERGE_BLOCK_THRESHOLD || i + 1 >= m.blocks.len() {
        m
    } else {
        let a = m.blocks[i];
        let b = m.blocks[i + 1];
        if !a.free || !b.free {
            m
        } else if a.size + b.size >= m.block_max_size || discontinuous(a, b) {
            merged_from(m, i + 1)
        } else {
            merged_from(
                LogCacheModel {
                    blocks: m.blocks.update(i, joined_blocks(a, b, m.next_block_id)).remove(i + 1),
                    next_block_id: wrapping_sum(m.next_block_id as int, 1),
                    ..m
                },
                i,
            )
        }
    }
}

/// The sealed block with an id is marked free. Blocks that were merged away are not found.
pub open spec fn marked(blocks: Seq<BlockModel>, id: u64) -> Seq<BlockModel> {
    Seq::new(
        blocks.len(),
        |i: int|
            if i < blocks.len() - 1 && blocks[i].id == id {
                BlockModel { free: true, ..blocks[i] }
            } else {
                blocks[i]
            },
    )
}

/// The active block is sealed: it learns the last confirmed WAL offset, and a new block
/// takes its place.
pub open spec fn archived(m: LogCacheModel) -> LogCacheModel {
    let n = m.blocks.len() - 1;
    let sealed = if m.last_record_offset is Some {
        BlockModel { last_record_offset: m.last_record_offset, ..m.blocks[n] }
    } else {
        m.blocks[n]
    };
    LogCacheModel {
        blocks: m.blocks.update(n, sealed).push(
            new_block(m.next_block_id, m.block_max_size, m.block_max_streams),
        ),
        next_block_id: wrapping_sum(m.next_block_id as int, 1),
        ..m
    }
}

/// The cache after a put: first free blocks are released, then the active block takes the
/// record, if it can.
pub open spec fn cache_put(m: LogCacheModel, record: Seq<u8>) -> LogCacheModel {
    let r = released(m);
    let n = r.blocks.len() - 1;
    LogCacheModel {
        blocks: r.blocks.update(n, block_put(r.blocks[n], record)),
        size: if block_takes(r.blocks[n], record) {
            wrapping_sum(r.size as int, rec_size(record) + OBJECT_OVERHEAD)
        } else {
            r.size
        },
        ..r
    }
}

/// A budget after a list of records.
pub open spec fn budget_after_all(budget: int, records: Seq<Seq<u8>>) -> int
    decreases records.len(),
{
    if records.len() == 0 {
        budget
    } else {
        budget_after(budget_after_all(budget, records.drop_last()), records.last())
    }
}

/// What the blocks from `i` on give of `[next, end)` within a byte budget, each block
/// going on where the ones before it ended; and whether that reaches the end or uses up
/// the budget.
pub open spec fn walk(
    blocks: Seq<BlockModel>,
    i: int,
    stream_id: u64,
    next: u64,
    end: u64,
    budget: int,
) -> (Seq<Seq<u8>>, bool)
    decreases blocks.len() - i,
{
    if i < 0 || i >= blocks.len() {
        (Seq::empty(), false)
    } else {
        let part = block_get(blocks[i], stream_id, next, end, budget);
        if part.len() == 0 {
            walk(blocks, i + 1, stream_id, next, end, budget)
        } else {
            let reached = rec_last_offset(part.last());
            let left = budget_after_all(budget, part);
            if reached >= end || left == 0 {
                (part, true)
            } else {
                let (rest, fulfilled) = walk(blocks, i + 1, stream_id, reached, end, left);
                (part + rest, fulfilled)
            }
        }
    }
}

/// Where the longest continuous tail of a stream begins, looking at the blocks below `n`
/// from the newest on, the tail so far beginning at `tail`.
pub open spec fn tail_start(
    blocks: Seq<BlockModel>,
    n: int,
    stream_id: u64,
    tail: Option<u64>,
) -> Option<u64>
    decreases n,
{
    if n <= 0 {
        tail
    } else {
        match block_range(blocks[n - 1], stream_id) {
            None => tail_start(blocks, n - 1, stream_id, tail),
            Some((start, end)) => match tail {
                None => tail_start(blocks, n - 1, stream_id, Some(start)),
                Some(t) => if t == end {
                    tail_start(blocks, n - 1, stream_id, Some(start))
                } else {
                    tail
                },
            },
        }
    }
}

/// What reading `[start, end)` within a byte budget gives: the records from `start` on, if
/// they reach the end or use up the budget; else the cached tail that begins inside the
/// range, if that one does.
pub open spec fn log_get(
    blocks: Seq<BlockModel>,
    stream_id: u64,
    start: u64,
    end: u64,
    budget: int,
) -> Seq<Seq<u8>> {
    let (records, fulfilled) = walk(blocks, 0, stream_id, start, end, budget);
    if fulfilled {
        records
    } else {
        match tail_start(blocks, blocks.len() as int, stream_id, None) {
            None => Seq::empty(),
            Some(t) => if t >= end || t <= start {
                Seq::empty()
            } else {
                let (tail, reached) = walk(blocks, 0, stream_id, t, end, budget);
                if reached {
                    tail
                } else {
                    Seq::empty()
                }
            },
        }
    }
}

/// What the blocks from `i` on may give of `[next, end)` within a byte budget where batches
/// can be empty, each block going on where the ones before it ended; and whether that reaches
/// the end or uses up the budget.
pub open spec fn is_walk(
    blocks: Seq<BlockModel>,
    i: int,
    stream_id: u64,
    next: u64,
    end: u64,
    budget: int,
    r: Seq<Seq<u8>>,
    fulfilled: bool,
) -> bool
    decreases blocks.len() - i,
{
    if i < 0 || i >= blocks.len() {
        r.len() == 0 && !fulfilled
    } else {
        exists|k: int|
            {
                &&& 0 <= k <= r.len()
                &&& is_read(cache_of(blocks[i], stream_id), next, end, budget, #[trigger] r.take(k))
                &&& if k == 0 {
                    is_walk(blocks, i + 1, stream_id, next, end, budget, r, fulfilled)
                } else {
                    let reached = rec_last_offset(r[k - 1]);
                    let left = budget_after_all(budget, r.take(k));
                    if reached >= end || left == 0 {
                        k == r.len() && fulfilled
                    } else {
                        is_walk(blocks, i + 1, stream_id, reached, end, left, r.skip(k), fulfilled)
                    }
                }
            }
    }
}

/// Reading the blocks may end short of the end, with the budget not used up.
pub open spec fn may_fall_short(
    blocks: Seq<BlockModel>,
    stream_id: u64,
    start: u64,
    end: u64,
    budget: int,
) -> bool {
    exists|r: Seq<Seq<u8>>| #[trigger]
        is_walk(blocks, 0, stream_id, start, end, budget, r, false)
}

/// What reading `[start, end)` within a byte budget may give where batches can be empty: the
/// records from `start` on, if they reach the end or use up the budget; else the cached tail
/// that begins inside the range, if that one does.
pub open spec fn is_log_read(
    blocks: Seq<BlockModel>,
    stream_id: u64,
    start: u64,
    end: u64,
    budget: int,
    r: Seq<Seq<u8>>,
) -> bool {
    ||| is_walk(blocks, 0, stream_id, start, end, budget, r, true)
    ||| may_fall_short(blocks, stream_id, start, end, budget) && match tail_start(
        blocks,
        blocks.len() as int,
        stream_id,
        None,
    ) {
        None => r.len() == 0,
        Some(t) => if t >= end || t <= start {
            r.len() == 0
        } else {
            ||| is_walk(blocks, 0, stream_id, t, end, budget, r, true)
            ||| may_fall_short(blocks, stream_id, t, end, budget) && r.len() == 0
        },
    }
}

/// One block's part in front of what the blocks behind it give.
proof fn lemma_walk_step(
    blocks: Seq<BlockModel>,
    i: int,
    stream_id: u64,
    next: u64,
    end: u64,
    budget: int,
    part: Seq<Seq<u8>>,
    rest: Seq<Seq<u8>>,
    fulfilled: bool,
)
    requires
        0 <= i < blocks.len(),
        is_read(cache_of(blocks[i], stream_id), next, end, budget, part),
        if part.len() == 0 {
            is_walk(blocks, i + 1, stream_id, next, end, budget, rest, fulfilled)
        } else {
            let reached = rec_last_offset(part.last());
            let left = budget_after_all(budget, part);
            if reached >= end || left == 0 {
                rest.len() == 0 && fulfilled
            } else {
                is_walk(blocks, i + 1, stream_id, reached, end, left, rest, fulfilled)
            }
        },
    ensures
        is_walk(blocks, i, stream_id, next, end, budget, part + rest, fulfilled),
{
    let r = part + rest;
    let k = part.len() as int;
    assert(r.take(k) =~= part);
    assert(r.skip(k) =~= rest);
    if k == 0 {
        assert(r =~= rest);
    }
}

pub open spec fn block_views(blocks: Seq<LogCacheBlock>) -> Seq<BlockModel> {
    blocks.map_values(|b: LogCacheBlock| b@)
}

pub open spec fn freed_views(freed: Seq<FreedBlock>) -> Seq<(u64, Seq<StreamRangeBound>, bool)> {
    freed.map_values(|f: FreedBlock| (f.block_id, f.bounds@, f.merged))
}

/// The delta-WAL cache.
#[derive(Debug)]
pub struct LogCache {
    capacity: u64,
    cache_block_max_size: u64,
    max_cache_block_stream_count: usize,
    size: u64,
    blocks: Vec<LogCacheBlock>,
    last_record_offset: Option<RecordOffset>,
    next_block_id: u64,
    freed: Vec<FreedBlock>,
}

impl View for LogCache {
    type V = LogCacheModel;

    closed spec fn view(&self) -> LogCacheModel {
        LogCacheModel {
            blocks: block_views(self.blocks@),
            capacity: self.capacity,
            block_max_size: self.cache_block_max_size,
            block_max_streams: self.max_cache_block_stream_count,
            size: self.size,
            last_record_offset: self.last_record_offset,
            next_block_id: self.next_block_id,
            freed: freed_views(self.freed@),
        }
    }
}

/// There is an active block, and it is not free.
pub open spec fn has_active(blocks: Seq<BlockModel>) -> bool {
    blocks.len() > 0 && !blocks.last().free
}

/// The records of the stream are continuous in every block.
pub open spec fn is_continuous_in(blocks: Seq<BlockModel>, stream_id: u64) -> bool {
    forall|i: int|
        0 <= i < blocks.len() ==> is_continuous(cache_of(#[trigger] blocks[i], stream_id))
}

/// The records of the stream have no gap in any block.
pub open spec fn is_chained_in(blocks: Seq<BlockModel>, stream_id: u64) -> bool {
    forall|i: int|
        0 <= i < blocks.len() ==> is_chained(cache_of(#[trigger] blocks[i], stream_id))
}

/// A block of the cache with an id holds the stream. Every block holds the stream that
/// stands for all.
pub open spec fn holds_stream(m: LogCacheModel, block_id: u64, stream_id: u64) -> bool {
    exists|i: int|
        0 <= i < m.blocks.len() && (#[trigger] m.blocks[i]).id == block_id && (stream_id
            == MATCH_ALL_STREAMS || m.blocks[i].streams.contains_key(stream_id))
}

impl LogCache {
    pub closed spec fn wf(&self) -> bool {
        &&& has_active(self@.blocks)
        &&& forall|i: int| 0 <= i < self.blocks@.len() ==> (#[trigger] self.blocks@[i]).wf()
    }

    pub proof fn lemma_wf_active(&self)
        requires
            self.wf(),
        ensures
            has_active(self@.blocks),
    {
    }

    pub fn new(
        capacity: u64,
        cache_block_max_size: u64,
        max_cache_block_stream_count: usize,
    ) -> (r: Self)
        ensures
            r.wf(),
            r@ == new_cache(capacity, cache_block_max_size, max_cache_block_stream_count),
    {
        let active = LogCacheBlock::new(0, cache_block_max_size, max_cache_block_stream_count);
        let mut blocks: Vec<LogCacheBlock> = Vec::new();
        blocks.push(active);
        let r = LogCache {
            capacity,
            cache_block_max_size,
            max_cache_block_stream_count,
            size: 0,
            blocks,
            last_record_offset: None,
            next_block_id: 1,
            freed: Vec::new(),
        };
        proof {
            assert(r@.blocks =~= seq![
                new_block(0, cache_block_max_size, max_cache_block_stream_count),
            ]);
            assert(r@.freed =~= Seq::empty());
        }
        r
    }

    fn is_over(&self) -> (r: bool)
        ensures
            r == over_limit(self@.capacity, self@.size, self@.blocks.len()),
    {
        self.size > self.capacity / 10 * 9 || self.blocks.len() > MAX_BLOCKS_COUNT
    }

    /// Releases free blocks while too much is cached.
    fn try_real_free(&mut self)
        requires
            old(self).wf(),
        ensures
            final(self).wf(),
            final(self)@ == released(old(self)@),
    {
        let ghost goal = released(self@);
        while self.blocks.len() > 0 && self.is_over() && self.blocks[0].is_free()
            invariant
                self.wf(),
                goal == released(self@),
            decreases self.blocks@.len(),
        {
            let ghost before = *self;
            let ghost m = self@;
            let block = self.blocks.remove(0);
            self.size = self.size.wrapping_sub(block.size());
            proof {
                assert(before.blocks@[0].wf());
            }
            let bounds = block.bounds();
            let id: u64 = block.block_id();
            self.freed.push(FreedBlock { block_id: id, bounds, merged: block.is_merged() });
            proof {
                assert(m.blocks[0] == block@);
                assert(block_views(self.blocks@) =~= m.blocks.skip(1));
                assert(freed_views(self.freed@) =~= m.freed.push(freed_of(m.blocks[0])));
                assert(self@ =~= LogCacheModel {
                    blocks: m.blocks.skip(1),
                    size: wrapping_diff(m.size as int, m.blocks[0].size as int),
                    freed: m.freed.push(freed_of(m.blocks[0])),
                    ..m
                });
                assert forall|i: int| 0 <= i < self.blocks@.len() implies (
                #[trigger] self.blocks@[i]).wf() by {
                    assert(self.blocks@[i] == before.blocks@[i + 1]);
                }
                assert(self@.blocks.last() == m.blocks.last());
            }
        }
        proof {
            assert(self.blocks@.len() > 0);
            assert(self@.blocks[0] == self.blocks@[0]@);
        }
    }

    /// Adds a record to the active block. False, where that block does not take it.
    pub fn put(&mut self, record: StreamRecordBatch) -> (r: bool)
        requires
            old(self).wf(),
            is_batch(record@),
        ensures
            final(self).wf(),
            final(self)@ == cache_put(old(self)@, record@),
            r == block_takes(released(old(self)@).blocks.last(), record@),
    {
        self.try_real_free();
        let ghost mid = *self;
        let ghost m = self@;
        let ghost rec = record@;
        let occupied: u64 = record.occupied_size() as u64;
        let n: usize = self.blocks.len() - 1;
        assert(self.blocks@[n as int].wf());
        let added: bool = self.blocks[n].put(record);
        if added {
            self.size = self.size.wrapping_add(occupied);
        }
        proof {
            assert(m.blocks[n as int] == mid.blocks@[n as int]@);
            assert(block_views(self.blocks@) =~= m.blocks.update(
                n as int,
                block_put(m.blocks[n as int], rec),
            ));
            assert forall|i: int| 0 <= i < self.blocks@.len() implies (
            #[trigger] self.blocks@[i]).wf() by {
                if i != n {
                    assert(self.blocks@[i] == mid.blocks@[i]);
                }
            }
        }
        added
    }

    /// Reads the blocks in order, each going on where the ones before it ended.
    fn walk_blocks(
        &mut self,
        stream_id: u64,
        start_offset: u64,
        end_offset: u64,
        max_bytes: usize,
    ) -> (r: (Vec<StreamRecordBatch>, bool))
        requires
            old(self).wf(),
        ensures
            final(self).wf(),
            final(self)@ == old(self)@,
            forall|k: int|
                0 <= k < r.0@.len() ==> is_cached(
                    old(self)@.blocks,
                    stream_id,
                    (#[trigger] r.0@[k])@,
                ),
            is_chained_in(old(self)@.blocks, stream_id) ==> is_walk(
                old(self)@.blocks,
                0,
                stream_id,
                start_offset,
                end_offset,
                max_bytes as int,
                record_views(r.0@),
                r.1,
            ),
            is_continuous_in(old(self)@.blocks, stream_id) ==> (record_views(r.0@), r.1) == walk(
                old(self)@.blocks,
                0,
                stream_id,
                start_offset,
                end_offset,
                max_bytes as int,
            ),
    {
        let ghost m = self@;
        let ghost goal = walk(m.blocks, 0, stream_id, start_offset, end_offset, max_bytes as int);
        let ghost sound = is_continuous_in(m.blocks, stream_id);
        let ghost chained = is_chained_in(m.blocks, stream_id);
        let mut out: Vec<StreamRecordBatch> = Vec::new();
        let mut next: u64 = start_offset;
        let mut budget: usize = max_bytes;
        let mut i: usize = 0;
        proof {
            assert(record_views(out@) =~= Seq::empty());
            assert(goal.0 =~= record_views(out@) + goal.0);
            assert forall|rest: Seq<Seq<u8>>, f: bool| #[trigger]
                is_walk(
                    m.blocks,
                    0,
                    stream_id,
                    next,
                    end_offset,
                    budget as int,
                    rest,
                    f,
                ) implies is_walk(
                m.blocks,
                0,
                stream_id,
                start_offset,
                end_offset,
                max_bytes as int,
                record_views(out@) + rest,
                f,
            ) by {
                assert(record_views(out@) + rest =~= rest);
            }
        }
        while i < self.blocks.len()
            invariant
                i <= self.blocks@.len(),
                self.wf(),
                self@ == m,
                m == old(self)@,
                sound == is_continuous_in(m.blocks, stream_id),
                chained == is_chained_in(m.blocks, stream_id),
                chained ==> forall|rest: Seq<Seq<u8>>, f: bool| #[trigger]
                    is_walk(
                        m.blocks,
                        i as int,
                        stream_id,
                        next,
                        end_offset,
                        budget as int,
                        rest,
                        f,
                    ) ==> is_walk(
                        m.blocks,
                        0,
                        stream_id,
                        start_offset,
                        end_offset,
                        max_bytes as int,
                        record_views(out@) + rest,
                        f,
                    ),
                goal == walk(m.blocks, 0, stream_id, start_offset, end_offset, max_bytes as int),
                forall|k: int|
                    0 <= k < out@.len() ==> is_cached(m.blocks, stream_id, (#[trigger] out@[k])@),
                sound ==> {
                    let (rest, fulfilled) = walk(
                        m.blocks,
                        i as int,
                        stream_id,
                        next,
                        end_offset,
                        budget as int,
                    );
                    goal == (record_views(out@) + rest, fulfilled)
                },
            decreases self.blocks@.len() - i,
        {
            let ghost before = *self;
            let ghost next0 = next;
            let ghost budget0 = budget;
            assert(self.blocks@[i as int].wf());
            let part = self.blocks[i].get(stream_id, next, end_offset, budget);
            let ghost pv = record_views(part@);
            proof {
                let held = cache_of(before.blocks@[i as int]@, stream_id).records;
                let (a, b) = choose|a: int, b: int|
                    0 <= a <= b <= held.len() && pv == #[trigger] held.subrange(a, b);
                assert(0 <= a <= b <= held.len() && pv == held.subrange(a, b));
                assert(pv.len() == b - a && pv.len() == part@.len());
                assert(m.blocks[i as int] == before.blocks@[i as int]@);
                assert(block_views(self.blocks@) =~= m.blocks);
                assert(self@ =~= m);
                assert forall|j: int| 0 <= j < self.blocks@.len() implies (
                #[trigger] self.blocks@[j]).wf() by {
                    if j != i {
                        assert(self.blocks@[j] == before.blocks@[j]);
                    }
                }
                if chained {
                    assert(is_chained(cache_of(m.blocks[i as int], stream_id)));
                }
                if sound {
                    assert(is_continuous(cache_of(m.blocks[i as int], stream_id)));
                    assert(pv == block_get(
                        m.blocks[i as int],
                        stream_id,
                        next,
                        end_offset,
                        budget as int,
                    ));
                }
                assert forall|k: int| 0 <= k < part@.len() implies is_cached(
                    m.blocks,
                    stream_id,
                    (#[trigger] part@[k])@,
                ) by {
                    assert(pv[k] == part@[k]@);
                    assert(cache_of(m.blocks[i as int], stream_id).records[a + k] == part@[k]@);
                }
                lemma_cached_is_batch(before, stream_id);
            }
            if part.len() > 0 {
                let n: usize = part.len();
                proof {
                    assert(pv[n - 1] == part@[n - 1]@);
                    assert(is_cached(m.blocks, stream_id, part@[n - 1]@));
                }
                next = part[n - 1].last_offset();
                let mut k: usize = 0;
                assert(pv.take(0) =~= Seq::empty());
                while k < n
                    invariant
                        k <= n == part@.len(),
                        pv == record_views(part@),
                        forall|j: int| 0 <= j < n ==> is_batch((#[trigger] part@[j])@),
                        budget == budget_after_all(budget0 as int, pv.take(k as int)),
                    decreases n - k,
                {
                    proof {
                        assert(pv.take(k + 1).drop_last() =~= pv.take(k as int));
                        assert(pv.take(k + 1).last() == part@[k as int]@);
                        assert(is_batch(part@[k as int]@));
                    }
                    let size: usize = part[k].size();
                    budget = if budget > size {
                        budget - size
                    } else {
                        0
                    };
                    k += 1;
                }
                assert(pv.take(k as int) =~= pv);
                let ghost have = out@;
                let mut part = part;
                let ghost added = part@;
                out.append(&mut part);
                proof {
                    assert(record_views(out@) =~= record_views(have) + pv);
                    assert forall|k: int| 0 <= k < out@.len() implies is_cached(
                        m.blocks,
                        stream_id,
                        (#[trigger] out@[k])@,
                    ) by {
                        if k < have.len() {
                            assert(out@[k] == have[k]);
                        } else {
                            assert(out@[k] == added[k - have.len()]);
                        }
                    }
                }
                if next >= end_offset || budget == 0 {
                    proof {
                        if chained {
                            lemma_walk_step(
                                m.blocks,
                                i as int,
                                stream_id,
                                next0,
                                end_offset,
                                budget0 as int,
                                pv,
                                Seq::empty(),
                                true,
                            );
                            assert(record_views(have) + (pv + Seq::<Seq<u8>>::empty())
                                =~= record_views(out@));
                        }
                    }
                    return (out, true);
                }
                proof {
                    if sound {
                        let (rest, f) = walk(
                            m.blocks,
                            i + 1,
                            stream_id,
                            next,
                            end_offset,
                            budget as int,
                        );
                        assert(record_views(have) + (pv + rest) =~= record_views(out@) + rest);
                    }
                    if chained {
                        assert forall|rest: Seq<Seq<u8>>, f: bool| #[trigger]
                            is_walk(
                                m.blocks,
                                i + 1,
                                stream_id,
                                next,
                                end_offset,
                                budget as int,
                                rest,
                                f,
                            ) implies is_walk(
                            m.blocks,
                            0,
                            stream_id,
                            start_offset,
                            end_offset,
                            max_bytes as int,
                            record_views(out@) + rest,
                            f,
                        ) by {
                            lemma_walk_step(
                                m.blocks,
                                i as int,
                                stream_id,
                                next0,
                                end_offset,
                                budget0 as int,
                                pv,
                                rest,
                                f,
                            );
                            assert(record_views(have) + (pv + rest) =~= record_views(out@) + rest);
                        }
                    }
                }
            } else {
                proof {
                    if chained {
                        assert forall|rest: Seq<Seq<u8>>, f: bool| #[trigger]
                            is_walk(
                                m.blocks,
                                i + 1,
                                stream_id,
                                next,
                                end_offset,
                                budget as int,
                                rest,
                                f,
                            ) implies is_walk(
                            m.blocks,
                            0,
                            stream_id,
                            start_offset,
                            end_offset,
                            max_bytes as int,
                            record_views(out@) + rest,
                            f,
                        ) by {
                            lemma_walk_step(
                                m.blocks,
                                i as int,
                                stream_id,
                                next0,
                                end_offset,
                                budget0 as int,
                                pv,
                                rest,
                                f,
                            );
                            assert(pv + rest =~= rest);
                        }
                    }
                }
            }
            i += 1;
        }
        proof {
            assert(record_views(out@) + Seq::<Seq<u8>>::empty() =~= record_views(out@));
            if chained {
                assert(is_walk(
                    m.blocks,
                    i as int,
                    stream_id,
                    next,
                    end_offset,
                    budget as int,
                    Seq::empty(),
                    false,
                ));
            }
        }
        (out, false)
    }

    /// Reads `[start_offset, end_offset)` of a stream within a byte budget. Where the stream
    /// has empty batches, the reads before decide with which of those at an offset the records
    /// from there on begin.
    pub fn get(
        &mut self,
        stream_id: u64,
        start_offset: u64,
        end_offset: u64,
        max_bytes: usize,
    ) -> (r: Vec<StreamRecordBatch>)
        requires
            old(self).wf(),
        ensures
            final(self).wf(),
            final(self)@ == old(self)@,
            forall|k: int|
                0 <= k < r@.len() ==> is_cached(old(self)@.blocks, stream_id, (#[trigger] r@[k])@),
            is_chained_in(old(self)@.blocks, stream_id) ==> is_log_read(
                old(self)@.blocks,
                stream_id,
                start_offset,
                end_offset,
                max_bytes as int,
                record_views(r@),
            ),
            stream_in_order(old(self)@.blocks, stream_id) ==> reads_from(
                old(self)@.blocks,
                stream_id,
                start_offset,
                end_offset,
                record_views(r@),
            ),
            is_continuous_in(old(self)@.blocks, stream_id) ==> record_views(r@) == log_get(
                old(self)@.blocks,
                stream_id,
                start_offset,
                end_offset,
                max_bytes as int,
            ),
    {
        let ghost m = self@;
        let (records, fulfilled) = self.walk_blocks(stream_id, start_offset, end_offset, max_bytes);
        if fulfilled {
            proof {
                if stream_in_order(m.blocks, stream_id) {
                    law_log_read_is_gapless(
                        m.blocks,
                        stream_id,
                        start_offset,
                        end_offset,
                        max_bytes as int,
                        record_views(records@),
                    );
                }
            }
            return records;
        }
        let none: Vec<StreamRecordBatch> = Vec::new();
        assert(record_views(none@) =~= Seq::empty());
        let mut tail: Option<u64> = None;
        let mut n: usize = self.blocks.len();
        let mut open: bool = true;
        let ghost goal = tail_start(m.blocks, m.blocks.len() as int, stream_id, None);
        while open && n > 0
            invariant
                n <= self.blocks@.len(),
                self.wf(),
                self@ == m,
                open ==> goal == tail_start(m.blocks, n as int, stream_id, tail),
                !open ==> goal == tail,
            decreases n,
        {
            assert(self.blocks@[n - 1].wf());
            assert(self@.blocks[n - 1] == self.blocks@[n - 1]@);
            match self.blocks[n - 1].stream_range(stream_id) {
                None => {},
                Some((start, end)) => match tail {
                    None => {
                        tail = Some(start);
                    },
                    Some(t) => {
                        if t == end {
                            tail = Some(start);
                        } else {
                            open = false;
                        }
                    },
                },
            }
            n -= 1;
        }
        match tail {
            None => none,
            Some(t) => {
                if t >= end_offset || t <= start_offset {
                    return none;
                }
                let (records, reached) = self.walk_blocks(stream_id, t, end_offset, max_bytes);
                if reached {
                    proof {
                        if stream_in_order(m.blocks, stream_id) {
                            law_log_read_is_gapless(
                                m.blocks,
                                stream_id,
                                start_offset,
                                end_offset,
                                max_bytes as int,
                                record_views(records@),
                            );
                        }
                    }
                    records
                } else {
                    none
                }
            },
        }
    }

    /// Seal the active block for upload. Returns its id.
    pub fn archive_current_block(&mut self) -> (r: u64)
        requires
            old(self).wf(),
        ensures
            final(self).wf(),
            final(self)@ == archived(old(self)@),
            r == old(self)@.blocks.last().id,
    {
        let ghost before = *self;
        let ghost m = self@;
        let n: usize = self.blocks.len() - 1;
        assert(self.blocks@[n as int].wf());
        let id: u64 = self.blocks[n].block_id();
        match self.last_record_offset {
            Some(offset) => {
                self.blocks[n].set_last_record_offset(offset);
            },
            None => {},
        }
        let ghost mid = self.blocks@;
        let active = LogCacheBlock::new(
            self.next_block_id,
            self.cache_block_max_size,
            self.max_cache_block_stream_count,
        );
        self.next_block_id = self.next_block_id.wrapping_add(1);
        self.blocks.push(active);
        proof {
            assert(m.blocks[n as int] == before.blocks@[n as int]@);
            assert(block_views(self.blocks@) =~= archived(m).blocks);
            assert forall|i: int| 0 <= i < self.blocks@.len() implies (
            #[trigger] self.blocks@[i]).wf() by {
                if i < n {
                    assert(self.blocks@[i] == before.blocks@[i]);
                }
            }
        }
        id
    }

    /// Seal the active block if it holds the stream; for the stream that stands for all,
    /// if it holds anything.
    pub fn archive_current_block_if_contains(&mut self, stream_id: u64) -> (r: Option<u64>)
        requires
            old(self).wf(),
        ensures
            final(self).wf(),
            ({
                let active = old(self)@.blocks.last();
                let due = if stream_id == MATCH_ALL_STREAMS {
                    active.size > 0
                } else {
                    active.streams.contains_key(stream_id)
                };
                if due {
                    r == Some(active.id) && final(self)@ == archived(old(self)@)
                } else {
                    r is None && final(self)@ == old(self)@
                }
            }),
    {
        let n: usize = self.blocks.len() - 1;
        assert(self@.blocks[n as int] == self.blocks@[n as int]@);
        let due: bool = if stream_id == MATCH_ALL_STREAMS {
            self.blocks[n].size() > 0
        } else {
            self.blocks[n].contains_stream(stream_id)
        };
        if due {
            Some(self.archive_current_block())
        } else {
            None
        }
    }

    /// Mark a committed block's memory reclaimable, then release and merge what can be.
    pub fn mark_free(&mut self, block_id: u64)
        requires
            old(self).wf(),
        ensures
            final(self).wf(),
            final(self)@ == merged_from(
                released(
                    LogCacheModel { blocks: marked(old(self)@.blocks, block_id), ..old(self)@ },
                ),
                0,
            ),
    {
        let ghost m = self@;
        let mut i: usize = 0;
        assert(block_views(self.blocks@).skip(0) =~= m.blocks.skip(0));
        while i < self.blocks.len() - 1
            invariant
                i < self.blocks@.len() == m.blocks.len(),
                m == old(self)@,
                has_active(m.blocks),
                self@ == (LogCacheModel { blocks: self@.blocks, ..m }),
                forall|j: int| 0 <= j < i ==> #[trigger] self@.blocks[j] == marked(
                    m.blocks,
                    block_id,
                )[j],
                forall|j: int|
                    i <= j < m.blocks.len() ==> #[trigger] self@.blocks[j] == m.blocks[j],
                forall|j: int| 0 <= j < self.blocks@.len() ==> (#[trigger] self.blocks@[j]).wf(),
            decreases self.blocks@.len() - i,
        {
            let ghost before = *self;
            assert(self@.blocks[i as int] == self.blocks@[i as int]@);
            assert(self.blocks@[i as int].wf());
            if self.blocks[i].block_id() == block_id {
                self.blocks[i].set_free();
            }
            proof {
                assert forall|j: int| 0 <= j < m.blocks.len() && j != i implies
                    #[trigger] self@.blocks[j] == before@.blocks[j] by {
                    assert(self.blocks@[j] == before.blocks@[j]);
                }
                assert(self@.blocks[i as int] == self.blocks@[i as int]@);
            }
            i += 1;
        }
        proof {
            assert(self@.blocks =~= marked(m.blocks, block_id));
            assert(self@.blocks.last() == m.blocks.last());
        }
        self.try_real_free();
        self.try_merge();
    }

    /// Merges small neighbouring free blocks.
    fn try_merge(&mut self)
        requires
            old(self).wf(),
        ensures
            final(self).wf(),
            final(self)@ == merged_from(old(self)@, 0),
    {
        let ghost goal = merged_from(self@, 0);
        let mut i: usize = 0;
        while self.blocks.len() > MERGE_BLOCK_THRESHOLD && i < self.blocks.len() - 1
            && self.blocks[i].is_free() && self.blocks[i + 1].is_free()
            invariant
                self.wf(),
                i <= self.blocks@.len(),
                goal == merged_from(self@, i as int),
            decreases self.blocks@.len(), self.blocks@.len() - i,
        {
            let ghost before = *self;
            let ghost m = self@;
            proof {
                assert(m.blocks[i as int] == self.blocks@[i as int]@);
                assert(m.blocks[i + 1] == self.blocks@[i + 1]@);
                assert(self.blocks@[i as int].wf() && self.blocks@[i + 1].wf());
            }
            let left_size: u64 = self.blocks[i].size();
            let right_size: u64 = self.blocks[i + 1].size();
            let too_large: bool = left_size >= self.cache_block_max_size || right_size
                >= self.cache_block_max_size - left_size;
            if too_large || is_discontinuous(&self.blocks[i], &self.blocks[i + 1]) {
                i += 1;
            } else {
                let merged = merge_blocks(&self.blocks[i], &self.blocks[i + 1], self.next_block_id);
                self.next_block_id = self.next_block_id.wrapping_add(1);
                let right = self.blocks.remove(i + 1);
                self.blocks[i] = merged;
                proof {
                    let n = m.blocks.update(
                        i as int,
                        joined_blocks(m.blocks[i as int], m.blocks[i + 1], m.next_block_id),
                    ).remove(i + 1);
                    assert(block_views(self.blocks@) =~= n);
                    assert(self@.blocks.last() == m.blocks.last()) by {
                        if i + 2 == m.blocks.len() {
                            assert(m.blocks.last() == m.blocks[i + 1]);
                        }
                    }
                    assert forall|j: int| 0 <= j < self.blocks@.len() implies (
                    #[trigger] self.blocks@[j]).wf() by {
                        if j < i {
                            assert(self.blocks@[j] == before.blocks@[j]);
                        } else if j > i {
                            assert(self.blocks@[j] == before.blocks@[j + 1]);
                        }
                    }
                }
            }
        }
        proof {
            if self.blocks@.len() > MERGE_BLOCK_THRESHOLD && i < self.blocks@.len() - 1 {
                assert(self@.blocks[i as int] == self.blocks@[i as int]@);
                assert(self@.blocks[i + 1] == self.blocks@[i + 1]@);
            }
        }
    }

    /// The WAL offset of the last confirmed record.
    pub fn set_last_record_offset(&mut self, offset: RecordOffset)
        requires
            old(self).wf(),
        ensures
            final(self).wf(),
            final(self)@ == (LogCacheModel { last_record_offset: Some(offset), ..old(self)@ }),
    {
        self.last_record_offset = Some(offset);
        proof {
        }
    }

    pub fn last_record_offset(&self) -> (r: Option<RecordOffset>)
        ensures
            r == self@.last_record_offset,
    {
        self.last_record_offset
    }

    /// Drops a stream from every block.
    pub fn clear_stream_records(&mut self, stream_id: u64)
        requires
            old(self).wf(),
        ensures
            final(self).wf(),
            final(self)@ == cleared(old(self)@, stream_id),
    {
        let ghost m = self@;
        let mut freed: u64 = 0;
        let mut i: usize = 0;
        assert(m.blocks.take(0) =~= Seq::empty());
        while i < self.blocks.len()
            invariant
                i <= self.blocks@.len() == m.blocks.len(),
                m == old(self)@,
                has_active(m.blocks),
                self@ == (LogCacheModel { blocks: self@.blocks, ..m }),
                freed == stream_bytes(m.blocks.take(i as int), stream_id)
                    % 0x1_0000_0000_0000_0000,
                forall|j: int| 0 <= j < i ==> #[trigger] self@.blocks[j] == without_stream(
                    m.blocks[j],
                    stream_id,
                ),
                forall|j: int|
                    i <= j < m.blocks.len() ==> #[trigger] self@.blocks[j] == m.blocks[j],
                forall|j: int| 0 <= j < self.blocks@.len() ==> (#[trigger] self.blocks@[j]).wf(),
            decreases self.blocks@.len() - i,
        {
            let ghost before = *self;
            proof {
                assert(self@.blocks[i as int] == self.blocks@[i as int]@);
                assert(self.blocks@[i as int].wf());
                assert(m.blocks.take(i + 1).drop_last() =~= m.blocks.take(i as int));
                assert(m.blocks.take(i + 1).last() == m.blocks[i as int]);
            }
            let bytes: u64 = self.blocks[i].free_stream(stream_id);
            freed = freed.wrapping_add(bytes);
            proof {
                assert forall|j: int| 0 <= j < m.blocks.len() && j != i implies
                    #[trigger] self@.blocks[j] == before@.blocks[j] by {
                    assert(self.blocks@[j] == before.blocks@[j]);
                }
                assert(self@.blocks[i as int] == self.blocks@[i as int]@);
            }
            i += 1;
        }
        assert(m.blocks.take(i as int) =~= m.blocks);
        let ghost before = *self;
        self.size = self.size.wrapping_sub(freed);
        proof {
            assert(self@.blocks =~= cleared(m, stream_id).blocks);
            assert(self@.blocks.last() == without_stream(m.blocks.last(), stream_id));
        }
    }

    pub fn size(&self) -> (r: u64)
        ensures
            r == self@.size,
    {
        self.size
    }

    pub fn capacity(&self) -> (r: u64)
        ensures
            r == self@.capacity,
    {
        self.capacity
    }

    pub fn block_count(&self) -> (r: usize)
        ensures
            r == self@.blocks.len(),
    {
        self.blocks.len()
    }

    /// The block with an id, if the cache still holds it.
    pub fn block(&self, block_id: u64) -> (r: Option<&LogCacheBlock>)
        ensures
            match r {
                Some(b) => b@.id == block_id && self@.blocks.contains(b@),
                None => forall|i: int|
                    0 <= i < self@.blocks.len() ==> (#[trigger] self@.blocks[i]).id != block_id,
            },
    {
        let mut i: usize = 0;
        while i < self.blocks.len()
            invariant
                i <= self.blocks@.len(),
                forall|j: int| 0 <= j < i ==> (#[trigger] self@.blocks[j]).id != block_id,
            decreases self.blocks@.len() - i,
        {
            assert(self@.blocks[i as int] == self.blocks@[i as int]@);
            if self.blocks[i].block_id() == block_id {
                return Some(&self.blocks[i]);
            }
            i += 1;
        }
        None
    }

    /// Does a block with the id hold the stream?
    pub fn holds_stream(&self, block_id: u64, stream_id: u64) -> (r: bool)
        ensures
            r == holds_stream(self@, block_id, stream_id),
    {
        let mut i: usize = 0;
        while i < self.blocks.len()
            invariant
                i <= self.blocks@.len(),
                forall|j: int|
                    0 <= j < i ==> !((#[trigger] self@.blocks[j]).id == block_id && (stream_id
                        == MATCH_ALL_STREAMS || self@.blocks[j].streams.contains_key(stream_id))),
            decreases self.blocks@.len() - i,
        {
            assert(self@.blocks[i as int] == self.blocks@[i as int]@);
            if self.blocks[i].block_id() == block_id && self.blocks[i].contains_stream(stream_id) {
                return true;
            }
            i += 1;
        }
        false
    }

    /// The blocks released since the last call, in order.
    pub fn take_freed(&mut self) -> (r: Vec<FreedBlock>)
        requires
            old(self).wf(),
        ensures
            final(self).wf(),
            freed_views(r@) == old(self)@.freed,
            final(self)@ == (LogCacheModel { freed: Seq::empty(), ..old(self)@ }),
    {
        let mut out: Vec<FreedBlock> = Vec::new();
        let ghost before = *self;
        out.append(&mut self.freed);
        proof {
            assert(out@ =~= before.freed@);
            assert(self@.freed =~= Seq::empty());
        }
        out
    }
}

/// The record is held for the stream in one of the blocks.
pub open spec fn is_cached(blocks: Seq<BlockModel>, stream_id: u64, record: Seq<u8>) -> bool {
    exists|i: int, j: int|
        #![trigger cache_of(blocks[i], stream_id).records[j]]
        0 <= i < blocks.len() && 0 <= j < cache_of(blocks[i], stream_id).records.len()
            && cache_of(blocks[i], stream_id).records[j] == record
}

proof fn lemma_cached_is_batch(c: LogCache, stream_id: u64)
    requires
        c.wf(),
    ensures
        forall|record: Seq<u8>| #[trigger]
            is_cached(c@.blocks, stream_id, record) ==> is_batch(record),
{
    assert forall|record: Seq<u8>| #[trigger]
        is_cached(c@.blocks, stream_id, record) implies is_batch(record) by {
        let (i, j) = choose|i: int, j: int|
            #![trigger cache_of(c@.blocks[i], stream_id).records[j]]
            0 <= i < c@.blocks.len() && 0 <= j < cache_of(c@.blocks[i], stream_id).records.len()
                && cache_of(c@.blocks[i], stream_id).records[j] == record;
        assert(c@.blocks[i] == c.blocks@[i]@);
        assert(c.blocks@[i].wf());
        c.blocks@[i].lemma_records_are_batches(stream_id, j);
    }
}

/// A block without a stream. Its size is not adjusted.
pub open spec fn without_stream(b: BlockModel, stream_id: u64) -> BlockModel {
    BlockModel { streams: b.streams.remove(stream_id), ..b }
}

/// Bytes that the records of a stream occupy in a list of blocks.
pub open spec fn stream_bytes(blocks: Seq<BlockModel>, stream_id: u64) -> int
    decreases blocks.len(),
{
    if blocks.len() == 0 {
        0
    } else {
        stream_bytes(blocks.drop_last(), stream_id) + occupied_bytes(
            cache_of(blocks.last(), stream_id).records,
        )
    }
}

/// The cache without a stream.
pub open spec fn cleared(m: LogCacheModel, stream_id: u64) -> LogCacheModel {
    LogCacheModel {
        blocks: m.blocks.map_values(|b: BlockModel| without_stream(b, stream_id)),
        size: wrapping_diff(m.size as int, stream_bytes(m.blocks, stream_id)),
        ..m
    }
}


/// Each record begins where the one before it ends.
pub open spec fn is_gapless(records: Seq<Seq<u8>>) -> bool {
    forall|i: int, j: int|
        #![trigger records[i], records[j]]
        0 <= i && j == i + 1 && j < records.len() ==> rec_base_offset(records[j])
            == rec_last_offset(records[i])
}

/// The stream has no gap in any block, and never begins in a block below its end in an older
/// one.
pub open spec fn stream_in_order(blocks: Seq<BlockModel>, stream_id: u64) -> bool {
    &&& forall|i: int| 0 <= i < blocks.len() ==> cache_ok(cache_of(#[trigger] blocks[i], stream_id))
    &&& is_chained_in(blocks, stream_id)
    &&& forall|i: int, j: int|
        #![trigger blocks[i], blocks[j]]
        0 <= i < j < blocks.len() ==> match (
            block_range(blocks[i], stream_id),
            block_range(blocks[j], stream_id),
        ) {
            (Some(a), Some(b)) => a.1 <= b.0,
            _ => true,
        }
}

/// No block from `i` on begins below the offset.
pub open spec fn begins_above(
    blocks: Seq<BlockModel>,
    i: int,
    stream_id: u64,
    offset: u64,
) -> bool {
    forall|j: int|
        i <= j < blocks.len() ==> (block_range(#[trigger] blocks[j], stream_id) matches Some(r)
            ==> offset <= r.0)
}

/// The records have no gap. They begin with a batch at or around the start offset; where only
/// the tail is served, with one at the start of the tail.
pub open spec fn reads_from(
    blocks: Seq<BlockModel>,
    stream_id: u64,
    start: u64,
    end: u64,
    r: Seq<Seq<u8>>,
) -> bool {
    &&& is_gapless(r)
    &&& r.len() > 0 ==> starts_at(r[0], start) || (tail_start(
        blocks,
        blocks.len() as int,
        stream_id,
        None,
    ) matches Some(t) && starts_at(r[0], t) && start < t < end)
}

/// Whatever a read gives has no gap, within and across blocks, and begins where it should,
/// empty batches or not.
pub proof fn law_log_read_is_gapless(
    blocks: Seq<BlockModel>,
    stream_id: u64,
    start: u64,
    end: u64,
    budget: int,
    r: Seq<Seq<u8>>,
)
    requires
        stream_in_order(blocks, stream_id),
        is_log_read(blocks, stream_id, start, end, budget, r),
    ensures
        reads_from(blocks, stream_id, start, end, r),
{
    if is_walk(blocks, 0, stream_id, start, end, budget, r, true) {
        lemma_walk_gapless(blocks, 0, stream_id, start, end, budget, r, true);
    } else {
        match tail_start(blocks, blocks.len() as int, stream_id, None) {
            Some(t) => {
                if is_walk(blocks, 0, stream_id, t, end, budget, r, true) {
                    lemma_walk_gapless(blocks, 0, stream_id, t, end, budget, r, true);
                }
            },
            None => {},
        }
    }
}

/// What is read has no gap, within and across blocks. It begins with the batch that holds
/// the start offset; where only the tail is served, with the first batch of the tail.
pub proof fn law_log_get_is_gapless(
    blocks: Seq<BlockModel>,
    stream_id: u64,
    start: u64,
    end: u64,
    budget: int,
)
    requires
        stream_in_order(blocks, stream_id),
        is_continuous_in(blocks, stream_id),
    ensures
        ({
            let r = log_get(blocks, stream_id, start, end, budget);
            &&& is_gapless(r)
            &&& r.len() > 0 ==> holds_offset(r[0], start) || (tail_start(
                blocks,
                blocks.len() as int,
                stream_id,
                None,
            ) matches Some(t) && holds_offset(r[0], t) && start < t < end)
        }),
{
    let (r, f) = walk(blocks, 0, stream_id, start, end, budget);
    lemma_walk_is_walk(blocks, 0, stream_id, start, end, budget);
    lemma_walk_gapless(blocks, 0, stream_id, start, end, budget, r, f);
    match tail_start(blocks, blocks.len() as int, stream_id, None) {
        Some(t) => {
            let (r, f) = walk(blocks, 0, stream_id, t, end, budget);
            lemma_walk_is_walk(blocks, 0, stream_id, t, end, budget);
            lemma_walk_gapless(blocks, 0, stream_id, t, end, budget, r, f);
        },
        None => {},
    }
}

/// Where no batch is empty, reading is one of the ways to read.
proof fn lemma_walk_is_walk(
    blocks: Seq<BlockModel>,
    i: int,
    stream_id: u64,
    next: u64,
    end: u64,
    budget: int,
)
    requires
        stream_in_order(blocks, stream_id),
        is_continuous_in(blocks, stream_id),
        0 <= i <= blocks.len(),
    ensures
        ({
            let (r, f) = walk(blocks, i, stream_id, next, end, budget);
            is_walk(blocks, i, stream_id, next, end, budget, r, f)
        }),
    decreases blocks.len() - i,
{
    if i < blocks.len() {
        let c = cache_of(blocks[i], stream_id);
        let part = block_get(blocks[i], stream_id, next, end, budget);
        let none = Seq::<Seq<u8>>::empty();
        lemma_get_is_read(c, next, end, budget);
        if part.len() == 0 {
            let (rest, f) = walk(blocks, i + 1, stream_id, next, end, budget);
            lemma_walk_is_walk(blocks, i + 1, stream_id, next, end, budget);
            lemma_walk_step(blocks, i, stream_id, next, end, budget, part, rest, f);
            assert(part + rest =~= rest);
        } else {
            let reached = rec_last_offset(part.last());
            let left = budget_after_all(budget, part);
            if reached >= end || left == 0 {
                lemma_walk_step(blocks, i, stream_id, next, end, budget, part, none, true);
                assert(part + none =~= part);
            } else {
                let (rest, f) = walk(blocks, i + 1, stream_id, reached, end, left);
                lemma_walk_is_walk(blocks, i + 1, stream_id, reached, end, left);
                lemma_walk_step(blocks, i, stream_id, next, end, budget, part, rest, f);
            }
        }
    }
}

/// How many records the first block gave.
pub proof fn lemma_walk_part(
    blocks: Seq<BlockModel>,
    i: int,
    stream_id: u64,
    next: u64,
    end: u64,
    budget: int,
    r: Seq<Seq<u8>>,
    fulfilled: bool,
) -> (k: int)
    requires
        0 <= i < blocks.len(),
        is_walk(blocks, i, stream_id, next, end, budget, r, fulfilled),
    ensures
        0 <= k <= r.len(),
        is_read(cache_of(blocks[i], stream_id), next, end, budget, r.take(k)),
        k == 0 ==> is_walk(blocks, i + 1, stream_id, next, end, budget, r, fulfilled),
        k > 0 ==> {
            let reached = rec_last_offset(r.take(k).last());
            let left = budget_after_all(budget, r.take(k));
            if reached >= end || left == 0 {
                r == r.take(k) && fulfilled
            } else {
                is_walk(blocks, i + 1, stream_id, reached, end, left, r.skip(k), fulfilled)
            }
        },
{
    let k = choose|k: int|
        {
            &&& 0 <= k <= r.len()
            &&& is_read(cache_of(blocks[i], stream_id), next, end, budget, #[trigger] r.take(k))
            &&& if k == 0 {
                is_walk(blocks, i + 1, stream_id, next, end, budget, r, fulfilled)
            } else {
                let reached = rec_last_offset(r[k - 1]);
                let left = budget_after_all(budget, r.take(k));
                if reached >= end || left == 0 {
                    k == r.len() && fulfilled
                } else {
                    is_walk(blocks, i + 1, stream_id, reached, end, left, r.skip(k), fulfilled)
                }
            }
        };
    if k > 0 {
        assert(r.take(k).last() == r[k - 1]);
        if k == r.len() {
            assert(r =~= r.take(k));
        }
    }
    k
}

/// Two lists without a gap, the second beginning where the first ends.
proof fn lemma_gapless_parts(a: Seq<Seq<u8>>, b: Seq<Seq<u8>>)
    requires
        is_gapless(a),
        is_gapless(b),
        a.len() > 0 && b.len() > 0 ==> rec_base_offset(b[0]) == rec_last_offset(a.last()),
    ensures
        is_gapless(a + b),
{
    let r = a + b;
    let k = a.len() as int;
    assert forall|x: int, y: int|
        #![trigger r[x], r[y]]
        0 <= x && y == x + 1 && y < r.len() implies rec_base_offset(r[y]) == rec_last_offset(r[x]) by {
        if y < k {
            assert(r[x] == a[x] && r[y] == a[y]);
        } else if x >= k {
            assert(r[x] == b[x - k] && r[y] == b[y - k]);
        } else {
            assert(r[x] == a.last() && r[y] == b[0]);
        }
    }
}

pub proof fn lemma_walk_gapless(
    blocks: Seq<BlockModel>,
    i: int,
    stream_id: u64,
    next: u64,
    end: u64,
    budget: int,
    r: Seq<Seq<u8>>,
    fulfilled: bool,
)
    requires
        stream_in_order(blocks, stream_id),
        0 <= i <= blocks.len(),
        is_walk(blocks, i, stream_id, next, end, budget, r, fulfilled),
    ensures
        is_gapless(r),
        r.len() > 0 ==> starts_at(r[0], next),
        r.len() > 0 && is_continuous_in(blocks, stream_id) ==> holds_offset(r[0], next),
        r.len() > 0 && begins_above(blocks, i, stream_id, next) ==> rec_base_offset(r[0]) == next,
    decreases blocks.len() - i,
{
    if i < blocks.len() {
        let c = cache_of(blocks[i], stream_id);
        let k = lemma_walk_part(blocks, i, stream_id, next, end, budget, r, fulfilled);
        let part = r.take(k);
        if k == 0 {
            lemma_walk_gapless(blocks, i + 1, stream_id, next, end, budget, r, fulfilled);
        } else {
            assert(cache_ok(c) && is_chained(c));
            lemma_read_in_range(c, next, end, budget, part);
            let reached = rec_last_offset(part.last());
            let left = budget_after_all(budget, part);
            assert(part[0] == r[0]);
            assert(block_range(blocks[i], stream_id) == Some((c.start->0, c.end->0)));
            if !(reached >= end || left == 0) {
                let rest = r.skip(k);
                lemma_walk_gapless(blocks, i + 1, stream_id, reached, end, left, rest, fulfilled);
                assert forall|j: int| i + 1 <= j < blocks.len() implies (block_range(
                    #[trigger] blocks[j],
                    stream_id,
                ) matches Some(b) ==> reached <= b.0) by {
                    assert(blocks[i] == blocks[i]);
                }
                assert(r =~= part + rest);
                lemma_gapless_parts(part, rest);
            }
        }
    }
}

proof fn lemma_get_is_read(c: CacheModel, start: u64, end: u64, budget: int)
    requires
        cache_ok(c),
        is_continuous(c),
    ensures
        is_read(c, start, end, budget, cache_get(c, start, end, budget)),
{
    if c.start is Some && c.start->0 <= start && start < c.end->0 {
        lemma_covering(c, start);
        assert(starts_at(c.records[covering(c.records, start)], start));
    }
}

proof fn lemma_read_in_range(c: CacheModel, start: u64, end: u64, budget: int, r: Seq<Seq<u8>>)
    requires
        cache_ok(c),
        is_chained(c),
        is_read(c, start, end, budget, r),
        r.len() > 0,
    ensures
        c.start is Some,
        c.end is Some,
        c.start->0 <= start < c.end->0,
        is_gapless(r),
        starts_at(r[0], start),
        is_continuous(c) ==> holds_offset(r[0], start),
        rec_last_offset(r.last()) <= c.end->0,
        rec_base_offset(r[0]) >= c.start->0,
{
    let i = choose|i: int|
        0 <= i < c.records.len() && starts_at(#[trigger] c.records[i], start) && r
            == c.records.subrange(i, serve_end(c.records, i, end, budget));
    lemma_serve_end(c.records, i, end, budget);
    let e = serve_end(c.records, i, end, budget);
    assert(r.last() == c.records[e - 1]);
    assert(r[0] == c.records[i]);
    lemma_chain_order(c, e - 1, c.records.len() - 1);
    lemma_chain_order(c, 0, i);
    assert forall|a: int, b: int|
        #![trigger r[a], r[b]]
        0 <= a && b == a + 1 && b < r.len() implies rec_base_offset(r[b]) == rec_last_offset(r[a]) by {
        assert(r[a] == c.records[i + a] && r[b] == c.records[i + b]);
    }
}

/// A sealed block carries the last confirmed WAL offset.
pub proof fn law_sealed_block_carries_offset(m: LogCacheModel, offset: RecordOffset)
    requires
        m.blocks.len() > 0,
        m.last_record_offset == Some(offset),
    ensures
        archived(m).blocks[m.blocks.len() - 1].last_record_offset == Some(offset),
        archived(m).blocks[m.blocks.len() - 1].streams == m.blocks.last().streams,
{
}

/// Releasing stops at the first block that is not free: only a prefix of free blocks goes,
/// and what stays is as it was.
pub proof fn law_release_takes_free_prefix(m: LogCacheModel)
    ensures
        released(m).blocks.len() <= m.blocks.len(),
        released(m).blocks == m.blocks.skip(m.blocks.len() - released(m).blocks.len()),
        forall|i: int|
            0 <= i < m.blocks.len() - released(m).blocks.len() ==> (#[trigger] m.blocks[i]).free,
    decreases m.blocks.len(),
{
    if m.blocks.len() == 0 || !over_limit(m.capacity, m.size, m.blocks.len()) || !m.blocks[0].free {
        assert(m.blocks.skip(0) =~= m.blocks);
    } else {
        let rest = LogCacheModel {
            blocks: m.blocks.skip(1),
            size: wrapping_diff(m.size as int, m.blocks[0].size as int),
            freed: m.freed.push(freed_of(m.blocks[0])),
            ..m
        };
        law_release_takes_free_prefix(rest);
        let k = rest.blocks.len() - released(m).blocks.len();
        assert(rest.blocks.skip(k) =~= m.blocks.skip(k + 1));
        assert forall|i: int| 0 <= i < k + 1 implies (#[trigger] m.blocks[i]).free by {
            if i > 0 {
                assert(rest.blocks[i - 1] == m.blocks[i]);
            }
        }
    }
}

} // verus!

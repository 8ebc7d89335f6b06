//! The data blocks that the cache and its readers share, and the memory they take.
use vstd::prelude::*;

use crate::cache::blockcache::data_block::{
    freed_block, BlockModel, DataBlock, LoadState,
};
use crate::cache::blockcache::size_limiter::{
    after_release, is_short, woken_by, AsyncSizeLimiter, LimiterModel,
};
use crate::codec::record::{is_batch, StreamRecordBatch};
use crate::error::StreamError;
use crate::numbers::signed;
use crate::object::DataBlockIndex;

verus! {

/// A listener of a freed block that is to be told.
#[derive(Debug, Clone, Copy, PartialEq, Eq, Structural)]
pub struct FreeNotice {
    pub handle: u64,
    pub listener: u64,
}

/// The blocks, the memory budget, and what a host has to do next: waiters to wake, and
/// listeners to tell.
#[verifier::ext_equal]
pub struct TableModel {
    pub blocks: Seq<BlockModel>,
    pub limiter: LimiterModel,
    pub woken: Seq<u64>,
    pub notices: Seq<FreeNotice>,
}

/// The position of a block.
pub open spec fn index_of(blocks: Seq<BlockModel>, handle: u64) -> Option<int>
    decreases blocks.len(),
{
    if blocks.len() == 0 {
        None
    } else {
        match index_of(blocks.drop_last(), handle) {
            Some(i) => Some(i),
            None => if blocks.last().handle == handle {
                Some(blocks.len() - 1)
            } else {
                None
            },
        }
    }
}

pub proof fn lemma_index_of(blocks: Seq<BlockModel>, handle: u64)
    ensures
        index_of(blocks, handle) is Some <==> exists|i: int|
            0 <= i < blocks.len() && (#[trigger] blocks[i]).handle == handle,
        index_of(blocks, handle) matches Some(i) ==> {
            &&& 0 <= i < blocks.len()
            &&& blocks[i].handle == handle
            &&& forall|j: int| 0 <= j < i ==> (#[trigger] blocks[j]).handle != handle
        },
    decreases blocks.len(),
{
    if blocks.len() > 0 {
        lemma_index_of(blocks.drop_last(), handle);
        if index_of(blocks.drop_last(), handle) is Some {
            let i = index_of(blocks.drop_last(), handle)->0;
            assert(blocks[i] == blocks.drop_last()[i]);
            assert forall|j: int| 0 <= j < i implies (#[trigger] blocks[j]).handle != handle by {
                assert(blocks[j] == blocks.drop_last()[j]);
            }
        } else {
            assert forall|j: int| 0 <= j < blocks.len() - 1 implies (#[trigger] blocks[j]).handle
                != handle by {
                assert(blocks[j] == blocks.drop_last()[j]);
            }
        }
    }
}

/// Where the handles agree, so do the positions.
pub proof fn lemma_index_of_same(a: Seq<BlockModel>, b: Seq<BlockModel>, handle: u64)
    requires
        a.len() == b.len(),
        forall|i: int| 0 <= i < a.len() ==> (#[trigger] a[i]).handle == b[i].handle,
    ensures
        index_of(a, handle) == index_of(b, handle),
    decreases a.len(),
{
    if a.len() > 0 {
        assert forall|i: int| 0 <= i < a.len() - 1 implies (#[trigger] a.drop_last()[i]).handle
            == b.drop_last()[i].handle by {
            assert(a[i].handle == b[i].handle);
        }
        lemma_index_of_same(a.drop_last(), b.drop_last(), handle);
        assert(a[a.len() - 1].handle == b[b.len() - 1].handle);
    }
}

/// A block added at the end moves no other.
pub proof fn lemma_index_of_push(blocks: Seq<BlockModel>, block: BlockModel, handle: u64)
    ensures
        index_of(blocks, handle) is Some ==> index_of(blocks.push(block), handle) == index_of(
            blocks,
            handle,
        ),
        block.handle == handle && index_of(blocks, handle) is None ==> index_of(
            blocks.push(block),
            handle,
        ) == Some(blocks.len() as int),
{
    assert(blocks.push(block).drop_last() =~= blocks);
}

/// Bytes of memory that freeing the block gives back.
pub open spec fn holds(b: BlockModel) -> int {
    if b.freed {
        0
    } else {
        b.index.size as int
    }
}

/// Bytes of memory that freeing all the blocks gives back.
pub open spec fn held(blocks: Seq<BlockModel>) -> int
    decreases blocks.len(),
{
    if blocks.len() == 0 {
        0
    } else {
        held(blocks.drop_last()) + holds(blocks.last())
    }
}

proof fn lemma_held_update(blocks: Seq<BlockModel>, i: int, b: BlockModel)
    requires
        0 <= i < blocks.len(),
    ensures
        held(blocks.update(i, b)) == held(blocks) - holds(blocks[i]) + holds(b),
        held(blocks) >= holds(blocks[i]),
        held(blocks) >= 0,
    decreases blocks.len(),
{
    lemma_held_positive(blocks.drop_last());
    if i == blocks.len() - 1 {
        assert(blocks.update(i, b).drop_last() =~= blocks.drop_last());
    } else {
        assert(blocks.update(i, b).drop_last() =~= blocks.drop_last().update(i, b));
        lemma_held_update(blocks.drop_last(), i, b);
        assert(blocks.drop_last()[i] == blocks[i]);
    }
}

pub proof fn lemma_held_positive(blocks: Seq<BlockModel>)
    ensures
        held(blocks) >= 0,
    decreases blocks.len(),
{
    if blocks.len() > 0 {
        lemma_held_positive(blocks.drop_last());
    }
}

pub proof fn lemma_held_push(blocks: Seq<BlockModel>, b: BlockModel)
    ensures
        held(blocks.push(b)) == held(blocks) + holds(b),
{
    assert(blocks.push(b).drop_last() =~= blocks);
}

/// The permits stay within 64 bits, whatever is freed.
pub open spec fn has_headroom(m: TableModel) -> bool {
    i64::MIN <= m.limiter.permits && m.limiter.permits + held(m.blocks) <= i64::MAX
}

/// Notices for all listeners of a block.
pub open spec fn notices_of(b: BlockModel) -> Seq<FreeNotice> {
    b.listeners.map_values(|l: u64| FreeNotice { handle: b.handle, listener: l })
}

/// The table after the block at a position was freed.
pub open spec fn freed_at(m: TableModel, i: int) -> TableModel {
    let b = m.blocks[i];
    if b.freed {
        m
    } else {
        TableModel {
            blocks: m.blocks.update(i, freed_block(b)),
            limiter: after_release(m.limiter, b.index.size as int),
            woken: match woken_by(m.limiter, b.index.size as int) {
                Some(w) => m.woken.push(w),
                None => m.woken,
            },
            notices: m.notices + notices_of(b),
        }
    }
}

/// The table after a block was freed.
pub open spec fn freed_handle(m: TableModel, handle: u64) -> TableModel {
    match index_of(m.blocks, handle) {
        Some(i) => freed_at(m, i),
        None => m,
    }
}

/// The table with one block changed.
pub open spec fn with_block(m: TableModel, i: int, b: BlockModel) -> TableModel {
    TableModel { blocks: m.blocks.update(i, b), ..m }
}

pub proof fn lemma_freed_at(m: TableModel, i: int)
    requires
        0 <= i < m.blocks.len(),
        has_headroom(m),
    ensures
        has_headroom(freed_at(m, i)),
        freed_at(m, i).blocks.len() == m.blocks.len(),
        forall|j: int|
            0 <= j < m.blocks.len() ==> (#[trigger] freed_at(m, i).blocks[j]).handle
                == m.blocks[j].handle,
        forall|h: u64| #[trigger] index_of(freed_at(m, i).blocks, h) == index_of(m.blocks, h),
        freed_at(m, i).limiter.permits + held(freed_at(m, i).blocks) == m.limiter.permits + held(
            m.blocks,
        ),
{
    lemma_held_update(m.blocks, i, freed_block(m.blocks[i]));
    assert forall|h: u64| #[trigger] index_of(freed_at(m, i).blocks, h) == index_of(
        m.blocks,
        h,
    ) by {
        lemma_index_of_same(freed_at(m, i).blocks, m.blocks, h);
    }
}

/// The shared blocks.
#[derive(Debug)]
pub struct BlockTable {
    blocks: Vec<DataBlock>,
    limiter: AsyncSizeLimiter,
    woken: Vec<u64>,
    notices: Vec<FreeNotice>,
}

pub open spec fn block_models(v: Seq<DataBlock>) -> Seq<BlockModel> {
    v.map_values(|b: DataBlock| b@)
}

impl View for BlockTable {
    type V = TableModel;

    closed spec fn view(&self) -> TableModel {
        TableModel {
            blocks: block_models(self.blocks@),
            limiter: self.limiter@,
            woken: self.woken@,
            notices: self.notices@,
        }
    }
}

impl BlockTable {
    pub closed spec fn blocks_ok(&self) -> bool {
        forall|i: int| 0 <= i < self.blocks@.len() ==> (#[trigger] self.blocks@[i]).wf()
    }

    pub open spec fn wf(&self) -> bool {
        self.blocks_ok() && has_headroom(self@)
    }

    pub fn new(max_size: u64) -> (r: Self)
        ensures
            r.wf(),
            r@ == (TableModel {
                blocks: Seq::empty(),
                limiter: LimiterModel { permits: signed(max_size), waiters: Seq::empty() },
                woken: Seq::empty(),
                notices: Seq::empty(),
            }),
    {
        let r = BlockTable {
            blocks: Vec::new(),
            limiter: AsyncSizeLimiter::new(max_size),
            woken: Vec::new(),
            notices: Vec::new(),
        };
        assert(r@.blocks =~= Seq::empty());
        r
    }

    /// The position of a block.
    pub fn find(&self, handle: u64) -> (r: Option<usize>)
        ensures
            match index_of(self@.blocks, handle) {
                Some(i) => r matches Some(k) && k == i,
                None => r is None,
            },
            r matches Some(k) ==> k < self@.blocks.len() && self@.blocks[k as int].handle
                == handle,
    {
        proof {
            lemma_index_of(self@.blocks, handle);
        }
        let mut i: usize = 0;
        while i < self.blocks.len()
            invariant
                i <= self.blocks@.len(),
                forall|j: int| 0 <= j < i ==> (#[trigger] self@.blocks[j]).handle != handle,
                index_of(self@.blocks, handle) matches Some(i) ==> {
                    &&& 0 <= i < self@.blocks.len()
                    &&& self@.blocks[i].handle == handle
                    &&& forall|j: int|
                        0 <= j < i ==> (#[trigger] self@.blocks[j]).handle != handle
                },
                index_of(self@.blocks, handle) is Some <==> exists|i: int|
                    0 <= i < self@.blocks.len() && (#[trigger] self@.blocks[i]).handle == handle,
            decreases self.blocks@.len() - i,
        {
            assert(self@.blocks[i as int] == self.blocks@[i as int]@);
            if self.blocks[i].handle() == handle {
                return Some(i);
            }
            i += 1;
        }
        None
    }

    pub fn len(&self) -> (r: usize)
        ensures
            r == self@.blocks.len(),
    {
        self.blocks.len()
    }

    pub fn block(&self, i: usize) -> (r: &DataBlock)
        requires
            self.blocks_ok(),
            i < self@.blocks.len(),
        ensures
            r@ == self@.blocks[i as int],
            r.wf(),
    {
        &self.blocks[i]
    }

    /// Adds a block.
    pub fn add(&mut self, handle: u64, object_id: u64, index: DataBlockIndex, now_ms: u64)
        requires
            old(self).wf(),
            old(self)@.limiter.permits + held(old(self)@.blocks) + index.size <= i64::MAX,
        ensures
            final(self).wf(),
            final(self)@ == (TableModel {
                blocks: old(self)@.blocks.push(
                    crate::cache::blockcache::data_block::fresh_block(
                        handle,
                        object_id,
                        index,
                        now_ms,
                    ),
                ),
                ..old(self)@
            }),
    {
        let ghost before = self@.blocks;
        let block = DataBlock::new(handle, object_id, index, now_ms);
        proof {
            lemma_held_push(before, block@);
        }
        self.blocks.push(block);
        assert(self@.blocks =~= before.push(block@));
    }

    /// Frees the block at a position.
    pub fn free(&mut self, i: usize)
        requires
            old(self).wf(),
            i < old(self)@.blocks.len(),
        ensures
            final(self).wf(),
            final(self)@ == freed_at(old(self)@, i as int),
    {
        let ghost before = self@;
        proof {
            lemma_held_update(before.blocks, i as int, freed_block(before.blocks[i as int]));
            lemma_freed_at(before, i as int);
            assert(before.blocks[i as int] == self.blocks@[i as int]@);
        }
        let index = self.blocks[i].index();
        let handle: u64 = self.blocks[i].handle();
        let listeners = match self.blocks[i].free() {
            Some(l) => l,
            None => {
                assert(self@.blocks =~= before.blocks);
                return ;
            },
        };
        assert(self@.blocks =~= before.blocks.update(i as int, freed_block(before.blocks[i as int])));
        match self.limiter.release(index.size as u64) {
            Some(w) => {
                self.woken.push(w);
            },
            None => {},
        }
        let mut k: usize = 0;
        let ghost start = self.notices@;
        let ghost blocks = self.blocks@;
        let ghost limiter = self.limiter@;
        let ghost woken = self.woken@;
        while k < listeners.len()
            invariant
                k <= listeners@.len(),
                self.blocks@ == blocks,
                self.limiter@ == limiter,
                self.woken@ == woken,
                self.notices@.len() == start.len() + k,
                forall|j: int| 0 <= j < start.len() ==> #[trigger] self.notices@[j] == start[j],
                forall|j: int|
                    start.len() <= j < start.len() + k ==> #[trigger] self.notices@[j] == (
                    FreeNotice { handle, listener: listeners@[j - start.len()] }),
            decreases listeners@.len() - k,
        {
            self.notices.push(FreeNotice { handle, listener: listeners[k] });
            k += 1;
        }
        proof {
            assert(self@.notices =~= before.notices + notices_of(before.blocks[i as int]));
            assert(self@ == freed_at(before, i as int));
        }
    }

    /// Takes memory for the block at a position, or queues the waiter.
    pub fn try_acquire(&mut self, i: usize, waiter: u64) -> (r: bool)
        requires
            old(self).wf(),
            i < old(self)@.blocks.len(),
        ensures
            final(self).wf(),
            r == (old(self)@.limiter.permits >= 0),
            final(self)@ == (TableModel {
                limiter: if r {
                    LimiterModel {
                        permits: old(self)@.limiter.permits
                            - old(self)@.blocks[i as int].index.size,
                        ..old(self)@.limiter
                    }
                } else {
                    LimiterModel {
                        waiters: old(self)@.limiter.waiters.push(waiter),
                        ..old(self)@.limiter
                    }
                },
                ..old(self)@
            }),
    {
        proof {
            lemma_held_positive(self@.blocks);
        }
        assert(self@.blocks[i as int] == self.blocks@[i as int]@);
        let size: u64 = self.blocks[i].index().size as u64;
        self.limiter.try_acquire(size, waiter)
    }

    pub fn required_release(&self) -> (r: bool)
        ensures
            r == is_short(self@.limiter),
    {
        self.limiter.required_release()
    }

    pub fn permits(&self) -> (r: i64)
        ensures
            r == self@.limiter.permits,
    {
        self.limiter.permits()
    }

    pub fn complete(&mut self, i: usize, records: Vec<StreamRecordBatch>)
        requires
            old(self).wf(),
            i < old(self)@.blocks.len(),
            forall|k: int| 0 <= k < records@.len() ==> is_batch((#[trigger] records@[k])@),
        ensures
            final(self).wf(),
            final(self)@ == with_block(
                old(self)@,
                i as int,
                (BlockModel {
                    load: LoadState::Loaded,
                    records: crate::cache::stream_cache::record_views(records@),
                    ..old(self)@.blocks[i as int]
                }),
            ),
    {
        let ghost before = self@.blocks;
        assert(before[i as int] == self.blocks@[i as int]@);
        self.blocks[i].complete(records);
        proof {
            lemma_held_update(before, i as int, self.blocks@[i as int]@);
            assert(self@.blocks =~= before.update(i as int, self.blocks@[i as int]@));
        }
    }

    pub fn fail(&mut self, i: usize, error: StreamError)
        requires
            old(self).wf(),
            i < old(self)@.blocks.len(),
        ensures
            final(self).wf(),
            final(self)@ == with_block(
                old(self)@,
                i as int,
                (BlockModel { load: LoadState::Failed(error), ..old(self)@.blocks[i as int] }),
            ),
    {
        let ghost before = self@.blocks;
        assert(before[i as int] == self.blocks@[i as int]@);
        self.blocks[i].fail(error);
        proof {
            lemma_held_update(before, i as int, self.blocks@[i as int]@);
            assert(self@.blocks =~= before.update(i as int, self.blocks@[i as int]@));
        }
    }

    pub fn mark_unread(&mut self, i: usize, now_ms: u64)
        requires
            old(self).wf(),
            i < old(self)@.blocks.len(),
            old(self)@.blocks[i as int].unread < i32::MAX,
        ensures
            final(self).wf(),
            final(self)@ == with_block(
                old(self)@,
                i as int,
                crate::cache::blockcache::data_block::marked_unread(
                    old(self)@.blocks[i as int],
                    now_ms,
                ),
            ),
    {
        let ghost before = self@.blocks;
        assert(before[i as int] == self.blocks@[i as int]@);
        self.blocks[i].mark_unread(now_ms);
        proof {
            lemma_held_update(before, i as int, self.blocks@[i as int]@);
            assert(self@.blocks =~= before.update(i as int, self.blocks@[i as int]@));
        }
    }

    pub fn mark_read_delta(&mut self, i: usize) -> (r: i32)
        requires
            old(self).wf(),
            i < old(self)@.blocks.len(),
            old(self)@.blocks[i as int].unread > i32::MIN,
        ensures
            final(self).wf(),
            r == old(self)@.blocks[i as int].unread - 1,
            final(self)@ == with_block(
                old(self)@,
                i as int,
                (BlockModel {
                    unread: old(self)@.blocks[i as int].unread - 1,
                    ..old(self)@.blocks[i as int]
                }),
            ),
    {
        let ghost before = self@.blocks;
        assert(before[i as int] == self.blocks@[i as int]@);
        let r: i32 = self.blocks[i].mark_read_delta();
        proof {
            lemma_held_update(before, i as int, self.blocks@[i as int]@);
            assert(self@.blocks =~= before.update(i as int, self.blocks@[i as int]@));
        }
        r
    }

    /// Registers a free listener of the block at a position.
    pub fn register_free_listener(&mut self, i: usize) -> (r: Option<u64>)
        requires
            old(self).wf(),
            i < old(self)@.blocks.len(),
        ensures
            final(self).wf(),
            ({
                let b = old(self)@.blocks[i as int];
                if b.freed {
                    r is None && final(self)@ == old(self)@
                } else {
                    &&& r == Some(b.next_listener)
                    &&& final(self)@ == with_block(
                        old(self)@,
                        i as int,
                        (BlockModel {
                            listeners: b.listeners.push(b.next_listener),
                            next_listener: ((b.next_listener + 1)
                                % 0x1_0000_0000_0000_0000) as u64,
                            ..b
                        }),
                    )
                }
            }),
    {
        let ghost before = self@.blocks;
        assert(before[i as int] == self.blocks@[i as int]@);
        let r = self.blocks[i].register_free_listener();
        proof {
            lemma_held_update(before, i as int, self.blocks@[i as int]@);
            assert(self@.blocks =~= before.update(i as int, self.blocks@[i as int]@));
            assert(before.update(i as int, before[i as int]) =~= before);
        }
        r
    }

    /// Takes the registration of a free listener back.
    pub fn close_listener(&mut self, i: usize, id: u64)
        requires
            old(self).wf(),
            i < old(self)@.blocks.len(),
        ensures
            final(self).wf(),
            final(self)@ == with_block(
                old(self)@,
                i as int,
                (BlockModel {
                    listeners: old(self)@.blocks[i as int].listeners.filter(|l: u64| l != id),
                    ..old(self)@.blocks[i as int]
                }),
            ),
    {
        let ghost before = self@.blocks;
        assert(before[i as int] == self.blocks@[i as int]@);
        self.blocks[i].close_listener(id);
        proof {
            lemma_held_update(before, i as int, self.blocks@[i as int]@);
            assert(self@.blocks =~= before.update(i as int, self.blocks@[i as int]@));
        }
    }

    /// Drops the block at a position, which is free and which nobody reads any more.
    pub fn drop_block(&mut self, i: usize)
        requires
            old(self).wf(),
            i < old(self)@.blocks.len(),
            old(self)@.blocks[i as int].freed,
        ensures
            final(self).wf(),
            final(self)@ == (TableModel {
                blocks: old(self)@.blocks.remove(i as int),
                ..old(self)@
            }),
    {
        let ghost before = self@.blocks;
        let ghost was = self.blocks@;
        assert(before[i as int] == self.blocks@[i as int]@);
        self.blocks.remove(i);
        proof {
            assert(self@.blocks =~= before.remove(i as int));
            lemma_held_remove(before, i as int);
            assert forall|k: int| 0 <= k < self.blocks@.len() implies (
            #[trigger] self.blocks@[k]).wf() by {
                if k < i {
                    assert(self.blocks@[k] == was[k]);
                } else {
                    assert(self.blocks@[k] == was[k + 1]);
                }
            }
        }
    }

    /// Takes the waiters that are to try again, in the order in which they were woken.
    pub fn take_woken(&mut self) -> (r: Vec<u64>)
        requires
            old(self).wf(),
        ensures
            final(self).wf(),
            r@ == old(self)@.woken,
            final(self)@ == (TableModel { woken: Seq::empty(), ..old(self)@ }),
    {
        let mut out: Vec<u64> = Vec::new();
        out.append(&mut self.woken);
        assert(out@ =~= old(self).woken@);
        out
    }

    /// Takes the listeners that are to be told, in the order in which the blocks were freed.
    pub fn take_notices(&mut self) -> (r: Vec<FreeNotice>)
        requires
            old(self).wf(),
        ensures
            final(self).wf(),
            r@ == old(self)@.notices,
            final(self)@ == (TableModel { notices: Seq::empty(), ..old(self)@ }),
    {
        let mut out: Vec<FreeNotice> = Vec::new();
        out.append(&mut self.notices);
        assert(out@ =~= old(self).notices@);
        out
    }
}

proof fn lemma_held_remove(blocks: Seq<BlockModel>, i: int)
    requires
        0 <= i < blocks.len(),
    ensures
        held(blocks.remove(i)) == held(blocks) - holds(blocks[i]),
    decreases blocks.len(),
{
    if i == blocks.len() - 1 {
        assert(blocks.remove(i) =~= blocks.drop_last());
    } else {
        assert(blocks.remove(i).drop_last() =~= blocks.drop_last().remove(i));
        lemma_held_remove(blocks.drop_last(), i);
        assert(blocks.drop_last()[i] == blocks[i]);
        assert(blocks.remove(i).last() == blocks.last());
    }
}

/// Freeing a block gives back exactly the memory that it held: what is left and what is
/// held add up to the same as before.
pub proof fn law_freeing_conserves_memory(m: TableModel, i: int)
    requires
        0 <= i < m.blocks.len(),
    ensures
        freed_at(m, i).limiter.permits + held(freed_at(m, i).blocks) == m.limiter.permits + held(
            m.blocks,
        ),
{
    lemma_held_update(m.blocks, i, freed_block(m.blocks[i]));
}

} // verus!

//! The window of data blocks that a stream reader is about to read: contiguous, in offset
//! order, filled at the end and consumed at the front.
use vstd::prelude::*;

use crate::error::{StreamError, Unexpected};
use crate::object::{DataBlockIndex, ObjectModel, S3ObjectMetadata, NOOP_OFFSET};

verus! {

/// How many objects one index load asks for.
pub const GET_OBJECT_STEP: usize = 4;

/// What a slot of the window holds.
#[verifier::ext_equal]
pub struct SlotModel {
    pub object: ObjectModel,
    pub index: DataBlockIndex,
    /// The cached block, once it was read or read ahead.
    pub data: Option<u64>,
    pub listener: Option<u64>,
}

/// One data block of the window.
#[derive(Debug)]
pub struct BlockSlot {
    pub metadata: S3ObjectMetadata,
    pub index: DataBlockIndex,
    pub data: Option<u64>,
    pub listener: Option<u64>,
}

impl View for BlockSlot {
    type V = SlotModel;

    open spec fn view(&self) -> SlotModel {
        SlotModel {
            object: self.metadata@,
            index: self.index,
            data: self.data,
            listener: self.listener,
        }
    }
}

/// The window: its slots, the newest block that was ever put, the end of the loaded index,
/// and how often it was reset.
#[verifier::ext_equal]
pub struct WindowModel {
    pub slots: Seq<SlotModel>,
    pub last: Option<(u64, u64)>,
    pub loaded_end: u64,
    pub epoch: u64,
}

/// The slots follow each other without a gap, in ascending order, up to the end of the
/// loaded index.
pub open spec fn is_window(w: WindowModel) -> bool {
    &&& forall|i: int| 0 <= i < w.slots.len() ==> (#[trigger] w.slots[i]).index.valid()
    &&& forall|i: int, j: int|
        #![trigger w.slots[i], w.slots[j]]
        0 <= i && j == i + 1 && j < w.slots.len() ==> w.slots[i].index.end()
            == w.slots[j].index.start_offset && w.slots[i].index.start_offset
            < w.slots[j].index.start_offset
    &&& w.slots.len() > 0 ==> w.last == Some(
        (w.slots.last().index.start_offset, w.slots.last().index.end() as u64),
    )
    &&& match w.last {
        Some(l) => w.loaded_end == l.1,
        None => w.loaded_end == 0,
    }
}

/// A block may be put: the first one holds the next offset to read, and every other one
/// begins where the one before it ends.
pub open spec fn may_put(w: WindowModel, next_read_offset: u64, index: DataBlockIndex) -> bool {
    match w.last {
        None => index.start_offset <= next_read_offset && index.end() > next_read_offset,
        Some(l) => l.1 == index.start_offset,
    }
}

/// The window after a block was put. An empty block at the end gives way to one that begins
/// where it begins.
pub open spec fn put(w: WindowModel, object: ObjectModel, index: DataBlockIndex) -> WindowModel {
    let slot = SlotModel { object, index, data: None, listener: None };
    WindowModel {
        slots: if w.slots.len() > 0 && w.slots.last().index.start_offset == index.start_offset {
            w.slots.drop_last().push(slot)
        } else {
            w.slots.push(slot)
        },
        last: Some((index.start_offset, index.end() as u64)),
        loaded_end: index.end() as u64,
        ..w
    }
}

/// How many blocks of a list can be put, one after the other.
pub open spec fn put_count(
    w: WindowModel,
    next_read_offset: u64,
    object: ObjectModel,
    blocks: Seq<DataBlockIndex>,
) -> int
    decreases blocks.len(),
{
    if blocks.len() == 0 || !may_put(w, next_read_offset, blocks[0]) {
        0
    } else {
        1 + put_count(put(w, object, blocks[0]), next_read_offset, object, blocks.skip(1))
    }
}

/// The window after a list of blocks was put.
pub open spec fn put_all(w: WindowModel, object: ObjectModel, blocks: Seq<DataBlockIndex>) -> WindowModel
    decreases blocks.len(),
{
    if blocks.len() == 0 {
        w
    } else {
        put_all(put(w, object, blocks[0]), object, blocks.skip(1))
    }
}

/// A contiguous window stays one.
pub proof fn law_put_keeps_window(
    w: WindowModel,
    next_read_offset: u64,
    object: ObjectModel,
    index: DataBlockIndex,
)
    requires
        is_window(w),
        index.valid(),
        may_put(w, next_read_offset, index),
    ensures
        is_window(put(w, object, index)),
{
    let n = put(w, object, index);
    let k = n.slots.len();
    assert(n.slots.last().index == index);
    assert forall|i: int, j: int|
        #![trigger n.slots[i], n.slots[j]]
        0 <= i && j == i + 1 && j < n.slots.len() implies n.slots[i].index.end()
        == n.slots[j].index.start_offset && n.slots[i].index.start_offset
        < n.slots[j].index.start_offset by {
        assert(w.slots[i].index.valid());
        if j < w.slots.len() {
            assert(w.slots[i].index.end() == w.slots[j].index.start_offset);
        }
    }
    assert forall|i: int| 0 <= i < n.slots.len() implies (
    #[trigger] n.slots[i]).index.valid() by {
        if i < k - 1 {
            assert(n.slots[i] == w.slots[i]);
        }
    }
}

/// The last slot that begins at or below an offset.
pub open spec fn floor_slot(slots: Seq<SlotModel>, offset: u64) -> Option<int>
    decreases slots.len(),
{
    if slots.len() == 0 {
        None
    } else if slots.last().index.start_offset <= offset {
        Some(slots.len() - 1)
    } else {
        floor_slot(slots.drop_last(), offset)
    }
}

/// How a walk over the window ends.
#[derive(Debug, Clone, Copy, PartialEq, Eq, Structural)]
pub enum WalkOutcome {
    Fulfilled,
    NeedMore,
    /// Readahead raced a faster user read past the window.
    ReadaheadDone,
}

/// An end offset that is reached.
pub open spec fn reaches(end_offset: Option<u64>, index: DataBlockIndex) -> bool {
    end_offset matches Some(e) && index.end() >= e
}

/// A walk from a slot on: the slot after the last one taken, whether it is fulfilled, and
/// the budget that is left. A block counts against the budget unless it is the first one
/// and begins below the cursor.
pub open spec fn walk_from(
    slots: Seq<SlotModel>,
    i: int,
    first: bool,
    cursor: u64,
    end_offset: Option<u64>,
    remaining: int,
) -> (int, bool, int)
    decreases slots.len() - i,
{
    if i < 0 || i >= slots.len() {
        (i, false, remaining)
    } else {
        let index = slots[i].index;
        let left = if !first || index.start_offset == cursor {
            remaining - index.size
        } else {
            remaining
        };
        if reaches(end_offset, index) || left <= 0 {
            (i + 1, true, left)
        } else {
            walk_from(slots, i + 1, false, cursor, end_offset, left)
        }
    }
}

/// A retired slot: what the cache is to be told.
#[derive(Debug, Clone, Copy, PartialEq, Eq, Structural)]
pub struct Retired {
    /// The block that was read.
    pub data: Option<u64>,
    /// The listener to close.
    pub listener: Option<u64>,
}

pub open spec fn retired(s: SlotModel) -> Retired {
    Retired { data: s.data, listener: s.listener }
}

/// How many slots at the front end at or below an offset.
pub open spec fn read_count(slots: Seq<SlotModel>, offset: u64) -> int
    decreases slots.len(),
{
    if slots.len() == 0 || slots[0].index.end() > offset {
        0
    } else {
        1 + read_count(slots.skip(1), offset)
    }
}

/// What attaching a loaded block to its slot leads to.
#[derive(Debug, Clone, Copy, PartialEq, Eq, Structural)]
pub enum AttachStep {
    /// The window has moved on, or holds the block already.
    Nothing,
    /// The slot holds the block now. The cache is to be told that it is unread, the old
    /// listener is to be closed, and a new one to be registered.
    Attached { old: Retired },
}

/// What a load of the index leads to.
#[derive(Debug, Clone, Copy, PartialEq, Eq, Structural)]
pub enum LoadStep {
    /// The window was reset meanwhile.
    Discarded,
    /// The blocks were put; the next object is searched from here on.
    Loaded { next_find_offset: u64 },
}

/// What an index load asks for.
#[derive(Debug, Clone, Copy, PartialEq, Eq, Structural)]
pub struct LoadPlan {
    pub epoch: u64,
    pub start_offset: u64,
    pub end_offset: u64,
}

/// The slot of a block: the one that begins where the block begins.
pub open spec fn slot_at(slots: Seq<SlotModel>, start_offset: u64) -> Option<int>
    decreases slots.len(),
{
    if slots.len() == 0 {
        None
    } else if slots.last().index.start_offset == start_offset {
        Some(slots.len() - 1)
    } else {
        slot_at(slots.drop_last(), start_offset)
    }
}

/// The window of a reader.
#[derive(Debug)]
pub struct BlockWindow {
    blocks: Vec<BlockSlot>,
    last_block: Option<(u64, u64)>,
    loaded_end_offset: u64,
    blocks_epoch: u64,
}

pub open spec fn slot_models(v: Seq<BlockSlot>) -> Seq<SlotModel> {
    v.map_values(|s: BlockSlot| s@)
}

impl View for BlockWindow {
    type V = WindowModel;

    closed spec fn view(&self) -> WindowModel {
        WindowModel {
            slots: slot_models(self.blocks@),
            last: self.last_block,
            loaded_end: self.loaded_end_offset,
            epoch: self.blocks_epoch,
        }
    }
}

impl BlockWindow {
    pub fn new() -> (r: Self)
        ensures
            is_window(r@),
            r@ == (WindowModel { slots: Seq::empty(), last: None, loaded_end: 0, epoch: 0 }),
    {
        let r = BlockWindow {
            blocks: Vec::new(),
            last_block: None,
            loaded_end_offset: 0,
            blocks_epoch: 0,
        };
        assert(r@.slots =~= Seq::empty());
        r
    }

    pub fn loaded_end_offset(&self) -> (r: u64)
        ensures
            r == self@.loaded_end,
    {
        self.loaded_end_offset
    }

    pub fn len(&self) -> (r: usize)
        ensures
            r == self@.slots.len(),
    {
        self.blocks.len()
    }

    pub fn slot(&self, i: usize) -> (r: &BlockSlot)
        requires
            i < self@.slots.len(),
        ensures
            r@ == self@.slots[i as int],
    {
        &self.blocks[i]
    }

    /// Puts a block at the end of the window; false where it does not fit there.
    pub fn put_block(
        &mut self,
        next_read_offset: u64,
        metadata: &S3ObjectMetadata,
        index: DataBlockIndex,
    ) -> (r: bool)
        requires
            is_window(old(self)@),
            index.valid(),
        ensures
            is_window(final(self)@),
            r == may_put(old(self)@, next_read_offset, index),
            final(self)@ == (if r {
                put(old(self)@, metadata@, index)
            } else {
                old(self)@
            }),
    {
        let ghost before = self@;
        let end: u64 = index.end_offset();
        match self.last_block {
            None => {
                if !(index.start_offset <= next_read_offset && end > next_read_offset) {
                    return false;
                }
            },
            Some(l) => {
                if l.1 != index.start_offset {
                    return false;
                }
            },
        }
        proof {
            law_put_keeps_window(before, next_read_offset, metadata@, index);
        }
        self.last_block = Some((index.start_offset, end));
        self.loaded_end_offset = end;
        let n: usize = self.blocks.len();
        if n > 0 && self.blocks[n - 1].index.start_offset == index.start_offset {
            let _ = self.blocks.pop();
            assert(slot_models(self.blocks@) =~= before.slots.drop_last());
        }
        let ghost kept = self.blocks@;
        let slot = BlockSlot { metadata: metadata.clone(), index, data: None, listener: None };
        self.blocks.push(slot);
        proof {
            assert(self@.slots =~= slot_models(kept).push(slot@));
            assert(self@ == put(before, metadata@, index));
        }
        true
    }

    /// What the next load of the index asks for; `None` where enough is loaded.
    pub fn plan_load(&self, next_read_offset: u64, end_offset: Option<u64>) -> (r: Option<LoadPlan>)
        ensures
            if end_offset matches Some(e) && e <= self@.loaded_end {
                r is None
            } else {
                r == Some(
                    LoadPlan {
                        epoch: self@.epoch,
                        start_offset: match self@.last {
                            Some(l) => if l.1 >= next_read_offset {
                                l.1
                            } else {
                                next_read_offset
                            },
                            None => next_read_offset,
                        },
                        end_offset: match end_offset {
                            Some(e) => e,
                            None => NOOP_OFFSET,
                        },
                    },
                )
            },
            r matches Some(p) ==> {
                &&& p.start_offset >= next_read_offset
                &&& self@.last matches Some(l) ==> p.start_offset >= l.1
                &&& end_offset matches Some(e) ==> self@.loaded_end < e
            },
    {
        match end_offset {
            Some(e) => {
                if e <= self.loaded_end_offset {
                    return None;
                }
            },
            None => {},
        }
        let start_offset: u64 = match self.last_block {
            Some(l) => if l.1 >= next_read_offset {
                l.1
            } else {
                next_read_offset
            },
            None => next_read_offset,
        };
        Some(
            LoadPlan {
                epoch: self.blocks_epoch,
                start_offset,
                end_offset: match end_offset {
                    Some(e) => e,
                    None => NOOP_OFFSET,
                },
            },
        )
    }

    /// Puts the blocks that an object holds of the stream.
    pub fn put_found(
        &mut self,
        plan: LoadPlan,
        next_read_offset: u64,
        metadata: &S3ObjectMetadata,
        blocks: &Vec<DataBlockIndex>,
        next_find_offset: u64,
    ) -> (r: Result<LoadStep, StreamError>)
        requires
            is_window(old(self)@),
            forall|i: int| 0 <= i < blocks@.len() ==> (#[trigger] blocks@[i]).valid(),
        ensures
            is_window(final(self)@),
            ({
                let n = put_count(old(self)@, next_read_offset, metadata@, blocks@);
                if old(self)@.epoch != plan.epoch {
                    r == Ok::<LoadStep, StreamError>(LoadStep::Discarded) && final(self)@
                        == old(self)@
                } else {
                    &&& final(self)@ == put_all(old(self)@, metadata@, blocks@.take(n))
                    &&& r == (if n < blocks@.len() {
                        Err::<LoadStep, StreamError>(StreamError::BlockNotContinuous)
                    } else {
                        Ok(
                            LoadStep::Loaded {
                                next_find_offset: if blocks@.len() > 0 {
                                    blocks@.last().end() as u64
                                } else {
                                    next_find_offset
                                },
                            },
                        )
                    })
                }
            }),
    {
        if self.blocks_epoch != plan.epoch {
            return Ok(LoadStep::Discarded);
        }
        let ghost before = self@;
        let ghost all = blocks@;
        let ghost n = put_count(before, next_read_offset, metadata@, all);
        let mut next_find: u64 = next_find_offset;
        let mut i: usize = 0;
        proof {
            assert(all.skip(0) =~= all);
            assert(all.take(0) =~= Seq::empty());
        }
        while i < blocks.len()
            invariant
                i <= blocks@.len(),
                all == blocks@,
                before == old(self)@,
                before.epoch == plan.epoch,
                n == put_count(before, next_read_offset, metadata@, all),
                is_window(self@),
                forall|i: int| 0 <= i < blocks@.len() ==> (#[trigger] blocks@[i]).valid(),
                self@ == put_all(before, metadata@, all.take(i as int)),
                n == i + put_count(self@, next_read_offset, metadata@, all.skip(i as int)),
                next_find == (if i > 0 {
                    all[i - 1].end() as u64
                } else {
                    next_find_offset
                }),
            decreases blocks@.len() - i,
        {
            let ghost prior = self@;
            proof {
                assert(all.skip(i as int)[0] == all[i as int]);
                assert(all.skip(i as int).skip(1) =~= all.skip(i + 1));
                assert(all.take(i + 1) =~= all.take(i as int).push(all[i as int]));
            }
            if !self.put_block(next_read_offset, metadata, blocks[i]) {
                assert(n == i);
                return Err(StreamError::BlockNotContinuous);
            }
            next_find = blocks[i].end_offset();
            proof {
                lemma_put_all_push(before, metadata@, all.take(i as int), all[i as int]);
            }
            i += 1;
        }
        assert(all.take(i as int) =~= all);
        Ok(LoadStep::Loaded { next_find_offset: next_find })
    }

    /// Walks the window from the cursor on. Returns the range of slots that were taken.
    pub fn walk_window(
        &self,
        cursor: u64,
        end_offset: Option<u64>,
        remaining: &mut i64,
        readahead: bool,
    ) -> (r: Result<(WalkOutcome, usize, usize), StreamError>)
        requires
            is_window(self@),
            *old(remaining) >= i64::MIN + u32::MAX,
        ensures
            r matches Ok((WalkOutcome::NeedMore, _, _)) ==> *final(remaining) > 0
                || *final(remaining) == *old(remaining),
            match floor_slot(self@.slots, cursor) {
                None => {
                    &&& *final(remaining) == *old(remaining)
                    &&& r == (if self@.slots.len() == 0 {
                        Ok::<(WalkOutcome, usize, usize), StreamError>(
                            (WalkOutcome::NeedMore, 0, 0),
                        )
                    } else if readahead {
                        Ok((WalkOutcome::ReadaheadDone, 0, 0))
                    } else {
                        Err(
                            StreamError::Unexpected(Unexpected::NoFloorBlock { offset: cursor }),
                        )
                    })
                },
                Some(f) => if cursor >= self@.loaded_end {
                    &&& *final(remaining) == *old(remaining)
                    &&& r == Ok::<(WalkOutcome, usize, usize), StreamError>(
                        (WalkOutcome::NeedMore, 0, 0),
                    )
                } else {
                    let (stop, fulfilled, left) = walk_from(
                        self@.slots,
                        f,
                        true,
                        cursor,
                        end_offset,
                        *old(remaining) as int,
                    );
                    &&& *final(remaining) == left
                    &&& 0 <= f < stop <= self@.slots.len()
                    &&& r == Ok::<(WalkOutcome, usize, usize), StreamError>(
                        (
                            if fulfilled {
                                WalkOutcome::Fulfilled
                            } else {
                                WalkOutcome::NeedMore
                            },
                            f as usize,
                            stop as usize,
                        ),
                    )
                },
            },
    {
        let ghost slots = self@.slots;
        let n: usize = self.blocks.len();
        let mut k: usize = n;
        assert(slots.take(n as int) =~= slots);
        while k > 0 && self.blocks[k - 1].index.start_offset > cursor
            invariant
                k <= n == self.blocks@.len(),
                slots == self@.slots,
                floor_slot(slots.take(k as int), cursor) == floor_slot(slots, cursor),
            decreases k,
        {
            assert(slots.take(k as int).drop_last() =~= slots.take(k - 1));
            assert(slots.take(k as int).last() == self.blocks@[k - 1]@);
            k -= 1;
        }
        if k == 0 {
            if n == 0 {
                return Ok((WalkOutcome::NeedMore, 0, 0));
            }
            if readahead {
                return Ok((WalkOutcome::ReadaheadDone, 0, 0));
            }
            return Err(StreamError::Unexpected(Unexpected::NoFloorBlock { offset: cursor }));
        }
        assert(slots.take(k as int).last() == self.blocks@[k - 1]@);
        let floor: usize = k - 1;
        if cursor >= self.loaded_end_offset {
            return Ok((WalkOutcome::NeedMore, 0, 0));
        }
        let ghost goal = walk_from(
            slots,
            floor as int,
            true,
            cursor,
            end_offset,
            *remaining as int,
        );
        let mut i: usize = floor;
        let mut first: bool = true;
        while i < n
            invariant
                floor <= i <= n == self.blocks@.len(),
                floor < n,
                first == (i == floor),
                first || *remaining > 0,
                slots == self@.slots,
                is_window(self@),
                *remaining >= i64::MIN + u32::MAX,
                goal == walk_from(slots, i as int, first, cursor, end_offset, *remaining as int),
                floor_slot(slots, cursor) == Some(floor as int),
                cursor < self@.loaded_end,
                floor_slot(self@.slots, cursor) == Some(floor as int),
                goal == walk_from(
                    slots,
                    floor as int,
                    true,
                    cursor,
                    end_offset,
                    *old(remaining) as int,
                ),
            decreases n - i,
        {
            assert(slots[i as int] == self.blocks@[i as int]@);
            let index = self.blocks[i].index;
            assert(slots[i as int].index.valid());
            if !first || index.start_offset == cursor {
                *remaining = *remaining - index.size as i64;
            }
            first = false;
            let end_reached: bool = match end_offset {
                Some(e) => index.end_offset() >= e,
                None => false,
            };
            if end_reached || *remaining <= 0 {
                return Ok((WalkOutcome::Fulfilled, floor, i + 1));
            }
            i += 1;
        }
        Ok((WalkOutcome::NeedMore, floor, n))
    }

    /// Attaches a loaded block to its slot, if the window still holds it.
    pub fn attach_data(&mut self, index: DataBlockIndex, handle: u64) -> (r: AttachStep)
        requires
            is_window(old(self)@),
        ensures
            is_window(final(self)@),
            match slot_at(old(self)@.slots, index.start_offset) {
                Some(i) => {
                    let slot = old(self)@.slots[i];
                    if slot.index == index && slot.data != Some(handle) {
                        &&& r == (AttachStep::Attached { old: retired(slot) })
                        &&& final(self)@ == (WindowModel {
                            slots: old(self)@.slots.update(
                                i,
                                SlotModel { data: Some(handle), listener: None, ..slot },
                            ),
                            ..old(self)@
                        })
                    } else {
                        r == AttachStep::Nothing && final(self)@ == old(self)@
                    }
                },
                None => r == AttachStep::Nothing && final(self)@ == old(self)@,
            },
    {
        let ghost before = self@;
        let i: usize = match self.find_slot(index.start_offset) {
            Some(i) => i,
            None => {
                return AttachStep::Nothing;
            },
        };
        assert(before.slots[i as int] == self.blocks@[i as int]@);
        if self.blocks[i].index != index {
            return AttachStep::Nothing;
        }
        match self.blocks[i].data {
            Some(h) => {
                if h == handle {
                    return AttachStep::Nothing;
                }
            },
            None => {},
        }
        let old_slot = Retired { data: self.blocks[i].data, listener: self.blocks[i].listener };
        self.blocks[i].data = Some(handle);
        self.blocks[i].listener = None;
        proof {
            let slot = before.slots[i as int];
            let n = SlotModel { data: Some(handle), listener: None, ..slot };
            assert(self@.slots =~= before.slots.update(i as int, n));
            lemma_same_indexes(before, self@);
        }
        AttachStep::Attached { old: old_slot }
    }

    /// The slot that begins at an offset.
    fn find_slot(&self, start_offset: u64) -> (r: Option<usize>)
        ensures
            match slot_at(self@.slots, start_offset) {
                Some(i) => r matches Some(k) && k == i && 0 <= i < self@.slots.len(),
                None => r is None,
            },
    {
        let ghost slots = self@.slots;
        let mut k: usize = self.blocks.len();
        assert(slots.take(k as int) =~= slots);
        while k > 0
            invariant
                k <= self.blocks@.len(),
                slots == self@.slots,
                slot_at(slots.take(k as int), start_offset) == slot_at(slots, start_offset),
            decreases k,
        {
            assert(slots.take(k as int).drop_last() =~= slots.take(k - 1));
            assert(slots.take(k as int).last() == self.blocks@[k - 1]@);
            if self.blocks[k - 1].index.start_offset == start_offset {
                return Some(k - 1);
            }
            k -= 1;
        }
        None
    }

    /// A listener was registered for the block in a slot.
    pub fn set_listener(&mut self, start_offset: u64, handle: u64, listener: u64)
        requires
            is_window(old(self)@),
        ensures
            is_window(final(self)@),
            match slot_at(old(self)@.slots, start_offset) {
                Some(i) => if old(self)@.slots[i].data == Some(handle) {
                    final(self)@ == (WindowModel {
                        slots: old(self)@.slots.update(
                            i,
                            SlotModel { listener: Some(listener), ..old(self)@.slots[i] },
                        ),
                        ..old(self)@
                    })
                } else {
                    final(self)@ == old(self)@
                },
                None => final(self)@ == old(self)@,
            },
    {
        let ghost before = self@;
        match self.find_slot(start_offset) {
            Some(i) => {
                assert(before.slots[i as int] == self.blocks@[i as int]@);
                if self.blocks[i].data == Some(handle) {
                    self.blocks[i].listener = Some(listener);
                    proof {
                        let slot = before.slots[i as int];
                        let n = SlotModel { listener: Some(listener), ..slot };
                        assert(self@.slots =~= before.slots.update(i as int, n));
                        lemma_same_indexes(before, self@);
                    }
                }
            },
            None => {},
        }
    }

    /// Does the slot that begins at an offset hold the block?
    pub fn holds_block(&self, start_offset: u64, handle: u64) -> (r: bool)
        ensures
            r == (slot_at(self@.slots, start_offset) matches Some(i) && self@.slots[i].data
                == Some(handle)),
    {
        match self.find_slot(start_offset) {
            Some(i) => {
                assert(self@.slots[i as int] == self.blocks@[i as int]@);
                self.blocks[i].data == Some(handle)
            },
            None => false,
        }
    }

    /// Takes the slots that were read up to an offset out of the window.
    pub fn take_read(&mut self, next_read_offset: u64) -> (r: Vec<Retired>)
        requires
            is_window(old(self)@),
        ensures
            is_window(final(self)@),
            ({
                let n = read_count(old(self)@.slots, next_read_offset);
                &&& final(self)@ == (WindowModel { slots: old(self)@.slots.skip(n), ..old(self)@ })
                &&& r@ == old(self)@.slots.take(n).map_values(|s: SlotModel| retired(s))
            }),
    {
        let ghost before = self@;
        let mut n: usize = 0;
        assert(before.slots.skip(0) =~= before.slots);
        let mut out: Vec<Retired> = Vec::new();
        assert forall|i: int| 0 <= i < self.blocks@.len() implies (
        #[trigger] self.blocks@[i]).index.valid() by {
            assert(before.slots[i].index.valid());
        }
        while n < self.blocks.len() && self.blocks[n].index.end_offset() <= next_read_offset
            invariant
                n <= self.blocks@.len(),
                before == self@,
                is_window(self@),
                forall|i: int| 0 <= i < self.blocks@.len() ==> (
                #[trigger] self.blocks@[i]).index.valid(),
                read_count(before.slots, next_read_offset) == n + read_count(
                    before.slots.skip(n as int),
                    next_read_offset,
                ),
                out@.len() == n,
                forall|j: int|
                    0 <= j < n ==> #[trigger] out@[j] == retired(before.slots[j]),
            decreases self.blocks@.len() - n,
        {
            assert(before.slots.skip(n as int)[0] == self.blocks@[n as int]@);
            assert(before.slots.skip(n as int).skip(1) =~= before.slots.skip(n + 1));
            out.push(
                Retired { data: self.blocks[n].data, listener: self.blocks[n].listener },
            );
            n += 1;
        }
        proof {
            if n < self.blocks@.len() {
                assert(before.slots.skip(n as int)[0] == self.blocks@[n as int]@);
            }
            assert(out@ =~= before.slots.take(n as int).map_values(|s: SlotModel| retired(s)));
        }
        let rest = self.blocks.split_off(n);
        self.blocks = rest;
        proof {
            assert(self@.slots =~= before.slots.skip(n as int));
            let w = self@;
            assert forall|i: int| 0 <= i < w.slots.len() implies (
            #[trigger] w.slots[i]).index.valid() by {
                assert(before.slots[i + n].index.valid());
            }
            assert forall|i: int, j: int|
                #![trigger w.slots[i], w.slots[j]]
                0 <= i && j == i + 1 && j < w.slots.len() implies w.slots[i].index.end()
                == w.slots[j].index.start_offset && w.slots[i].index.start_offset
                < w.slots[j].index.start_offset by {
                assert(before.slots[i + n].index.end() == before.slots[j + n].index.start_offset);
            }
        }
        out
    }

    /// Takes all slots out of the window.
    fn take_all(&mut self) -> (r: Vec<Retired>)
        ensures
            final(self)@ == (WindowModel { slots: Seq::empty(), ..old(self)@ }),
            r@ == old(self)@.slots.map_values(|s: SlotModel| retired(s)),
    {
        let ghost before = self@;
        let mut out: Vec<Retired> = Vec::new();
        let mut i: usize = 0;
        while i < self.blocks.len()
            invariant
                i <= self.blocks@.len(),
                before == self@,
                out@.len() == i,
                forall|j: int| 0 <= j < i ==> #[trigger] out@[j] == retired(before.slots[j]),
            decreases self.blocks@.len() - i,
        {
            assert(before.slots[i as int] == self.blocks@[i as int]@);
            out.push(
                Retired { data: self.blocks[i].data, listener: self.blocks[i].listener },
            );
            i += 1;
        }
        self.blocks = Vec::new();
        proof {
            assert(self@.slots =~= Seq::empty());
            assert(out@ =~= before.slots.map_values(|s: SlotModel| retired(s)));
        }
        out
    }

    /// Forgets the window: compaction replaced the objects under it.
    pub fn reset(&mut self) -> (r: Vec<Retired>)
        requires
            old(self)@.epoch < u64::MAX,
        ensures
            is_window(final(self)@),
            final(self)@ == (WindowModel {
                slots: Seq::empty(),
                last: None,
                loaded_end: 0,
                epoch: (old(self)@.epoch + 1) as u64,
            }),
            r@ == old(self)@.slots.map_values(|s: SlotModel| retired(s)),
    {
        let out = self.take_all();
        self.last_block = None;
        self.loaded_end_offset = 0;
        self.blocks_epoch = self.blocks_epoch + 1;
        out
    }

    /// The reader is closed: every slot is given up.
    pub fn close(&mut self) -> (r: Vec<Retired>)
        requires
            is_window(old(self)@),
        ensures
            is_window(final(self)@),
            final(self)@ == (WindowModel { slots: Seq::empty(), ..old(self)@ }),
            r@ == old(self)@.slots.map_values(|s: SlotModel| retired(s)),
    {
        self.take_all()
    }
}

proof fn lemma_put_all_push(
    w: WindowModel,
    object: ObjectModel,
    blocks: Seq<DataBlockIndex>,
    index: DataBlockIndex,
)
    ensures
        put_all(w, object, blocks.push(index)) == put(put_all(w, object, blocks), object, index),
    decreases blocks.len(),
{
    if blocks.len() == 0 {
        assert(blocks.push(index).skip(1) =~= Seq::empty());
        assert(put_all(put(w, object, index), object, Seq::empty()) == put(w, object, index));
    } else {
        assert(blocks.push(index).skip(1) =~= blocks.skip(1).push(index));
        assert(blocks.push(index)[0] == blocks[0]);
        lemma_put_all_push(put(w, object, blocks[0]), object, blocks.skip(1), index);
    }
}

/// What is attached to the slots does not matter for the shape of the window.
proof fn lemma_same_indexes(a: WindowModel, b: WindowModel)
    requires
        is_window(a),
        a.slots.len() == b.slots.len(),
        forall|i: int| 0 <= i < a.slots.len() ==> (#[trigger] a.slots[i]).index == b.slots[i].index,
        a.last == b.last,
        a.loaded_end == b.loaded_end,
    ensures
        is_window(b),
{
    assert forall|i: int| 0 <= i < b.slots.len() implies (#[trigger] b.slots[i]).index.valid() by {
        assert(a.slots[i].index == b.slots[i].index);
    }
    assert forall|i: int, j: int|
        #![trigger b.slots[i], b.slots[j]]
        0 <= i && j == i + 1 && j < b.slots.len() implies b.slots[i].index.end()
        == b.slots[j].index.start_offset && b.slots[i].index.start_offset
        < b.slots[j].index.start_offset by {
        assert(a.slots[i].index == b.slots[i].index);
        assert(a.slots[j].index == b.slots[j].index);
    }
    if b.slots.len() > 0 {
        assert(a.slots[a.slots.len() - 1].index == b.slots[b.slots.len() - 1].index);
    }
}

/// The slots that a walk takes hold the cursor, and reach the end offset where the walk is
/// fulfilled within its budget.
pub proof fn law_walk_covers_range(
    w: WindowModel,
    i: int,
    first: bool,
    cursor: u64,
    end_offset: Option<u64>,
    remaining: int,
)
    requires
        is_window(w),
        0 <= i < w.slots.len(),
    ensures
        ({
            let (stop, fulfilled, left) = walk_from(
                w.slots,
                i,
                first,
                cursor,
                end_offset,
                remaining,
            );
            &&& i < stop <= w.slots.len()
            &&& fulfilled ==> left <= 0 || reaches(end_offset, w.slots[stop - 1].index)
            &&& !fulfilled ==> stop == w.slots.len()
        }),
    decreases w.slots.len() - i,
{
    let index = w.slots[i].index;
    let left = if !first || index.start_offset == cursor {
        remaining - index.size
    } else {
        remaining
    };
    if !(reaches(end_offset, index) || left <= 0) {
        if i + 1 < w.slots.len() {
            law_walk_covers_range(w, i + 1, false, cursor, end_offset, left);
        } else {
            assert(walk_from(w.slots, i + 1, false, cursor, end_offset, left) == (
                i + 1,
                false,
                left,
            ));
        }
    }
}

} // verus!

//! One data block of the cold read path: created (loading), loaded, freed.
use vstd::prelude::*;

use crate::cache::stream_cache::record_views;
use crate::codec::record::{
    is_batch, rec_base_offset, rec_last_offset, rec_size, StreamRecordBatch,
};
use crate::error::{ObjectError, StreamError, Unexpected};
use crate::object::DataBlockIndex;

verus! {

/// Unread count of a block that no reader asked for yet.
pub const UNREAD_INIT: i32 = -1;

/// How a block is loaded.
#[derive(Debug, Clone, Copy, PartialEq, Eq, Structural)]
pub struct GetOptions {
    /// Readahead loads use the catch-up throttle class and count against readahead metrics.
    pub readahead: bool,
}

impl Default for GetOptions {
    fn default() -> (r: Self)
        ensures
            r == (GetOptions { readahead: false }),
    {
        GetOptions { readahead: false }
    }
}

/// How far the load of a block is.
#[derive(Debug, Clone, Copy, PartialEq, Eq, Structural)]
pub enum LoadState {
    Loading,
    Loaded,
    Failed(StreamError),
}

/// What a block is and where it stands.
#[verifier::ext_equal]
pub struct BlockModel {
    pub handle: u64,
    pub object_id: u64,
    pub index: DataBlockIndex,
    pub unread: int,
    pub last_access_ms: u64,
    pub load: LoadState,
    pub records: Seq<Seq<u8>>,
    pub freed: bool,
    pub listeners: Seq<u64>,
    pub next_listener: u64,
}

/// One data block. Its handle names it while readers and the cache share it.
#[derive(Debug)]
pub struct DataBlock {
    handle: u64,
    object_id: u64,
    index: DataBlockIndex,
    unread_cnt: i32,
    last_access_ms: u64,
    load: LoadState,
    records: Vec<StreamRecordBatch>,
    freed: bool,
    free_listeners: Vec<u64>,
    next_listener_id: u64,
}

impl View for DataBlock {
    type V = BlockModel;

    closed spec fn view(&self) -> BlockModel {
        BlockModel {
            handle: self.handle,
            object_id: self.object_id,
            index: self.index,
            unread: self.unread_cnt as int,
            last_access_ms: self.last_access_ms,
            load: self.load,
            records: record_views(self.records@),
            freed: self.freed,
            listeners: self.free_listeners@,
            next_listener: self.next_listener_id,
        }
    }
}

/// A block that was just created.
pub open spec fn fresh_block(
    handle: u64,
    object_id: u64,
    index: DataBlockIndex,
    now_ms: u64,
) -> BlockModel {
    BlockModel {
        handle,
        object_id,
        index,
        unread: UNREAD_INIT as int,
        last_access_ms: now_ms,
        load: LoadState::Loading,
        records: Seq::empty(),
        freed: false,
        listeners: Seq::empty(),
        next_listener: 0,
    }
}

/// The block after one more reader asked for it.
pub open spec fn marked_unread(m: BlockModel, now_ms: u64) -> BlockModel {
    BlockModel {
        last_access_ms: now_ms,
        unread: if m.unread == UNREAD_INIT {
            1
        } else {
            m.unread + 1
        },
        ..m
    }
}

/// The block after it was freed.
pub open spec fn freed_block(m: BlockModel) -> BlockModel {
    BlockModel { freed: true, listeners: Seq::empty(), ..m }
}

/// Records that overlap an offset range, as many as a byte budget lets through. The budget
/// is checked after a record was taken.
pub open spec fn picked(records: Seq<Seq<u8>>, start: u64, end: u64, max_bytes: int) -> Seq<
    Seq<u8>,
>
    decreases records.len(),
{
    if records.len() == 0 {
        Seq::empty()
    } else {
        let first = records[0];
        let rest = records.skip(1);
        if rec_base_offset(first) < end && rec_last_offset(first) > start {
            let left = max_bytes - rec_size(first);
            if left <= 0 {
                seq![first]
            } else {
                seq![first] + picked(rest, start, end, left)
            }
        } else if rec_base_offset(first) >= end {
            Seq::empty()
        } else {
            picked(rest, start, end, max_bytes)
        }
    }
}

/// Takes the records that overlap an offset range, up to about `max_bytes`.
pub fn pick_records(
    all: &Vec<StreamRecordBatch>,
    start_offset: u64,
    end_offset: u64,
    max_bytes: i64,
) -> (r: Vec<StreamRecordBatch>)
    requires
        forall|i: int| 0 <= i < all@.len() ==> is_batch((#[trigger] all@[i])@),
        max_bytes >= i64::MIN + u32::MAX,
    ensures
        record_views(r@) == picked(
            record_views(all@),
            start_offset,
            end_offset,
            max_bytes as int,
        ),
{
    let ghost views = record_views(all@);
    let ghost goal = picked(views, start_offset, end_offset, max_bytes as int);
    let mut out: Vec<StreamRecordBatch> = Vec::new();
    let mut remaining: i64 = max_bytes;
    let mut i: usize = 0;
    proof {
        assert(views.skip(0) =~= views);
        assert(record_views(out@) =~= Seq::empty());
        assert(Seq::<Seq<u8>>::empty() + goal =~= goal);
    }
    while i < all.len()
        invariant_except_break
            goal == record_views(out@) + picked(
                views.skip(i as int),
                start_offset,
                end_offset,
                remaining as int,
            ),
            remaining >= i64::MIN + u32::MAX,
        invariant
            i <= all@.len(),
            views == record_views(all@),
            forall|i: int| 0 <= i < all@.len() ==> is_batch((#[trigger] all@[i])@),
        ensures
            goal == record_views(out@),
        decreases all@.len() - i,
    {
        proof {
            assert(is_batch(all@[i as int]@));
            assert(views.skip(i as int)[0] == all@[i as int]@);
            assert(views.skip(i as int).skip(1) =~= views.skip(i + 1));
        }
        let ghost before = record_views(out@);
        let base: u64 = all[i].base_offset();
        let last: u64 = all[i].last_offset();
        if base < end_offset && last > start_offset {
            let size: usize = all[i].size();
            assert(size == rec_size(all@[i as int]@));
            assert(size <= u32::MAX);
            remaining = remaining - size as i64;
            out.push(all[i].clone());
            assert(record_views(out@) =~= before.push(all@[i as int]@));
            if remaining <= 0 {
                assert(goal =~= record_views(out@));
                break;
            }
            assert(goal =~= record_views(out@) + picked(
                views.skip(i + 1),
                start_offset,
                end_offset,
                remaining as int,
            ));
        } else if base >= end_offset {
            assert(goal =~= record_views(out@));
            break;
        }
        i += 1;
        proof {
            if i == all@.len() {
                assert(views.skip(i as int) =~= Seq::empty());
                assert(goal =~= record_views(out@));
            }
        }
    }
    out
}

/// The error that waiters of a failed load get. What decides on a retry is kept.
pub open spec fn shared(error: StreamError) -> StreamError {
    match error {
        StreamError::ObjectNotExist { object_id } => error,
        StreamError::BlockNotContinuous => error,
        StreamError::Object(ObjectError::NotFound) => error,
        _ => StreamError::Unexpected(Unexpected::LoadFailed),
    }
}

/// The error that waiters of a failed load get.
pub fn shared_error(error: StreamError) -> (r: StreamError)
    ensures
        r == shared(error),
{
    match error {
        StreamError::ObjectNotExist { object_id } => StreamError::ObjectNotExist { object_id },
        StreamError::BlockNotContinuous => StreamError::BlockNotContinuous,
        StreamError::Object(ObjectError::NotFound) => StreamError::Object(ObjectError::NotFound),
        _ => StreamError::Unexpected(Unexpected::LoadFailed),
    }
}

impl DataBlock {
    /// Every record of the block is a batch.
    pub open spec fn wf(&self) -> bool {
        forall|i: int| 0 <= i < self@.records.len() ==> is_batch(#[trigger] self@.records[i])
    }

    pub fn new(handle: u64, object_id: u64, index: DataBlockIndex, now_ms: u64) -> (r: Self)
        ensures
            r.wf(),
            r@ == fresh_block(handle, object_id, index, now_ms),
    {
        let r = DataBlock {
            handle,
            object_id,
            index,
            unread_cnt: UNREAD_INIT,
            last_access_ms: now_ms,
            load: LoadState::Loading,
            records: Vec::new(),
            freed: false,
            free_listeners: Vec::new(),
            next_listener_id: 0,
        };
        assert(r@.records =~= Seq::empty());
        r
    }

    pub fn handle(&self) -> (r: u64)
        ensures
            r == self@.handle,
    {
        self.handle
    }

    pub fn object_id(&self) -> (r: u64)
        ensures
            r == self@.object_id,
    {
        self.object_id
    }

    pub fn index(&self) -> (r: DataBlockIndex)
        ensures
            r == self@.index,
    {
        self.index
    }

    pub fn is_freed(&self) -> (r: bool)
        ensures
            r == self@.freed,
    {
        self.freed
    }

    pub fn is_loaded(&self) -> (r: bool)
        ensures
            r == (self@.load == LoadState::Loaded),
    {
        matches!(self.load, LoadState::Loaded)
    }

    /// What a waiter gets once the load is over; `None` while it runs.
    pub fn load_result(&self) -> (r: Option<Result<(), StreamError>>)
        ensures
            r == (match self@.load {
                LoadState::Loading => None,
                LoadState::Loaded => Some(Ok::<(), StreamError>(())),
                LoadState::Failed(e) => Some(Err::<(), StreamError>(shared(e))),
            }),
    {
        match self.load {
            LoadState::Loading => None,
            LoadState::Loaded => Some(Ok(())),
            LoadState::Failed(e) => Some(Err(shared_error(e))),
        }
    }

    /// The block was fetched and decoded. What it holds is decided once.
    pub fn complete(&mut self, records: Vec<StreamRecordBatch>)
        requires
            old(self).wf(),
            forall|i: int| 0 <= i < records@.len() ==> is_batch((#[trigger] records@[i])@),
        ensures
            final(self).wf(),
            final(self)@ == (BlockModel {
                load: LoadState::Loaded,
                records: record_views(records@),
                ..old(self)@
            }),
    {
        self.records = records;
        self.load = LoadState::Loaded;
        assert forall|i: int| 0 <= i < self@.records.len() implies is_batch(
            #[trigger] self@.records[i],
        ) by {
            assert(is_batch(self.records@[i]@));
        }
    }

    /// The load failed.
    pub fn fail(&mut self, error: StreamError)
        requires
            old(self).wf(),
        ensures
            final(self).wf(),
            final(self)@ == (BlockModel { load: LoadState::Failed(error), ..old(self)@ }),
    {
        self.load = LoadState::Failed(error);
    }

    /// One more reader is going to read the block.
    pub fn mark_unread(&mut self, now_ms: u64)
        requires
            old(self).wf(),
            old(self)@.unread < i32::MAX,
        ensures
            final(self).wf(),
            final(self)@ == marked_unread(old(self)@, now_ms),
    {
        self.last_access_ms = now_ms;
        if self.unread_cnt == UNREAD_INIT {
            self.unread_cnt = 1;
        } else {
            self.unread_cnt = self.unread_cnt + 1;
        }
    }

    /// A reader is done with the block. Returns how many are left.
    pub fn mark_read_delta(&mut self) -> (r: i32)
        requires
            old(self).wf(),
            old(self)@.unread > i32::MIN,
        ensures
            final(self).wf(),
            final(self)@ == (BlockModel { unread: old(self)@.unread - 1, ..old(self)@ }),
            r == old(self)@.unread - 1,
    {
        self.unread_cnt = self.unread_cnt - 1;
        self.unread_cnt
    }

    pub fn is_expired(&self, expired_before_ms: u64) -> (r: bool)
        ensures
            r == (self@.last_access_ms < expired_before_ms),
    {
        self.last_access_ms < expired_before_ms
    }

    /// Frees the block, once. Returns the listeners to tell; `None` where it was free.
    pub fn free(&mut self) -> (r: Option<Vec<u64>>)
        requires
            old(self).wf(),
        ensures
            final(self).wf(),
            if old(self)@.freed {
                r is None && final(self)@ == old(self)@
            } else {
                r matches Some(l) && l@ == old(self)@.listeners && final(self)@ == freed_block(
                    old(self)@,
                )
            },
    {
        if self.freed {
            return None;
        }
        self.freed = true;
        let mut listeners: Vec<u64> = Vec::new();
        listeners.append(&mut self.free_listeners);
        assert(listeners@ =~= old(self).free_listeners@);
        Some(listeners)
    }

    /// Asks to be told when the block is freed. Returns the listener's id; `None` where the
    /// block is free already, and the listener is to be told at once.
    pub fn register_free_listener(&mut self) -> (r: Option<u64>)
        requires
            old(self).wf(),
        ensures
            final(self).wf(),
            if old(self)@.freed {
                r is None && final(self)@ == old(self)@
            } else {
                &&& r == Some(old(self)@.next_listener)
                &&& final(self)@ == (BlockModel {
                    listeners: old(self)@.listeners.push(old(self)@.next_listener),
                    next_listener: ((old(self)@.next_listener + 1)
                        % 0x1_0000_0000_0000_0000) as u64,
                    ..old(self)@
                })
            },
    {
        if self.freed {
            return None;
        }
        let id: u64 = self.next_listener_id;
        self.next_listener_id = id.wrapping_add(1);
        self.free_listeners.push(id);
        Some(id)
    }

    /// Takes a registration back.
    pub fn close_listener(&mut self, id: u64)
        requires
            old(self).wf(),
        ensures
            final(self).wf(),
            final(self)@ == (BlockModel {
                listeners: old(self)@.listeners.filter(|l: u64| l != id),
                ..old(self)@
            }),
    {
        let ghost all = self.free_listeners@;
        let ghost p = |l: u64| l != id;
        let mut kept: Vec<u64> = Vec::new();
        let mut i: usize = 0;
        assert(all.take(0).filter(p) =~= Seq::empty());
        while i < self.free_listeners.len()
            invariant
                i <= self.free_listeners@.len(),
                *self == *old(self),
                all == self.free_listeners@,
                p == (|l: u64| l != id),
                kept@ == all.take(i as int).filter(p),
            decreases self.free_listeners@.len() - i,
        {
            let l: u64 = self.free_listeners[i];
            proof {
                assert(all.take(i + 1) =~= all.take(i as int).push(l));
                all.take(i as int).lemma_filter_push(l, p);
            }
            if l != id {
                kept.push(l);
            }
            i += 1;
        }
        assert(all.take(i as int) =~= all);
        self.free_listeners = kept;
    }

    /// Extract records overlapping `[start_offset, end_offset)` up to about `max_bytes`.
    ///
    /// The byte budget is checked after a record was taken, so at least one overlapping
    /// record returns. The first record that begins at or above `end_offset` ends the
    /// search.
    pub fn get_records(&self, start_offset: u64, end_offset: u64, max_bytes: i64) -> (r: Vec<
        StreamRecordBatch,
    >)
        requires
            self.wf(),
            self@.load == LoadState::Loaded,
            max_bytes >= i64::MIN + u32::MAX,
        ensures
            record_views(r@) == picked(
                self@.records,
                start_offset,
                end_offset,
                max_bytes as int,
            ),
    {
        assert forall|i: int| 0 <= i < self.records@.len() implies is_batch(
            (#[trigger] self.records@[i])@,
        ) by {
            assert(is_batch(self@.records[i]));
        }
        pick_records(&self.records, start_offset, end_offset, max_bytes)
    }
}

/// A freed block stays freed, and tells each of its listeners once.
pub proof fn law_block_is_freed_once(m: BlockModel)
    ensures
        freed_block(m).freed,
        freed_block(freed_block(m)) == freed_block(m),
        freed_block(m).listeners.len() == 0,
{
}

/// Every record that a read takes out of a block overlaps the range asked for, and is a
/// record of the block.
pub proof fn law_picked_records_overlap(
    records: Seq<Seq<u8>>,
    start: u64,
    end: u64,
    max_bytes: int,
    i: int,
)
    requires
        0 <= i < picked(records, start, end, max_bytes).len(),
    ensures
        records.contains(picked(records, start, end, max_bytes)[i]),
        rec_base_offset(picked(records, start, end, max_bytes)[i]) < end,
        rec_last_offset(picked(records, start, end, max_bytes)[i]) > start,
    decreases records.len(),
{
    if records.len() > 0 {
        let first = records[0];
        let rest = records.skip(1);
        let out = picked(records, start, end, max_bytes);
        if rec_base_offset(first) < end && rec_last_offset(first) > start {
            if i == 0 {
                assert(out[0] == records[0]);
            } else {
                let left = max_bytes - rec_size(first);
                law_picked_records_overlap(rest, start, end, left, i - 1);
                assert(out[i] == picked(rest, start, end, left)[i - 1]);
                let k = choose|k: int| 0 <= k < rest.len() && rest[k] == out[i];
                assert(records[k + 1] == out[i]);
            }
        } else {
            law_picked_records_overlap(rest, start, end, max_bytes, i);
            let k = choose|k: int| 0 <= k < rest.len() && rest[k] == out[i];
            assert(records[k + 1] == out[i]);
        }
    }
}

} // verus!

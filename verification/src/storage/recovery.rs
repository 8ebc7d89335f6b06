//! WAL recovery: which records are kept, and how they are grouped into blocks.
//!
//! Records of streams that are not open, records below a stream's committed end and
//! records after a gap are dropped. Kept records fill blocks; a block is complete once it
//! is full, or where a record does not fit it and goes to the next one.
use std::collections::HashMap;
use vstd::prelude::*;

use crate::cache::held::{lemma_records_push, stream_records};
use crate::cache::log_block::{
    block_full, block_put, block_takes, cache_of, new_block, BlockModel, LogCacheBlock,
    DEFAULT_MAX_BLOCK_STREAM_COUNT,
};
use crate::cache::log_cache::is_gapless;
use crate::cache::stream_cache::{record_views, span_fits};
use crate::codec::record::{
    is_batch, rec_base_offset, rec_count, rec_last_offset, rec_stream_id, StreamRecordBatch,
};
use crate::collections::{lemma_filter_members, lists_keys, sorted_keys, tree_keys};
use crate::error::{StreamError, Unexpected};
use crate::manager::StreamMetadata;
use crate::object::RecordOffset;

verus! {

/// A record read back from the WAL.
#[derive(Debug)]
pub struct RecoverResult {
    pub record: StreamRecordBatch,
    pub record_offset: RecordOffset,
}

/// A recovery while it runs: the end offset of every open stream, the block that is being
/// filled, and the WAL offset of the last record that went by.
#[verifier::ext_equal]
pub struct RecoveryModel {
    pub ends: Map<u64, u64>,
    pub block: Option<BlockModel>,
    pub last: Option<RecordOffset>,
    pub max_size: u64,
    pub next_block_id: u64,
}

/// The record continues its stream.
pub open spec fn is_kept(ends: Map<u64, u64>, record: Seq<u8>) -> bool {
    ends.contains_key(rec_stream_id(record)) && ends[rec_stream_id(record)] == rec_base_offset(
        record,
    )
}

/// A new block, and the recovery once it was begun.
pub open spec fn begun(m: RecoveryModel) -> (BlockModel, RecoveryModel) {
    match m.block {
        Some(b) => (b, m),
        None => (
            new_block(m.next_block_id, m.max_size, DEFAULT_MAX_BLOCK_STREAM_COUNT),
            RecoveryModel {
                next_block_id: ((m.next_block_id + 1) % 0x1_0000_0000_0000_0000) as u64,
                ..m
            },
        ),
    }
}

/// The block with the WAL offset that it was filled to.
pub open spec fn sealed(b: BlockModel, last: Option<RecordOffset>) -> BlockModel {
    if last is Some {
        BlockModel { last_record_offset: last, ..b }
    } else {
        b
    }
}

/// The block that holds the latest record: complete if it is full.
pub open spec fn settled(m: RecoveryModel, b: BlockModel, last: Option<RecordOffset>) -> (
    RecoveryModel,
    Seq<BlockModel>,
) {
    if block_full(b) {
        (RecoveryModel { block: None, last: None, ..m }, seq![sealed(b, last)])
    } else {
        (RecoveryModel { block: Some(b), last, ..m }, Seq::empty())
    }
}

/// The recovery after a record, and the blocks that it completes.
pub open spec fn recovery_step(m: RecoveryModel, record: Seq<u8>, offset: RecordOffset) -> (
    RecoveryModel,
    Seq<BlockModel>,
) {
    let (b, s) = begun(m);
    if !is_kept(m.ends, record) {
        (RecoveryModel { block: Some(b), last: Some(offset), ..s }, Seq::empty())
    } else {
        let t = RecoveryModel {
            ends: m.ends.insert(rec_stream_id(record), rec_last_offset(record)),
            ..s
        };
        if block_takes(b, record) {
            settled(t, block_put(b, record), Some(offset))
        } else {
            let (fresh, u) = begun(RecoveryModel { block: None, ..t });
            let (after, more) = settled(u, block_put(fresh, record), Some(offset));
            (after, seq![sealed(block_put(b, record), m.last)] + more)
        }
    }
}

/// Recovery of the records of a WAL, fed one by one.
#[derive(Debug)]
pub struct Recovery {
    ends: HashMap<u64, u64>,
    block: Option<LogCacheBlock>,
    last: Option<RecordOffset>,
    max_cache_size: u64,
    next_block_id: u64,
}

pub open spec fn views_of(blocks: Seq<LogCacheBlock>) -> Seq<BlockModel> {
    blocks.map_values(|b: LogCacheBlock| b@)
}

impl View for Recovery {
    type V = RecoveryModel;

    closed spec fn view(&self) -> RecoveryModel {
        RecoveryModel {
            ends: self.ends@,
            block: match self.block {
                Some(b) => Some(b@),
                None => None,
            },
            last: self.last,
            max_size: self.max_cache_size,
            next_block_id: self.next_block_id,
        }
    }
}

impl Recovery {
    pub closed spec fn wf(&self) -> bool {
        self.block matches Some(b) ==> b.wf()
    }

    /// Begins a recovery of open streams from their committed ends. A block is full once
    /// it holds `max_cache_size` bytes.
    pub fn new(opening_stream_end_offsets: HashMap<u64, u64>, max_cache_size: u64) -> (r: Self)
        requires
            max_cache_size > 0,
        ensures
            r.wf(),
            r@ == (RecoveryModel {
                ends: opening_stream_end_offsets@,
                block: None,
                last: None,
                max_size: max_cache_size,
                next_block_id: 0,
            }),
    {
        Recovery {
            ends: opening_stream_end_offsets,
            block: None,
            last: None,
            max_cache_size,
            next_block_id: 0,
        }
    }

    /// The block that is being filled, or a new one.
    fn take_block(&mut self) -> (r: LogCacheBlock)
        requires
            old(self).wf(),
        ensures
            r.wf(),
            final(self).wf(),
            final(self)@ == (RecoveryModel { block: None, ..begun(old(self)@).1 }),
            r@ == begun(old(self)@).0,
    {
        match self.block.take() {
            Some(b) => b,
            None => {
                let id: u64 = self.next_block_id;
                self.next_block_id = id.wrapping_add(1);
                LogCacheBlock::new(id, self.max_cache_size, DEFAULT_MAX_BLOCK_STREAM_COUNT)
            },
        }
    }

    fn seal(block: LogCacheBlock, last: Option<RecordOffset>) -> (r: LogCacheBlock)
        requires
            block.wf(),
        ensures
            r.wf(),
            r@ == sealed(block@, last),
    {
        let mut block = block;
        match last {
            Some(offset) => {
                block.set_last_record_offset(offset);
            },
            None => {},
        }
        block
    }

    /// Keeps the block, or completes it if it is full.
    fn settle(&mut self, block: LogCacheBlock, offset: RecordOffset, out: &mut Vec<LogCacheBlock>)
        requires
            block.wf(),
            forall|i: int| 0 <= i < old(out)@.len() ==> (#[trigger] old(out)@[i]).wf(),
        ensures
            final(self).wf(),
            forall|i: int| 0 <= i < final(out)@.len() ==> (#[trigger] final(out)@[i]).wf(),
            ({
                let (after, done) = settled(old(self)@, block@, Some(offset));
                final(self)@ == after && views_of(final(out)@) == views_of(old(out)@) + done
            }),
    {
        let ghost before = out@;
        if block.is_full() {
            let done = Self::seal(block, Some(offset));
            let ghost view = done@;
            out.push(done);
            self.block = None;
            self.last = None;
            assert(views_of(out@) =~= views_of(before) + seq![view]);
        } else {
            self.block = Some(block);
            self.last = Some(offset);
            assert(views_of(out@) =~= views_of(before) + Seq::<BlockModel>::empty());
        }
    }

    /// Takes the next record of the WAL. Returns the blocks that are complete now, in
    /// order.
    pub fn offer(&mut self, result: RecoverResult) -> (r: Vec<LogCacheBlock>)
        requires
            old(self).wf(),
            is_batch(result.record@),
        ensures
            final(self).wf(),
            forall|i: int| 0 <= i < r@.len() ==> (#[trigger] r@[i]).wf(),
            (final(self)@, views_of(r@)) == recovery_step(
                old(self)@,
                result.record@,
                result.record_offset,
            ),
    {
        broadcast use vstd::std_specs::hash::group_hash_axioms;

        let ghost m = self@;
        let ghost rec = result.record@;
        let mut out: Vec<LogCacheBlock> = Vec::new();
        assert(views_of(out@) =~= Seq::empty());
        let offset: RecordOffset = result.record_offset;
        let stream_id: u64 = result.record.stream_id();
        let base: u64 = result.record.base_offset();
        let kept: bool = match self.ends.get(&stream_id) {
            Some(expected) => *expected == base,
            None => false,
        };
        assert(kept == is_kept(m.ends, rec));
        let mut block = self.take_block();
        let ghost b = block@;
        if !kept {
            self.block = Some(block);
            self.last = Some(offset);
            return out;
        }
        let last_offset: u64 = result.record.last_offset();
        let copy = result.record.clone();
        let previous: Option<RecordOffset> = self.last;
        let added: bool = block.put(copy);
        self.ends.insert(stream_id, last_offset);
        if added {
            self.settle(block, offset, &mut out);
            proof {
                let (after, done) = recovery_step(m, rec, offset);
                assert(views_of(out@) =~= done);
            }
        } else {
            let done = Self::seal(block, previous);
            let ghost dv = done@;
            out.push(done);
            assert(views_of(out@) =~= seq![dv]);
            let mut fresh = self.take_block();
            fresh.put(result.record);
            self.settle(fresh, offset, &mut out);
        }
        out
    }

    /// The WAL has no more records. Returns the block that was being filled, if any.
    pub fn finish(&mut self) -> (r: Option<LogCacheBlock>)
        requires
            old(self).wf(),
        ensures
            final(self).wf(),
            final(self)@ == (RecoveryModel { block: None, last: None, ..old(self)@ }),
            r matches Some(b) ==> b.wf(),
            match old(self)@.block {
                Some(b) => r is Some && r->0@ == sealed(b, old(self)@.last) && r->0@.streams
                    == b.streams,
                None => r is None,
            },
    {
        let last: Option<RecordOffset> = self.last;
        self.last = None;
        match self.block.take() {
            Some(b) => Some(Self::seal(b, last)),
            None => None,
        }
    }

    /// End offset of an open stream as far as recovery got.
    pub fn end_offset(&self, stream_id: u64) -> (r: Option<u64>)
        ensures
            r == (if self@.ends.contains_key(stream_id) {
                Some(self@.ends[stream_id])
            } else {
                None
            }),
    {
        broadcast use vstd::std_specs::hash::group_hash_axioms;

        match self.ends.get(&stream_id) {
            Some(e) => Some(*e),
            None => None,
        }
    }
}

/// A WAL read back: the records with their offsets.
pub type WalContents = Seq<(Seq<u8>, RecordOffset)>;

/// The recovery after a WAL, and all blocks that were completed on the way.
pub open spec fn recovered(m: RecoveryModel, wal: WalContents) -> (RecoveryModel, Seq<BlockModel>)
    decreases wal.len(),
{
    if wal.len() == 0 {
        (m, Seq::empty())
    } else {
        let (before, blocks) = recovered(m, wal.drop_last());
        let (after, more) = recovery_step(before, wal.last().0, wal.last().1);
        (after, blocks + more)
    }
}

/// The ends of the streams after a WAL: each kept record moves the end of its stream.
pub open spec fn ends_after(ends: Map<u64, u64>, wal: WalContents) -> Map<u64, u64>
    decreases wal.len(),
{
    if wal.len() == 0 {
        ends
    } else {
        let before = ends_after(ends, wal.drop_last());
        let record = wal.last().0;
        let id = rec_stream_id(record);
        if before.contains_key(id) && before[id] == rec_base_offset(record) {
            before.insert(id, rec_last_offset(record))
        } else {
            before
        }
    }
}

/// The records of a stream that are kept of a WAL: those that continue it from its
/// committed end.
pub open spec fn kept_records(ends: Map<u64, u64>, wal: WalContents, stream_id: u64) -> Seq<
    Seq<u8>,
>
    decreases wal.len(),
{
    if wal.len() == 0 {
        Seq::empty()
    } else {
        let before = kept_records(ends, wal.drop_last(), stream_id);
        let reached = ends_after(ends, wal.drop_last());
        let record = wal.last().0;
        if rec_stream_id(record) == stream_id && reached.contains_key(stream_id)
            && reached[stream_id] == rec_base_offset(record) {
            before.push(record)
        } else {
            before
        }
    }
}

/// The completed blocks and the one that is being filled.
pub open spec fn all_blocks(state: (RecoveryModel, Seq<BlockModel>)) -> Seq<BlockModel> {
    match state.0.block {
        Some(b) => state.1.push(b),
        None => state.1,
    }
}

/// A record whose own offsets fit a block.
pub open spec fn fits_alone(record: Seq<u8>) -> bool {
    span_fits(rec_base_offset(record), record)
}

/// Recovery keeps, of every stream, exactly the records that continue it from its
/// committed end, in WAL order, across all its blocks; and it ends with the end offsets
/// that those records reach.
pub proof fn law_recovery_keeps_continuous_tail(m: RecoveryModel, wal: WalContents, stream_id: u64)
    requires
        m.block is None,
        m.max_size > 0,
        forall|i: int| 0 <= i < wal.len() ==> fits_alone((#[trigger] wal[i]).0),
    ensures
        recovered(m, wal).0.ends == ends_after(m.ends, wal),
        stream_records(all_blocks(recovered(m, wal)), stream_id) == kept_records(
            m.ends,
            wal,
            stream_id,
        ),
{
    lemma_recovery(m, wal, stream_id);
}

/// What holds of the block that is being filled: it is not full.
proof fn lemma_recovery(m: RecoveryModel, wal: WalContents, stream_id: u64)
    requires
        m.block is None,
        m.max_size > 0,
        forall|i: int| 0 <= i < wal.len() ==> fits_alone((#[trigger] wal[i]).0),
    ensures
        ({
            let state = recovered(m, wal);
            &&& state.0.ends == ends_after(m.ends, wal)
            &&& state.0.max_size == m.max_size
            &&& stream_records(all_blocks(state), stream_id) == kept_records(
                m.ends,
                wal,
                stream_id,
            )
        }),
    decreases wal.len(),
{
    if wal.len() > 0 {
        let rest = wal.drop_last();
        assert forall|i: int| 0 <= i < rest.len() implies fits_alone((#[trigger] rest[i]).0) by {
            assert(rest[i] == wal[i]);
        }
        lemma_recovery(m, rest, stream_id);
        let (before, blocks) = recovered(m, rest);
        let (record, offset) = wal.last();
        assert(fits_alone(wal[wal.len() - 1].0));
        lemma_step_records(before, blocks, record, offset, stream_id);
    } else {
        assert(all_blocks(recovered(m, wal)) =~= Seq::empty());
    }
}

proof fn lemma_step_records(
    m: RecoveryModel,
    blocks: Seq<BlockModel>,
    record: Seq<u8>,
    offset: RecordOffset,
    stream_id: u64,
)
    requires
        m.max_size > 0,
        fits_alone(record),
    ensures
        ({
            let (after, more) = recovery_step(m, record, offset);
            &&& after.max_size == m.max_size
            &&& after.ends == (if is_kept(m.ends, record) {
                m.ends.insert(rec_stream_id(record), rec_last_offset(record))
            } else {
                m.ends
            })
            &&& stream_records(all_blocks((after, blocks + more)), stream_id) == stream_records(
                all_blocks((m, blocks)),
                stream_id,
            ) + (if rec_stream_id(record) == stream_id && is_kept(m.ends, record) {
                seq![record]
            } else {
                Seq::<Seq<u8>>::empty()
            })
        }),
{
    let (b, s) = begun(m);
    let (after, more) = recovery_step(m, record, offset);
    let held = stream_records(all_blocks((m, blocks)), stream_id);
    let id = rec_stream_id(record);
    // The block that is begun, if there was none, holds nothing.
    assert(stream_records(blocks.push(b), stream_id) == held) by {
        lemma_records_push(blocks, b, stream_id);
        if m.block is None {
            assert(cache_of(b, stream_id).records =~= Seq::empty());
            assert(held + cache_of(b, stream_id).records =~= held);
        }
    }
    let kept = is_kept(m.ends, record);
    let add = if id == stream_id && kept {
        seq![record]
    } else {
        Seq::<Seq<u8>>::empty()
    };
    if !kept {
        assert(blocks + more =~= blocks);
        assert(held + add =~= held);
    } else if block_takes(b, record) {
        let b2 = block_put(b, record);
        lemma_put_records(b, record, stream_id);
        lemma_records_push(blocks, b, stream_id);
        if block_full(b2) {
            let x = sealed(b2, Some(offset));
            assert(blocks + more =~= blocks.push(x));
            lemma_records_push(blocks, x, stream_id);
        } else {
            assert(blocks + more =~= blocks);
            lemma_records_push(blocks, b2, stream_id);
        }
        assert(stream_records(all_blocks((after, blocks + more)), stream_id) =~= held + add);
    } else {
        let x = sealed(block_put(b, record), m.last);
        lemma_put_records(b, record, stream_id);
        lemma_records_push(blocks, b, stream_id);
        lemma_records_push(blocks, x, stream_id);
        let t = RecoveryModel {
            ends: m.ends.insert(id, rec_last_offset(record)),
            ..s
        };
        let (fresh, u) = begun(RecoveryModel { block: None, ..t });
        assert(fresh.streams.dom().len() == 0);
        assert(!block_full(fresh));
        assert(block_takes(fresh, record));
        lemma_put_records(fresh, record, stream_id);
        let f2 = block_put(fresh, record);
        if block_full(f2) {
            let y = sealed(f2, Some(offset));
            assert(blocks + more =~= blocks.push(x).push(y));
            lemma_records_push(blocks.push(x), y, stream_id);
        } else {
            assert(blocks + more =~= blocks.push(x));
            lemma_records_push(blocks.push(x), f2, stream_id);
        }
        assert(stream_records(all_blocks((after, blocks + more)), stream_id) =~= held + add);
    }
}

proof fn lemma_put_records(b: BlockModel, record: Seq<u8>, stream_id: u64)
    ensures
        cache_of(block_put(b, record), stream_id).records == (if block_takes(b, record)
            && rec_stream_id(record) == stream_id {
            cache_of(b, stream_id).records.push(record)
        } else {
            cache_of(b, stream_id).records
        }),
{
}

/// A record is kept if and only if its stream is open and it begins at the end of the stream,
/// whatever else it holds: then the end of the stream becomes its last offset, and the record
/// stands behind what the blocks hold of its stream. Any other record changes neither, and no
/// record changes another stream. The one record that no block takes is a link that stands for
/// more offsets than an index describes.
pub proof fn law_continuing_record_is_kept(
    m: RecoveryModel,
    blocks: Seq<BlockModel>,
    record: Seq<u8>,
    offset: RecordOffset,
    stream_id: u64,
)
    requires
        m.max_size > 0,
    ensures
        ({
            let (after, more) = recovery_step(m, record, offset);
            let id = rec_stream_id(record);
            let base = rec_base_offset(record);
            let before = stream_records(all_blocks((m, blocks)), stream_id);
            let held = stream_records(all_blocks((after, blocks + more)), stream_id);
            if m.ends.contains_key(id) && m.ends[id] == base {
                &&& after.ends == m.ends.insert(id, rec_last_offset(record))
                &&& rec_count(record) != i32::MIN ==> held == (if id == stream_id {
                    before.push(record)
                } else {
                    before
                })
            } else {
                after.ends == m.ends && held == before
            }
        }),
{
    let (after, more) = recovery_step(m, record, offset);
    let before = stream_records(all_blocks((m, blocks)), stream_id);
    let none = Seq::<Seq<u8>>::empty();
    assert(before + seq![record] =~= before.push(record));
    assert(before + none =~= before);
    if rec_count(record) != i32::MIN {
        lemma_span(record);
        lemma_step_records(m, blocks, record, offset, stream_id);
    } else if !is_kept(m.ends, record) {
        let (b, s) = begun(m);
        assert(blocks + more =~= blocks);
        lemma_records_push(blocks, b, stream_id);
        if m.block is None {
            assert(cache_of(b, stream_id).records =~= none);
        }
    }
}

/// A record spans as many offsets as its count says, up to what an index describes.
proof fn lemma_span(record: Seq<u8>)
    requires
        rec_count(record) != i32::MIN,
    ensures
        fits_alone(record),
{
    let base = rec_base_offset(record) as int;
    let n = if rec_count(record) >= 0 {
        rec_count(record) as int
    } else {
        -rec_count(record)
    };
    if base + n < 0x1_0000_0000_0000_0000 {
        assert((base + n) % 0x1_0000_0000_0000_0000 == base + n);
    } else {
        assert((base + n) % 0x1_0000_0000_0000_0000 == base + n - 0x1_0000_0000_0000_0000);
        assert((n - 0x1_0000_0000_0000_0000) % 0x1_0000_0000_0000_0000 == n);
    }
}

/// The records of a stream in a WAL, in order.
pub open spec fn wal_records(wal: WalContents, stream_id: u64) -> Seq<Seq<u8>>
    decreases wal.len(),
{
    if wal.len() == 0 {
        Seq::empty()
    } else if rec_stream_id(wal.last().0) == stream_id {
        wal_records(wal.drop_last(), stream_id).push(wal.last().0)
    } else {
        wal_records(wal.drop_last(), stream_id)
    }
}

/// Nothing is lost: where the records of an open stream follow each other without a gap from
/// its committed end, all of them are recovered, in order, and the stream ends with the last.
pub proof fn law_gapless_log_is_recovered_whole(m: RecoveryModel, wal: WalContents, stream_id: u64)
    requires
        m.block is None,
        m.max_size > 0,
        m.ends.contains_key(stream_id),
        forall|i: int| 0 <= i < wal.len() ==> rec_count((#[trigger] wal[i]).0) != i32::MIN,
        is_gapless(wal_records(wal, stream_id)),
        wal_records(wal, stream_id).len() > 0 ==> rec_base_offset(wal_records(wal, stream_id)[0])
            == m.ends[stream_id],
    ensures
        stream_records(all_blocks(recovered(m, wal)), stream_id) == wal_records(wal, stream_id),
        recovered(m, wal).0.ends.contains_key(stream_id),
        recovered(m, wal).0.ends[stream_id] == (if wal_records(wal, stream_id).len() > 0 {
            rec_last_offset(wal_records(wal, stream_id).last())
        } else {
            m.ends[stream_id]
        }),
    decreases wal.len(),
{
    let all = wal_records(wal, stream_id);
    if wal.len() == 0 {
        assert(all_blocks(recovered(m, wal)) =~= Seq::empty());
    } else {
        let rest = wal.drop_last();
        let front = wal_records(rest, stream_id);
        let (record, offset) = wal.last();
        assert(rec_count(wal[wal.len() - 1].0) != i32::MIN);
        assert forall|i: int| 0 <= i < rest.len() implies rec_count((#[trigger] rest[i]).0)
            != i32::MIN by {
            assert(rest[i] == wal[i]);
        }
        assert forall|i: int, j: int|
            #![trigger front[i], front[j]]
            0 <= i && j == i + 1 && j < front.len() implies rec_base_offset(front[j])
            == rec_last_offset(front[i]) by {
            assert(all[i] == front[i] && all[j] == front[j]);
        }
        if front.len() > 0 {
            assert(all[0] == front[0]);
        }
        law_gapless_log_is_recovered_whole(m, rest, stream_id);
        lemma_recovery_size(m, rest);
        let (before, blocks) = recovered(m, rest);
        law_continuing_record_is_kept(before, blocks, record, offset, stream_id);
        if rec_stream_id(record) == stream_id {
            let k = front.len() as int;
            assert(all[k] == record);
            if k > 0 {
                assert(all[k - 1] == front.last());
            }
        }
    }
}

proof fn lemma_recovery_size(m: RecoveryModel, wal: WalContents)
    ensures
        recovered(m, wal).0.max_size == m.max_size,
    decreases wal.len(),
{
    if wal.len() > 0 {
        lemma_recovery_size(m, wal.drop_last());
    }
}

/// How far the log may be cut: a block that is completed with the record carries the record's
/// offset, and one that is completed without it the offset of what went by before.
pub proof fn law_completed_block_carries_trim_offset(
    m: RecoveryModel,
    record: Seq<u8>,
    offset: RecordOffset,
)
    requires
        m.last is Some,
    ensures
        ({
            let (after, more) = recovery_step(m, record, offset);
            &&& forall|k: int|
                0 <= k < more.len() ==> (#[trigger] more[k]).last_record_offset == (if k
                    == more.len() - 1 && after.block is None {
                    Some(offset)
                } else {
                    m.last
                })
            &&& after.block is None ==> more.len() > 0
            &&& after.last == (if after.block is None {
                None
            } else {
                Some(offset)
            })
            &&& forall|k: int|
                0 <= k < more.len() && (#[trigger] more[k]).last_record_offset != Some(offset)
                    ==> cache_of(more[k], rec_stream_id(record)).records == cache_of(
                    begun(m).0,
                    rec_stream_id(record),
                ).records
        }),
{
}

/// The kept records of a stream have no gap, and begin at its committed end.
pub proof fn law_kept_records_are_gapless(ends: Map<u64, u64>, wal: WalContents, stream_id: u64)
    requires
        ends.contains_key(stream_id),
    ensures
        ({
            let kept = kept_records(ends, wal, stream_id);
            &&& is_gapless(kept)
            &&& kept.len() > 0 ==> rec_base_offset(kept[0]) == ends[stream_id]
            &&& ends_after(ends, wal).contains_key(stream_id)
            &&& ends_after(ends, wal)[stream_id] == (if kept.len() > 0 {
                rec_last_offset(kept.last())
            } else {
                ends[stream_id]
            })
        }),
    decreases wal.len(),
{
    if wal.len() > 0 {
        law_kept_records_are_gapless(ends, wal.drop_last(), stream_id);
        let before = kept_records(ends, wal.drop_last(), stream_id);
        let kept = kept_records(ends, wal, stream_id);
        if kept != before {
            assert forall|i: int, j: int|
                #![trigger kept[i], kept[j]]
                0 <= i && j == i + 1 && j < kept.len() implies rec_base_offset(kept[j])
                == rec_last_offset(kept[i]) by {
                if j < before.len() {
                    assert(kept[i] == before[i] && kept[j] == before[j]);
                } else {
                    assert(kept[i] == before.last());
                }
            }
            if before.len() > 0 {
                assert(kept[0] == before[0]);
            }
        }
    }
}

/// What is left to do once the records of the log are uploaded.
#[derive(Debug, Clone, Copy, PartialEq, Eq, Structural)]
pub enum FinishStep {
    /// The log is emptied.
    ResetLog,
    /// A stream that was open is closed.
    Close { stream_id: u64, epoch: u64 },
}

/// The log is emptied first; then every stream that was open is closed.
pub open spec fn finish_steps_of(streams: Seq<StreamMetadata>) -> Seq<FinishStep> {
    seq![FinishStep::ResetLog] + streams.map_values(
        |s: StreamMetadata| FinishStep::Close { stream_id: s.stream_id, epoch: s.epoch },
    )
}

/// The steps that end a recovery, in order.
pub fn finish_steps(streams: &Vec<StreamMetadata>) -> (r: Vec<FinishStep>)
    ensures
        r@ == finish_steps_of(streams@),
{
    let mut steps: Vec<FinishStep> = Vec::new();
    steps.push(FinishStep::ResetLog);
    let mut i: usize = 0;
    assert(steps@ =~= finish_steps_of(streams@.take(0)));
    while i < streams.len()
        invariant
            i <= streams@.len(),
            steps@ == finish_steps_of(streams@.take(i as int)),
        decreases streams@.len() - i,
    {
        steps.push(
            FinishStep::Close { stream_id: streams[i].stream_id, epoch: streams[i].epoch },
        );
        assert(steps@ =~= finish_steps_of(streams@.take(i + 1)));
        i += 1;
    }
    assert(streams@.take(i as int) =~= streams@);
    steps
}

/// The link records of a list.
pub open spec fn links_in(records: Seq<Seq<u8>>) -> Seq<Seq<u8>> {
    records.filter(|b: Seq<u8>| rec_count(b) < 0)
}

/// The link records of the streams of a list of ids.
pub open spec fn links_of(b: BlockModel, ids: Seq<u64>) -> Seq<Seq<u8>>
    decreases ids.len(),
{
    if ids.len() == 0 {
        Seq::empty()
    } else {
        links_of(b, ids.drop_last()) + links_in(b.streams[ids.last()].records)
    }
}

/// The link records of a block, to be decoded and put back in place, by stream id.
/// Refused where there are any but no decoder for them.
pub fn link_records(block: &LogCacheBlock, has_decoder: bool) -> (r: Result<
    Vec<StreamRecordBatch>,
    StreamError,
>)
    requires
        block.wf(),
    ensures
        ({
            let links = links_of(block@, sorted_keys(block@.streams));
            match r {
                Ok(v) => record_views(v@) == links && (has_decoder || links.len() == 0),
                Err(e) => e == StreamError::Unexpected(Unexpected::NoLinkDecoder) && !has_decoder
                    && links.len() > 0,
            }
        }),
{
    broadcast use vstd::std_specs::btree::group_btree_axioms;

    let map = block.records();
    let keys = tree_keys(&map);
    proof {
        assert forall|k: u64| #[trigger] keys@.contains(k) <==> block@.streams.dom().contains(
            k,
        ) by {
            assert(keys@.contains(k) <==> map@.dom().contains(k));
        }
        crate::collections::lemma_sorted_keys(block@.streams, keys@);
    }
    let mut out: Vec<StreamRecordBatch> = Vec::new();
    let mut i: usize = 0;
    proof {
        assert(keys@.take(0) =~= Seq::empty());
        assert(record_views(out@) =~= Seq::empty());
    }
    while i < keys.len()
        invariant
            i <= keys@.len(),
            block.wf(),
            lists_keys(map@, keys@),
            map@.dom() == block@.streams.dom(),
            forall|k: u64| #[trigger]
                map@.contains_key(k) ==> record_views(map@[k]@) == block@.streams[k].records,
            record_views(out@) == links_of(block@, keys@.take(i as int)),
        decreases keys@.len() - i,
    {
        let key: u64 = keys[i];
        proof {
            assert(keys@.contains(keys@[i as int]));
            assert(keys@.take(i + 1).drop_last() =~= keys@.take(i as int));
        }
        match map.get(&key) {
            Some(list) => {
                let ghost have = record_views(out@);
                let ghost records = record_views(list@);
                let mut j: usize = 0;
                proof {
                    assert(map@.contains_key(key));
                    assert(records == block@.streams[key].records);
                    assert(cache_of(block@, key).records == records);
                    assert(records.take(0) =~= Seq::empty());
                    assert(links_in(records.take(0)) =~= Seq::empty());
                    assert(have + Seq::<Seq<u8>>::empty() =~= have);
                }
                while j < list.len()
                    invariant
                        j <= list@.len(),
                        block.wf(),
                        records == record_views(list@),
                        cache_of(block@, key).records == records,
                        record_views(out@) == have + links_in(records.take(j as int)),
                    decreases list@.len() - j,
                {
                    proof {
                        assert(records[j as int] == list@[j as int]@);
                        block.lemma_records_are_batches(key, j as int);
                        assert(records.take(j + 1) =~= records.take(j as int).push(
                            records[j as int],
                        ));
                        records.take(j as int).lemma_filter_push(
                            records[j as int],
                            |b: Seq<u8>| rec_count(b) < 0,
                        );
                    }
                    if list[j].count() < 0 {
                        let ghost before = record_views(out@);
                        out.push(list[j].clone());
                        assert(record_views(out@) =~= before.push(records[j as int]));
                        assert(record_views(out@) =~= have + links_in(records.take(j + 1)));
                    }
                    j += 1;
                }
                assert(records.take(j as int) =~= records);
            },
            None => {
                assert(false);
            },
        }
        i += 1;
    }
    assert(keys@.take(i as int) =~= keys@);
    assert(record_views(out@).len() == out@.len());
    if !has_decoder && out.len() > 0 {
        return Err(StreamError::Unexpected(Unexpected::NoLinkDecoder));
    }
    Ok(out)
}

/// A recovery ends by emptying the log before any stream is closed, and closes every stream that
/// was open with the epoch that it had.
pub proof fn law_recovery_closes_every_stream(streams: Seq<StreamMetadata>, i: int)
    requires
        0 <= i < streams.len(),
    ensures
        finish_steps_of(streams).len() == streams.len() + 1,
        finish_steps_of(streams)[0] == FinishStep::ResetLog,
        finish_steps_of(streams)[i + 1] == (FinishStep::Close {
            stream_id: streams[i].stream_id,
            epoch: streams[i].epoch,
        }),
{
}

/// The links of a block are exactly the records of its streams whose count is negative.
pub proof fn law_every_link_is_listed(b: BlockModel, ids: Seq<u64>, record: Seq<u8>)
    ensures
        links_of(b, ids).contains(record) <==> rec_count(record) < 0 && exists|k: int|
            0 <= k < ids.len() && b.streams[#[trigger] ids[k]].records.contains(record),
    decreases ids.len(),
{
    if ids.len() > 0 {
        let rest = ids.drop_last();
        let last = ids.len() - 1;
        law_every_link_is_listed(b, rest, record);
        let f = |r: Seq<u8>| rec_count(r) < 0;
        let own = b.streams[ids.last()].records;
        assert(links_in(own) == own.filter(f));
        lemma_filter_members(own, f, record);
        vstd::seq_lib::lemma_seq_concat_contains_all_elements(
            links_of(b, rest),
            links_in(own),
            record,
        );
        if exists|k: int|
            0 <= k < rest.len() && b.streams[#[trigger] rest[k]].records.contains(record) {
            let k = choose|k: int|
                0 <= k < rest.len() && b.streams[#[trigger] rest[k]].records.contains(record);
            assert(ids[k] == rest[k]);
        }
        if exists|k: int|
            0 <= k < ids.len() && b.streams[#[trigger] ids[k]].records.contains(record) {
            let k = choose|k: int|
                0 <= k < ids.len() && b.streams[#[trigger] ids[k]].records.contains(record);
            if k < last {
                assert(rest[k] == ids[k]);
            }
        }
        if own.contains(record) {
            assert(b.streams[ids[last]].records.contains(record));
        }
    }
}

} // verus!

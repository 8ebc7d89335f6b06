//! Laws of reads through cached blocks: what a read takes, when it stops, and what is read ahead.
use vstd::prelude::*;

use crate::cache::blockcache::data_block::picked;
use crate::cache::blockcache::read_run::{
    blocks_taken, bytes_of, is_done, misses, took_block, took_blocks, RunModel,
};
use crate::cache::blockcache::stream_reader::{
    can_grow, readahead_step, ReadaheadState, READAHEAD_AVAILABLE_BYTES_THRESHOLD,
    READAHEAD_RESET_COLD_DOWN_MS, READAHEAD_SIZE_UNIT,
};
use crate::cache::blockcache::stream_readers::{
    all_idle, fresh_readers, idle_readers, is_idle, one_per_offset, reader_at, reader_ids, reader_of,
    swept, taken_out, total_readers, ReaderEntry, ReaderShardModel,
};
use crate::cache::blockcache::window::{
    floor_slot, is_window, may_put, put, put_all, put_count, read_count, slot_at, walk_from,
    SlotModel, WindowModel,
};
use crate::cache::held::{lemma_payload_parts, payload_bytes};
use crate::codec::record::{rec_base_offset, rec_last_offset, rec_size};
use crate::collections::lemma_filter_members;
use crate::object::{DataBlockIndex, ObjectModel};

verus! {

/// The record has an offset in the range.
pub open spec fn overlaps(record: Seq<u8>, start: u64, end: u64) -> bool {
    rec_base_offset(record) < end && start < rec_last_offset(record)
}

/// No record begins below one before it.
pub open spec fn begins_in_order(records: Seq<Seq<u8>>) -> bool {
    forall|i: int, j: int|
        #![trigger records[i], records[j]]
        0 <= i < j < records.len() ==> rec_base_offset(records[i]) <= rec_base_offset(records[j])
}

proof fn lemma_one_record(record: Seq<u8>)
    ensures
        payload_bytes(seq![record]) == rec_size(record),
{
    assert(payload_bytes(seq![record].drop_last()) == 0);
}

/// Taking records out of a block goes on as long as budget is left and no longer: what was taken
/// before the last record is below the budget. Where all that was taken is below it, every record
/// of the block that overlaps the range was taken, and where any does, one is.
pub proof fn law_block_gives_what_fits(
    records: Seq<Seq<u8>>,
    start: u64,
    end: u64,
    max_bytes: int,
)
    requires
        begins_in_order(records),
    ensures
        ({
            let r = picked(records, start, end, max_bytes);
            &&& r.len() > 1 ==> payload_bytes(r.drop_last()) < max_bytes
            &&& payload_bytes(r) < max_bytes ==> forall|i: int|
                0 <= i < records.len() && overlaps(#[trigger] records[i], start, end)
                    ==> r.contains(records[i])
            &&& r.len() == 0 ==> forall|i: int|
                0 <= i < records.len() ==> !overlaps(#[trigger] records[i], start, end)
        }),
    decreases records.len(),
{
    if records.len() > 0 {
        let r = picked(records, start, end, max_bytes);
        let first = records[0];
        let rest = records.skip(1);
        assert forall|i: int, j: int|
            #![trigger rest[i], rest[j]]
            0 <= i < j < rest.len() implies rec_base_offset(rest[i]) <= rec_base_offset(
            rest[j],
        ) by {
            assert(rest[i] == records[i + 1] && rest[j] == records[j + 1]);
        }
        let left = max_bytes - rec_size(first);
        if rec_base_offset(first) < end && rec_last_offset(first) > start {
            if left <= 0 {
                lemma_one_record(first);
            } else {
                law_block_gives_what_fits(rest, start, end, left);
                let more = picked(rest, start, end, left);
                assert(r == seq![first] + more);
                lemma_payload_parts(seq![first], more);
                lemma_one_record(first);
                if more.len() > 0 {
                    assert(r.drop_last() =~= seq![first] + more.drop_last());
                    lemma_payload_parts(seq![first], more.drop_last());
                    if more.len() == 1 {
                        assert(payload_bytes(more.drop_last()) == 0);
                    }
                }
                if payload_bytes(r) < max_bytes {
                    assert forall|i: int|
                        0 <= i < records.len() && overlaps(
                            #[trigger] records[i],
                            start,
                            end,
                        ) implies r.contains(records[i]) by {
                        if i == 0 {
                            assert(r[0] == first);
                        } else {
                            assert(rest[i - 1] == records[i]);
                            assert(more.contains(rest[i - 1]));
                            let k = choose|k: int| 0 <= k < more.len() && more[k] == rest[i - 1];
                            assert(r[k + 1] == records[i]);
                        }
                    }
                }
            }
        } else if rec_base_offset(first) >= end {
            assert forall|i: int| 0 <= i < records.len() implies !overlaps(
                #[trigger] records[i],
                start,
                end,
            ) by {
                if i > 0 {
                    assert(rec_base_offset(records[0]) <= rec_base_offset(records[i]));
                }
            }
        } else {
            law_block_gives_what_fits(rest, start, end, max_bytes);
            assert forall|i: int|
                0 <= i < records.len() && overlaps(#[trigger] records[i], start, end) implies i > 0
                && rest[i - 1] == records[i] by {}
        }
    }
}

proof fn lemma_bytes_of(records: Seq<Seq<u8>>)
    ensures
        bytes_of(records) == payload_bytes(records),
    decreases records.len(),
{
    if records.len() > 0 {
        let first = seq![records[0]];
        lemma_bytes_of(records.skip(1));
        lemma_payload_parts(first, records.skip(1));
        assert(first + records.skip(1) =~= records);
        lemma_one_record(records[0]);
    }
}

/// A read pays for every record that it takes: budget and records together come to what they
/// were.
pub proof fn law_read_pays_for_its_records(
    run: RunModel,
    reads: Seq<(DataBlockIndex, Seq<Seq<u8>>)>,
)
    ensures
        took_blocks(run, reads).remaining + payload_bytes(took_blocks(run, reads).records)
            == run.remaining + payload_bytes(run.records),
        took_blocks(run, reads).end == run.end,
    decreases reads.len(),
{
    if reads.len() > 0 {
        law_read_pays_for_its_records(run, reads.drop_last());
        let before = took_blocks(run, reads.drop_last());
        let index = reads.last().0;
        let next_end = if before.end <= index.end() {
            before.end
        } else {
            index.end() as u64
        };
        let taken = picked(reads.last().1, before.next_start, next_end, before.remaining);
        lemma_bytes_of(taken);
        lemma_payload_parts(before.records, taken);
    }
}

proof fn lemma_took_front(run: RunModel, reads: Seq<(DataBlockIndex, Seq<Seq<u8>>)>)
    requires
        reads.len() > 0,
    ensures
        took_blocks(run, reads) == took_blocks(
            took_block(run, reads[0].0, reads[0].1),
            reads.skip(1),
        ),
    decreases reads.len(),
{
    let next = took_block(run, reads[0].0, reads[0].1);
    if reads.len() == 1 {
        assert(reads.drop_last() =~= Seq::empty());
        assert(reads.skip(1) =~= Seq::empty());
        assert(took_blocks(run, reads.drop_last()) == run);
        assert(took_blocks(next, reads.skip(1)) == next);
    } else {
        let rest = reads.drop_last();
        lemma_took_front(run, rest);
        assert(rest.skip(1) =~= reads.skip(1).drop_last());
        assert(reads.skip(1).last() == reads.last());
    }
}

/// A read over a chain of blocks that begins at its next offset takes all of them, unless it
/// reaches its end or uses up its budget before.
pub proof fn law_chain_is_read_until_done(
    run: RunModel,
    reads: Seq<(DataBlockIndex, Seq<Seq<u8>>)>,
)
    requires
        reads.len() > 0,
        reads[0].0.start_offset <= run.next_start < reads[0].0.end(),
        forall|i: int|
            0 <= i < reads.len() ==> (#[trigger] reads[i]).0.valid() && reads[i].0.start_offset
                < reads[i].0.end(),
        forall|i: int, j: int|
            #![trigger reads[i], reads[j]]
            0 <= i && j == i + 1 && j < reads.len() ==> reads[i].0.end()
                == reads[j].0.start_offset,
    ensures
        ({
            let n = blocks_taken(run, reads);
            let after = took_blocks(run, reads.take(n));
            &&& 0 < n <= reads.len()
            &&& n == reads.len() || after.next_start >= after.end || after.remaining <= 0
        }),
    decreases reads.len(),
{
    let next = took_block(run, reads[0].0, reads[0].1);
    let rest = reads.skip(1);
    let n = blocks_taken(run, reads);
    assert(!misses(run, reads[0].0));
    if is_done(next) {
        assert(reads.take(1) =~= seq![reads[0]]);
        lemma_took_front(run, seq![reads[0]]);
        assert(seq![reads[0]].skip(1) =~= Seq::empty());
    } else if rest.len() == 0 {
        assert(blocks_taken(next, rest) == 0);
    } else {
        assert(reads[0].0.end() == reads[1].0.start_offset);
        assert(rest[0] == reads[1]);
        assert forall|i: int| 0 <= i < rest.len() implies (#[trigger] rest[i]).0.valid()
            && rest[i].0.start_offset < rest[i].0.end() by {
            assert(rest[i] == reads[i + 1]);
        }
        assert forall|i: int, j: int|
            #![trigger rest[i], rest[j]]
            0 <= i && j == i + 1 && j < rest.len() implies rest[i].0.end()
            == rest[j].0.start_offset by {
            assert(rest[i] == reads[i + 1] && rest[j] == reads[j + 1]);
        }
        law_chain_is_read_until_done(next, rest);
        lemma_took_front(run, reads.take(n));
        assert(reads.take(n).skip(1) =~= rest.take(n - 1));
        assert(reads.take(n)[0] == reads[0]);
    }
}

/// The ends of a window's slots never fall.
proof fn lemma_window_order(w: WindowModel, i: int, j: int)
    requires
        is_window(w),
        0 <= i <= j < w.slots.len(),
    ensures
        w.slots[i].index.end() <= w.slots[j].index.end(),
        w.slots[i].index.start_offset <= w.slots[j].index.start_offset,
        i < j ==> w.slots[i].index.start_offset < w.slots[j].index.start_offset,
    decreases j - i,
{
    if i < j {
        lemma_window_order(w, i, j - 1);
        assert(w.slots[j - 1].index.end() == w.slots[j].index.start_offset);
    }
}

proof fn lemma_read_count(slots: Seq<SlotModel>, offset: u64)
    ensures
        0 <= read_count(slots, offset) <= slots.len(),
        forall|i: int|
            0 <= i < read_count(slots, offset) ==> (#[trigger] slots[i]).index.end() <= offset,
        read_count(slots, offset) < slots.len() ==> slots[read_count(slots, offset)].index.end()
            > offset,
    decreases slots.len(),
{
    if slots.len() > 0 && slots[0].index.end() <= offset {
        let rest = slots.skip(1);
        lemma_read_count(rest, offset);
        assert forall|i: int| 0 <= i < read_count(slots, offset) implies (
        #[trigger] slots[i]).index.end() <= offset by {
            if i > 0 {
                assert(rest[i - 1] == slots[i]);
            }
        }
    }
}

/// The slots that leave a window are exactly those that end at or below the offset.
pub proof fn law_read_slots_leave_window(w: WindowModel, offset: u64, i: int)
    requires
        is_window(w),
        0 <= i < w.slots.len(),
    ensures
        i < read_count(w.slots, offset) <==> w.slots[i].index.end() <= offset,
{
    lemma_read_count(w.slots, offset);
    let n = read_count(w.slots, offset);
    if n <= i {
        lemma_window_order(w, n, i);
    }
}

/// A walk begins at the last slot that does not begin above the cursor.
pub proof fn law_walk_begins_at_floor(slots: Seq<SlotModel>, offset: u64)
    ensures
        match floor_slot(slots, offset) {
            Some(f) => 0 <= f < slots.len() && slots[f].index.start_offset <= offset && forall|
                j: int,
            |
                f < j < slots.len() ==> (#[trigger] slots[j]).index.start_offset > offset,
            None => forall|j: int|
                0 <= j < slots.len() ==> (#[trigger] slots[j]).index.start_offset > offset,
        },
    decreases slots.len(),
{
    if slots.len() > 0 && slots.last().index.start_offset > offset {
        let rest = slots.drop_last();
        law_walk_begins_at_floor(rest, offset);
        let low: int = match floor_slot(rest, offset) {
            Some(f) => f + 1,
            None => 0,
        };
        assert forall|j: int| low <= j < slots.len() implies (
        #[trigger] slots[j]).index.start_offset > offset by {
            if j < rest.len() {
                assert(rest[j] == slots[j]);
            }
        }
    }
}

/// The slot of a block is one that begins where the block begins, if there is one.
pub proof fn law_slot_is_found_by_start(slots: Seq<SlotModel>, start_offset: u64)
    ensures
        match slot_at(slots, start_offset) {
            Some(i) => 0 <= i < slots.len() && slots[i].index.start_offset == start_offset,
            None => forall|j: int|
                0 <= j < slots.len() ==> (#[trigger] slots[j]).index.start_offset != start_offset,
        },
    decreases slots.len(),
{
    if slots.len() > 0 && slots.last().index.start_offset != start_offset {
        let rest = slots.drop_last();
        law_slot_is_found_by_start(rest, start_offset);
        if slot_at(rest, start_offset) is None {
            assert forall|j: int| 0 <= j < slots.len() implies (
            #[trigger] slots[j]).index.start_offset != start_offset by {
                if j < rest.len() {
                    assert(rest[j] == slots[j]);
                }
            }
        }
    }
}

/// How the window goes on: at the end of its last block, or at a block that holds the next
/// offset to read.
pub open spec fn goes_on_with(w: WindowModel, next_read_offset: u64, index: DataBlockIndex) -> bool {
    match w.last {
        Some(l) => index.start_offset == l.1,
        None => index.start_offset <= next_read_offset < index.end(),
    }
}

/// Blocks are put as far as each goes on where the one before ends, and the window then ends
/// where the last of them does.
pub proof fn law_blocks_are_put_while_they_go_on(
    w: WindowModel,
    next_read_offset: u64,
    object: ObjectModel,
    blocks: Seq<DataBlockIndex>,
)
    requires
        forall|i: int| 0 <= i < blocks.len() ==> (#[trigger] blocks[i]).valid(),
    ensures
        ({
            let n = put_count(w, next_read_offset, object, blocks);
            let after = put_all(w, object, blocks.take(n));
            &&& 0 <= n <= blocks.len()
            &&& n > 0 ==> goes_on_with(w, next_read_offset, blocks[0]) && after.loaded_end
                == blocks[n - 1].end()
            &&& n == 0 ==> after == w && (blocks.len() > 0 ==> !goes_on_with(
                w,
                next_read_offset,
                blocks[0],
            ))
            &&& forall|i: int, j: int|
                #![trigger blocks[i], blocks[j]]
                0 <= i && j == i + 1 && j < n ==> blocks[j].start_offset == blocks[i].end()
            &&& 0 < n < blocks.len() ==> blocks[n].start_offset != blocks[n - 1].end()
        }),
    decreases blocks.len(),
{
    let n = put_count(w, next_read_offset, object, blocks);
    assert(blocks.take(0) =~= Seq::empty());
    if blocks.len() > 0 && may_put(w, next_read_offset, blocks[0]) {
        let rest = blocks.skip(1);
        let next = put(w, object, blocks[0]);
        assert forall|i: int| 0 <= i < rest.len() implies (#[trigger] rest[i]).valid() by {
            assert(rest[i] == blocks[i + 1]);
        }
        assert(blocks[0].valid());
        law_blocks_are_put_while_they_go_on(next, next_read_offset, object, rest);
        lemma_put_is_bounded(next, next_read_offset, object, rest);
        assert(blocks.take(n).skip(1) =~= rest.take(n - 1));
        assert(blocks.take(n)[0] == blocks[0]);
        assert forall|i: int, j: int|
            #![trigger blocks[i], blocks[j]]
            0 <= i && j == i + 1 && j < n implies blocks[j].start_offset == blocks[i].end() by {
            if i > 0 {
                assert(rest[i - 1] == blocks[i] && rest[j - 1] == blocks[j]);
            } else {
                assert(rest[0] == blocks[1]);
            }
        }
        if n < blocks.len() {
            assert(rest[n - 1] == blocks[n]);
            if n > 1 {
                assert(rest[n - 2] == blocks[n - 1]);
            }
        }
    }
}

proof fn lemma_put_is_bounded(
    w: WindowModel,
    next_read_offset: u64,
    object: ObjectModel,
    blocks: Seq<DataBlockIndex>,
)
    ensures
        0 <= put_count(w, next_read_offset, object, blocks) <= blocks.len(),
    decreases blocks.len(),
{
    if blocks.len() > 0 && may_put(w, next_read_offset, blocks[0]) {
        lemma_put_is_bounded(put(w, object, blocks[0]), next_read_offset, object, blocks.skip(1));
    }
}

/// A block that was put is the last one of the window, with nothing loaded for it yet.
pub proof fn law_put_block_is_last(w: WindowModel, object: ObjectModel, index: DataBlockIndex)
    requires
        index.valid(),
    ensures
        ({
            let after = put(w, object, index);
            &&& after.slots.len() > 0
            &&& after.slots.last().index == index
            &&& after.slots.last().object == object
            &&& after.slots.last().data is None
            &&& after.slots.last().listener is None
            &&& after.loaded_end == index.end()
            &&& after.last == Some((index.start_offset, index.end() as u64))
            &&& after.epoch == w.epoch
        }),
{
}

/// Bytes in the blocks of the slots `from..to`.
pub open spec fn slot_bytes(slots: Seq<SlotModel>, from: int, to: int) -> int
    decreases to - from,
{
    if to <= from {
        0
    } else {
        slot_bytes(slots, from, to - 1) + slots[to - 1].index.size
    }
}

proof fn lemma_slot_bytes_front(slots: Seq<SlotModel>, from: int, to: int)
    requires
        from < to,
    ensures
        slot_bytes(slots, from, to) == slots[from].index.size + slot_bytes(slots, from + 1, to),
    decreases to - from,
{
    if to - from > 1 {
        lemma_slot_bytes_front(slots, from, to - 1);
    } else {
        assert(slot_bytes(slots, from, from) == 0);
    }
}

/// A walk pays for every slot that it takes, but for a first one that begins below the cursor.
/// It takes no slot once it has reached the end offset or used up the budget.
pub proof fn law_walk_takes_what_it_needs(
    slots: Seq<SlotModel>,
    i: int,
    cursor: u64,
    end_offset: Option<u64>,
    remaining: int,
)
    requires
        0 <= i < slots.len(),
    ensures
        ({
            let (stop, fulfilled, left) = walk_from(slots, i, true, cursor, end_offset, remaining);
            let paid_from = if slots[i].index.start_offset == cursor {
                i
            } else {
                i + 1
            };
            &&& i < stop <= slots.len()
            &&& left == remaining - slot_bytes(slots, paid_from, stop)
            &&& forall|k: int|
                i <= k < stop - 1 ==> remaining - slot_bytes(slots, paid_from, k + 1) > 0 && (
                end_offset matches Some(e) ==> (#[trigger] slots[k]).index.end() < e)
        }),
{
    let paid_from = if slots[i].index.start_offset == cursor {
        i
    } else {
        i + 1
    };
    let index = slots[i].index;
    let left = if paid_from == i {
        remaining - index.size
    } else {
        remaining
    };
    assert(slot_bytes(slots, paid_from, i + 1) == remaining - left) by {
        assert(slot_bytes(slots, i, i) == 0);
        assert(slot_bytes(slots, i + 1, i + 1) == 0);
    }
    if !(crate::cache::blockcache::window::reaches(end_offset, index) || left <= 0) {
        lemma_walk_on(slots, i + 1, cursor, end_offset, left);
        let (stop, fulfilled, rest) = walk_from(slots, i + 1, false, cursor, end_offset, left);
        lemma_bytes_join(slots, paid_from, i + 1, stop);
        assert forall|k: int| i <= k < stop - 1 implies remaining - slot_bytes(
            slots,
            paid_from,
            k + 1,
        ) > 0 && (end_offset matches Some(e) ==> (#[trigger] slots[k]).index.end() < e) by {
            lemma_bytes_join(slots, paid_from, i + 1, k + 1);
            if k > i {
                assert(left - slot_bytes(slots, i + 1, k + 1) > 0);
            }
        }
    }
}

proof fn lemma_bytes_join(slots: Seq<SlotModel>, a: int, b: int, c: int)
    requires
        a <= b <= c,
    ensures
        slot_bytes(slots, a, c) == slot_bytes(slots, a, b) + slot_bytes(slots, b, c),
    decreases c - b,
{
    if b < c {
        lemma_bytes_join(slots, a, b, c - 1);
    }
}

proof fn lemma_walk_on(
    slots: Seq<SlotModel>,
    i: int,
    cursor: u64,
    end_offset: Option<u64>,
    remaining: int,
)
    requires
        0 <= i <= slots.len(),
    ensures
        ({
            let (stop, fulfilled, left) = walk_from(
                slots,
                i,
                false,
                cursor,
                end_offset,
                remaining,
            );
            &&& i <= stop <= slots.len()
            &&& left == remaining - slot_bytes(slots, i, stop)
            &&& forall|k: int|
                i <= k < stop - 1 ==> remaining - slot_bytes(slots, i, k + 1) > 0 && (
                end_offset matches Some(e) ==> (#[trigger] slots[k]).index.end() < e)
        }),
    decreases slots.len() - i,
{
    if i < slots.len() {
        let left = remaining - slots[i].index.size;
        assert(slot_bytes(slots, i, i + 1) == slots[i].index.size) by {
            assert(slot_bytes(slots, i, i) == 0);
        }
        if !(crate::cache::blockcache::window::reaches(end_offset, slots[i].index) || left <= 0) {
            lemma_walk_on(slots, i + 1, cursor, end_offset, left);
            let (stop, fulfilled, rest) = walk_from(
                slots,
                i + 1,
                false,
                cursor,
                end_offset,
                left,
            );
            lemma_slot_bytes_front_or_none(slots, i, stop);
            assert forall|k: int| i <= k < stop - 1 implies remaining - slot_bytes(
                slots,
                i,
                k + 1,
            ) > 0 && (end_offset matches Some(e) ==> (#[trigger] slots[k]).index.end() < e) by {
                lemma_slot_bytes_front(slots, i, k + 1);
                if k > i {
                    assert(left - slot_bytes(slots, i + 1, k + 1) > 0);
                } else {
                    assert(slot_bytes(slots, i + 1, i + 1) == 0);
                }
            }
        }
    }
}

proof fn lemma_slot_bytes_front_or_none(slots: Seq<SlotModel>, from: int, to: int)
    ensures
        from < to ==> slot_bytes(slots, from, to) == slots[from].index.size + slot_bytes(
            slots,
            from + 1,
            to,
        ),
{
    if from < to {
        lemma_slot_bytes_front(slots, from, to);
    }
}

/// Readahead rests for the whole cool-down after an unread block was evicted: no read changes
/// it.
pub proof fn law_readahead_rests_after_eviction(
    ra: ReadaheadState,
    cache_miss: bool,
    now_ms: u64,
    next_read_offset: u64,
    available: i64,
    max_size: usize,
)
    ensures
        now_ms < ra.reset_ts_ms + READAHEAD_RESET_COLD_DOWN_MS ==> readahead_step(
            ra,
            cache_miss,
            now_ms,
            next_read_offset,
            available,
            max_size,
        ) == (ra, None::<(u64, usize)>),
{
}

/// Each read that missed the cache adds one unit to the readahead, up to the largest size, and
/// the readahead goes on where the last one ended, or where the reader is if that is further. It
/// begins only where the reader has passed the offset at which the last one began, and where
/// memory is left for it.
pub proof fn law_misses_grow_readahead(
    ra: ReadaheadState,
    cache_miss: bool,
    now_ms: u64,
    next_read_offset: u64,
    available: i64,
    max_size: usize,
)
    requires
        can_grow(ra),
        ra.reset_ts_ms + READAHEAD_RESET_COLD_DOWN_MS <= now_ms,
        !ra.inflight,
        !ra.require_reset,
    ensures
        ({
            let misses = ra.cache_miss_count + if cache_miss {
                1int
            } else {
                0
            };
            let wanted = ra.next_size + misses * READAHEAD_SIZE_UNIT;
            let size = if wanted <= max_size {
                wanted
            } else {
                max_size as int
            };
            let offset = if next_read_offset >= ra.next_offset {
                next_read_offset
            } else {
                ra.next_offset
            };
            let due = next_read_offset >= ra.next_offset || next_read_offset > ra.mark_offset;
            let (after, begun) = readahead_step(
                ra,
                cache_miss,
                now_ms,
                next_read_offset,
                available,
                max_size,
            );
            &&& after.next_size == size
            &&& after.cache_miss_count == 0
            &&& after.inflight == begun is Some
            &&& begun is Some <==> due && available - size >= READAHEAD_AVAILABLE_BYTES_THRESHOLD
            &&& begun matches Some(b) ==> b.0 == offset && b.1 == size && after.mark_offset
                == offset
        }),
{
}

/// After a reset the readahead starts over: one unit, where the reader is.
pub proof fn law_readahead_starts_over_after_reset(
    ra: ReadaheadState,
    cache_miss: bool,
    now_ms: u64,
    next_read_offset: u64,
    available: i64,
    max_size: usize,
)
    requires
        can_grow(ra),
        ra.reset_ts_ms + READAHEAD_RESET_COLD_DOWN_MS <= now_ms,
        !ra.inflight,
        ra.require_reset,
    ensures
        ({
            let (after, begun) = readahead_step(
                ra,
                cache_miss,
                now_ms,
                next_read_offset,
                available,
                max_size,
            );
            &&& !after.require_reset
            &&& after.next_size == READAHEAD_SIZE_UNIT
            &&& after.next_offset == next_read_offset
            &&& begun is Some <==> available - READAHEAD_SIZE_UNIT
                >= READAHEAD_AVAILABLE_BYTES_THRESHOLD
            &&& begun matches Some(b) ==> b.0 == next_read_offset && b.1 == READAHEAD_SIZE_UNIT
        }),
{
}

/// A reader expires exactly if it was not used for longer than the limit, and every other reader
/// stays.
pub proof fn law_idle_readers_expire(
    readers: Seq<ReaderEntry>,
    now_ms: u64,
    expired_ms: u64,
    e: ReaderEntry,
)
    ensures
        idle_readers(readers, now_ms, expired_ms).contains(e) <==> readers.contains(e) && now_ms
            - e.last_access_ms > expired_ms,
        fresh_readers(readers, now_ms, expired_ms).contains(e) <==> readers.contains(e) && now_ms
            - e.last_access_ms <= expired_ms,
        idle_readers(readers, now_ms, expired_ms).len() + fresh_readers(
            readers,
            now_ms,
            expired_ms,
        ).len() == readers.len(),
{
    let idle = |x: ReaderEntry| is_idle(x, now_ms, expired_ms);
    let fresh = |x: ReaderEntry| !is_idle(x, now_ms, expired_ms);
    assert(idle_readers(readers, now_ms, expired_ms) == readers.filter(idle));
    assert(fresh_readers(readers, now_ms, expired_ms) == readers.filter(fresh));
    lemma_filter_members(readers, idle, e);
    lemma_filter_members(readers, fresh, e);
    lemma_filter_parts(readers, idle, fresh);
}

proof fn lemma_filter_parts<T>(s: Seq<T>, f: spec_fn(T) -> bool, g: spec_fn(T) -> bool)
    requires
        forall|x: T| #[trigger] f(x) <==> !g(x),
    ensures
        s.filter(f).len() + s.filter(g).len() == s.len(),
    decreases s.len(),
{
    reveal(Seq::filter);
    if s.len() > 0 {
        lemma_filter_parts(s.drop_last(), f, g);
        assert(f(s.last()) <==> !g(s.last()));
    }
}

/// A shard looks for expired readers again only after more than the interval has passed.
pub proof fn law_shard_is_swept_once_per_interval(
    s: ReaderShardModel,
    now_ms: u64,
    later_ms: u64,
    check_interval_ms: u64,
    expired_ms: u64,
)
    requires
        now_ms > s.last_expired_check_ms + check_interval_ms,
        later_ms <= now_ms + check_interval_ms,
    ensures
        swept(
            swept(s, now_ms, check_interval_ms, expired_ms).0,
            later_ms,
            check_interval_ms,
            expired_ms,
        ) == (swept(s, now_ms, check_interval_ms, expired_ms).0, Seq::<u64>::empty()),
        swept(s, now_ms, check_interval_ms, expired_ms).1.len() + swept(
            s,
            now_ms,
            check_interval_ms,
            expired_ms,
        ).0.readers.len() == s.readers.len(),
{
    if s.readers.len() > 0 {
        law_idle_readers_expire(s.readers, now_ms, expired_ms, s.readers[0]);
    } else {
        reveal(Seq::filter);
    }
}

proof fn lemma_reader_at(readers: Seq<ReaderEntry>, stream_id: u64, offset: u64)
    ensures
        match reader_at(readers, stream_id, offset) {
            Some(i) => 0 <= i < readers.len() && readers[i].stream_id == stream_id
                && readers[i].next_read_offset == offset,
            None => forall|j: int|
                0 <= j < readers.len() ==> !((#[trigger] readers[j]).stream_id == stream_id
                    && readers[j].next_read_offset == offset),
        },
    decreases readers.len(),
{
    if readers.len() > 0 {
        let rest = readers.drop_last();
        lemma_reader_at(rest, stream_id, offset);
        if reader_at(readers, stream_id, offset) is None {
            assert forall|j: int| 0 <= j < readers.len() implies !((
            #[trigger] readers[j]).stream_id == stream_id && readers[j].next_read_offset
                == offset) by {
                if j < rest.len() {
                    assert(rest[j] == readers[j]);
                }
            }
        }
    }
}

/// A reader that was taken out serves one read alone: no other read finds it, until it comes
/// back. The readers of other streams and offsets are still found.
pub proof fn law_taken_reader_is_gone(
    s: ReaderShardModel,
    stream_id: u64,
    offset: u64,
    j: int,
)
    requires
        one_per_offset(s.readers),
        0 <= j < s.readers.len(),
    ensures
        reader_of(taken_out(s, stream_id, offset).readers, stream_id, offset) is None,
        s.readers[j].stream_id != stream_id || s.readers[j].next_read_offset != offset
            ==> reader_of(
            taken_out(s, stream_id, offset).readers,
            s.readers[j].stream_id,
            s.readers[j].next_read_offset,
        ) == Some(s.readers[j].reader),
        s.readers[j].stream_id == stream_id && s.readers[j].next_read_offset == offset
            ==> reader_of(s.readers, stream_id, offset) == Some(s.readers[j].reader),
{
    lemma_reader_at(s.readers, stream_id, offset);
    let after = taken_out(s, stream_id, offset).readers;
    lemma_reader_at(after, stream_id, offset);
    lemma_reader_at(after, s.readers[j].stream_id, s.readers[j].next_read_offset);
    match reader_at(s.readers, stream_id, offset) {
        None => {
            match reader_at(after, s.readers[j].stream_id, s.readers[j].next_read_offset) {
                Some(k) => {
                    if k != j {
                        assert(s.readers[k].stream_id == s.readers[j].stream_id);
                    }
                },
                None => {
                    assert(after[j] == s.readers[j]);
                },
            }
        },
        Some(i) => {
            assert(after == s.readers.remove(i));
            if reader_at(after, stream_id, offset) is Some {
                let k = reader_at(after, stream_id, offset)->0;
                let x = if k < i {
                    k
                } else {
                    k + 1
                };
                assert(after[k] == s.readers[x]);
                assert(s.readers[x].stream_id == s.readers[i].stream_id);
            }
            if j != i {
                let y = if j < i {
                    j
                } else {
                    j - 1
                };
                assert(after[y] == s.readers[j]);
                match reader_at(after, s.readers[j].stream_id, s.readers[j].next_read_offset) {
                    Some(k) => {
                        let x = if k < i {
                            k
                        } else {
                            k + 1
                        };
                        assert(after[k] == s.readers[x]);
                        if x != j {
                            assert(s.readers[x].stream_id == s.readers[j].stream_id);
                        }
                    },
                    None => {},
                }
            }
        },
    }
}

/// Every reader is counted, and every expired one is handed out: what a sweep takes and what it
/// leaves add up to what there was.
pub proof fn law_sweep_accounts_for_every_reader(
    shards: Seq<ReaderShardModel>,
    now_ms: u64,
    expired_ms: u64,
)
    ensures
        all_idle(shards, now_ms, expired_ms).len() + total_readers(
            shards.map_values(
                |s: ReaderShardModel|
                    ReaderShardModel { readers: fresh_readers(s.readers, now_ms, expired_ms), ..s },
            ),
        ) == total_readers(shards),
    decreases shards.len(),
{
    let f = |s: ReaderShardModel|
        ReaderShardModel { readers: fresh_readers(s.readers, now_ms, expired_ms), ..s };
    if shards.len() > 0 {
        let rest = shards.drop_last();
        let last = shards.last();
        law_sweep_accounts_for_every_reader(rest, now_ms, expired_ms);
        assert(shards.map_values(f).drop_last() =~= rest.map_values(f));
        let idle = |x: ReaderEntry| is_idle(x, now_ms, expired_ms);
        let fresh = |x: ReaderEntry| !is_idle(x, now_ms, expired_ms);
        lemma_filter_parts(last.readers, idle, fresh);
        assert(idle_readers(last.readers, now_ms, expired_ms) == last.readers.filter(idle));
        assert(fresh_readers(last.readers, now_ms, expired_ms) == last.readers.filter(fresh));
        assert(reader_ids(idle_readers(last.readers, now_ms, expired_ms)).len() == idle_readers(
            last.readers,
            now_ms,
            expired_ms,
        ).len());
    } else {
        assert(shards.map_values(f) =~= Seq::empty());
    }
}

} // verus!

//! Laws of merging the objects of a stream.
use vstd::prelude::*;

use crate::compact::merge::{
    component_is_live, fresh_merge, live_bytes, live_from, merge_blocks, merged_index, open_index,
    LinkedObject, MergeModel,
};
use crate::object::DataBlockIndex;

verus! {

/// Blocks that hold bytes and follow each other without a gap, from the offset `start` on.
pub open spec fn is_block_run(entries: Seq<DataBlockIndex>, start: int) -> bool {
    &&& forall|i: int| 0 <= i < entries.len() ==> (#[trigger] entries[i]).size > 0
    &&& entries.len() > 0 ==> entries[0].start_offset == start
    &&& forall|i: int, j: int|
        #![trigger entries[i], entries[j]]
        0 <= i && j == i + 1 && j < entries.len() ==> entries[j].start_offset == entries[i].end()
}

/// Entries of one stream that cover the offsets from `start` to `end` without a gap.
pub open spec fn covers_offsets(
    stream_id: u64,
    indexes: Seq<DataBlockIndex>,
    start: int,
    end: int,
) -> bool {
    &&& indexes.len() > 0
    &&& indexes[0].start_offset == start
    &&& indexes.last().end() == end
    &&& forall|i: int| 0 <= i < indexes.len() ==> (#[trigger] indexes[i]).stream_id == stream_id
    &&& forall|i: int, j: int|
        #![trigger indexes[i], indexes[j]]
        0 <= i && j == i + 1 && j < indexes.len() ==> indexes[j].start_offset == indexes[i].end()
}

/// Records that a list of entries counts.
pub open spec fn counted_records(indexes: Seq<DataBlockIndex>) -> int
    decreases indexes.len(),
{
    if indexes.len() == 0 {
        0
    } else {
        counted_records(indexes.drop_last()) + indexes.last().record_count
    }
}

proof fn lemma_counted_push(indexes: Seq<DataBlockIndex>, e: DataBlockIndex)
    ensures
        counted_records(indexes.push(e)) == counted_records(indexes) + e.record_count,
{
    assert(indexes.push(e).drop_last() =~= indexes);
}

/// Another last entry, from the same offset on.
proof fn lemma_cover_replaced(
    stream_id: u64,
    indexes: Seq<DataBlockIndex>,
    a: DataBlockIndex,
    b: DataBlockIndex,
    start: int,
)
    requires
        covers_offsets(stream_id, indexes.push(a), start, a.end()),
        b.stream_id == stream_id,
        b.start_offset == a.start_offset,
    ensures
        covers_offsets(stream_id, indexes.push(b), start, b.end()),
{
    let x = indexes.push(a);
    let y = indexes.push(b);
    assert(x[0].start_offset == y[0].start_offset);
    assert forall|i: int, j: int|
        #![trigger y[i], y[j]]
        0 <= i && j == i + 1 && j < y.len() implies y[j].start_offset == y[i].end() by {
        assert(x[j].start_offset == x[i].end());
        assert(x[i] == y[i]);
    }
    assert forall|i: int| 0 <= i < y.len() implies (#[trigger] y[i]).stream_id == stream_id by {
        assert(x[i].stream_id == stream_id);
    }
}

/// One more entry, which goes on where the last one ends.
proof fn lemma_cover_extended(
    stream_id: u64,
    indexes: Seq<DataBlockIndex>,
    b: DataBlockIndex,
    start: int,
    end: int,
)
    requires
        covers_offsets(stream_id, indexes, start, end),
        b.stream_id == stream_id,
        b.start_offset == end,
    ensures
        covers_offsets(stream_id, indexes.push(b), start, b.end()),
{
    let y = indexes.push(b);
    assert(y[0] == indexes[0]);
    assert forall|i: int, j: int|
        #![trigger y[i], y[j]]
        0 <= i && j == i + 1 && j < y.len() implies y[j].start_offset == y[i].end() by {
        assert(y[i] == indexes[i]);
        if j < indexes.len() {
            assert(y[j] == indexes[j]);
        }
    }
}

/// What the merge of a run has come to: the first `k` blocks were left out, and the entries
/// cover the rest.
spec fn merged_so_far(
    stream_id: u64,
    trim: u64,
    start: int,
    entries: Seq<DataBlockIndex>,
    k: int,
    m: MergeModel,
) -> bool {
    &&& 0 <= k <= entries.len()
    &&& forall|i: int| 0 <= i < k ==> (#[trigger] entries[i]).end() <= trim
    &&& forall|i: int| k <= i < entries.len() ==> (#[trigger] entries[i]).end() > trim
    &&& m.start_offset == (if k > 0 {
        entries[k - 1].end()
    } else {
        start
    })
    &&& k == entries.len() ==> m.open_size == 0 && m.indexes.len() == 0
    &&& k < entries.len() ==> {
        &&& m.open_size > 0
        &&& m.open_end == entries.last().end()
        &&& 0 <= m.open_start <= u64::MAX
        &&& 0 <= m.open_end - m.open_start <= u32::MAX
        &&& 0 <= m.open_records <= u32::MAX
        &&& covers_offsets(
            stream_id,
            m.indexes.push(open_index(stream_id, m)),
            m.start_offset,
            entries.last().end(),
        )
        &&& counted_records(m.indexes) + m.open_records == counted_records(entries.skip(k))
    }
}

proof fn lemma_merge_run(
    stream_id: u64,
    trim: u64,
    threshold: u64,
    start: u64,
    entries: Seq<DataBlockIndex>,
) -> (k: int)
    requires
        is_block_run(entries, start as int),
    ensures
        merged_so_far(
            stream_id,
            trim,
            start as int,
            entries,
            k,
            merge_blocks(stream_id, trim, threshold, fresh_merge(start), entries),
        ),
    decreases entries.len(),
{
    if entries.len() == 0 {
        0
    } else {
        let rest = entries.drop_last();
        let e = entries.last();
        assert forall|i: int, j: int|
            #![trigger rest[i], rest[j]]
            0 <= i && j == i + 1 && j < rest.len() implies rest[j].start_offset
            == rest[i].end() by {
            assert(entries[j].start_offset == entries[i].end());
        }
        assert forall|i: int| 0 <= i < rest.len() implies (#[trigger] rest[i]).size > 0 by {
            assert(entries[i].size > 0);
        }
        let k = lemma_merge_run(stream_id, trim, threshold, start, rest);
        let before = merge_blocks(stream_id, trim, threshold, fresh_merge(start), rest);
        let m = merge_blocks(stream_id, trim, threshold, fresh_merge(start), entries);
        assert(e.size > 0) by {
            assert(entries[entries.len() - 1].size > 0);
        }
        assert(forall|i: int| 0 <= i < rest.len() ==> entries[i] == rest[i]);
        if rest.len() > 0 {
            assert(entries[entries.len() - 1].start_offset == entries[entries.len() - 2].end());
        }
        if e.end() <= trim {
            if k < rest.len() {
                assert(rest[rest.len() - 1].end() > trim);
                assert(false);
            }
            assert(merged_so_far(stream_id, trim, start as int, entries, k + 1, m));
            k + 1
        } else {
            let entry = open_index(stream_id, m);
            if k == rest.len() {
                assert(m.indexes =~= Seq::empty());
                assert(seq![entry] =~= m.indexes.push(entry));
                assert(entries.skip(k) =~= seq![e]);
                lemma_counted_push(Seq::empty(), e);
                assert(seq![e] =~= Seq::<DataBlockIndex>::empty().push(e));
                assert(covers_offsets(stream_id, m.indexes.push(entry), m.start_offset, e.end()));
            } else {
                assert(entries.skip(k) =~= rest.skip(k).push(e));
                lemma_counted_push(rest.skip(k), e);
                let old_entry = open_index(stream_id, before);
                assert(rest.last() == entries[entries.len() - 2]);
                if m.open_start == before.open_start && m.indexes == before.indexes {
                    lemma_cover_replaced(
                        stream_id,
                        before.indexes,
                        old_entry,
                        entry,
                        before.start_offset,
                    );
                } else {
                    lemma_cover_extended(
                        stream_id,
                        before.indexes.push(old_entry),
                        entry,
                        before.start_offset,
                        rest.last().end(),
                    );
                    lemma_counted_push(before.indexes, old_entry);
                }
            }
            assert(merged_so_far(stream_id, trim, start as int, entries, k, m));
            k
        }
    }
}

/// Merging a run of blocks leaves out exactly the blocks that end at or below the trim offset.
/// The merged object begins where the first block that is kept begins, and its index covers the
/// offsets from there to the end of the last block without a gap, and counts the records of
/// every block that is kept.
pub proof fn law_merged_index_covers_live_blocks(
    stream_id: u64,
    trim: u64,
    threshold: u64,
    start: u64,
    entries: Seq<DataBlockIndex>,
)
    requires
        is_block_run(entries, start as int),
    ensures
        ({
            let m = merge_blocks(stream_id, trim, threshold, fresh_merge(start), entries);
            let index = merged_index(stream_id, m);
            exists|k: int|
                {
                    &&& 0 <= k <= entries.len()
                    &&& forall|i: int| 0 <= i < k ==> (#[trigger] entries[i]).end() <= trim
                    &&& forall|i: int|
                        k <= i < entries.len() ==> (#[trigger] entries[i]).end() > trim
                    &&& counted_records(index) == counted_records(#[trigger] entries.skip(k))
                    &&& k == entries.len() ==> index.len() == 0
                    &&& k == entries.len() && k > 0 ==> m.start_offset == entries.last().end()
                    &&& k < entries.len() ==> {
                        &&& m.start_offset == entries[k].start_offset
                        &&& covers_offsets(
                            stream_id,
                            index,
                            entries[k].start_offset as int,
                            entries.last().end(),
                        )
                    }
                }
        }),
{
    let k = lemma_merge_run(stream_id, trim, threshold, start, entries);
    let m = merge_blocks(stream_id, trim, threshold, fresh_merge(start), entries);
    let index = merged_index(stream_id, m);
    lemma_counted_push(m.indexes, open_index(stream_id, m));
    if k == entries.len() {
        assert(entries.skip(k) =~= Seq::empty());
        assert(index =~= Seq::empty());
    } else if k > 0 {
        assert(entries[k].start_offset == entries[k - 1].end());
    }
    assert(counted_records(index) == counted_records(entries.skip(k)));
}

/// The entry stands for one block alone.
pub open spec fn stands_for(entry: DataBlockIndex, e: DataBlockIndex) -> bool {
    &&& entry.start_offset == e.start_offset
    &&& entry.end_offset_delta == e.end_offset_delta
    &&& entry.record_count == e.record_count
    &&& entry.size == e.size
}

/// The entry stands for one block alone, or it keeps the limits on its bytes, its records and
/// its offsets.
pub open spec fn is_bounded_entry(
    threshold: u64,
    entries: Seq<DataBlockIndex>,
    entry: DataBlockIndex,
) -> bool {
    ||| exists|j: int| 0 <= j < entries.len() && stands_for(entry, #[trigger] entries[j])
    ||| entry.size <= threshold && entry.record_count <= i32::MAX && entry.end_offset_delta
        <= i32::MAX
}

spec fn open_is_bounded(
    stream_id: u64,
    threshold: u64,
    entries: Seq<DataBlockIndex>,
    m: MergeModel,
) -> bool {
    m.open_size != 0 ==> {
        &&& is_bounded_entry(threshold, entries, open_index(stream_id, m))
        &&& 0 <= m.open_size <= u32::MAX
        &&& 0 <= m.open_start <= u64::MAX
        &&& 0 <= m.open_end - m.open_start
        &&& 0 <= m.open_records
    }
}

proof fn lemma_bounded_entries(
    stream_id: u64,
    trim: u64,
    threshold: u64,
    start: u64,
    entries: Seq<DataBlockIndex>,
)
    requires
        threshold <= u32::MAX,
        forall|i: int, j: int|
            #![trigger entries[i], entries[j]]
            0 <= i <= j < entries.len() ==> entries[i].start_offset <= entries[j].end(),
    ensures
        ({
            let m = merge_blocks(stream_id, trim, threshold, fresh_merge(start), entries);
            &&& open_is_bounded(stream_id, threshold, entries, m)
            &&& m.open_size != 0 ==> exists|j: int|
                0 <= j < entries.len() && (#[trigger] entries[j]).start_offset == m.open_start
            &&& forall|i: int|
                0 <= i < m.indexes.len() ==> is_bounded_entry(
                    threshold,
                    entries,
                    #[trigger] m.indexes[i],
                )
        }),
    decreases entries.len(),
{
    if entries.len() > 0 {
        let rest = entries.drop_last();
        let e = entries.last();
        assert forall|i: int, j: int|
            #![trigger rest[i], rest[j]]
            0 <= i <= j < rest.len() implies rest[i].start_offset <= rest[j].end() by {
            assert(entries[i].start_offset <= entries[j].end());
        }
        lemma_bounded_entries(stream_id, trim, threshold, start, rest);
        let before = merge_blocks(stream_id, trim, threshold, fresh_merge(start), rest);
        let m = merge_blocks(stream_id, trim, threshold, fresh_merge(start), entries);
        assert forall|entry: DataBlockIndex| is_bounded_entry(
            threshold,
            rest,
            entry,
        ) implies #[trigger] is_bounded_entry(threshold, entries, entry) by {
            if exists|j: int| 0 <= j < rest.len() && stands_for(entry, #[trigger] rest[j]) {
                let j = choose|j: int|
                    0 <= j < rest.len() && stands_for(entry, #[trigger] rest[j]);
                assert(stands_for(entry, entries[j]));
            }
        }
        if before.open_size != 0 {
            let j = choose|j: int|
                0 <= j < rest.len() && (#[trigger] rest[j]).start_offset == before.open_start;
            assert(entries[j].start_offset <= entries[entries.len() - 1].end());
        }
        assert forall|i: int| 0 <= i < m.indexes.len() implies is_bounded_entry(
            threshold,
            entries,
            #[trigger] m.indexes[i],
        ) by {
            if i < before.indexes.len() {
                assert(m.indexes[i] == before.indexes[i]);
                assert(is_bounded_entry(threshold, rest, before.indexes[i]));
            } else {
                assert(is_bounded_entry(threshold, rest, open_index(stream_id, before)));
            }
        }
        if m.open_size != 0 {
            if e.end() <= trim {
                assert(is_bounded_entry(threshold, rest, open_index(stream_id, before)));
                let j = choose|j: int|
                    0 <= j < rest.len() && (#[trigger] rest[j]).start_offset == before.open_start;
                assert(entries[j].start_offset == m.open_start);
            } else if m.open_start == e.start_offset && m.open_size == e.size && m.open_records
                == e.record_count {
                assert(stands_for(open_index(stream_id, m), entries[entries.len() - 1]));
                assert(entries[entries.len() - 1].start_offset == m.open_start);
            } else {
                let j = choose|j: int|
                    0 <= j < rest.len() && (#[trigger] rest[j]).start_offset == before.open_start;
                assert(entries[j].start_offset == m.open_start);
            }
        }
    }
}

/// No entry of a merged index is larger than the threshold, counts more records or spans more
/// offsets than 31 bits hold, unless it stands for one block alone.
pub proof fn law_merged_entries_keep_limits(
    stream_id: u64,
    trim: u64,
    threshold: u64,
    start: u64,
    entries: Seq<DataBlockIndex>,
)
    requires
        threshold <= u32::MAX,
        forall|i: int, j: int|
            #![trigger entries[i], entries[j]]
            0 <= i <= j < entries.len() ==> entries[i].start_offset <= entries[j].end(),
    ensures
        ({
            let m = merge_blocks(stream_id, trim, threshold, fresh_merge(start), entries);
            let index = merged_index(stream_id, m);
            forall|i: int|
                0 <= i < index.len() ==> is_bounded_entry(threshold, entries, #[trigger] index[i])
        }),
{
    lemma_bounded_entries(stream_id, trim, threshold, start, entries);
}

/// Bytes in a list of blocks.
pub open spec fn entry_bytes(entries: Seq<DataBlockIndex>) -> int
    decreases entries.len(),
{
    if entries.len() == 0 {
        0
    } else {
        entry_bytes(entries.drop_last()) + entries.last().size
    }
}

/// Blocks of a run that together keep the limits share one entry.
pub proof fn law_small_blocks_share_an_entry(
    stream_id: u64,
    trim: u64,
    threshold: u64,
    start: u64,
    entries: Seq<DataBlockIndex>,
)
    requires
        entries.len() > 0,
        is_block_run(entries, start as int),
        entries[0].end() > trim,
        entry_bytes(entries) <= threshold,
        counted_records(entries) <= i32::MAX,
        entries.last().end() - start <= i32::MAX,
    ensures
        merged_index(
            stream_id,
            merge_blocks(stream_id, trim, threshold, fresh_merge(start), entries),
        ).len() == 1,
{
    lemma_one_entry(stream_id, trim, threshold, start, entries);
}

proof fn lemma_one_entry(
    stream_id: u64,
    trim: u64,
    threshold: u64,
    start: u64,
    entries: Seq<DataBlockIndex>,
)
    requires
        entries.len() > 0,
        is_block_run(entries, start as int),
        entries[0].end() > trim,
        entry_bytes(entries) <= threshold,
        counted_records(entries) <= i32::MAX,
        entries.last().end() - start <= i32::MAX,
    ensures
        ({
            let m = merge_blocks(stream_id, trim, threshold, fresh_merge(start), entries);
            &&& m.indexes.len() == 0
            &&& m.open_size == entry_bytes(entries)
            &&& m.open_size > 0
            &&& m.open_records == counted_records(entries)
            &&& m.open_start == start
            &&& entries.last().end() > trim
        }),
    decreases entries.len(),
{
    let rest = entries.drop_last();
    let e = entries.last();
    assert(entries[entries.len() - 1].size > 0);
    if rest.len() == 0 {
        assert(entry_bytes(rest) == 0 && counted_records(rest) == 0);
        assert(merge_blocks(stream_id, trim, threshold, fresh_merge(start), rest) == fresh_merge(
            start,
        ));
        assert(entries[0] == e);
    } else {
        assert forall|i: int, j: int|
            #![trigger rest[i], rest[j]]
            0 <= i && j == i + 1 && j < rest.len() implies rest[j].start_offset
            == rest[i].end() by {
            assert(entries[j].start_offset == entries[i].end());
        }
        assert forall|i: int| 0 <= i < rest.len() implies (#[trigger] rest[i]).size > 0 by {
            assert(entries[i].size > 0);
        }
        assert(rest[0] == entries[0]);
        assert(entries[entries.len() - 1].start_offset == entries[entries.len() - 2].end());
        assert(rest.last() == entries[entries.len() - 2]);
        lemma_one_entry(stream_id, trim, threshold, start, rest);
    }
}

/// Blocks that stand one after the other in their object, from its start on.
pub open spec fn are_packed(entries: Seq<DataBlockIndex>) -> bool {
    &&& entries.len() > 0 ==> entries[0].start_position == 0
    &&& forall|i: int, j: int|
        #![trigger entries[i], entries[j]]
        0 <= i && j == i + 1 && j < entries.len() ==> entries[j].start_position
            == entries[i].end_pos()
}

proof fn lemma_none_live(trim: u64, entries: Seq<DataBlockIndex>)
    requires
        forall|i: int| 0 <= i < entries.len() ==> (#[trigger] entries[i]).end() <= trim,
    ensures
        live_bytes(trim, entries) == 0,
    decreases entries.len(),
{
    if entries.len() > 0 {
        let rest = entries.drop_last();
        assert forall|i: int| 0 <= i < rest.len() implies (#[trigger] rest[i]).end() <= trim by {
            assert(entries[i].end() <= trim);
        }
        lemma_none_live(trim, rest);
    }
}

/// The ends of a run never fall, nor do its positions.
proof fn lemma_run_order(entries: Seq<DataBlockIndex>, start: int, i: int, j: int)
    requires
        is_block_run(entries, start),
        are_packed(entries),
        0 <= i <= j < entries.len(),
    ensures
        entries[i].end() <= entries[j].end(),
        entries[i].end_pos() <= entries[j].end_pos(),
        i < j ==> entries[i].end_pos() <= entries[j].start_position,
    decreases j - i,
{
    if i < j {
        lemma_run_order(entries, start, i, j - 1);
        assert(entries[j].start_offset == entries[j - 1].end());
        assert(entries[j].start_position == entries[j - 1].end_pos());
    }
}

/// What is copied of an object whose blocks are a run, one after the other, is exactly the bytes
/// of its live blocks: every live block lies inside it, every other block before it.
pub proof fn law_copied_part_holds_live_blocks(
    trim: u64,
    start: u64,
    entries: Seq<DataBlockIndex>,
)
    requires
        entries.len() > 0,
        is_block_run(entries, start as int),
        are_packed(entries),
    ensures
        entries.last().end_pos() - live_from(trim, entries) == live_bytes(trim, entries),
        forall|i: int|
            0 <= i < entries.len() ==> if (#[trigger] entries[i]).end() > trim {
                live_from(trim, entries) <= entries[i].start_position
            } else {
                entries[i].end_pos() <= live_from(trim, entries)
            },
    decreases entries.len(),
{
    let rest = entries.drop_last();
    let last = entries.len() - 1;
    let e = entries.last();
    assert(forall|i: int| 0 <= i < rest.len() ==> rest[i] == entries[i]);
    if e.end() <= trim {
        assert forall|i: int| 0 <= i < entries.len() implies (#[trigger] entries[i]).end()
            <= trim && entries[i].end_pos() <= e.end_pos() by {
            lemma_run_order(entries, start as int, i, last);
        }
        lemma_none_live(trim, entries);
    } else if rest.len() == 0 {
        assert(live_from(trim, rest) == 0 && live_bytes(trim, rest) == 0);
        assert(entries[0] == e);
    } else {
        assert forall|i: int, j: int|
            #![trigger rest[i], rest[j]]
            0 <= i && j == i + 1 && j < rest.len() implies rest[j].start_offset == rest[i].end()
            && rest[j].start_position == rest[i].end_pos() by {
            assert(entries[j].start_offset == entries[i].end());
        }
        assert forall|i: int| 0 <= i < rest.len() implies (#[trigger] rest[i]).size > 0 by {
            assert(entries[i].size > 0);
        }
        law_copied_part_holds_live_blocks(trim, start, rest);
        assert(entries[last].start_position == entries[last - 1].end_pos());
        assert(rest.last() == entries[last - 1]);
        if rest.last().end() > trim {
            assert(live_from(trim, rest) <= rest[last - 1].start_position);
        } else {
            assert(rest[last - 1].end_pos() <= live_from(trim, rest));
        }
        assert(live_from(trim, rest) <= e.start_position) by {
            assert(live_bytes(trim, rest) >= 0) by {
                lemma_live_bytes_positive(trim, rest);
            }
        }
    }
}

proof fn lemma_live_bytes_positive(trim: u64, entries: Seq<DataBlockIndex>)
    ensures
        live_bytes(trim, entries) >= 0,
    decreases entries.len(),
{
    if entries.len() > 0 {
        lemma_live_bytes_positive(trim, entries.drop_last());
    }
}

/// The block ends above the offset.
pub open spec fn reaches(e: DataBlockIndex, x: int) -> bool {
    x < e.start_offset + e.end_offset_delta
}

/// A component of a composite is kept exactly if one of its blocks can hold a record at or
/// above the start of the stream.
pub proof fn law_component_with_live_offset_is_kept(
    entries: Seq<DataBlockIndex>,
    linked: LinkedObject,
    start_offset: u64,
)
    ensures
        component_is_live(entries, linked, start_offset) <==> exists|i: int, x: int|
            #![trigger reaches(entries[i], x)]
            linked.block_start_index <= i < linked.block_end_index && start_offset <= x
                && reaches(entries[i], x),
{
    if component_is_live(entries, linked, start_offset) {
        let i = choose|i: int|
            linked.block_start_index <= i < linked.block_end_index && (#[trigger] entries[i]).end()
                > start_offset;
        assert(reaches(entries[i], entries[i].end() - 1));
    }
}

} // verus!

//! What a log cache holds of a stream across its blocks, and that a read gives it back.
use vstd::prelude::*;

use crate::cache::log_block::{
    block_get, block_put, block_range, block_takes, cache_of, discontinuous, joined_blocks,
    new_block, wrapping_diff, wrapping_sum, BlockModel,
};
use crate::cache::log_cache::{
    archived, begins_above, budget_after_all, cache_put, cleared, freed_of, has_active, is_chained_in,
    is_continuous_in, is_gapless, is_log_read, is_walk, lemma_walk_gapless, lemma_walk_part,
    log_get, marked, merged_from, over_limit, released, stream_in_order, tail_start, walk, without_stream,
    LogCacheModel, MERGE_BLOCK_THRESHOLD,
};
use crate::cache::stream_cache::{
    budget_after, cache_get, cache_ok, empty_cache, holds_offset, is_chained, is_continuous,
    is_read, law_taken_record_keeps_chain, lemma_chain_order, lemma_covering, lemma_joined_chained,
    lemma_serve_end, serve_end, span_fits, starts_at, with_record, CacheModel,
};
use crate::codec::record::{
    is_batch, rec_base_offset, rec_last_offset, rec_size, rec_stream_id,
};

verus! {

/// The records of a stream in a list of blocks, in order.
pub open spec fn stream_records(blocks: Seq<BlockModel>, stream_id: u64) -> Seq<Seq<u8>>
    decreases blocks.len(),
{
    if blocks.len() == 0 {
        Seq::empty()
    } else {
        stream_records(blocks.drop_last(), stream_id) + cache_of(blocks.last(), stream_id).records
    }
}

/// There is an active block, and the stream has no gap in any block.
pub open spec fn is_whole(blocks: Seq<BlockModel>, stream_id: u64) -> bool {
    &&& has_active(blocks)
    &&& forall|i: int| 0 <= i < blocks.len() ==> cache_ok(cache_of(#[trigger] blocks[i], stream_id))
    &&& is_chained_in(blocks, stream_id)
}

/// There is an active block, and the stream is continuous in every block.
pub open spec fn is_sound(blocks: Seq<BlockModel>, stream_id: u64) -> bool {
    &&& has_active(blocks)
    &&& forall|i: int| 0 <= i < blocks.len() ==> cache_ok(cache_of(#[trigger] blocks[i], stream_id))
    &&& is_continuous_in(blocks, stream_id)
}

/// A batch that holds offsets.
pub open spec fn is_filled(record: Seq<u8>) -> bool {
    is_batch(record) && rec_base_offset(record) < rec_last_offset(record)
}

/// A batch that does not end below where it begins.
pub open spec fn is_ascending(record: Seq<u8>) -> bool {
    is_batch(record) && rec_base_offset(record) <= rec_last_offset(record)
}

/// None of the records is empty.
pub open spec fn none_empty(records: Seq<Seq<u8>>) -> bool {
    forall|a: int|
        0 <= a < records.len() ==> rec_base_offset(#[trigger] records[a]) < rec_last_offset(
            records[a],
        )
}

/// A new block takes the record.
pub open spec fn has_room(m: LogCacheModel, record: Seq<u8>) -> bool {
    m.block_max_size > 0 && m.block_max_streams > 0 && span_fits(rec_base_offset(record), record)
}

pub proof fn lemma_records_of_parts(a: Seq<BlockModel>, b: Seq<BlockModel>, stream_id: u64)
    ensures
        stream_records(a + b, stream_id) == stream_records(a, stream_id) + stream_records(
            b,
            stream_id,
        ),
    decreases b.len(),
{
    if b.len() == 0 {
        assert(a + b =~= a);
        assert(stream_records(a, stream_id) + Seq::<Seq<u8>>::empty() =~= stream_records(
            a,
            stream_id,
        ));
    } else {
        lemma_records_of_parts(a, b.drop_last(), stream_id);
        assert((a + b).drop_last() =~= a + b.drop_last());
        assert(stream_records(a + b, stream_id) =~= stream_records(a, stream_id) + stream_records(
            b,
            stream_id,
        ));
    }
}

pub proof fn lemma_records_of_one(b: BlockModel, stream_id: u64)
    ensures
        stream_records(seq![b], stream_id) == cache_of(b, stream_id).records,
{
    assert(seq![b].drop_last() =~= Seq::<BlockModel>::empty());
    assert(stream_records(Seq::<BlockModel>::empty(), stream_id) =~= Seq::empty());
    assert(stream_records(seq![b], stream_id) =~= cache_of(b, stream_id).records);
}

pub proof fn lemma_records_push(blocks: Seq<BlockModel>, b: BlockModel, stream_id: u64)
    ensures
        stream_records(blocks.push(b), stream_id) == stream_records(blocks, stream_id) + cache_of(
            b,
            stream_id,
        ).records,
{
    assert(blocks.push(b).drop_last() =~= blocks);
}

/// Blocks that hold the same of a stream.
proof fn lemma_same_records(a: Seq<BlockModel>, b: Seq<BlockModel>, stream_id: u64)
    requires
        a.len() == b.len(),
        forall|i: int|
            0 <= i < a.len() ==> cache_of(#[trigger] a[i], stream_id) == cache_of(b[i], stream_id),
    ensures
        stream_records(a, stream_id) == stream_records(b, stream_id),
        forall|i: int|
            0 <= i < b.len() ==> cache_of(#[trigger] b[i], stream_id) == cache_of(a[i], stream_id),
    decreases a.len(),
{
    if a.len() > 0 {
        assert forall|i: int| 0 <= i < a.drop_last().len() implies cache_of(
            #[trigger] a.drop_last()[i],
            stream_id,
        ) == cache_of(b.drop_last()[i], stream_id) by {
            assert(a.drop_last()[i] == a[i]);
        }
        lemma_same_records(a.drop_last(), b.drop_last(), stream_id);
        assert(cache_of(a[a.len() - 1], stream_id) == cache_of(b[a.len() - 1], stream_id));
    }
    assert forall|i: int| 0 <= i < b.len() implies cache_of(#[trigger] b[i], stream_id) == cache_of(
        a[i],
        stream_id,
    ) by {
        assert(cache_of(a[i], stream_id) == cache_of(b[i], stream_id));
    }
}

proof fn lemma_records_filled(blocks: Seq<BlockModel>, stream_id: u64)
    requires
        is_continuous_in(blocks, stream_id),
    ensures
        none_empty(stream_records(blocks, stream_id)),
    decreases blocks.len(),
{
    if blocks.len() > 0 {
        let front = blocks.drop_last();
        assert forall|i: int| 0 <= i < front.len() implies is_continuous(
            cache_of(#[trigger] front[i], stream_id),
        ) by {
            assert(front[i] == blocks[i]);
        }
        lemma_records_filled(front, stream_id);
        let c = cache_of(blocks[blocks.len() - 1], stream_id);
        assert(is_continuous(c));
        let r = stream_records(blocks, stream_id);
        let k = stream_records(front, stream_id).len();
        assert forall|a: int| 0 <= a < r.len() implies rec_base_offset(#[trigger] r[a])
            < rec_last_offset(r[a]) by {
            if a < k {
                assert(r[a] == stream_records(front, stream_id)[a]);
            } else {
                assert(r[a] == c.records[a - k]);
            }
        }
    }
}

/// A stream without a gap in any block is continuous in every block where it has no empty
/// records.
proof fn lemma_whole_is_sound(blocks: Seq<BlockModel>, stream_id: u64)
    requires
        is_whole(blocks, stream_id),
        none_empty(stream_records(blocks, stream_id)),
    ensures
        is_sound(blocks, stream_id),
{
    assert forall|i: int| 0 <= i < blocks.len() implies is_continuous(
        cache_of(#[trigger] blocks[i], stream_id),
    ) by {
        let c = cache_of(blocks[i], stream_id);
        let r = stream_records(blocks, stream_id);
        let front = stream_records(blocks.take(i), stream_id);
        assert(is_chained(c));
        assert(blocks =~= blocks.take(i) + seq![blocks[i]] + blocks.skip(i + 1));
        lemma_records_of_parts(
            blocks.take(i) + seq![blocks[i]],
            blocks.skip(i + 1),
            stream_id,
        );
        lemma_records_of_parts(blocks.take(i), seq![blocks[i]], stream_id);
        lemma_records_of_one(blocks[i], stream_id);
        assert forall|a: int| 0 <= a < c.records.len() implies rec_base_offset(
            #[trigger] c.records[a],
        ) < rec_last_offset(c.records[a]) by {
            assert(r[front.len() + a] == c.records[a]);
        }
    }
}

/// What is left of a continuous stream, with records behind it that are not empty, is
/// continuous where it has no gap.
proof fn lemma_suffix_is_sound(
    before: Seq<BlockModel>,
    after: Seq<BlockModel>,
    kept: Seq<Seq<u8>>,
    added: Seq<Seq<u8>>,
    stream_id: u64,
)
    requires
        is_whole(after, stream_id),
        kept.is_suffix_of(stream_records(before, stream_id)),
        none_empty(added),
        stream_records(after, stream_id) == kept + added,
    ensures
        is_sound(before, stream_id) ==> is_sound(after, stream_id),
{
    if is_sound(before, stream_id) {
        lemma_records_filled(before, stream_id);
        let all = stream_records(before, stream_id);
        let r = stream_records(after, stream_id);
        assert forall|a: int| 0 <= a < r.len() implies rec_base_offset(#[trigger] r[a])
            < rec_last_offset(r[a]) by {
            if a < kept.len() {
                assert(r[a] == all[all.len() - kept.len() + a]);
            } else {
                assert(r[a] == added[a - kept.len()]);
            }
        }
        lemma_whole_is_sound(after, stream_id);
    }
}

/// The same records as in a continuous stream, without a gap, are continuous.
proof fn lemma_same_is_sound(before: Seq<BlockModel>, after: Seq<BlockModel>, stream_id: u64)
    requires
        is_whole(after, stream_id),
        stream_records(after, stream_id) == stream_records(before, stream_id),
    ensures
        is_sound(before, stream_id) ==> is_sound(after, stream_id),
{
    if is_sound(before, stream_id) {
        lemma_records_filled(before, stream_id);
        lemma_whole_is_sound(after, stream_id);
    }
}

pub proof fn lemma_suffix_chain(a: Seq<Seq<u8>>, b: Seq<Seq<u8>>, c: Seq<Seq<u8>>)
    requires
        a.is_suffix_of(b),
        b.is_suffix_of(c),
    ensures
        a.is_suffix_of(c),
{
    assert(a =~= c.subrange(c.len() - a.len(), c.len() as int));
}

/// Releasing blocks drops the oldest records of a stream, and none as long as not too much
/// is cached.
pub proof fn lemma_released(m: LogCacheModel, stream_id: u64)
    requires
        is_whole(m.blocks, stream_id),
    ensures
        is_whole(released(m).blocks, stream_id),
        is_sound(m.blocks, stream_id) ==> is_sound(released(m).blocks, stream_id),
        released(m).blocks.last() == m.blocks.last(),
        released(m).blocks.len() <= m.blocks.len(),
        released(m).block_max_size == m.block_max_size,
        released(m).block_max_streams == m.block_max_streams,
        released(m).capacity == m.capacity,
        !over_limit(m.capacity, m.size, m.blocks.len()) ==> released(m) == m,
        stream_records(released(m).blocks, stream_id).is_suffix_of(
            stream_records(m.blocks, stream_id),
        ),
    decreases m.blocks.len(),
{
    let all = stream_records(m.blocks, stream_id);
    if over_limit(m.capacity, m.size, m.blocks.len()) && m.blocks[0].free {
        assert(m.blocks.len() > 1);
        let next = LogCacheModel {
            blocks: m.blocks.skip(1),
            size: wrapping_diff(m.size as int, m.blocks[0].size as int),
            freed: m.freed.push(freed_of(m.blocks[0])),
            ..m
        };
        assert(next.blocks.last() == m.blocks.last());
        assert forall|i: int| 0 <= i < next.blocks.len() implies cache_ok(
            cache_of(#[trigger] next.blocks[i], stream_id),
        ) && is_chained(cache_of(next.blocks[i], stream_id)) by {
            assert(next.blocks[i] == m.blocks[i + 1]);
        }
        lemma_released(next, stream_id);
        assert(m.blocks =~= seq![m.blocks[0]] + m.blocks.skip(1));
        lemma_records_of_parts(seq![m.blocks[0]], m.blocks.skip(1), stream_id);
        let rest = stream_records(next.blocks, stream_id);
        assert(rest =~= all.subrange(all.len() - rest.len(), all.len() as int));
        lemma_suffix_chain(stream_records(released(m).blocks, stream_id), rest, all);
    } else {
        assert(all =~= all.subrange(0, all.len() as int));
    }
    let kept = stream_records(released(m).blocks, stream_id);
    assert(kept =~= kept + Seq::<Seq<u8>>::empty());
    lemma_suffix_is_sound(m.blocks, released(m).blocks, kept, Seq::empty(), stream_id);
}

/// Marking a sealed block free changes nothing of what is held.
pub proof fn lemma_marked(blocks: Seq<BlockModel>, id: u64, stream_id: u64)
    requires
        is_whole(blocks, stream_id),
    ensures
        is_whole(marked(blocks, id), stream_id),
        is_sound(blocks, stream_id) ==> is_sound(marked(blocks, id), stream_id),
        marked(blocks, id).last() == blocks.last(),
        marked(blocks, id).len() == blocks.len(),
        stream_records(marked(blocks, id), stream_id) == stream_records(blocks, stream_id),
{
    let n = marked(blocks, id);
    assert forall|i: int| 0 <= i < n.len() implies cache_of(#[trigger] n[i], stream_id) == cache_of(
        blocks[i],
        stream_id,
    ) by {
        assert(n[i].streams == blocks[i].streams);
    }
    lemma_same_records(n, blocks, stream_id);
    assert forall|i: int| 0 <= i < n.len() implies cache_ok(cache_of(#[trigger] n[i], stream_id))
        && is_chained(cache_of(n[i], stream_id)) by {
        assert(cache_ok(cache_of(blocks[i], stream_id)));
    }
    lemma_same_is_sound(blocks, n, stream_id);
}

/// Merging free blocks changes nothing of what is held.
pub proof fn lemma_merged(m: LogCacheModel, i: int, stream_id: u64)
    requires
        is_whole(m.blocks, stream_id),
    ensures
        is_whole(merged_from(m, i).blocks, stream_id),
        is_sound(m.blocks, stream_id) ==> is_sound(merged_from(m, i).blocks, stream_id),
        merged_from(m, i).blocks.last() == m.blocks.last(),
        merged_from(m, i).blocks.len() <= m.blocks.len(),
        merged_from(m, i).block_max_size == m.block_max_size,
        merged_from(m, i).block_max_streams == m.block_max_streams,
        merged_from(m, i).capacity == m.capacity,
        merged_from(m, i).size == m.size,
        stream_records(merged_from(m, i).blocks, stream_id) == stream_records(m.blocks, stream_id),
    decreases m.blocks.len(), m.blocks.len() - i,
{
    if !(i < 0 || m.blocks.len() <= MERGE_BLOCK_THRESHOLD || i + 1 >= m.blocks.len()) {
        let a = m.blocks[i];
        let b = m.blocks[i + 1];
        if a.free && b.free {
            if a.size + b.size >= m.block_max_size || discontinuous(a, b) {
                lemma_merged(m, i + 1, stream_id);
            } else {
                let joined = joined_blocks(a, b, m.next_block_id);
                let next = LogCacheModel {
                    blocks: m.blocks.update(i, joined).remove(i + 1),
                    next_block_id: wrapping_sum(m.next_block_id as int, 1),
                    ..m
                };
                let head = m.blocks.take(i);
                let tail = m.blocks.skip(i + 2);
                assert(next.blocks =~= head + seq![joined] + tail);
                assert(m.blocks =~= head + seq![a, b] + tail);
                assert(seq![a, b] =~= seq![a].push(b));
                lemma_records_of_parts(head + seq![joined], tail, stream_id);
                lemma_records_of_parts(head, seq![joined], stream_id);
                lemma_records_of_parts(head + seq![a, b], tail, stream_id);
                lemma_records_of_parts(head, seq![a, b], stream_id);
                lemma_records_of_one(joined, stream_id);
                lemma_records_of_one(a, stream_id);
                lemma_records_push(seq![a], b, stream_id);
                let ca = cache_of(a, stream_id);
                let cb = cache_of(b, stream_id);
                let cj = cache_of(joined, stream_id);
                assert(cache_ok(ca) && is_chained(ca) && cache_ok(cb) && is_chained(cb));
                assert(cj.records =~= ca.records + cb.records);
                if a.streams.contains_key(stream_id) && b.streams.contains_key(stream_id) {
                    assert(a.streams[stream_id].end == b.streams[stream_id].start);
                    lemma_joined_chained(ca, cb);
                    assert forall|j: int| 0 <= j < cj.records.len() implies is_batch(
                        #[trigger] cj.records[j],
                    ) by {
                        if j < ca.records.len() {
                            assert(cj.records[j] == ca.records[j]);
                        } else {
                            assert(cj.records[j] == cb.records[j - ca.records.len()]);
                        }
                    }
                }
                assert(cache_ok(cj) && is_chained(cj));
                assert(next.blocks.last() == m.blocks.last()) by {
                    assert(!m.blocks.last().free);
                    if i + 2 == m.blocks.len() {
                        assert(m.blocks.last() == b);
                    }
                }
                assert forall|j: int| 0 <= j < next.blocks.len() implies cache_ok(
                    cache_of(#[trigger] next.blocks[j], stream_id),
                ) && is_chained(cache_of(next.blocks[j], stream_id)) by {
                    if j < i {
                        assert(next.blocks[j] == m.blocks[j]);
                    } else if j > i {
                        assert(next.blocks[j] == m.blocks[j + 1]);
                    }
                }
                lemma_merged(next, i, stream_id);
                lemma_same_is_sound(m.blocks, merged_from(m, i).blocks, stream_id);
            }
        }
    }
}

/// Sealing the active block changes nothing of what is held.
pub proof fn lemma_archived(m: LogCacheModel, stream_id: u64)
    requires
        is_whole(m.blocks, stream_id),
    ensures
        is_whole(archived(m).blocks, stream_id),
        is_sound(m.blocks, stream_id) ==> is_sound(archived(m).blocks, stream_id),
        archived(m).blocks.last() == new_block(
            m.next_block_id,
            m.block_max_size,
            m.block_max_streams,
        ),
        archived(m).blocks.len() == m.blocks.len() + 1,
        stream_records(archived(m).blocks, stream_id) == stream_records(m.blocks, stream_id),
{
    let n = m.blocks.len() - 1;
    let all = archived(m).blocks;
    let fresh = new_block(m.next_block_id, m.block_max_size, m.block_max_streams);
    let sealed = all.drop_last();
    assert(all =~= sealed.push(fresh));
    assert forall|i: int| 0 <= i < sealed.len() implies cache_of(#[trigger] sealed[i], stream_id)
        == cache_of(m.blocks[i], stream_id) by {
        assert(sealed[i].streams == m.blocks[i].streams);
    }
    lemma_same_records(sealed, m.blocks, stream_id);
    lemma_records_push(sealed, fresh, stream_id);
    assert(cache_of(fresh, stream_id) == empty_cache());
    assert(stream_records(all, stream_id) =~= stream_records(m.blocks, stream_id));
    assert forall|i: int| 0 <= i < all.len() implies cache_ok(
        cache_of(#[trigger] all[i], stream_id),
    ) && is_chained(cache_of(all[i], stream_id)) by {
        if i < sealed.len() {
            assert(all[i] == sealed[i]);
            assert(cache_ok(cache_of(m.blocks[i], stream_id)));
        }
    }
    lemma_same_is_sound(m.blocks, all, stream_id);
}

/// A put adds the record behind what is held of its stream, if the active block takes it.
pub proof fn lemma_cache_put(m: LogCacheModel, record: Seq<u8>, stream_id: u64)
    requires
        is_whole(m.blocks, stream_id),
        is_ascending(record),
    ensures
        is_whole(cache_put(m, record).blocks, stream_id),
        is_sound(m.blocks, stream_id) && is_filled(record) ==> is_sound(
            cache_put(m, record).blocks,
            stream_id,
        ),
        cache_put(m, record).block_max_size == m.block_max_size,
        cache_put(m, record).block_max_streams == m.block_max_streams,
        cache_put(m, record).capacity == m.capacity,
        cache_put(m, record).blocks.len() <= m.blocks.len(),
        !block_takes(m.blocks.last(), record) && !over_limit(m.capacity, m.size, m.blocks.len())
            ==> cache_put(m, record).size == m.size,
        stream_records(cache_put(m, record).blocks, stream_id) == stream_records(
            released(m).blocks,
            stream_id,
        ) + (if block_takes(m.blocks.last(), record) && rec_stream_id(record) == stream_id {
            seq![record]
        } else {
            Seq::<Seq<u8>>::empty()
        }),
{
    lemma_released(m, stream_id);
    let r = released(m).blocks;
    let k = r.len() - 1;
    let front = r.take(k);
    let b = r[k];
    let b2 = block_put(b, record);
    let n = cache_put(m, record).blocks;
    assert(r =~= front.push(b));
    assert(n =~= front.push(b2));
    lemma_records_push(front, b, stream_id);
    lemma_records_push(front, b2, stream_id);
    let c = cache_of(b, stream_id);
    let c2 = cache_of(b2, stream_id);
    assert(cache_ok(c) && is_chained(c));
    if block_takes(b, record) && rec_stream_id(record) == stream_id {
        assert(c2 == with_record(c, record));
        law_taken_record_keeps_chain(c, record);
        assert forall|j: int| 0 <= j < c2.records.len() implies is_batch(
            #[trigger] c2.records[j],
        ) by {
            if j < c.records.len() {
                assert(c2.records[j] == c.records[j]);
            }
        }
        assert(stream_records(n, stream_id) =~= stream_records(r, stream_id) + seq![record]);
    } else {
        assert(c2 == c);
        assert(stream_records(n, stream_id) =~= stream_records(r, stream_id)
            + Seq::<Seq<u8>>::empty());
    }
    assert(n.last() == b2);
    assert forall|i: int| 0 <= i < n.len() implies cache_ok(cache_of(#[trigger] n[i], stream_id))
        && is_chained(cache_of(n[i], stream_id)) by {
        if i < k {
            assert(n[i] == r[i]);
        }
    }
    if is_filled(record) {
        let added = if block_takes(b, record) && rec_stream_id(record) == stream_id {
            seq![record]
        } else {
            Seq::<Seq<u8>>::empty()
        };
        lemma_suffix_is_sound(m.blocks, n, stream_records(r, stream_id), added, stream_id);
    }
}

/// A put leaves no gap in any stream: it drops the oldest records of a stream at most, and
/// adds the record behind what is held of its own stream, if the active block takes it. One
/// that is not empty keeps every stream continuous.
pub proof fn law_put_extends_stream(m: LogCacheModel, record: Seq<u8>, stream_id: u64)
    requires
        is_whole(m.blocks, stream_id),
        is_ascending(record),
    ensures
        is_whole(cache_put(m, record).blocks, stream_id),
        is_sound(m.blocks, stream_id) && is_filled(record) ==> is_sound(
            cache_put(m, record).blocks,
            stream_id,
        ),
        ({
            let before = stream_records(m.blocks, stream_id);
            let after = stream_records(cache_put(m, record).blocks, stream_id);
            if block_takes(m.blocks.last(), record) && rec_stream_id(record) == stream_id {
                after.len() > 0 && after.last() == record && after.drop_last().is_suffix_of(before)
            } else {
                after.is_suffix_of(before)
            }
        }),
{
    lemma_released(m, stream_id);
    lemma_cache_put(m, record, stream_id);
    let kept = stream_records(released(m).blocks, stream_id);
    let after = stream_records(cache_put(m, record).blocks, stream_id);
    if block_takes(m.blocks.last(), record) && rec_stream_id(record) == stream_id {
        assert(after.drop_last() =~= kept);
    } else {
        assert(after =~= kept);
    }
}

/// Sealing the active block keeps what is held of every stream, and so does giving a block
/// back, but for the oldest records where too much is cached.
pub proof fn law_sealing_keeps_streams(m: LogCacheModel, block_id: u64, stream_id: u64)
    requires
        is_whole(m.blocks, stream_id),
    ensures
        is_whole(archived(m).blocks, stream_id),
        is_sound(m.blocks, stream_id) ==> is_sound(archived(m).blocks, stream_id),
        stream_records(archived(m).blocks, stream_id) == stream_records(m.blocks, stream_id),
        ({
            let marks = LogCacheModel { blocks: marked(m.blocks, block_id), ..m };
            let after = merged_from(released(marks), 0).blocks;
            &&& is_whole(after, stream_id)
            &&& is_sound(m.blocks, stream_id) ==> is_sound(after, stream_id)
            &&& stream_records(after, stream_id).is_suffix_of(stream_records(m.blocks, stream_id))
            &&& !over_limit(m.capacity, m.size, m.blocks.len()) ==> stream_records(after, stream_id)
                == stream_records(m.blocks, stream_id)
        }),
{
    lemma_archived(m, stream_id);
    let marks = LogCacheModel { blocks: marked(m.blocks, block_id), ..m };
    lemma_marked(m.blocks, block_id, stream_id);
    lemma_released(marks, stream_id);
    lemma_merged(released(marks), 0, stream_id);
}

/// Dropping a stream leaves the others as they are.
pub proof fn law_clearing_spares_other_streams(m: LogCacheModel, cleared_id: u64, stream_id: u64)
    requires
        is_whole(m.blocks, stream_id) || (has_active(m.blocks) && cleared_id == stream_id),
    ensures
        is_whole(cleared(m, cleared_id).blocks, stream_id),
        is_sound(m.blocks, stream_id) || cleared_id == stream_id ==> is_sound(
            cleared(m, cleared_id).blocks,
            stream_id,
        ),
        stream_records(cleared(m, cleared_id).blocks, stream_id) == (if cleared_id == stream_id {
            Seq::<Seq<u8>>::empty()
        } else {
            stream_records(m.blocks, stream_id)
        }),
    decreases m.blocks.len(),
{
    let n = cleared(m, cleared_id).blocks;
    assert(n.last() == without_stream(m.blocks.last(), cleared_id));
    if cleared_id == stream_id {
        assert forall|i: int| 0 <= i < n.len() implies cache_of(#[trigger] n[i], stream_id)
            == empty_cache() by {
            assert(n[i] == without_stream(m.blocks[i], cleared_id));
        }
        lemma_no_records(n, stream_id);
    } else {
        assert forall|i: int| 0 <= i < n.len() implies cache_of(#[trigger] n[i], stream_id)
            == cache_of(m.blocks[i], stream_id) by {
            assert(n[i] == without_stream(m.blocks[i], cleared_id));
        }
        lemma_same_records(n, m.blocks, stream_id);
        assert forall|i: int| 0 <= i < n.len() implies cache_ok(
            cache_of(#[trigger] n[i], stream_id),
        ) && is_chained(cache_of(n[i], stream_id)) by {
            assert(cache_ok(cache_of(m.blocks[i], stream_id)));
        }
        lemma_same_is_sound(m.blocks, n, stream_id);
    }
}

proof fn lemma_no_records(blocks: Seq<BlockModel>, stream_id: u64)
    requires
        forall|i: int|
            0 <= i < blocks.len() ==> cache_of(#[trigger] blocks[i], stream_id) == empty_cache(),
    ensures
        stream_records(blocks, stream_id) == Seq::<Seq<u8>>::empty(),
    decreases blocks.len(),
{
    if blocks.len() > 0 {
        assert forall|i: int| 0 <= i < blocks.drop_last().len() implies cache_of(
            #[trigger] blocks.drop_last()[i],
            stream_id,
        ) == empty_cache() by {
            assert(blocks.drop_last()[i] == blocks[i]);
        }
        lemma_no_records(blocks.drop_last(), stream_id);
        assert(cache_of(blocks[blocks.len() - 1], stream_id) == empty_cache());
        assert(stream_records(blocks, stream_id) =~= Seq::empty());
    }
}

/// Payload bytes of a list of records.
pub open spec fn payload_bytes(records: Seq<Seq<u8>>) -> int
    decreases records.len(),
{
    if records.len() == 0 {
        0
    } else {
        payload_bytes(records.drop_last()) + rec_size(records.last())
    }
}

pub proof fn lemma_payload_parts(a: Seq<Seq<u8>>, b: Seq<Seq<u8>>)
    ensures
        payload_bytes(a + b) == payload_bytes(a) + payload_bytes(b),
        payload_bytes(b) >= 0,
    decreases b.len(),
{
    if b.len() == 0 {
        assert(a + b =~= a);
    } else {
        lemma_payload_parts(a, b.drop_last());
        assert((a + b).drop_last() =~= a + b.drop_last());
    }
}

/// Part of the records has no more bytes than all of them.
pub proof fn lemma_payload_within(records: Seq<Seq<u8>>, k: int)
    requires
        0 <= k < records.len(),
    ensures
        payload_bytes(records.subrange(k, records.len() - 1)) <= payload_bytes(records),
{
    let front = records.take(k);
    let mid = records.subrange(k, records.len() - 1);
    assert(records.drop_last() =~= front + mid);
    lemma_payload_parts(front, mid);
    lemma_payload_parts(Seq::empty(), front);
}

proof fn lemma_budget_left(budget: int, records: Seq<Seq<u8>>)
    requires
        budget > payload_bytes(records),
    ensures
        budget_after_all(budget, records) == budget - payload_bytes(records),
        payload_bytes(records) >= 0,
    decreases records.len(),
{
    if records.len() > 0 {
        lemma_budget_left(budget, records.drop_last());
    }
}

/// Serving does not stop before the last record, where no earlier one reaches the end and
/// the budget lasts.
proof fn lemma_serve_all(records: Seq<Seq<u8>>, i: int, end: u64, budget: int)
    requires
        0 <= i < records.len(),
        forall|a: int|
            i <= a < records.len() - 1 ==> rec_last_offset(#[trigger] records[a]) < end,
        i == records.len() - 1 || budget > payload_bytes(
            records.subrange(i, records.len() - 1),
        ),
    ensures
        serve_end(records, i, end, budget) == records.len(),
    decreases records.len() - i,
{
    if i < records.len() - 1 {
        let part = records.subrange(i, records.len() - 1);
        let rest = records.subrange(i + 1, records.len() - 1);
        assert(part =~= seq![records[i]] + rest);
        lemma_payload_parts(seq![records[i]], rest);
        assert(seq![records[i]].drop_last() =~= Seq::<Seq<u8>>::empty());
        assert(payload_bytes(Seq::<Seq<u8>>::empty()) == 0);
        assert(payload_bytes(seq![records[i]]) == rec_size(records[i]));
        lemma_serve_all(records, i + 1, end, budget_after(budget, records[i]));
    } else {
        assert(serve_end(records, i + 1, end, budget_after(budget, records[i])) == i + 1);
    }
}

/// Offsets only grow along filled records without a gap.
proof fn lemma_gapless_order(r: Seq<Seq<u8>>, i: int, j: int)
    requires
        is_gapless(r),
        forall|a: int|
            0 <= a < r.len() ==> rec_base_offset(#[trigger] r[a]) <= rec_last_offset(r[a]),
        0 <= i < j < r.len(),
    ensures
        rec_last_offset(r[i]) <= rec_base_offset(r[j]),
    decreases j - i,
{
    assert(rec_base_offset(r[j]) == rec_last_offset(r[j - 1]));
    if i < j - 1 {
        lemma_gapless_order(r, i, j - 1);
        assert(rec_base_offset(r[j - 1]) <= rec_last_offset(r[j - 1]));
    }
}

/// What one block gives of the records from it on, of which the one at `k` holds the offset.
proof fn lemma_block_reads(c: CacheModel, rest: Seq<Seq<u8>>, k: int, next: u64, budget: int)
    requires
        cache_ok(c),
        is_continuous(c),
        ({
            let r = c.records + rest;
            &&& is_gapless(r)
            &&& none_empty(r)
            &&& 0 <= k < r.len()
            &&& holds_offset(r[k], next)
            &&& k == r.len() - 1 || budget > payload_bytes(r.subrange(k, r.len() - 1))
        }),
    ensures
        ({
            let r = c.records + rest;
            let n = c.records.len() as int;
            let end = rec_last_offset(r.last());
            let part = cache_get(c, next, end, budget);
            if k >= n {
                part.len() == 0
            } else {
                &&& part == c.records.subrange(k, n)
                &&& part.last() == r[n - 1]
                &&& n < r.len() ==> {
                    &&& rec_last_offset(r[n - 1]) < end
                    &&& holds_offset(r[n], rec_last_offset(r[n - 1]))
                    &&& budget_after_all(budget, part) > payload_bytes(r.subrange(n, r.len() - 1))
                    &&& budget_after_all(budget, part) > 0
                }
            }
        }),
{
    let r = c.records + rest;
    let n = c.records.len() as int;
    let end = rec_last_offset(r.last());
    if k >= n {
        if n > 0 {
            assert(c.records.last() == r[n - 1]);
            lemma_gapless_order(r, n - 1, k);
        }
    } else {
        assert(c.records[k] == r[k]);
        assert(c.records[0] == r[0]);
        assert(c.records.last() == r[n - 1]);
        lemma_chain_order(c, 0, k);
        lemma_chain_order(c, k, n - 1);
        lemma_covering(c, next);
        assert(holds_offset(c.records[k], next));
        assert forall|a: int| k <= a < n - 1 implies rec_last_offset(#[trigger] c.records[a])
            < end by {
            assert(c.records[a] == r[a]);
            lemma_gapless_order(r, a, r.len() - 1);
            assert(rec_base_offset(r[r.len() - 1]) < rec_last_offset(r[r.len() - 1]));
        }
        if k < n - 1 {
            let front = c.records.subrange(k, n - 1);
            assert(r.subrange(k, r.len() - 1) =~= front + r.subrange(n - 1, r.len() - 1));
            lemma_payload_parts(front, r.subrange(n - 1, r.len() - 1));
        }
        lemma_serve_all(c.records, k, end, budget);
        let mine = c.records.subrange(k, n);
        assert(mine.last() == r[n - 1]);
        if n < r.len() {
            lemma_gapless_order(r, n - 1, r.len() - 1);
            assert(rec_base_offset(r[r.len() - 1]) < rec_last_offset(r[r.len() - 1]));
            let later = r.subrange(n, r.len() - 1);
            assert(r.subrange(k, r.len() - 1) =~= mine + later);
            lemma_payload_parts(mine, later);
            lemma_budget_left(budget, mine);
            assert(rec_base_offset(r[n]) == rec_last_offset(r[n - 1]));
            assert(rec_base_offset(r[n]) < rec_last_offset(r[n]));
        }
    }
}

/// The records from a block on: those of the block, then those of the blocks behind it.
proof fn lemma_records_split(blocks: Seq<BlockModel>, i: int, stream_id: u64)
    requires
        0 <= i < blocks.len(),
        is_gapless(stream_records(blocks.skip(i), stream_id)),
    ensures
        stream_records(blocks.skip(i), stream_id) == cache_of(blocks[i], stream_id).records
            + stream_records(blocks.skip(i + 1), stream_id),
        is_gapless(stream_records(blocks.skip(i + 1), stream_id)),
{
    let r = stream_records(blocks.skip(i), stream_id);
    let rest = stream_records(blocks.skip(i + 1), stream_id);
    let n = cache_of(blocks[i], stream_id).records.len() as int;
    assert(blocks.skip(i) =~= seq![blocks[i]] + blocks.skip(i + 1));
    lemma_records_of_parts(seq![blocks[i]], blocks.skip(i + 1), stream_id);
    lemma_records_of_one(blocks[i], stream_id);
    assert forall|a: int, b: int|
        #![trigger rest[a], rest[b]]
        0 <= a && b == a + 1 && b < rest.len() implies rec_base_offset(rest[b]) == rec_last_offset(
        rest[a],
    ) by {
        assert(rest[a] == r[n + a] && rest[b] == r[n + b]);
    }
}

/// The records from a block on, none of which is empty.
proof fn lemma_records_from(blocks: Seq<BlockModel>, i: int, stream_id: u64)
    requires
        0 <= i < blocks.len(),
        is_continuous_in(blocks, stream_id),
        is_gapless(stream_records(blocks.skip(i), stream_id)),
    ensures
        stream_records(blocks.skip(i), stream_id) == cache_of(blocks[i], stream_id).records
            + stream_records(blocks.skip(i + 1), stream_id),
        is_gapless(stream_records(blocks.skip(i + 1), stream_id)),
        none_empty(stream_records(blocks.skip(i), stream_id)),
{
    lemma_records_split(blocks, i, stream_id);
    assert forall|j: int| 0 <= j < blocks.skip(i).len() implies is_continuous(
        cache_of(#[trigger] blocks.skip(i)[j], stream_id),
    ) by {
        assert(blocks.skip(i)[j] == blocks[i + j]);
    }
    lemma_records_filled(blocks.skip(i), stream_id);
}

#[verifier::spinoff_prover]
#[verifier::rlimit(30)]
proof fn lemma_walk_reads(
    blocks: Seq<BlockModel>,
    i: int,
    stream_id: u64,
    k: int,
    next: u64,
    budget: int,
)
    requires
        0 <= i <= blocks.len(),
        forall|j: int|
            0 <= j < blocks.len() ==> cache_ok(cache_of(#[trigger] blocks[j], stream_id)),
        is_continuous_in(blocks, stream_id),
        ({
            let r = stream_records(blocks.skip(i), stream_id);
            &&& is_gapless(r)
            &&& 0 <= k < r.len()
            &&& holds_offset(r[k], next)
            &&& k == r.len() - 1 || budget > payload_bytes(r.subrange(k, r.len() - 1))
        }),
    ensures
        ({
            let r = stream_records(blocks.skip(i), stream_id);
            walk(blocks, i, stream_id, next, rec_last_offset(r.last()), budget) == (r.skip(k), true)
        }),
    decreases blocks.len() - i,
{
    let r = stream_records(blocks.skip(i), stream_id);
    let end = rec_last_offset(r.last());
    if i == blocks.len() {
        assert(blocks.skip(i).len() == 0);
    } else {
        let c = cache_of(blocks[i], stream_id);
        let n = c.records.len() as int;
        let rest = stream_records(blocks.skip(i + 1), stream_id);
        lemma_records_from(blocks, i, stream_id);
        lemma_block_reads(c, rest, k, next, budget);
        let part = block_get(blocks[i], stream_id, next, end, budget);
        if k >= n {
            assert(rest[k - n] == r[k]);
            assert(rest.last() == r.last());
            assert(rest.subrange(k - n, rest.len() - 1) =~= r.subrange(k, r.len() - 1));
            lemma_walk_reads(blocks, i + 1, stream_id, k - n, next, budget);
            assert(rest.skip(k - n) =~= r.skip(k));
        } else if n == r.len() {
            assert(r.skip(k) =~= part);
        } else {
            assert(rest[0] == r[n]);
            assert(rest.last() == r.last());
            assert(rest.subrange(0, rest.len() - 1) =~= r.subrange(n, r.len() - 1));
            let reached = rec_last_offset(r[n - 1]);
            lemma_walk_reads(
                blocks,
                i + 1,
                stream_id,
                0,
                reached,
                budget_after_all(budget, part),
            );
            assert(r.skip(k) =~= part + rest.skip(0));
        }
    }
}

/// What is held of a stream without a gap is read back: a read from an offset up to the end
/// of the stream gives every record from the one that holds the offset on, if the budget
/// lasts for all of them but the last.
pub proof fn law_held_records_are_read_back(
    blocks: Seq<BlockModel>,
    stream_id: u64,
    k: int,
    start: u64,
    budget: int,
)
    requires
        is_sound(blocks, stream_id),
        is_gapless(stream_records(blocks, stream_id)),
        0 <= k < stream_records(blocks, stream_id).len(),
        holds_offset(stream_records(blocks, stream_id)[k], start),
        k == stream_records(blocks, stream_id).len() - 1 || budget > payload_bytes(
            stream_records(blocks, stream_id).subrange(
                k,
                stream_records(blocks, stream_id).len() - 1,
            ),
        ),
    ensures
        log_get(
            blocks,
            stream_id,
            start,
            rec_last_offset(stream_records(blocks, stream_id).last()),
            budget,
        ) == stream_records(blocks, stream_id).skip(k),
{
    assert(blocks.skip(0) =~= blocks);
    lemma_walk_reads(blocks, 0, stream_id, k, start, budget);
}

proof fn lemma_records_ascend(blocks: Seq<BlockModel>, i: int, stream_id: u64)
    requires
        0 <= i <= blocks.len(),
        is_chained_in(blocks, stream_id),
        is_gapless(stream_records(blocks.skip(i), stream_id)),
    ensures
        forall|a: int|
            0 <= a < stream_records(blocks.skip(i), stream_id).len() ==> rec_base_offset(
                #[trigger] stream_records(blocks.skip(i), stream_id)[a],
            ) <= rec_last_offset(stream_records(blocks.skip(i), stream_id)[a]),
    decreases blocks.len() - i,
{
    let r = stream_records(blocks.skip(i), stream_id);
    if i == blocks.len() {
        assert(blocks.skip(i).len() == 0);
    } else {
        let c = cache_of(blocks[i], stream_id);
        let n = c.records.len() as int;
        assert(is_chained(c));
        lemma_records_split(blocks, i, stream_id);
        lemma_records_ascend(blocks, i + 1, stream_id);
        let rest = stream_records(blocks.skip(i + 1), stream_id);
        assert forall|a: int| 0 <= a < r.len() implies rec_base_offset(#[trigger] r[a])
            <= rec_last_offset(r[a]) by {
            if a < n {
                assert(r[a] == c.records[a]);
            } else {
                assert(r[a] == rest[a - n]);
            }
        }
    }
}

/// The first record of a block is one of the records from an older block on.
proof fn lemma_first_of_block(blocks: Seq<BlockModel>, i: int, j: int, stream_id: u64) -> (a: int)
    requires
        0 <= i <= j < blocks.len(),
        is_gapless(stream_records(blocks.skip(i), stream_id)),
        cache_of(blocks[j], stream_id).records.len() > 0,
    ensures
        0 <= a < stream_records(blocks.skip(i), stream_id).len(),
        stream_records(blocks.skip(i), stream_id)[a] == cache_of(blocks[j], stream_id).records[0],
    decreases j - i,
{
    lemma_records_split(blocks, i, stream_id);
    if i == j {
        0
    } else {
        let n = cache_of(blocks[i], stream_id).records.len() as int;
        let a = lemma_first_of_block(blocks, i + 1, j, stream_id);
        n + a
    }
}

/// What the blocks from one on hold has no gap where what all hold has none.
proof fn lemma_gapless_from(blocks: Seq<BlockModel>, i: int, stream_id: u64)
    requires
        0 <= i <= blocks.len(),
        is_gapless(stream_records(blocks, stream_id)),
    ensures
        is_gapless(stream_records(blocks.skip(i), stream_id)),
    decreases i,
{
    if i == 0 {
        assert(blocks.skip(0) =~= blocks);
    } else {
        lemma_gapless_from(blocks, i - 1, stream_id);
        lemma_records_split(blocks, i - 1, stream_id);
    }
}

/// A stream without a gap over all blocks is in order.
proof fn lemma_gapless_in_order(blocks: Seq<BlockModel>, stream_id: u64)
    requires
        forall|i: int|
            0 <= i < blocks.len() ==> cache_ok(cache_of(#[trigger] blocks[i], stream_id)),
        is_chained_in(blocks, stream_id),
        is_gapless(stream_records(blocks, stream_id)),
    ensures
        stream_in_order(blocks, stream_id),
{
    assert forall|i: int, j: int|
        #![trigger blocks[i], blocks[j]]
        0 <= i < j < blocks.len() implies match (
        block_range(blocks[i], stream_id),
        block_range(blocks[j], stream_id),
    ) {
        (Some(a), Some(b)) => a.1 <= b.0,
        _ => true,
    } by {
        let c = cache_of(blocks[i], stream_id);
        let d = cache_of(blocks[j], stream_id);
        let n = c.records.len() as int;
        assert(cache_ok(c) && is_chained(c) && cache_ok(d) && is_chained(d));
        if n > 0 && d.records.len() > 0 {
            lemma_gapless_from(blocks, i, stream_id);
            lemma_records_split(blocks, i, stream_id);
            lemma_records_ascend(blocks, i, stream_id);
            let r = stream_records(blocks.skip(i), stream_id);
            let a = lemma_first_of_block(blocks, i + 1, j, stream_id);
            assert(r[n - 1] == c.records.last());
            assert(r[n + a] == d.records[0]);
            lemma_gapless_order(r, n - 1, n + a);
        }
    }
}

/// A budget after two lists is what is left of it after the first, after the second.
proof fn lemma_budget_parts(budget: int, a: Seq<Seq<u8>>, b: Seq<Seq<u8>>)
    ensures
        budget_after_all(budget, a + b) == budget_after_all(budget_after_all(budget, a), b),
    decreases b.len(),
{
    if b.len() == 0 {
        assert(a + b =~= a);
    } else {
        assert((a + b).drop_last() =~= a + b.drop_last());
        lemma_budget_parts(budget, a, b.drop_last());
    }
}

/// Serving records stops at their end, at the offset to reach, or with the budget used up.
proof fn lemma_serve_stop(records: Seq<Seq<u8>>, i: int, end: u64, budget: int)
    requires
        0 <= i < records.len(),
    ensures
        ({
            let e = serve_end(records, i, end, budget);
            ||| e == records.len()
            ||| rec_last_offset(records[e - 1]) >= end
            ||| budget_after_all(budget, records.subrange(i, e)) == 0
        }),
    decreases records.len() - i,
{
    let left = budget_after(budget, records[i]);
    let one = seq![records[i]];
    let e = serve_end(records, i, end, budget);
    lemma_serve_end(records, i, end, budget);
    assert(one.drop_last() =~= Seq::empty());
    assert(budget_after_all(budget, one) == left) by {
        reveal_with_fuel(budget_after_all, 2);
    }
    if rec_last_offset(records[i]) >= end || left == 0 {
        assert(records.subrange(i, e) =~= one);
    } else if i + 1 < records.len() {
        lemma_serve_stop(records, i + 1, end, left);
        assert(records.subrange(i, e) =~= one + records.subrange(i + 1, e));
        lemma_budget_parts(budget, one, records.subrange(i + 1, e));
    }
}

proof fn lemma_find_holder(r: Seq<Seq<u8>>, offset: u64, n: int) -> (k: int)
    requires
        is_gapless(r),
        0 < n <= r.len(),
        rec_base_offset(r[0]) <= offset < rec_last_offset(r[n - 1]),
    ensures
        0 <= k < n,
        holds_offset(r[k], offset),
    decreases n,
{
    if rec_base_offset(r[n - 1]) <= offset {
        n - 1
    } else {
        assert(n > 1);
        assert(rec_base_offset(r[n - 1]) == rec_last_offset(r[n - 2]));
        lemma_find_holder(r, offset, n - 1)
    }
}

#[verifier::spinoff_prover]
#[verifier::rlimit(30)]
proof fn lemma_walk_serves(
    blocks: Seq<BlockModel>,
    i: int,
    stream_id: u64,
    k: int,
    next: u64,
    end: u64,
    budget: int,
    r: Seq<Seq<u8>>,
    fulfilled: bool,
)
    requires
        0 <= i <= blocks.len(),
        forall|j: int|
            0 <= j < blocks.len() ==> cache_ok(cache_of(#[trigger] blocks[j], stream_id)),
        is_chained_in(blocks, stream_id),
        ({
            let held = stream_records(blocks.skip(i), stream_id);
            &&& is_gapless(held)
            &&& 0 <= k < held.len()
            &&& holds_offset(held[k], next)
            &&& end <= rec_last_offset(held.last())
        }),
        is_walk(blocks, i, stream_id, next, end, budget, r, fulfilled),
    ensures
        fulfilled,
        r.len() > 0,
        rec_last_offset(r.last()) >= end || budget_after_all(budget, r) == 0,
    decreases blocks.len() - i,
{
    let held = stream_records(blocks.skip(i), stream_id);
    if i == blocks.len() {
        assert(blocks.skip(i).len() == 0);
    } else {
        let c = cache_of(blocks[i], stream_id);
        let n = c.records.len() as int;
        let rest = stream_records(blocks.skip(i + 1), stream_id);
        assert(cache_ok(c) && is_chained(c));
        lemma_records_split(blocks, i, stream_id);
        lemma_records_ascend(blocks, i, stream_id);
        let p = lemma_walk_part(blocks, i, stream_id, next, end, budget, r, fulfilled);
        let part = r.take(p);
        if k >= n {
            if n > 0 {
                assert(c.records.last() == held[n - 1]);
                lemma_gapless_order(held, n - 1, k);
            }
            assert(part.len() == 0);
            assert(held[k] == rest[k - n]);
            assert(rest.last() == held.last());
            lemma_walk_serves(
                blocks,
                i + 1,
                stream_id,
                k - n,
                next,
                end,
                budget,
                r,
                fulfilled,
            );
        } else {
            assert(c.records[k] == held[k]);
            lemma_chain_order(c, 0, k);
            lemma_chain_order(c, k, n - 1);
            let a = choose|a: int|
                0 <= a < c.records.len() && starts_at(#[trigger] c.records[a], next) && part
                    == c.records.subrange(a, serve_end(c.records, a, end, budget));
            lemma_serve_end(c.records, a, end, budget);
            lemma_serve_stop(c.records, a, end, budget);
            let e = serve_end(c.records, a, end, budget);
            assert(part.len() == e - a);
            assert(part.last() == c.records[e - 1]);
            let reached = rec_last_offset(part.last());
            let left = budget_after_all(budget, part);
            if !(reached >= end || left == 0) {
                assert(e == n);
                assert(held[n - 1] == c.records[n - 1]);
                assert(rest.len() > 0);
                assert(held[n] == rest[0]);
                assert(rest.last() == held.last());
                let k2 = lemma_find_holder(rest, reached, rest.len() as int);
                let later = r.skip(p);
                lemma_walk_serves(
                    blocks,
                    i + 1,
                    stream_id,
                    k2,
                    reached,
                    end,
                    left,
                    later,
                    fulfilled,
                );
                assert(r =~= part + later);
                assert(r.last() == later.last());
                lemma_budget_parts(budget, part, later);
            }
        }
    }
}

/// A range that is cached in full is served, empty batches or not: a read of it gives records
/// without a gap that begin with a batch at or around the start, and that reach the end or use
/// up the budget.
pub proof fn law_cached_range_is_served(
    blocks: Seq<BlockModel>,
    stream_id: u64,
    k: int,
    start: u64,
    end: u64,
    budget: int,
    r: Seq<Seq<u8>>,
)
    requires
        forall|i: int|
            0 <= i < blocks.len() ==> cache_ok(cache_of(#[trigger] blocks[i], stream_id)),
        is_chained_in(blocks, stream_id),
        is_gapless(stream_records(blocks, stream_id)),
        0 <= k < stream_records(blocks, stream_id).len(),
        holds_offset(stream_records(blocks, stream_id)[k], start),
        end <= rec_last_offset(stream_records(blocks, stream_id).last()),
        is_log_read(blocks, stream_id, start, end, budget, r),
    ensures
        r.len() > 0,
        starts_at(r[0], start),
        is_gapless(r),
        rec_last_offset(r.last()) >= end || budget_after_all(budget, r) == 0,
{
    assert(blocks.skip(0) =~= blocks);
    lemma_gapless_in_order(blocks, stream_id);
    if !is_walk(blocks, 0, stream_id, start, end, budget, r, true) {
        let other = choose|other: Seq<Seq<u8>>| #[trigger]
            is_walk(blocks, 0, stream_id, start, end, budget, other, false);
        lemma_walk_serves(blocks, 0, stream_id, k, start, end, budget, other, false);
    }
    lemma_walk_serves(blocks, 0, stream_id, k, start, end, budget, r, true);
    lemma_walk_gapless(blocks, 0, stream_id, start, end, budget, r, true);
}

/// What is left of a budget is what the bytes of the records leave of it, never below 0.
pub proof fn lemma_budget_is_rest(budget: int, records: Seq<Seq<u8>>)
    requires
        budget >= 0,
    ensures
        payload_bytes(records) >= 0,
        budget_after_all(budget, records) == (if budget > payload_bytes(records) {
            budget - payload_bytes(records)
        } else {
            0
        }),
    decreases records.len(),
{
    if records.len() > 0 {
        lemma_budget_is_rest(budget, records.drop_last());
    }
}

/// The records keep a budget and an end: only the last of them may reach the end or use the
/// budget up.
pub open spec fn keeps_budget(r: Seq<Seq<u8>>, end: u64, budget: int) -> bool {
    forall|j: int|
        0 <= j < r.len() - 1 ==> rec_last_offset(#[trigger] r[j]) < end && payload_bytes(
            r.take(j + 1),
        ) < budget
}

proof fn lemma_served_keep_budget(records: Seq<Seq<u8>>, i: int, end: u64, budget: int)
    requires
        0 <= i < records.len(),
        budget >= 0,
    ensures
        ({
            let e = serve_end(records, i, end, budget);
            let r = records.subrange(i, e);
            &&& i < e <= records.len()
            &&& keeps_budget(r, end, budget)
            &&& e == records.len() || rec_last_offset(r.last()) >= end || payload_bytes(r)
                >= budget
        }),
    decreases records.len() - i,
{
    let left = budget_after(budget, records[i]);
    let one = seq![records[i]];
    let e = serve_end(records, i, end, budget);
    let r = records.subrange(i, e);
    lemma_serve_end(records, i, end, budget);
    assert(one.drop_last() =~= Seq::empty());
    assert(payload_bytes(one) == rec_size(records[i])) by {
        reveal_with_fuel(payload_bytes, 2);
    }
    if rec_last_offset(records[i]) >= end || left == 0 {
        assert(r =~= one);
    } else if i + 1 < records.len() {
        lemma_served_keep_budget(records, i + 1, end, left);
        let rest = records.subrange(i + 1, e);
        assert(r =~= one + rest);
        lemma_payload_parts(one, rest);
        assert(r.last() == rest.last());
        assert forall|j: int| 0 <= j < r.len() - 1 implies rec_last_offset(#[trigger] r[j]) < end
            && payload_bytes(r.take(j + 1)) < budget by {
            if j == 0 {
                assert(r.take(1) =~= one);
            } else {
                assert(r[j] == rest[j - 1]);
                assert(r.take(j + 1) =~= one + rest.take(j));
                lemma_payload_parts(one, rest.take(j));
                assert(rec_last_offset(rest[j - 1]) < end);
            }
        }
    } else {
        assert(r =~= one);
    }
}

/// A read of one stream in a block is a run of what the block holds, from a batch that holds
/// the start, or begins there, on. It ends with the first batch that reaches the end or uses
/// up the budget, or with the last one that is held. It is empty exactly where the start is
/// not in the cached range.
pub proof fn law_block_read_ends_where_it_should(
    m: CacheModel,
    start: u64,
    end: u64,
    budget: int,
    r: Seq<Seq<u8>>,
)
    requires
        cache_ok(m),
        is_chained(m),
        budget >= 0,
        is_read(m, start, end, budget, r),
    ensures
        r.len() == 0 <==> !(m.records.len() > 0 && rec_base_offset(m.records[0]) <= start
            && start < rec_last_offset(m.records.last())),
        r.len() > 0 ==> rec_base_offset(r[0]) == start || (rec_base_offset(r[0]) < start && start
            < rec_last_offset(r[0])),
        keeps_budget(r, end, budget),
        r.len() > 0 ==> exists|i: int|
            0 <= i && i + r.len() <= m.records.len() && r == #[trigger] m.records.subrange(
                i,
                i + r.len(),
            ) && (i + r.len() == m.records.len() || rec_last_offset(r.last()) >= end
                || payload_bytes(r) >= budget),
{
    if m.records.len() > 0 && rec_base_offset(m.records[0]) <= start && start < rec_last_offset(
        m.records.last(),
    ) {
        let i = choose|i: int|
            0 <= i < m.records.len() && starts_at(#[trigger] m.records[i], start) && r
                == m.records.subrange(i, serve_end(m.records, i, end, budget));
        lemma_served_keep_budget(m.records, i, end, budget);
        assert(r[0] == m.records[i]);
        assert(r == m.records.subrange(i, i + r.len()));
    }
}

/// A part within the budget, and behind it one within what is left.
proof fn lemma_joined_keep_budget(
    part: Seq<Seq<u8>>,
    rest: Seq<Seq<u8>>,
    end: u64,
    budget: int,
)
    requires
        part.len() > 0,
        keeps_budget(part, end, budget),
        rec_last_offset(part.last()) < end,
        payload_bytes(part) < budget,
        keeps_budget(rest, end, budget - payload_bytes(part)),
    ensures
        keeps_budget(part + rest, end, budget),
        payload_bytes(part + rest) == payload_bytes(part) + payload_bytes(rest),
{
    let r = part + rest;
    let p = part.len() as int;
    lemma_payload_parts(part, rest);
    assert forall|j: int| 0 <= j < r.len() - 1 implies rec_last_offset(#[trigger] r[j]) < end
        && payload_bytes(r.take(j + 1)) < budget by {
        if j < p - 1 {
            assert(r[j] == part[j]);
            assert(r.take(j + 1) =~= part.take(j + 1));
        } else if j == p - 1 {
            assert(r[j] == part.last());
            assert(r.take(j + 1) =~= part);
        } else {
            assert(r[j] == rest[j - p]);
            assert(rec_last_offset(rest[j - p]) < end);
            assert(r.take(j + 1) =~= part + rest.take(j - p + 1));
            lemma_payload_parts(part, rest.take(j - p + 1));
        }
    }
}

#[verifier::spinoff_prover]
#[verifier::rlimit(60)]
proof fn lemma_walk_keeps_budget(
    blocks: Seq<BlockModel>,
    i: int,
    stream_id: u64,
    next: u64,
    end: u64,
    budget: int,
    r: Seq<Seq<u8>>,
    fulfilled: bool,
)
    requires
        0 <= i <= blocks.len(),
        budget >= 0,
        forall|j: int|
            0 <= j < blocks.len() ==> cache_ok(cache_of(#[trigger] blocks[j], stream_id)),
        is_chained_in(blocks, stream_id),
        is_walk(blocks, i, stream_id, next, end, budget, r, fulfilled),
    ensures
        keeps_budget(r, end, budget),
        fulfilled <==> r.len() > 0 && (rec_last_offset(r.last()) >= end || payload_bytes(r)
            >= budget),
    decreases blocks.len() - i,
{
    lemma_budget_is_rest(budget, r);
    if i < blocks.len() {
        let c = cache_of(blocks[i], stream_id);
        assert(cache_ok(c) && is_chained(c));
        let p = lemma_walk_part(blocks, i, stream_id, next, end, budget, r, fulfilled);
        let part = r.take(p);
        if p == 0 {
            lemma_walk_keeps_budget(blocks, i + 1, stream_id, next, end, budget, r, fulfilled);
        } else {
            law_block_read_ends_where_it_should(c, next, end, budget, part);
            lemma_budget_is_rest(budget, part);
            let reached = rec_last_offset(part.last());
            let left = budget_after_all(budget, part);
            if !(reached >= end || left == 0) {
                let rest = r.skip(p);
                lemma_walk_keeps_budget(
                    blocks,
                    i + 1,
                    stream_id,
                    reached,
                    end,
                    left,
                    rest,
                    fulfilled,
                );
                assert(r =~= part + rest);
                lemma_joined_keep_budget(part, rest, end, budget);
                if rest.len() > 0 {
                    assert(r.last() == rest.last());
                } else {
                    assert(r =~= part);
                }
            }
        }
    }
}

/// A read of the cache is all or nothing: what is returned reaches the end or uses up the
/// budget with its last batch, and not before.
pub proof fn law_log_read_keeps_budget(
    blocks: Seq<BlockModel>,
    stream_id: u64,
    start: u64,
    end: u64,
    budget: int,
    r: Seq<Seq<u8>>,
)
    requires
        budget >= 0,
        forall|j: int|
            0 <= j < blocks.len() ==> cache_ok(cache_of(#[trigger] blocks[j], stream_id)),
        is_chained_in(blocks, stream_id),
        is_log_read(blocks, stream_id, start, end, budget, r),
    ensures
        keeps_budget(r, end, budget),
        r.len() > 0 ==> rec_last_offset(r.last()) >= end || payload_bytes(r) >= budget,
{
    if is_walk(blocks, 0, stream_id, start, end, budget, r, true) {
        lemma_walk_keeps_budget(blocks, 0, stream_id, start, end, budget, r, true);
    } else {
        match tail_start(blocks, blocks.len() as int, stream_id, None) {
            Some(t) => {
                if is_walk(blocks, 0, stream_id, t, end, budget, r, true) {
                    lemma_walk_keeps_budget(blocks, 0, stream_id, t, end, budget, r, true);
                }
            },
            None => {},
        }
    }
}

/// What is held of a stream without a gap: the tail that may be served begins with its first
/// record.
proof fn lemma_tail_start(blocks: Seq<BlockModel>, n: int, stream_id: u64, tail: Option<u64>)
    requires
        0 <= n <= blocks.len(),
        forall|j: int|
            0 <= j < blocks.len() ==> cache_ok(cache_of(#[trigger] blocks[j], stream_id)),
        is_chained_in(blocks, stream_id),
        is_gapless(stream_records(blocks, stream_id)),
        tail == (if stream_records(blocks.skip(n), stream_id).len() > 0 {
            Some(rec_base_offset(stream_records(blocks.skip(n), stream_id)[0]))
        } else {
            None
        }),
    ensures
        tail_start(blocks, n, stream_id, tail) == (if stream_records(blocks, stream_id).len() > 0 {
            Some(rec_base_offset(stream_records(blocks, stream_id)[0]))
        } else {
            None
        }),
    decreases n,
{
    if n == 0 {
        assert(blocks.skip(0) =~= blocks);
    } else {
        let c = cache_of(blocks[n - 1], stream_id);
        let later = stream_records(blocks.skip(n), stream_id);
        let here = stream_records(blocks.skip(n - 1), stream_id);
        assert(cache_ok(c) && is_chained(c));
        lemma_gapless_from(blocks, n - 1, stream_id);
        lemma_records_split(blocks, n - 1, stream_id);
        let k = c.records.len() as int;
        if k == 0 {
            assert(here =~= later);
            lemma_tail_start(blocks, n - 1, stream_id, tail);
        } else {
            assert(here[0] == c.records[0]);
            if later.len() > 0 {
                assert(here[k] == later[0]);
                assert(here[k - 1] == c.records.last());
            }
            lemma_tail_start(blocks, n - 1, stream_id, Some(rec_base_offset(c.records[0])));
        }
    }
}

/// Below all that is held of a stream nothing is read.
proof fn lemma_walk_below(
    blocks: Seq<BlockModel>,
    i: int,
    stream_id: u64,
    next: u64,
    end: u64,
    budget: int,
    r: Seq<Seq<u8>>,
    fulfilled: bool,
)
    requires
        0 <= i <= blocks.len(),
        forall|j: int|
            0 <= j < blocks.len() ==> cache_ok(cache_of(#[trigger] blocks[j], stream_id)),
        is_chained_in(blocks, stream_id),
        is_gapless(stream_records(blocks.skip(i), stream_id)),
        stream_records(blocks.skip(i), stream_id).len() > 0 ==> next < rec_base_offset(
            stream_records(blocks.skip(i), stream_id)[0],
        ),
        is_walk(blocks, i, stream_id, next, end, budget, r, fulfilled),
    ensures
        r.len() == 0,
        !fulfilled,
    decreases blocks.len() - i,
{
    if i < blocks.len() {
        let c = cache_of(blocks[i], stream_id);
        let k = c.records.len() as int;
        let here = stream_records(blocks.skip(i), stream_id);
        let later = stream_records(blocks.skip(i + 1), stream_id);
        assert(cache_ok(c) && is_chained(c));
        lemma_records_split(blocks, i, stream_id);
        lemma_records_ascend(blocks, i, stream_id);
        let p = lemma_walk_part(blocks, i, stream_id, next, end, budget, r, fulfilled);
        if k > 0 {
            assert(here[0] == c.records[0]);
            if later.len() > 0 {
                assert(here[k] == later[0]);
                lemma_gapless_order(here, 0, k);
                assert(rec_base_offset(here[0]) <= rec_last_offset(here[0]));
            }
        } else {
            assert(here =~= later);
        }
        assert(r.take(p).len() == 0);
        lemma_walk_below(blocks, i + 1, stream_id, next, end, budget, r, fulfilled);
    }
}

/// The cached tail of a range is served where its head is not cached: a read that starts below
/// what is held, and ends inside it, gives records without a gap from the first one that is
/// held on, and they reach the end or use up the budget.
pub proof fn law_cached_tail_is_served(
    blocks: Seq<BlockModel>,
    stream_id: u64,
    start: u64,
    end: u64,
    budget: int,
    r: Seq<Seq<u8>>,
)
    requires
        budget >= 0,
        forall|i: int|
            0 <= i < blocks.len() ==> cache_ok(cache_of(#[trigger] blocks[i], stream_id)),
        is_chained_in(blocks, stream_id),
        ({
            let held = stream_records(blocks, stream_id);
            &&& is_gapless(held)
            &&& held.len() > 0
            &&& start < rec_base_offset(held[0])
            &&& rec_base_offset(held[0]) < end <= rec_last_offset(held.last())
        }),
        is_log_read(blocks, stream_id, start, end, budget, r),
    ensures
        ({
            let held = stream_records(blocks, stream_id);
            let first = rec_base_offset(held[0]);
            &&& r.len() > 0
            &&& is_gapless(r)
            &&& rec_base_offset(r[0]) == first
            &&& rec_last_offset(r.last()) >= end || payload_bytes(r) >= budget
        }),
{
    let held = stream_records(blocks, stream_id);
    let first = rec_base_offset(held[0]);
    let n = blocks.len() as int;
    assert(blocks.skip(0) =~= blocks);
    assert(blocks.skip(n).len() == 0);
    lemma_gapless_in_order(blocks, stream_id);
    lemma_tail_start(blocks, n, stream_id, None);
    if is_walk(blocks, 0, stream_id, start, end, budget, r, true) {
        lemma_walk_below(blocks, 0, stream_id, start, end, budget, r, true);
    }
    let k = lemma_find_holder(held, first, held.len() as int);
    if !is_walk(blocks, 0, stream_id, first, end, budget, r, true) {
        let other = choose|other: Seq<Seq<u8>>| #[trigger]
            is_walk(blocks, 0, stream_id, first, end, budget, other, false);
        lemma_walk_serves(blocks, 0, stream_id, k, first, end, budget, other, false);
    }
    lemma_walk_serves(blocks, 0, stream_id, k, first, end, budget, r, true);
    lemma_walk_gapless(blocks, 0, stream_id, first, end, budget, r, true);
    lemma_walk_keeps_budget(blocks, 0, stream_id, first, end, budget, r, true);
    lemma_records_ascend(blocks, 0, stream_id);
    lemma_begins_above(blocks, stream_id);
}

/// Every block begins at or above the first record that is held of a stream without a gap.
proof fn lemma_begins_above(blocks: Seq<BlockModel>, stream_id: u64)
    requires
        forall|i: int|
            0 <= i < blocks.len() ==> cache_ok(cache_of(#[trigger] blocks[i], stream_id)),
        is_chained_in(blocks, stream_id),
        is_gapless(stream_records(blocks, stream_id)),
        stream_records(blocks, stream_id).len() > 0,
    ensures
        begins_above(
            blocks,
            0,
            stream_id,
            rec_base_offset(stream_records(blocks, stream_id)[0]),
        ),
{
    let held = stream_records(blocks, stream_id);
    let first = rec_base_offset(held[0]);
    assert(blocks.skip(0) =~= blocks);
    lemma_records_ascend(blocks, 0, stream_id);
    assert forall|j: int| 0 <= j < blocks.len() implies (block_range(
        #[trigger] blocks[j],
        stream_id,
    ) matches Some(b) ==> first <= b.0) by {
        let c = cache_of(blocks[j], stream_id);
        assert(cache_ok(c) && is_chained(c));
        if c.records.len() > 0 {
            let a = lemma_first_of_block(blocks, 0, j, stream_id);
            if a > 0 {
                lemma_gapless_order(held, 0, a);
                assert(rec_base_offset(held[0]) <= rec_last_offset(held[0]));
            }
        }
    }
}

proof fn lemma_read_within(c: CacheModel, next: u64, end: u64, budget: int, part: Seq<Seq<u8>>)
    requires
        cache_ok(c),
        is_chained(c),
        is_read(c, next, end, budget, part),
        part.len() > 0,
    ensures
        c.records.len() > 0,
        payload_bytes(part) <= payload_bytes(c.records),
        rec_last_offset(part.last()) <= rec_last_offset(c.records.last()),
{
    let a = choose|a: int|
        0 <= a < c.records.len() && starts_at(#[trigger] c.records[a], next) && part
            == c.records.subrange(a, serve_end(c.records, a, end, budget));
    lemma_serve_end(c.records, a, end, budget);
    let e = serve_end(c.records, a, end, budget);
    let front = c.records.take(a);
    let back = c.records.skip(e);
    assert(part.last() == c.records[e - 1]);
    lemma_chain_order(c, e - 1, c.records.len() - 1);
    assert(c.records =~= front + part + back);
    lemma_payload_parts(front + part, back);
    lemma_payload_parts(front, part);
    lemma_payload_parts(Seq::empty(), front);
    assert(Seq::<Seq<u8>>::empty() + front =~= front);
}

proof fn lemma_walk_within(
    blocks: Seq<BlockModel>,
    i: int,
    stream_id: u64,
    next: u64,
    end: u64,
    budget: int,
    r: Seq<Seq<u8>>,
    fulfilled: bool,
)
    requires
        0 <= i <= blocks.len(),
        forall|j: int|
            0 <= j < blocks.len() ==> cache_ok(cache_of(#[trigger] blocks[j], stream_id)),
        is_chained_in(blocks, stream_id),
        is_gapless(stream_records(blocks.skip(i), stream_id)),
        is_walk(blocks, i, stream_id, next, end, budget, r, fulfilled),
    ensures
        payload_bytes(r) <= payload_bytes(stream_records(blocks.skip(i), stream_id)),
        r.len() > 0 ==> stream_records(blocks.skip(i), stream_id).len() > 0 && rec_last_offset(
            r.last(),
        ) <= rec_last_offset(stream_records(blocks.skip(i), stream_id).last()),
    decreases blocks.len() - i,
{
    let here = stream_records(blocks.skip(i), stream_id);
    lemma_payload_parts(Seq::empty(), here);
    if i < blocks.len() {
        let c = cache_of(blocks[i], stream_id);
        let n = c.records.len() as int;
        let later = stream_records(blocks.skip(i + 1), stream_id);
        assert(cache_ok(c) && is_chained(c));
        lemma_records_split(blocks, i, stream_id);
        lemma_records_ascend(blocks, i, stream_id);
        lemma_payload_parts(c.records, later);
        lemma_payload_parts(Seq::empty(), c.records);
        assert(Seq::<Seq<u8>>::empty() + c.records =~= c.records);
        let p = lemma_walk_part(blocks, i, stream_id, next, end, budget, r, fulfilled);
        let part = r.take(p);
        if p == 0 {
            lemma_walk_within(blocks, i + 1, stream_id, next, end, budget, r, fulfilled);
            if later.len() > 0 {
                assert(here.last() == later.last());
            }
        } else {
            lemma_read_within(c, next, end, budget, part);
            assert(here[n - 1] == c.records.last());
            if later.len() > 0 {
                assert(here.last() == later.last());
                lemma_gapless_order(here, n - 1, here.len() - 1);
                assert(rec_base_offset(here[here.len() - 1]) <= rec_last_offset(
                    here[here.len() - 1],
                ));
            } else {
                assert(here =~= c.records);
            }
            let reached = rec_last_offset(part.last());
            let left = budget_after_all(budget, part);
            if !(reached >= end || left == 0) {
                let rest = r.skip(p);
                lemma_walk_within(
                    blocks,
                    i + 1,
                    stream_id,
                    reached,
                    end,
                    left,
                    rest,
                    fulfilled,
                );
                assert(r =~= part + rest);
                lemma_payload_parts(part, rest);
                if rest.len() > 0 {
                    assert(r.last() == rest.last());
                } else {
                    assert(r.last() == part.last());
                }
            }
        }
    }
}

/// A range that reaches above what is held of its stream gives nothing, unless the budget is
/// used up before.
pub proof fn law_range_above_cache_reads_nothing(
    blocks: Seq<BlockModel>,
    stream_id: u64,
    start: u64,
    end: u64,
    budget: int,
    r: Seq<Seq<u8>>,
)
    requires
        forall|i: int|
            0 <= i < blocks.len() ==> cache_ok(cache_of(#[trigger] blocks[i], stream_id)),
        is_chained_in(blocks, stream_id),
        is_gapless(stream_records(blocks, stream_id)),
        stream_records(blocks, stream_id).len() > 0 ==> end > rec_last_offset(
            stream_records(blocks, stream_id).last(),
        ),
        budget > payload_bytes(stream_records(blocks, stream_id)),
        is_log_read(blocks, stream_id, start, end, budget, r),
    ensures
        r.len() == 0,
{
    assert(blocks.skip(0) =~= blocks);
    lemma_payload_parts(Seq::empty(), stream_records(blocks, stream_id));
    law_log_read_keeps_budget(blocks, stream_id, start, end, budget, r);
    if is_walk(blocks, 0, stream_id, start, end, budget, r, true) {
        lemma_walk_within(blocks, 0, stream_id, start, end, budget, r, true);
    } else {
        match tail_start(blocks, blocks.len() as int, stream_id, None) {
            Some(t) => {
                if is_walk(blocks, 0, stream_id, t, end, budget, r, true) {
                    lemma_walk_within(blocks, 0, stream_id, t, end, budget, r, true);
                }
            },
            None => {},
        }
    }
}

} // verus!

//! Laws of the log cache's bookkeeping: what a block takes and counts, which blocks are sealed,
//! marked, released and merged, and what is told of them.
use vstd::prelude::*;

use crate::cache::held::payload_bytes;
use crate::cache::log_block::{
    block_put, block_takes, bounds_of, cache_of, discontinuous, joined_blocks, wrapping_diff,
    wrapping_sum, BlockModel, StreamRangeBound,
};
use crate::cache::log_cache::{
    archived, cleared, freed_of, marked, merged_from, over_limit, released, stream_bytes, unmerged,
    LogCacheModel, MAX_BLOCKS_COUNT, MERGE_BLOCK_THRESHOLD,
};
use crate::cache::stream_cache::{cache_ok, occupied_bytes, CacheModel};
use crate::codec::record::{
    rec_base_offset, rec_last_offset, rec_size, rec_stream_id, OBJECT_OVERHEAD,
};

verus! {

/// A block takes a record as long as it was not closed, has bytes and streams to spare, and the
/// record goes on where its stream ends in the block, within the offsets that an index spans.
pub proof fn law_block_takes_what_fits(b: BlockModel, record: Seq<u8>)
    requires
        rec_base_offset(record) <= rec_last_offset(record),
        cache_ok(cache_of(b, rec_stream_id(record))),
        cache_of(b, rec_stream_id(record)).start matches Some(s) ==> s <= rec_base_offset(record),
    ensures
        ({
            let c = cache_of(b, rec_stream_id(record));
            let room = !b.overflow && b.size < b.max_size && b.streams.dom().len() < b.max_streams;
            block_takes(b, record) <==> room && if c.records.len() == 0 {
                rec_last_offset(record) - rec_base_offset(record) <= i32::MAX
            } else {
                c.end == Some(rec_base_offset(record)) && rec_last_offset(record) - c.start->0
                    <= i32::MAX
            }
        }),
{
}

/// A record that is taken stands behind the records of its stream, is counted with its payload
/// and a fixed overhead, and touches no other stream. One that is not taken closes the block,
/// and changes nothing of what it holds.
pub proof fn law_put_adds_one_record(b: BlockModel, record: Seq<u8>, stream_id: u64)
    requires
        b.size + rec_size(record) + OBJECT_OVERHEAD <= u64::MAX,
    ensures
        ({
            let n = block_put(b, record);
            let before = cache_of(b, stream_id);
            let after = cache_of(n, stream_id);
            if block_takes(b, record) {
                &&& n.size == b.size + rec_size(record) + OBJECT_OVERHEAD
                &&& n.overflow == b.overflow
                &&& if stream_id == rec_stream_id(record) {
                    &&& after.records == before.records.push(record)
                    &&& after.end == Some(rec_last_offset(record))
                    &&& after.start == (if before.start is Some {
                        before.start
                    } else {
                        Some(rec_base_offset(record))
                    })
                } else {
                    after == before
                }
            } else {
                &&& n.size == b.size
                &&& after == before
                &&& n.overflow || n == b
            }
        }),
        block_put(b, record).id == b.id,
        block_put(b, record).free == b.free,
        block_put(b, record).last_record_offset == b.last_record_offset,
{
}

/// Bytes that records occupy: their payloads, and an overhead for each of them.
pub proof fn law_occupied_bytes(records: Seq<Seq<u8>>)
    ensures
        occupied_bytes(records) == payload_bytes(records) + records.len() * OBJECT_OVERHEAD,
    decreases records.len(),
{
    if records.len() > 0 {
        law_occupied_bytes(records.drop_last());
        let n = records.len() as int;
        assert((n - 1) * OBJECT_OVERHEAD + OBJECT_OVERHEAD == n * OBJECT_OVERHEAD)
            by (nonlinear_arith);
    }
}

/// Release goes on while too much is cached and the oldest block is free, and only then. Each
/// block that goes is told of, oldest first, and its bytes are no longer counted.
pub proof fn law_release_goes_on_while_over(m: LogCacheModel)
    ensures
        ({
            let r = released(m);
            let n = m.blocks.len() - r.blocks.len();
            let over = |x: LogCacheModel|
                x.size > x.capacity / 10 * 9 || x.blocks.len() > MAX_BLOCKS_COUNT;
            &&& r.blocks.len() == 0 || !r.blocks[0].free || !over(r)
            &&& !over(m) ==> r == m
            &&& 0 <= n <= m.blocks.len()
            &&& r.blocks == m.blocks.skip(n)
            &&& r.freed.len() == m.freed.len() + n
            &&& r.freed.take(m.freed.len() as int) == m.freed
            &&& forall|i: int|
                0 <= i < n ==> #[trigger] r.freed[m.freed.len() + i] == freed_of(m.blocks[i])
            &&& r.size == (m.size - block_sizes(m.blocks.take(n))) % 0x1_0000_0000_0000_0000
            &&& r.last_record_offset == m.last_record_offset
            &&& r.next_block_id == m.next_block_id
        }),
    decreases m.blocks.len(),
{
    let r = released(m);
    if m.blocks.len() == 0 || !over_limit(m.capacity, m.size, m.blocks.len()) || !m.blocks[0].free {
        assert(m.blocks.skip(0) =~= m.blocks);
        assert(m.freed.take(m.freed.len() as int) =~= m.freed);
        assert(m.size as int % 0x1_0000_0000_0000_0000 == m.size);
    } else {
        let next = LogCacheModel {
            blocks: m.blocks.skip(1),
            size: wrapping_diff(m.size as int, m.blocks[0].size as int),
            freed: m.freed.push(freed_of(m.blocks[0])),
            ..m
        };
        law_release_goes_on_while_over(next);
        let k = next.blocks.len() - r.blocks.len();
        assert(next.blocks.skip(k) =~= m.blocks.skip(k + 1));
        assert(r.freed.take(m.freed.len() as int) =~= next.freed.take(m.freed.len() as int));
        assert(next.freed.take(m.freed.len() as int) =~= m.freed);
        assert forall|i: int| 0 <= i < k + 1 implies #[trigger] r.freed[m.freed.len() + i]
            == freed_of(m.blocks[i]) by {
            if i == 0 {
                assert(r.freed.take(next.freed.len() as int)[m.freed.len() as int]
                    == next.freed[m.freed.len() as int]);
            } else {
                assert(r.freed[next.freed.len() + (i - 1)] == freed_of(next.blocks[i - 1]));
            }
        }
        let front = next.blocks.take(k);
        assert(m.blocks.take(k + 1) =~= seq![m.blocks[0]] + front);
        lemma_block_sizes(m.blocks[0], front);
        let s = block_sizes(front);
        let a = m.blocks[0].size as int;
        assert((m.size - a) % 0x1_0000_0000_0000_0000 == next.size);
        assert((next.size - s) % 0x1_0000_0000_0000_0000 == (m.size - a - s)
            % 0x1_0000_0000_0000_0000) by {
            if m.size - a >= 0 {
                assert((m.size - a) % 0x1_0000_0000_0000_0000 == m.size - a);
            } else {
                assert((m.size - a) % 0x1_0000_0000_0000_0000 == m.size - a
                    + 0x1_0000_0000_0000_0000);
                assert((m.size - a - s + 0x1_0000_0000_0000_0000) % 0x1_0000_0000_0000_0000 == (
                m.size - a - s) % 0x1_0000_0000_0000_0000);
            }
        }
    }
}

/// Bytes that a list of blocks counts.
pub open spec fn block_sizes(blocks: Seq<BlockModel>) -> int
    decreases blocks.len(),
{
    if blocks.len() == 0 {
        0
    } else {
        block_sizes(blocks.drop_last()) + blocks.last().size
    }
}

proof fn lemma_block_sizes(b: BlockModel, rest: Seq<BlockModel>)
    ensures
        block_sizes(seq![b] + rest) == b.size + block_sizes(rest),
    decreases rest.len(),
{
    let all = seq![b] + rest;
    if rest.len() == 0 {
        assert(all.drop_last() =~= Seq::empty());
        assert(block_sizes(all.drop_last()) == 0);
    } else {
        assert(all.drop_last() =~= seq![b] + rest.drop_last());
        lemma_block_sizes(b, rest.drop_last());
    }
}

/// Sealing keeps every block as it is, but that the active one learns how far the log was
/// confirmed, and puts an empty block behind them.
pub proof fn law_sealing_opens_empty_block(m: LogCacheModel)
    requires
        m.blocks.len() > 0,
    ensures
        ({
            let r = archived(m);
            let n = m.blocks.len() as int;
            &&& r.blocks.len() == n + 1
            &&& r.size == m.size && r.freed == m.freed && r.capacity == m.capacity
            &&& r.last_record_offset == m.last_record_offset
            &&& forall|i: int| 0 <= i < n - 1 ==> #[trigger] r.blocks[i] == m.blocks[i]
            &&& r.blocks[n - 1].id == m.blocks[n - 1].id
            &&& r.blocks[n - 1].streams == m.blocks[n - 1].streams
            &&& r.blocks[n - 1].size == m.blocks[n - 1].size
            &&& r.blocks[n - 1].free == m.blocks[n - 1].free
            &&& m.last_record_offset is Some ==> r.blocks[n - 1].last_record_offset
                == m.last_record_offset
            &&& r.blocks[n].id == m.next_block_id
            &&& r.blocks[n].streams == Map::<u64, CacheModel>::empty()
            &&& r.blocks[n].size == 0 && !r.blocks[n].free && !r.blocks[n].overflow
            &&& r.blocks[n].max_size == m.block_max_size
            &&& r.blocks[n].max_streams == m.block_max_streams
        }),
{
}

/// An upload that was committed frees its own block and no other, and never the active one.
pub proof fn law_only_the_block_is_marked(blocks: Seq<BlockModel>, id: u64, i: int)
    requires
        0 <= i < blocks.len(),
    ensures
        marked(blocks, id).len() == blocks.len(),
        marked(blocks, id)[i].free <==> blocks[i].free || (blocks[i].id == id && i < blocks.len()
            - 1),
        marked(blocks, id)[i].streams == blocks[i].streams,
        marked(blocks, id)[i].id == blocks[i].id,
        marked(blocks, id)[i].size == blocks[i].size,
{
}

/// A merged block holds of every stream what the two blocks held, the older first; it counts
/// the bytes of both, is free, and carries the newer of their offsets.
pub proof fn law_merged_block_holds_both(a: BlockModel, b: BlockModel, id: u64, stream_id: u64)
    requires
        a.size + b.size <= u64::MAX,
        cache_ok(cache_of(a, stream_id)),
        cache_ok(cache_of(b, stream_id)),
    ensures
        ({
            let j = joined_blocks(a, b, id);
            let ca = cache_of(a, stream_id);
            let cb = cache_of(b, stream_id);
            let c = cache_of(j, stream_id);
            &&& c.records == ca.records + cb.records
            &&& ca.records.len() > 0 ==> c.start == ca.start
            &&& cb.records.len() > 0 ==> c.end == cb.end
            &&& j.size == a.size + b.size
            &&& j.free
            &&& j.last_record_offset == (if b.last_record_offset is Some {
                b.last_record_offset
            } else {
                a.last_record_offset
            })
        }),
{
    let ca = cache_of(a, stream_id);
    let cb = cache_of(b, stream_id);
    let c = cache_of(joined_blocks(a, b, id), stream_id);
    assert(c.records =~= ca.records + cb.records);
}

/// Merging ends with few blocks, or with no two neighbours at the free front that are small
/// enough together and go on without a gap.
pub proof fn law_merging_leaves_no_small_neighbours(m: LogCacheModel)
    ensures
        ({
            let r = merged_from(m, 0);
            r.blocks.len() <= MERGE_BLOCK_THRESHOLD || forall|a: int, b: int|
                #![trigger r.blocks[a], r.blocks[b]]
                0 <= a && b == a + 1 && b < r.blocks.len() && (forall|k: int|
                    0 <= k <= b ==> (#[trigger] r.blocks[k]).free) ==> stays_apart(
                    m.block_max_size,
                    r.blocks[a],
                    r.blocks[b],
                )
        }),
{
    lemma_merging(m, 0);
}

/// Two blocks that are not merged: too large together, or with a stream that has a gap.
pub open spec fn stays_apart(block_max_size: u64, a: BlockModel, b: BlockModel) -> bool {
    ||| a.size + b.size >= block_max_size
    ||| exists|k: u64|
        #![trigger a.streams[k]]
        a.streams.contains_key(k) && b.streams.contains_key(k) && a.streams[k].end
            != b.streams[k].start
}

proof fn lemma_merging(m: LogCacheModel, i: int)
    requires
        0 <= i,
        forall|a: int, b: int|
            #![trigger m.blocks[a], m.blocks[b]]
            0 <= a && b == a + 1 && b <= i && b < m.blocks.len() ==> stays_apart(
                m.block_max_size,
                m.blocks[a],
                m.blocks[b],
            ),
    ensures
        ({
            let r = merged_from(m, i);
            r.blocks.len() <= MERGE_BLOCK_THRESHOLD || forall|a: int, b: int|
                #![trigger r.blocks[a], r.blocks[b]]
                0 <= a && b == a + 1 && b < r.blocks.len() && (forall|k: int|
                    0 <= k <= b ==> (#[trigger] r.blocks[k]).free) ==> stays_apart(
                    m.block_max_size,
                    r.blocks[a],
                    r.blocks[b],
                )
        }),
    decreases m.blocks.len(), m.blocks.len() - i,
{
    if !(m.blocks.len() <= MERGE_BLOCK_THRESHOLD || i + 1 >= m.blocks.len()) {
        let a = m.blocks[i];
        let b = m.blocks[i + 1];
        if a.free && b.free {
            if a.size + b.size >= m.block_max_size || discontinuous(a, b) {
                assert(stays_apart(m.block_max_size, a, b));
                lemma_merging(m, i + 1);
            } else {
                let joined = joined_blocks(a, b, m.next_block_id);
                let next = LogCacheModel {
                    blocks: m.blocks.update(i, joined).remove(i + 1),
                    next_block_id: wrapping_sum(m.next_block_id as int, 1),
                    ..m
                };
                assert(joined.size == a.size + b.size);
                assert forall|x: int, y: int|
                    #![trigger next.blocks[x], next.blocks[y]]
                    0 <= x && y == x + 1 && y <= i && y < next.blocks.len() implies stays_apart(
                    m.block_max_size,
                    next.blocks[x],
                    next.blocks[y],
                ) by {
                    assert(next.blocks[x] == m.blocks[x]);
                    assert(stays_apart(m.block_max_size, m.blocks[x], m.blocks[y]));
                    if y == i {
                        let p = m.blocks[x];
                        if p.size + a.size < m.block_max_size {
                            let k = choose|k: u64|
                                #![trigger p.streams[k]]
                                p.streams.contains_key(k) && a.streams.contains_key(k)
                                    && p.streams[k].end != a.streams[k].start;
                            assert(joined.streams.contains_key(k));
                            assert(joined.streams[k].start == a.streams[k].start);
                            assert(p.streams[k].end != joined.streams[k].start);
                        }
                    } else {
                        assert(next.blocks[y] == m.blocks[y]);
                    }
                }
                lemma_merging(next, i);
            }
        } else {
            assert forall|x: int, y: int|
                #![trigger m.blocks[x], m.blocks[y]]
                0 <= x && y == x + 1 && y < m.blocks.len() && (forall|k: int|
                    0 <= k <= y ==> (#[trigger] m.blocks[k]).free) implies stays_apart(
                m.block_max_size,
                m.blocks[x],
                m.blocks[y],
            ) by {
                if y > i {
                    assert(m.blocks[i].free);
                    if y > i {
                        assert(m.blocks[i + 1].free);
                    }
                }
            }
        }
    }
}

/// The released blocks that are told of are those that were not merged from others, in order.
pub proof fn law_merged_blocks_are_not_told_of(
    freed: Seq<(u64, Seq<StreamRangeBound>, bool)>,
)
    ensures
        unmerged(freed) == freed.filter(|f: (u64, Seq<StreamRangeBound>, bool)| !f.2),
    decreases freed.len(),
{
    let p = |f: (u64, Seq<StreamRangeBound>, bool)| !f.2;
    if freed.len() == 0 {
        assert(freed.filter(p) =~= freed);
    } else {
        law_merged_blocks_are_not_told_of(freed.drop_last());
        assert(freed =~= freed.drop_last().push(freed.last()));
        freed.drop_last().lemma_filter_push(freed.last(), p);
    }
}

/// The bounds of a block name every stream that it holds a range of, with that range.
pub proof fn law_bounds_name_every_stream(
    streams: Map<u64, CacheModel>,
    ids: Seq<u64>,
    bound: StreamRangeBound,
)
    ensures
        bounds_of(streams, ids).contains(bound) <==> ids.contains(bound.stream_id)
            && streams[bound.stream_id].start == Some(bound.start_offset)
            && streams[bound.stream_id].end == Some(bound.end_offset),
        bounds_of(streams, ids).len() <= ids.len(),
    decreases ids.len(),
{
    if ids.len() > 0 {
        let last = ids.last();
        let front = ids.drop_last();
        law_bounds_name_every_stream(streams, front, bound);
        assert(ids =~= front.push(last));
        vstd::seq_lib::lemma_seq_contains_after_push(front, last, bound.stream_id);
        match (streams[last].start, streams[last].end) {
            (Some(s), Some(e)) => {
                vstd::seq_lib::lemma_seq_contains_after_push(
                    bounds_of(streams, front),
                    StreamRangeBound { stream_id: last, start_offset: s, end_offset: e },
                    bound,
                );
            },
            _ => {},
        }
    }
}

/// Dropping a stream gives back the bytes that its records occupied.
pub proof fn law_clearing_gives_bytes_back(m: LogCacheModel, stream_id: u64)
    requires
        0 <= stream_bytes(m.blocks, stream_id) <= m.size,
    ensures
        cleared(m, stream_id).size + stream_bytes(m.blocks, stream_id) == m.size,
        cleared(m, stream_id).blocks.len() == m.blocks.len(),
        forall|i: int|
            0 <= i < m.blocks.len() ==> (#[trigger] cleared(m, stream_id).blocks[i]).streams
                == m.blocks[i].streams.remove(stream_id),
{
}

} // verus!

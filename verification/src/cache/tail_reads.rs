//! What is put into the snapshot-read cache is read back from it.
use vstd::prelude::*;

use crate::cache::held::{
    has_room, is_filled, is_sound, law_clearing_spares_other_streams,
    law_held_records_are_read_back, lemma_archived, lemma_cache_put, lemma_marked, lemma_merged,
    lemma_payload_within, lemma_records_of_one, lemma_released, lemma_suffix_chain, payload_bytes, stream_records,
};
use crate::cache::log_block::{block_takes, cache_of, new_block};
use crate::cache::log_cache::{
    archived, cache_put, is_gapless, log_get, marked, merged_from, over_limit, released,
    LogCacheModel,
};
use crate::cache::snapshot_read::{
    entered, expired, forgot, idle_streams, log_put, put_records, took, TailModel, WalTaskModel,
};
use crate::cache::snapshot_replay::{
    began, law_object_loads_keep_order, loadable, object_ids, put_blocks, put_tasks, settled,
    LoadModel, ObjectReplayModel, ObjectTaskModel, SettleModel,
};
use crate::cache::stream_cache::{empty_cache, holds_offset};
use crate::codec::record::{rec_base_offset, rec_last_offset, rec_stream_id};
use crate::collections::sorted_keys;

verus! {

/// What is cached of the stream has no gap, and the stream goes on where that ends.
pub open spec fn is_ready(m: TailModel, stream_id: u64) -> bool {
    let held = stream_records(m.log.blocks, stream_id);
    &&& is_sound(m.log.blocks, stream_id)
    &&& is_gapless(held)
    &&& held.len() > 0 ==> m.next_offsets.contains_key(stream_id) && m.next_offsets[stream_id]
        == rec_last_offset(held.last())
}

/// A cache with one empty block, in which no stream was entered, is ready for every stream.
pub proof fn law_new_cache_is_ready(m: TailModel, stream_id: u64)
    requires
        m.log.blocks.len() == 1,
        !m.log.blocks[0].free,
        !m.log.blocks[0].streams.contains_key(stream_id),
    ensures
        is_ready(m, stream_id),
        stream_records(m.log.blocks, stream_id).len() == 0,
{
    let b = m.log.blocks[0];
    assert(m.log.blocks =~= seq![b]);
    lemma_records_of_one(b, stream_id);
    assert(cache_of(b, stream_id) == empty_cache());
    assert(m.log.blocks.last() == b);
}

/// Nothing is released while a record is put.
pub open spec fn is_roomy(m: LogCacheModel) -> bool {
    !over_limit(m.capacity, m.size, (m.blocks.len() + 1) as nat)
}

/// A put into the snapshot-read cache adds the record behind what is held of its stream, and
/// drops the oldest records of a stream at most.
pub proof fn law_log_put_extends_stream(m: LogCacheModel, record: Seq<u8>, stream_id: u64)
    requires
        is_sound(m.blocks, stream_id),
        is_filled(record),
    ensures
        log_put(m, record).block_max_size == m.block_max_size,
        log_put(m, record).block_max_streams == m.block_max_streams,
        is_sound(log_put(m, record).blocks, stream_id),
        ({
            let before = stream_records(m.blocks, stream_id);
            let after = stream_records(log_put(m, record).blocks, stream_id);
            &&& rec_stream_id(record) != stream_id ==> after.is_suffix_of(before) && (is_roomy(m)
                ==> after == before)
            &&& rec_stream_id(record) == stream_id && has_room(m, record) ==> {
                &&& after.len() > 0
                &&& after.last() == record
                &&& after.drop_last().is_suffix_of(before)
                &&& is_roomy(m) ==> after.drop_last() == before
            }
        }),
{
    let before = stream_records(m.blocks, stream_id);
    let after = stream_records(log_put(m, record).blocks, stream_id);
    let mine = rec_stream_id(record) == stream_id;
    lemma_released(m, stream_id);
    lemma_cache_put(m, record, stream_id);
    let kept = stream_records(released(m).blocks, stream_id);
    if block_takes(m.blocks.last(), record) {
        if mine {
            assert(after.drop_last() =~= kept);
        } else {
            assert(after =~= kept);
        }
    } else {
        let first = cache_put(m, record);
        assert(stream_records(first.blocks, stream_id) =~= kept);
        let sealed = archived(first);
        lemma_archived(first, stream_id);
        let marks = LogCacheModel {
            blocks: marked(sealed.blocks, first.blocks.last().id),
            ..sealed
        };
        lemma_marked(sealed.blocks, first.blocks.last().id, stream_id);
        lemma_released(marks, stream_id);
        lemma_merged(released(marks), 0, stream_id);
        let freed = merged_from(released(marks), 0);
        lemma_released(freed, stream_id);
        lemma_cache_put(freed, record, stream_id);
        let left = stream_records(freed.blocks, stream_id);
        let last = stream_records(released(freed).blocks, stream_id);
        lemma_suffix_chain(left, kept, before);
        lemma_suffix_chain(last, left, before);
        let fresh = new_block(first.next_block_id, m.block_max_size, m.block_max_streams);
        assert(freed.blocks.last() == fresh);
        if has_room(m, record) {
            assert(fresh.streams.dom().len() == 0);
            assert(block_takes(fresh, record));
        }
        if mine {
            if has_room(m, record) {
                assert(after.drop_last() =~= last);
            }
        } else {
            assert(after =~= last);
        }
    }
}

proof fn lemma_gapless_push(held: Seq<Seq<u8>>, kept: Seq<Seq<u8>>, record: Seq<u8>)
    requires
        is_gapless(held),
        kept.is_suffix_of(held),
        held.len() > 0 ==> rec_last_offset(held.last()) == rec_base_offset(record),
    ensures
        is_gapless(kept),
        is_gapless(kept.push(record)),
        kept.len() > 0 ==> kept.last() == held.last(),
{
    let d = held.len() - kept.len();
    assert forall|i: int, j: int|
        #![trigger kept[i], kept[j]]
        0 <= i && j == i + 1 && j < kept.len() implies rec_base_offset(kept[j])
        == rec_last_offset(kept[i]) by {
        assert(kept[i] == held[d + i] && kept[j] == held[d + j]);
    }
    let all = kept.push(record);
    assert forall|i: int, j: int|
        #![trigger all[i], all[j]]
        0 <= i && j == i + 1 && j < all.len() implies rec_base_offset(all[j]) == rec_last_offset(
        all[i],
    ) by {
        if j < kept.len() {
            assert(all[i] == kept[i] && all[j] == kept[j]);
        } else {
            assert(all[i] == kept.last());
        }
    }
}

/// A record that is put leaves every stream ready. One that is not older than what its
/// stream goes on with is then the last that is held of the stream, behind what was held of
/// it, or alone where it left a gap.
pub proof fn law_record_keeps_tails_ready(m: TailModel, record: Seq<u8>, stream_id: u64)
    requires
        is_ready(m, stream_id),
        is_filled(record),
        has_room(m.log, record),
        m.next_offsets.contains_key(rec_stream_id(record)),
    ensures
        is_ready(took(m, record), stream_id),
        took(m, record).log.block_max_size == m.log.block_max_size,
        took(m, record).log.block_max_streams == m.log.block_max_streams,
        rec_stream_id(record) == stream_id && rec_base_offset(record) >= m.next_offsets[stream_id]
            ==> ({
            let before = if rec_base_offset(record) > m.next_offsets[stream_id] {
                Seq::<Seq<u8>>::empty()
            } else {
                stream_records(m.log.blocks, stream_id)
            };
            let after = stream_records(took(m, record).log.blocks, stream_id);
            &&& after.len() > 0
            &&& after.last() == record
            &&& after.drop_last().is_suffix_of(before)
            &&& is_roomy(m.log) && rec_base_offset(record) == m.next_offsets[stream_id]
                ==> after.drop_last() == before
        }),
{
    let id = rec_stream_id(record);
    let expected = m.next_offsets[id];
    if rec_base_offset(record) >= expected {
        let log = if rec_base_offset(record) > expected {
            crate::cache::log_cache::cleared(m.log, id)
        } else {
            m.log
        };
        if rec_base_offset(record) > expected {
            law_clearing_spares_other_streams(m.log, id, stream_id);
        }
        law_log_put_extends_stream(log, record, stream_id);
        let before = stream_records(log.blocks, stream_id);
        let after = stream_records(log_put(log, record).blocks, stream_id);
        if id == stream_id {
            lemma_gapless_push(before, after.drop_last(), record);
            assert(after =~= after.drop_last().push(record));
        } else {
            let d = before.len() - after.len();
            assert forall|i: int, j: int|
                #![trigger after[i], after[j]]
                0 <= i && j == i + 1 && j < after.len() implies rec_base_offset(after[j])
                == rec_last_offset(after[i]) by {
                assert(after[i] == before[d + i] && after[j] == before[d + j]);
            }
            if after.len() > 0 {
                assert(after.last() == before.last());
            }
        }
    }
}

/// Every record of a list holds offsets and fits a block.
pub open spec fn are_puttable(m: LogCacheModel, records: Seq<Seq<u8>>) -> bool {
    forall|i: int|
        0 <= i < records.len() ==> is_filled(#[trigger] records[i]) && has_room(m, records[i])
}

/// Putting records leaves every stream ready.
pub proof fn law_put_keeps_tails_ready(
    m: TailModel,
    records: Seq<Seq<u8>>,
    now_ms: u64,
    stream_id: u64,
)
    requires
        is_ready(m, stream_id),
        are_puttable(m.log, records),
    ensures
        is_ready(put_records(m, records, now_ms), stream_id),
        put_records(m, records, now_ms).log.block_max_size == m.log.block_max_size,
        put_records(m, records, now_ms).log.block_max_streams == m.log.block_max_streams,
        records.len() > 0 ==> put_records(m, records, now_ms).next_offsets.contains_key(
            rec_stream_id(records.last()),
        ),
    decreases records.len(),
{
    if records.len() > 0 {
        let n = records.len() as int;
        let front = records.drop_last();
        assert forall|i: int| 0 <= i < front.len() implies is_filled(#[trigger] front[i])
            && has_room(m.log, front[i]) by {
            assert(front[i] == records[i]);
        }
        law_put_keeps_tails_ready(m, front, now_ms, stream_id);
        let before = put_records(m, front, now_ms);
        let r = records.last();
        assert(records[n - 1] == r);
        let ready = if n == 1 || rec_stream_id(records[n - 2]) != rec_stream_id(r) {
            entered(before, r, now_ms)
        } else {
            before
        };
        if n > 1 {
            assert(front.last() == records[n - 2]);
        }
        assert(is_ready(ready, stream_id));
        law_record_keeps_tails_ready(ready, r, stream_id);
    }
}

/// Dropping idle streams leaves every stream ready.
pub proof fn law_expiry_keeps_tails_ready(m: TailModel, now_ms: u64, stream_id: u64)
    requires
        is_ready(m, stream_id),
    ensures
        is_ready(expired(m, now_ms), stream_id),
        expired(m, now_ms).log.block_max_size == m.log.block_max_size,
        expired(m, now_ms).log.block_max_streams == m.log.block_max_streams,
{
    lemma_forgot(m, idle_streams(m, sorted_keys(m.active), now_ms), stream_id);
}

proof fn lemma_forgot(m: TailModel, streams: Seq<u64>, stream_id: u64)
    requires
        is_ready(m, stream_id),
    ensures
        is_ready(forgot(m, streams), stream_id),
        forgot(m, streams).log.block_max_size == m.log.block_max_size,
        forgot(m, streams).log.block_max_streams == m.log.block_max_streams,
    decreases streams.len(),
{
    if streams.len() > 0 {
        lemma_forgot(m, streams.drop_last(), stream_id);
        let before = forgot(m, streams.drop_last());
        law_clearing_spares_other_streams(before.log, streams.last(), stream_id);
    }
}

/// Putting what WAL replays gave leaves every stream ready.
pub proof fn law_replayed_ranges_keep_tails_ready(
    m: TailModel,
    tasks: Seq<WalTaskModel>,
    now_ms: u64,
    stream_id: u64,
)
    requires
        is_ready(m, stream_id),
        forall|i: int|
            0 <= i < tasks.len() ==> are_puttable(m.log, (#[trigger] tasks[i]).records),
    ensures
        is_ready(put_tasks(m, tasks, now_ms), stream_id),
        put_tasks(m, tasks, now_ms).log.block_max_size == m.log.block_max_size,
        put_tasks(m, tasks, now_ms).log.block_max_streams == m.log.block_max_streams,
    decreases tasks.len(),
{
    if tasks.len() > 0 {
        let front = tasks.drop_last();
        assert forall|i: int| 0 <= i < front.len() implies are_puttable(
            m.log,
            (#[trigger] front[i]).records,
        ) by {
            assert(front[i] == tasks[i]);
        }
        law_replayed_ranges_keep_tails_ready(m, front, now_ms, stream_id);
        let before = put_tasks(m, front, now_ms);
        assert(are_puttable(m.log, tasks[tasks.len() - 1].records));
        assert(are_puttable(before.log, tasks.last().records));
        law_put_keeps_tails_ready(before, tasks.last().records, now_ms, stream_id);
    }
}

/// The records of a loaded block can be put.
pub open spec fn is_puttable_load(m: LogCacheModel, load: LoadModel) -> bool {
    match load {
        LoadModel::Loaded(records) => are_puttable(m, records),
        _ => true,
    }
}

/// Putting the loaded blocks of an object leaves every stream ready.
pub proof fn law_replayed_blocks_keep_tails_ready(
    m: TailModel,
    blocks: Seq<LoadModel>,
    i: int,
    now_ms: u64,
    stream_id: u64,
)
    requires
        is_ready(m, stream_id),
        forall|j: int|
            0 <= j < blocks.len() ==> is_puttable_load(m.log, #[trigger] blocks[j]),
    ensures
        is_ready(put_blocks(m, blocks, i, now_ms).0, stream_id),
        put_blocks(m, blocks, i, now_ms).0.log.block_max_size == m.log.block_max_size,
        put_blocks(m, blocks, i, now_ms).0.log.block_max_streams == m.log.block_max_streams,
    decreases blocks.len() - i,
{
    if 0 <= i < blocks.len() {
        assert(is_puttable_load(m.log, blocks[i]));
        match blocks[i] {
            LoadModel::Pending => {},
            LoadModel::Failed => {
                law_replayed_blocks_keep_tails_ready(m, blocks, i + 1, now_ms, stream_id);
            },
            LoadModel::Loaded(r) => {
                law_put_keeps_tails_ready(m, r, now_ms, stream_id);
                let next = put_records(m, r, now_ms);
                assert forall|j: int| 0 <= j < blocks.len() implies is_puttable_load(
                    next.log,
                    #[trigger] blocks[j],
                ) by {
                    assert(is_puttable_load(m.log, blocks[j]));
                }
                law_replayed_blocks_keep_tails_ready(next, blocks, i + 1, now_ms, stream_id);
            },
        }
    }
}

/// The loaded blocks of an object can be put.
pub open spec fn is_puttable_object(m: LogCacheModel, task: ObjectTaskModel) -> bool {
    task.blocks matches Some(blocks) ==> forall|j: int|
        0 <= j < blocks.len() ==> is_puttable_load(m, #[trigger] blocks[j])
}

/// Putting the objects whose blocks are loaded leaves every stream ready.
pub proof fn law_replayed_objects_keep_tails_ready(s: SettleModel, now_ms: u64, stream_id: u64)
    requires
        is_ready(s.tail, stream_id),
        forall|i: int|
            0 <= i < (s.objects.loading + s.objects.waiting).len() ==> is_puttable_object(
                s.tail.log,
                #[trigger] (s.objects.loading + s.objects.waiting)[i],
            ),
    ensures
        is_ready(settled(s, now_ms).tail, stream_id),
    decreases s.objects.loading.len() + s.objects.waiting.len(),
{
    let tasks = s.objects.loading + s.objects.waiting;
    if s.objects.loading.len() > 0 && s.objects.loading[0].blocks is Some {
        let head = s.objects.loading[0];
        let blocks = head.blocks->0;
        assert(tasks[0] == head);
        assert(is_puttable_object(s.tail.log, tasks[0]));
        law_replayed_blocks_keep_tails_ready(s.tail, blocks, head.next, now_ms, stream_id);
        let (tail, stop) = put_blocks(s.tail, blocks, head.next, now_ms);
        if stop >= blocks.len() {
            let left = ObjectReplayModel {
                inflight: if s.objects.inflight >= head.object_size {
                    s.objects.inflight - head.object_size
                } else {
                    0
                },
                loading: s.objects.loading.skip(1),
                ..s.objects
            };
            let n = loadable(left);
            law_object_loads_keep_order(left);
            let next = SettleModel {
                tail,
                objects: began(left, n),
                completed: s.completed.push(head.id),
                started: s.started + object_ids(left.waiting.take(n)),
            };
            let rest = next.objects.loading + next.objects.waiting;
            assert(rest =~= tasks.skip(1));
            assert forall|i: int| 0 <= i < rest.len() implies is_puttable_object(
                tail.log,
                #[trigger] rest[i],
            ) by {
                assert(rest[i] == tasks[i + 1]);
                assert(is_puttable_object(s.tail.log, tasks[i + 1]));
                if rest[i].blocks is Some {
                    let b = rest[i].blocks->0;
                    assert forall|j: int| 0 <= j < b.len() implies is_puttable_load(
                        tail.log,
                        #[trigger] b[j],
                    ) by {
                        assert(is_puttable_load(s.tail.log, b[j]));
                    }
                }
            }
            law_replayed_objects_keep_tails_ready(next, now_ms, stream_id);
        }
    }
}

/// A record that is not older than what its stream goes on with is read back, whatever else
/// is cached and whatever the budget.
pub proof fn law_latest_record_is_read_back(m: TailModel, record: Seq<u8>, budget: int)
    requires
        is_ready(m, rec_stream_id(record)),
        is_filled(record),
        has_room(m.log, record),
        m.next_offsets.contains_key(rec_stream_id(record)),
        rec_base_offset(record) >= m.next_offsets[rec_stream_id(record)],
    ensures
        log_get(
            took(m, record).log.blocks,
            rec_stream_id(record),
            rec_base_offset(record),
            rec_last_offset(record),
            budget,
        ) == seq![record],
{
    let id = rec_stream_id(record);
    law_record_keeps_tails_ready(m, record, id);
    let blocks = took(m, record).log.blocks;
    let held = stream_records(blocks, id);
    let k = held.len() - 1;
    assert(held[k] == record);
    law_held_records_are_read_back(blocks, id, k, rec_base_offset(record), budget);
    assert(held.skip(k) =~= seq![record]);
}

/// The records are of the stream, and each begins where the one before it ends.
pub open spec fn is_run_of(records: Seq<Seq<u8>>, stream_id: u64) -> bool {
    &&& is_gapless(records)
    &&& forall|i: int| 0 <= i < records.len() ==> rec_stream_id(#[trigger] records[i]) == stream_id
}

#[verifier::rlimit(30)]
proof fn lemma_run_is_held(m: TailModel, records: Seq<Seq<u8>>, now_ms: u64, stream_id: u64)
    requires
        is_ready(m, stream_id),
        stream_records(m.log.blocks, stream_id).len() == 0,
        !m.next_offsets.contains_key(stream_id),
        are_puttable(m.log, records),
        is_run_of(records, stream_id),
        forall|j: int|
            0 <= j < records.len() ==> is_roomy(
                put_records(m, #[trigger] records.take(j), now_ms).log,
            ),
    ensures
        stream_records(put_records(m, records, now_ms).log.blocks, stream_id) == records,
        records.len() > 0 ==> put_records(m, records, now_ms).next_offsets.contains_key(stream_id)
            && put_records(m, records, now_ms).next_offsets[stream_id] == rec_last_offset(
            records.last(),
        ),
    decreases records.len(),
{
    if records.len() == 0 {
        assert(stream_records(m.log.blocks, stream_id) =~= records);
    } else {
        let n = records.len() as int;
        let front = records.drop_last();
        assert(front =~= records.take(n - 1));
        assert forall|i: int| 0 <= i < front.len() implies is_filled(#[trigger] front[i])
            && has_room(m.log, front[i]) && rec_stream_id(front[i]) == stream_id by {
            assert(front[i] == records[i]);
        }
        assert forall|i: int, j: int|
            #![trigger front[i], front[j]]
            0 <= i && j == i + 1 && j < front.len() implies rec_base_offset(front[j])
            == rec_last_offset(front[i]) by {
            assert(front[i] == records[i] && front[j] == records[j]);
        }
        assert forall|j: int| 0 <= j < front.len() implies is_roomy(
            put_records(m, #[trigger] front.take(j), now_ms).log,
        ) by {
            assert(front.take(j) =~= records.take(j));
        }
        lemma_run_is_held(m, front, now_ms, stream_id);
        law_put_keeps_tails_ready(m, front, now_ms, stream_id);
        let r = records[n - 1];
        if n > 1 {
            assert(front.last() == records[n - 2]);
            assert(rec_base_offset(r) == rec_last_offset(records[n - 2]));
        }
        assert(is_roomy(put_records(m, records.take(n - 1), now_ms).log));
        lemma_run_step(put_records(m, front, now_ms), front, r, now_ms, stream_id);
        assert(front.push(r) =~= records);
    }
}

proof fn lemma_run_step(
    m: TailModel,
    front: Seq<Seq<u8>>,
    record: Seq<u8>,
    now_ms: u64,
    stream_id: u64,
)
    requires
        is_ready(m, stream_id),
        stream_records(m.log.blocks, stream_id) == front,
        front.len() == 0 ==> !m.next_offsets.contains_key(stream_id),
        front.len() > 0 ==> rec_base_offset(record) == rec_last_offset(front.last()),
        is_filled(record),
        has_room(m.log, record),
        is_roomy(m.log),
        rec_stream_id(record) == stream_id,
    ensures
        ({
            let ready = if front.len() == 0 {
                entered(m, record, now_ms)
            } else {
                m
            };
            &&& stream_records(took(ready, record).log.blocks, stream_id) == front.push(record)
            &&& took(ready, record).next_offsets.contains_key(stream_id)
            &&& took(ready, record).next_offsets[stream_id] == rec_last_offset(record)
        }),
{
    let ready = if front.len() == 0 {
        entered(m, record, now_ms)
    } else {
        m
    };
    law_record_keeps_tails_ready(ready, record, stream_id);
    let held = stream_records(took(ready, record).log.blocks, stream_id);
    assert(held =~= held.drop_last().push(record));
}

/// Batches of a stream without a gap, put into a cache that holds nothing of it, are read
/// back as they were put, from any of their offsets on, as long as the cache does not
/// overflow meanwhile and the budget lasts for all of them but the last.
#[verifier::rlimit(30)]
pub proof fn law_put_records_are_read_back(
    m: TailModel,
    records: Seq<Seq<u8>>,
    now_ms: u64,
    stream_id: u64,
    k: int,
    start: u64,
    budget: int,
)
    requires
        is_ready(m, stream_id),
        stream_records(m.log.blocks, stream_id).len() == 0,
        !m.next_offsets.contains_key(stream_id),
        are_puttable(m.log, records),
        is_run_of(records, stream_id),
        forall|j: int|
            0 <= j < records.len() ==> is_roomy(
                put_records(m, #[trigger] records.take(j), now_ms).log,
            ),
        0 <= k < records.len(),
        holds_offset(records[k], start),
        budget > payload_bytes(records),
    ensures
        log_get(
            put_records(m, records, now_ms).log.blocks,
            stream_id,
            start,
            rec_last_offset(records.last()),
            budget,
        ) == records.skip(k),
{
    lemma_run_is_held(m, records, now_ms, stream_id);
    law_put_keeps_tails_ready(m, records, now_ms, stream_id);
    let blocks = put_records(m, records, now_ms).log.blocks;
    lemma_payload_within(records, k);
    law_held_records_are_read_back(blocks, stream_id, k, start, budget);
}

} // verus!

//! Laws of snapshot reads: which streams are kept, what each record does to its stream, which
//! loads start and finish, and who is asked to commit.
use vstd::prelude::*;

use crate::cache::log_block::{cache_of, StreamRangeBound};
use crate::cache::log_cache::{cleared, LogCacheModel};
use crate::cache::snapshot_read::{
    bound_of, entered, expired, forgot, idle_streams, is_ahead, is_overloaded, put_records,
    resolved, started, startable, task_at, took, TailModel, WalReplayModel, WalTaskModel,
    ACTIVE_EXPIRE_MS, MAX_INFLIGHT_LOAD_BYTES, TASK_WAITING_TIMEOUT_MS,
};
use crate::cache::snapshot_replay::{
    began, began_one, done_count, loadable, object_at, put_blocks, put_tasks, LoadModel,
    ObjectReplayModel, ObjectTaskModel,
};
use crate::cache::stream_cache::empty_cache;
use crate::codec::record::{rec_base_offset, rec_count, rec_last_offset, rec_stream_id};
use crate::collections::{lemma_keys_are_listed, sorted_keys};
use crate::manager::StreamMetadata;
use crate::numbers::signed;

verus! {

/// A sweep drops exactly the streams that went without records for too long: their records,
/// where they go on, and that they were active. The others keep all three.
pub proof fn law_sweep_drops_idle_streams(m: TailModel, now_ms: u64, s: u64)
    requires
        m.active.dom().finite(),
    ensures
        ({
            let after = expired(m, now_ms);
            let idle = m.active.contains_key(s) && now_ms - m.active[s] >= ACTIVE_EXPIRE_MS;
            &&& after.active.contains_key(s) <==> m.active.contains_key(s) && !idle
            &&& idle ==> !after.next_offsets.contains_key(s) && (forall|i: int|
                0 <= i < after.log.blocks.len() ==> cache_of(
                    #[trigger] after.log.blocks[i],
                    s,
                ) == empty_cache())
            &&& !idle ==> {
                &&& after.next_offsets.contains_key(s) == m.next_offsets.contains_key(s)
                &&& after.next_offsets[s] == m.next_offsets[s]
                &&& after.active[s] == m.active[s]
                &&& after.log.blocks.len() == m.log.blocks.len()
                &&& forall|i: int|
                    0 <= i < m.log.blocks.len() ==> cache_of(#[trigger] after.log.blocks[i], s)
                        == cache_of(m.log.blocks[i], s)
            }
        }),
{
    let keys = sorted_keys(m.active);
    lemma_keys_are_listed(m.active);
    let p = |k: u64| now_ms - m.active[k] >= ACTIVE_EXPIRE_MS;
    let idle = idle_streams(m, keys, now_ms);
    lemma_filter_keys(keys, p, s);
    assert(keys.contains(s) <==> m.active.dom().contains(s));
    lemma_forgot(m, idle, s);
}

proof fn lemma_filter_keys(keys: Seq<u64>, p: spec_fn(u64) -> bool, k: u64)
    ensures
        keys.filter(p).contains(k) <==> keys.contains(k) && p(k),
    decreases keys.len(),
{
    if keys.len() == 0 {
        assert(keys.filter(p) =~= Seq::empty());
    } else {
        let front = keys.drop_last();
        lemma_filter_keys(front, p, k);
        assert(keys =~= front.push(keys.last()));
        front.lemma_filter_push(keys.last(), p);
        vstd::seq_lib::lemma_seq_contains_after_push(front, keys.last(), k);
        vstd::seq_lib::lemma_seq_contains_after_push(front.filter(p), keys.last(), k);
    }
}

proof fn lemma_forgot(m: TailModel, streams: Seq<u64>, s: u64)
    ensures
        ({
            let after = forgot(m, streams);
            &&& after.log.blocks.len() == m.log.blocks.len()
            &&& if streams.contains(s) {
                &&& !after.active.contains_key(s)
                &&& !after.next_offsets.contains_key(s)
                &&& forall|i: int|
                    0 <= i < after.log.blocks.len() ==> cache_of(#[trigger] after.log.blocks[i], s)
                        == empty_cache()
            } else {
                &&& after.active.contains_key(s) == m.active.contains_key(s)
                &&& after.active[s] == m.active[s]
                &&& after.next_offsets.contains_key(s) == m.next_offsets.contains_key(s)
                &&& after.next_offsets[s] == m.next_offsets[s]
                &&& forall|i: int|
                    0 <= i < m.log.blocks.len() ==> cache_of(#[trigger] after.log.blocks[i], s)
                        == cache_of(m.log.blocks[i], s)
            }
        }),
    decreases streams.len(),
{
    if streams.len() > 0 {
        let front = streams.drop_last();
        let k = streams.last();
        lemma_forgot(m, front, s);
        assert(streams =~= front.push(k));
        vstd::seq_lib::lemma_seq_contains_after_push(front, k, s);
        let before = forgot(m, front);
        let after = forgot(m, streams);
        lemma_cleared(before.log, k, s);
        assert forall|i: int| 0 <= i < after.log.blocks.len() implies cache_of(
            #[trigger] after.log.blocks[i],
            s,
        ) == (if k == s {
            empty_cache()
        } else {
            cache_of(before.log.blocks[i], s)
        }) by {
            assert(after.log.blocks[i] == cleared(before.log, k).blocks[i]);
        }
    }
}

proof fn lemma_cleared(m: LogCacheModel, k: u64, s: u64)
    ensures
        cleared(m, k).blocks.len() == m.blocks.len(),
        forall|i: int|
            0 <= i < m.blocks.len() ==> cache_of(#[trigger] cleared(m, k).blocks[i], s) == (if k
                == s {
                empty_cache()
            } else {
                cache_of(m.blocks[i], s)
            }),
{
}

/// A stream that comes up goes on where its first record begins; one that is known goes on
/// where it did. Either way it counts as active now.
pub proof fn law_entered_stream_is_active(m: TailModel, record: Seq<u8>, now_ms: u64, s: u64)
    ensures
        ({
            let after = entered(m, record, now_ms);
            let id = rec_stream_id(record);
            &&& after.log == m.log
            &&& after.active.contains_key(id) && after.active[id] == now_ms
            &&& after.next_offsets.contains_key(id)
            &&& after.next_offsets[id] == (if m.next_offsets.contains_key(id) {
                m.next_offsets[id]
            } else {
                rec_base_offset(record)
            })
            &&& s != id ==> after.active.contains_key(s) == m.active.contains_key(s)
                && after.next_offsets.contains_key(s) == m.next_offsets.contains_key(s)
                && after.next_offsets[s] == m.next_offsets[s] && after.active[s] == m.active[s]
        }),
{
}

/// A record moves its stream on to its end, unless the stream goes on behind its start already:
/// then it changes nothing. No stream moves back.
pub proof fn law_records_move_streams_on(m: TailModel, record: Seq<u8>)
    requires
        m.next_offsets.contains_key(rec_stream_id(record)),
        rec_base_offset(record) <= rec_last_offset(record),
    ensures
        ({
            let id = rec_stream_id(record);
            let before = m.next_offsets[id];
            let after = took(m, record).next_offsets[id];
            &&& after >= before
            &&& after == before || after == rec_last_offset(record)
            &&& rec_base_offset(record) >= before ==> after == rec_last_offset(record)
            &&& rec_base_offset(record) < before ==> took(m, record) == m
        }),
        took(m, record).active == m.active,
{
}

/// Replays start in order as long as there is room and the next one has not waited for too
/// long; they stop for no other reason.
pub proof fn law_replays_start_while_there_is_room(m: WalReplayModel, now_ms: u64)
    ensures
        ({
            let n = startable(m, now_ms);
            let after = started(m, n);
            &&& 0 <= n <= m.waiting.len()
            &&& after.loading.len() >= m.max_inflight || after.waiting.len() == 0 || now_ms
                - after.waiting[0].timestamp_ms > TASK_WAITING_TIMEOUT_MS
            &&& forall|i: int|
                0 <= i < n ==> now_ms - (#[trigger] m.waiting[i]).timestamp_ms
                    <= TASK_WAITING_TIMEOUT_MS
            &&& n > 0 ==> m.loading.len() + n <= m.max_inflight
            &&& is_overloaded(after, now_ms) <==> after.loading.len() < m.max_inflight
                && after.waiting.len() > 0
        }),
    decreases m.waiting.len(),
{
    if !(m.loading.len() >= m.max_inflight || m.waiting.len() == 0 || now_ms
        - m.waiting[0].timestamp_ms > TASK_WAITING_TIMEOUT_MS) {
        let next = WalReplayModel {
            waiting: m.waiting.skip(1),
            loading: m.loading.push(m.waiting[0]),
            ..m
        };
        law_replays_start_while_there_is_room(next, now_ms);
        let k = startable(next, now_ms);
        assert(next.waiting.skip(k) =~= m.waiting.skip(k + 1));
        assert(next.loading + next.waiting.take(k) =~= m.loading + m.waiting.take(k + 1));
        assert forall|i: int| 0 <= i < k + 1 implies now_ms - (
        #[trigger] m.waiting[i]).timestamp_ms <= TASK_WAITING_TIMEOUT_MS by {
            if i > 0 {
                assert(next.waiting[i - 1] == m.waiting[i]);
            }
        }
    } else {
        assert(m.waiting.skip(0) =~= m.waiting);
        assert(m.loading + m.waiting.take(0) =~= m.loading);
    }
}

/// The replay that a load belongs to is the first one with its id.
pub proof fn law_load_finds_its_replay(tasks: Seq<WalTaskModel>, id: u64)
    ensures
        match task_at(tasks, id) {
            Some(i) => 0 <= i < tasks.len() && tasks[i].id == id && forall|j: int|
                0 <= j < i ==> (#[trigger] tasks[j]).id != id,
            None => forall|j: int| 0 <= j < tasks.len() ==> (#[trigger] tasks[j]).id != id,
        },
    decreases tasks.len(),
{
    if tasks.len() > 0 {
        let front = tasks.drop_last();
        law_load_finds_its_replay(front, id);
        assert forall|j: int| 0 <= j < front.len() implies #[trigger] tasks[j] == front[j] by {}
    }
}

/// The object that a load belongs to has its id.
pub proof fn law_load_finds_its_object(tasks: Seq<ObjectTaskModel>, id: u64)
    ensures
        match object_at(tasks, id) {
            Some(i) => 0 <= i < tasks.len() && tasks[i].id == id,
            None => forall|j: int| 0 <= j < tasks.len() ==> (#[trigger] tasks[j]).id != id,
        },
    decreases tasks.len(),
{
    if tasks.len() > 0 {
        let front = tasks.drop_last();
        law_load_finds_its_object(front, id);
        assert forall|j: int| 0 <= j < front.len() implies #[trigger] tasks[j] == front[j] by {}
    }
}

/// Loads of objects begin as long as the bytes in flight are below their limit, and stop only
/// there or with nothing left to load.
pub proof fn law_object_loads_use_budget(m: ObjectReplayModel)
    ensures
        ({
            let n = loadable(m);
            let after = began(m, n);
            &&& 0 <= n <= m.waiting.len()
            &&& after.waiting == m.waiting.skip(n)
            &&& after.loading == m.loading + m.waiting.take(n)
            &&& after.inflight >= MAX_INFLIGHT_LOAD_BYTES || after.waiting.len() == 0
            &&& forall|i: int|
                0 <= i < n ==> #[trigger] began(m, i).inflight < MAX_INFLIGHT_LOAD_BYTES
        }),
    decreases m.waiting.len(),
{
    if m.inflight >= MAX_INFLIGHT_LOAD_BYTES || m.waiting.len() == 0 {
        assert(m.waiting.skip(0) =~= m.waiting);
        assert(m.loading + m.waiting.take(0) =~= m.loading);
    } else {
        let next = began_one(m);
        law_object_loads_use_budget(next);
        let k = loadable(next);
        lemma_began_shift(m, k);
        assert(next.waiting.skip(k) =~= m.waiting.skip(k + 1));
        assert(next.loading + next.waiting.take(k) =~= m.loading + m.waiting.take(k + 1));
        assert forall|i: int| 0 <= i < k + 1 implies #[trigger] began(m, i).inflight
            < MAX_INFLIGHT_LOAD_BYTES by {
            if i > 0 {
                lemma_began_shift(m, i - 1);
                assert(began(next, i - 1).inflight < MAX_INFLIGHT_LOAD_BYTES);
            }
        }
    }
}

proof fn lemma_began_shift(m: ObjectReplayModel, n: int)
    requires
        n >= 0,
    ensures
        began(m, n + 1) == began(began_one(m), n),
    decreases n,
{
    if n > 0 {
        lemma_began_shift(m, n - 1);
    } else {
        assert(began(m, 0) == m);
        assert(began(m, 1) == began_one(began(m, 0)));
    }
}

/// The blocks of an object are put in order, up to the first that is still loaded, and a failed
/// one is passed over.
pub proof fn law_blocks_are_put_in_order(
    tail: TailModel,
    blocks: Seq<LoadModel>,
    i: int,
    now_ms: u64,
)
    requires
        0 <= i <= blocks.len(),
    ensures
        ({
            let (after, stop) = put_blocks(tail, blocks, i, now_ms);
            &&& i <= stop <= blocks.len()
            &&& stop < blocks.len() ==> blocks[stop] is Pending
            &&& forall|j: int| i <= j < stop ==> !((#[trigger] blocks[j]) is Pending)
            &&& after == put_lists(tail, blocks.subrange(i, stop), now_ms)
        }),
    decreases blocks.len() - i,
{
    let (after, stop) = put_blocks(tail, blocks, i, now_ms);
    if i >= blocks.len() || blocks[i] is Pending {
        assert(blocks.subrange(i, stop) =~= Seq::empty());
    } else {
        let next = match blocks[i] {
            LoadModel::Loaded(r) => put_records(tail, r, now_ms),
            _ => tail,
        };
        law_blocks_are_put_in_order(next, blocks, i + 1, now_ms);
        assert(blocks.subrange(i, stop) =~= seq![blocks[i]] + blocks.subrange(i + 1, stop));
        lemma_put_lists(tail, blocks[i], blocks.subrange(i + 1, stop), now_ms);
    }
}

/// The records of loaded blocks, put one block after the other.
pub open spec fn put_lists(tail: TailModel, blocks: Seq<LoadModel>, now_ms: u64) -> TailModel
    decreases blocks.len(),
{
    if blocks.len() == 0 {
        tail
    } else {
        let before = put_lists(tail, blocks.drop_last(), now_ms);
        match blocks.last() {
            LoadModel::Loaded(r) => put_records(before, r, now_ms),
            _ => before,
        }
    }
}

proof fn lemma_put_lists(tail: TailModel, first: LoadModel, rest: Seq<LoadModel>, now_ms: u64)
    ensures
        put_lists(tail, seq![first] + rest, now_ms) == put_lists(
            match first {
                LoadModel::Loaded(r) => put_records(tail, r, now_ms),
                _ => tail,
            },
            rest,
            now_ms,
        ),
    decreases rest.len(),
{
    let all = seq![first] + rest;
    if rest.len() == 0 {
        assert(all.drop_last() =~= Seq::empty());
        assert(put_lists(tail, all.drop_last(), now_ms) == tail);
    } else {
        assert(all.drop_last() =~= seq![first] + rest.drop_last());
        lemma_put_lists(tail, first, rest.drop_last(), now_ms);
    }
}

/// WAL replays are put from the oldest on, up to the first whose load is not done.
pub proof fn law_done_replays_are_put(loading: Seq<WalTaskModel>)
    ensures
        ({
            let n = done_count(loading);
            &&& 0 <= n <= loading.len()
            &&& forall|i: int| 0 <= i < n ==> (#[trigger] loading[i]).load_done
            &&& n < loading.len() ==> !loading[n].load_done
        }),
    decreases loading.len(),
{
    if loading.len() > 0 && loading[0].load_done {
        let rest = loading.skip(1);
        law_done_replays_are_put(rest);
        let n = done_count(rest);
        assert forall|i: int| 0 <= i < n + 1 implies (#[trigger] loading[i]).load_done by {
            if i > 0 {
                assert(rest[i - 1] == loading[i]);
            }
        }
    }
}

/// Putting one more replay puts its records behind those of the ones before it.
pub proof fn law_replays_are_put_one_by_one(
    tail: TailModel,
    tasks: Seq<WalTaskModel>,
    task: WalTaskModel,
    now_ms: u64,
)
    ensures
        put_tasks(tail, Seq::<WalTaskModel>::empty(), now_ms) == tail,
        put_tasks(tail, tasks.push(task), now_ms) == put_records(
            put_tasks(tail, tasks, now_ms),
            task.records,
            now_ms,
        ),
{
    assert(tasks.push(task).drop_last() =~= tasks);
}

/// Links are resolved in place: every other record stays as it is, every link becomes what it
/// decodes to, and one that does not decode spoils the range.
pub proof fn law_links_are_resolved_in_place(
    records: Seq<Seq<u8>>,
    decoded: Seq<Option<Seq<u8>>>,
)
    ensures
        ({
            let r = resolved(records, decoded);
            &&& (forall|i: int|
                0 <= i < records.len() && rec_count(#[trigger] records[i]) < 0
                    ==> decoded[i] is Some) ==> {
                &&& r.len() == records.len()
                &&& forall|i: int|
                    0 <= i < records.len() && rec_count(#[trigger] records[i]) >= 0 ==> r[i]
                        == records[i]
                &&& forall|i: int|
                    0 <= i < records.len() && rec_count(#[trigger] records[i]) < 0 ==> Some(r[i])
                        == decoded[i]
            }
            &&& (exists|i: int|
                0 <= i < records.len() && rec_count(#[trigger] records[i]) < 0
                    && decoded[i] is None) ==> r.len() == 0
        }),
{
}

/// A node is asked to commit for a stream exactly where the block held offsets of it beyond
/// what is committed.
pub proof fn law_commit_is_asked_for_what_is_ahead(
    bounds: Seq<StreamRangeBound>,
    meta: StreamMetadata,
)
    requires
        forall|i: int, j: int|
            #![trigger bounds[i], bounds[j]]
            0 <= i < j < bounds.len() ==> bounds[i].stream_id != bounds[j].stream_id,
    ensures
        is_ahead(bounds, meta) <==> exists|i: int|
            0 <= i < bounds.len() && (#[trigger] bounds[i]).stream_id == meta.stream_id && signed(
                bounds[i].end_offset,
            ) > signed(meta.end_offset),
{
    lemma_bound_of(bounds, meta.stream_id);
}

proof fn lemma_bound_of(bounds: Seq<StreamRangeBound>, stream_id: u64)
    ensures
        match bound_of(bounds, stream_id) {
            Some(i) => 0 <= i < bounds.len() && bounds[i].stream_id == stream_id && forall|j: int|
                0 <= j < i ==> (#[trigger] bounds[j]).stream_id != stream_id,
            None => forall|j: int|
                0 <= j < bounds.len() ==> (#[trigger] bounds[j]).stream_id != stream_id,
        },
    decreases bounds.len(),
{
    if bounds.len() > 0 {
        let front = bounds.drop_last();
        lemma_bound_of(front, stream_id);
        assert forall|j: int| 0 <= j < front.len() implies #[trigger] bounds[j] == front[j] by {}
    }
}

/// Every stream that a list has a record of counts as active now and knows where it goes on, and
/// every other stream counts as it did.
pub proof fn law_put_records_keep_streams_active(
    m: TailModel,
    records: Seq<Seq<u8>>,
    now_ms: u64,
    s: u64,
)
    ensures
        ({
            let after = put_records(m, records, now_ms);
            let named = exists|i: int|
                0 <= i < records.len() && rec_stream_id(#[trigger] records[i]) == s;
            &&& named ==> after.active.contains_key(s) && after.active[s] == now_ms
                && after.next_offsets.contains_key(s)
            &&& !named ==> after.active.contains_key(s) == m.active.contains_key(s)
                && after.active[s] == m.active[s] && after.next_offsets.contains_key(s)
                == m.next_offsets.contains_key(s) && after.next_offsets[s] == m.next_offsets[s]
        }),
    decreases records.len(),
{
    if records.len() > 0 {
        let rest = records.drop_last();
        let last = records.len() - 1;
        law_put_records_keep_streams_active(m, rest, now_ms, s);
        if exists|i: int| 0 <= i < rest.len() && rec_stream_id(#[trigger] rest[i]) == s {
            let i = choose|i: int| 0 <= i < rest.len() && rec_stream_id(#[trigger] rest[i]) == s;
            assert(rec_stream_id(records[i]) == s);
        }
        if rec_stream_id(records.last()) == s {
            assert(rec_stream_id(records[last]) == s);
            if records.len() > 1 {
                assert(rest[last - 1] == records[last - 1]);
            }
        }
        if exists|i: int| 0 <= i < records.len() && rec_stream_id(#[trigger] records[i]) == s {
            let i = choose|i: int|
                0 <= i < records.len() && rec_stream_id(#[trigger] records[i]) == s;
            if i < last {
                assert(rec_stream_id(rest[i]) == s);
            }
        }
    }
}

} // verus!

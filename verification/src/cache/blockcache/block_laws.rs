//! Laws of the cached blocks: what is found, what is evicted and what is freed.
use vstd::prelude::*;

use crate::cache::blockcache::block_table::{freed_handle, index_of, TableModel};
use crate::cache::blockcache::cold_reads::pending_ms;
use crate::cache::blockcache::data_block::{
    fresh_block, marked_unread, shared, BlockModel, LoadState,
};
use crate::cache::blockcache::data_block_cache::{
    block_key, cached_handle, checked, dropped, evicted, evicted_all, evicted_shard, evicted_shards,
    expiry, is_consistent, is_stale, loaded, looked_up, read_by_one, relieved, shard_of, undecodable,
    unfetched, with_shard, without_block, BlockCacheModel, CachedBlock, ShardModel,
};
use crate::cache::blockcache::object_reader_cache::{kept_count, readers_of, total_loaded};
use crate::cache::blockcache::size_limiter::{after_release, is_short, woken_by, LimiterModel};
use crate::cache::blockcache::stream_reader::recoverable;
use crate::error::StreamError;
use crate::object::DataBlockIndex;

verus! {

/// A block is found by its handle: the first one that has it, if any has.
pub proof fn law_block_is_found_by_handle(blocks: Seq<BlockModel>, handle: u64)
    ensures
        match index_of(blocks, handle) {
            Some(i) => 0 <= i < blocks.len() && blocks[i].handle == handle && forall|j: int|
                0 <= j < i ==> (#[trigger] blocks[j]).handle != handle,
            None => forall|j: int| 0 <= j < blocks.len() ==> (#[trigger] blocks[j]).handle != handle,
        },
    decreases blocks.len(),
{
    if blocks.len() > 0 {
        let rest = blocks.drop_last();
        law_block_is_found_by_handle(rest, handle);
        assert(forall|j: int| 0 <= j < rest.len() ==> rest[j] == blocks[j]);
        match index_of(rest, handle) {
            Some(i) => {
                assert forall|j: int| 0 <= j < i implies (#[trigger] blocks[j]).handle
                    != handle by {
                    assert(rest[j].handle != handle);
                }
            },
            None => {
                assert forall|j: int| 0 <= j < rest.len() implies (#[trigger] blocks[j]).handle
                    != handle by {
                    assert(rest[j].handle != handle);
                }
            },
        }
    }
}

/// A cached block is found by its key: the first one that has it, if any has.
pub proof fn law_cached_block_is_found_by_key(entries: Seq<CachedBlock>, key: Seq<u64>)
    ensures
        match cached_handle(entries, key) {
            Some(h) => exists|i: int|
                {
                    &&& 0 <= i < entries.len()
                    &&& (#[trigger] entries[i]).handle == h
                    &&& block_key(entries[i].object_id, entries[i].index) == key
                    &&& forall|j: int|
                        0 <= j < i ==> block_key(
                            (#[trigger] entries[j]).object_id,
                            entries[j].index,
                        ) != key
                },
            None => forall|j: int|
                0 <= j < entries.len() ==> block_key(
                    (#[trigger] entries[j]).object_id,
                    entries[j].index,
                ) != key,
        },
    decreases entries.len(),
{
    if entries.len() > 0 {
        let rest = entries.drop_last();
        law_cached_block_is_found_by_key(rest, key);
        assert(forall|j: int| 0 <= j < rest.len() ==> rest[j] == entries[j]);
        match cached_handle(rest, key) {
            Some(h) => {
                let i = choose|i: int|
                    {
                        &&& 0 <= i < rest.len()
                        &&& (#[trigger] rest[i]).handle == h
                        &&& block_key(rest[i].object_id, rest[i].index) == key
                        &&& forall|j: int|
                            0 <= j < i ==> block_key(
                                (#[trigger] rest[j]).object_id,
                                rest[j].index,
                            ) != key
                    };
                assert(entries[i].handle == h);
                assert forall|j: int| 0 <= j < i implies block_key(
                    (#[trigger] entries[j]).object_id,
                    entries[j].index,
                ) != key by {
                    assert(rest[j] == entries[j]);
                }
            },
            None => {
                assert forall|j: int| 0 <= j < rest.len() implies block_key(
                    (#[trigger] entries[j]).object_id,
                    entries[j].index,
                ) != key by {
                    assert(rest[j] == entries[j]);
                }
                assert(entries[entries.len() - 1] == entries.last());
            },
        }
    }
}

/// A block that was taken out is not cached any more, and all others still are.
pub proof fn law_removed_block_is_not_cached(
    entries: Seq<CachedBlock>,
    key: Seq<u64>,
    other: Seq<u64>,
)
    ensures
        cached_handle(without_block(entries, key), key) is None,
        other != key ==> cached_handle(without_block(entries, key), other) == cached_handle(
            entries,
            other,
        ),
    decreases entries.len(),
{
    let f = |e: CachedBlock| block_key(e.object_id, e.index) != key;
    if entries.len() == 0 {
        assert(without_block(entries, key) =~= Seq::empty()) by {
            reveal(Seq::filter);
        }
    } else {
        let rest = entries.drop_last();
        let last = entries.last();
        law_removed_block_is_not_cached(rest, key, other);
        assert(entries =~= rest.push(last));
        rest.lemma_filter_push(last, f);
        let kept = without_block(rest, key);
        assert(kept.push(last).drop_last() =~= kept);
    }
}

/// The blocks differ at most in that the second one is free, and then has no listeners.
pub open spec fn is_freed_at_most(a: BlockModel, b: BlockModel) -> bool {
    &&& b.handle == a.handle
    &&& b.object_id == a.object_id
    &&& b.index == a.index
    &&& b.unread == a.unread
    &&& b.last_access_ms == a.last_access_ms
    &&& b.load == a.load
    &&& b.records == a.records
    &&& a.freed ==> b == a
    &&& b != a ==> b.freed
}

/// An entry from `n` on has the key.
pub open spec fn has_key_from(lru: Seq<(Seq<u64>, u64)>, n: int, key: Seq<u64>) -> bool {
    exists|k: int| n <= k < lru.len() && (#[trigger] lru[k]).0 == key
}

/// The block of a handle is under one of the keys from `n` on.
pub open spec fn is_under_key_from(s: ShardModel, n: int, handle: u64) -> bool {
    exists|k: int|
        n <= k < s.lru.len() && cached_handle(s.entries, (#[trigger] s.lru[k]).0) == Some(handle)
}

/// Eviction down to the `n` most recently used entries: the last of them is not stale, and memory
/// is not short. Exactly the blocks behind it leave the shard and are freed; every other block
/// stays as it was.
pub open spec fn is_eviction(
    s: ShardModel,
    t: TableModel,
    expired_before_ms: u64,
    n: int,
    after: ShardModel,
    table: TableModel,
) -> bool {
    &&& 0 <= n <= s.lru.len()
    &&& after.lru == s.lru.take(n)
    &&& after.last_evict_check_ms == s.last_evict_check_ms
    &&& n > 0 ==> table.limiter.permits > 0 && table.limiter.waiters.len() == 0
    &&& n > 0 ==> (cached_handle(after.entries, s.lru[n - 1].0) matches Some(h) && (index_of(
        table.blocks,
        h,
    ) matches Some(i) ==> table.blocks[i].last_access_ms >= expired_before_ms))
    &&& forall|key: Seq<u64>| #[trigger]
        cached_handle(after.entries, key) == if has_key_from(s.lru, n, key) {
            None
        } else {
            cached_handle(s.entries, key)
        }
    &&& table.blocks.len() == t.blocks.len()
    &&& forall|i: int|
        0 <= i < t.blocks.len() ==> is_freed_at_most(#[trigger] t.blocks[i], table.blocks[i])
    &&& forall|i: int|
        0 <= i < t.blocks.len() && (#[trigger] t.blocks[i]) != table.blocks[i]
            ==> is_under_key_from(s, n, t.blocks[i].handle)
    &&& forall|h: u64| #[trigger]
        is_under_key_from(s, n, h) ==> (index_of(t.blocks, h) matches Some(i) ==> table.blocks[i].freed)
    &&& t.limiter.permits > 0 && t.limiter.waiters.len() == 0 ==> table.limiter.permits > 0
        && table.limiter.waiters.len() == 0
}

proof fn lemma_same_index(a: Seq<BlockModel>, b: Seq<BlockModel>, handle: u64)
    requires
        a.len() == b.len(),
        forall|i: int| 0 <= i < a.len() ==> (#[trigger] a[i]).handle == b[i].handle,
    ensures
        index_of(a, handle) == index_of(b, handle),
    decreases a.len(),
{
    if a.len() > 0 {
        let x = a.drop_last();
        let y = b.drop_last();
        assert forall|i: int| 0 <= i < x.len() implies (#[trigger] x[i]).handle == y[i].handle by {
            assert(a[i].handle == b[i].handle);
        }
        lemma_same_index(x, y, handle);
        assert(a[a.len() - 1].handle == b[b.len() - 1].handle);
    }
}

proof fn lemma_freed(t: TableModel, handle: u64)
    ensures
        ({
            let after = freed_handle(t, handle);
            &&& after.blocks.len() == t.blocks.len()
            &&& forall|i: int|
                0 <= i < t.blocks.len() ==> is_freed_at_most(
                    #[trigger] t.blocks[i],
                    after.blocks[i],
                )
            &&& forall|i: int|
                0 <= i < t.blocks.len() && (#[trigger] t.blocks[i]) != after.blocks[i]
                    ==> t.blocks[i].handle == handle
            &&& index_of(t.blocks, handle) matches Some(i) ==> 0 <= i < t.blocks.len()
                && after.blocks[i].freed
            &&& !is_short(t.limiter) ==> !is_short(after.limiter)
        }),
{
    law_block_is_found_by_handle(t.blocks, handle);
}

#[verifier::rlimit(60)]
proof fn lemma_evicted(s: ShardModel, t: TableModel, expired_before_ms: u64) -> (n: int)
    ensures
        is_eviction(
            s,
            t,
            expired_before_ms,
            n,
            evicted(s, t, expired_before_ms).0,
            evicted(s, t, expired_before_ms).1,
        ),
    decreases s.lru.len(),
{
    let (after, table) = evicted(s, t, expired_before_ms);
    if s.lru.len() == 0 {
        assert(s.lru.take(0) =~= s.lru);
        0
    } else {
        let last = s.lru.len() - 1;
        let key = s.lru.last().0;
        let rest = ShardModel { lru: s.lru.drop_last(), ..s };
        assert(s.lru[last].0 == key);
        match cached_handle(s.entries, key) {
            None => {
                let n = lemma_evicted(rest, t, expired_before_ms);
                assert(rest.lru.take(n) =~= s.lru.take(n));
                lemma_keys_grow(s, rest, n);
                n
            },
            Some(h) => if !is_stale(t, h, expired_before_ms) && !is_short(t.limiter) {
                let n = s.lru.len() as int;
                assert(s.lru.take(n) =~= s.lru);
                n
            } else {
                let next = ShardModel { entries: without_block(s.entries, key), ..rest };
                let freed = freed_handle(t, h);
                lemma_freed(t, h);
                let n = lemma_evicted(next, freed, expired_before_ms);
                assert(next.lru.take(n) =~= s.lru.take(n));
                lemma_eviction_step(s, t, expired_before_ms, n, h);
                n
            },
        }
    }
}

/// One more entry at the end whose block is not cached changes nothing.
proof fn lemma_keys_grow(s: ShardModel, rest: ShardModel, n: int)
    requires
        s.lru.len() > 0,
        rest == (ShardModel { lru: s.lru.drop_last(), ..s }),
        cached_handle(s.entries, s.lru.last().0) is None,
        0 <= n <= rest.lru.len(),
    ensures
        forall|key: Seq<u64>| #[trigger]
            has_key_from(s.lru, n, key) ==> has_key_from(rest.lru, n, key) || cached_handle(
                s.entries,
                key,
            ) is None,
        forall|key: Seq<u64>| #[trigger]
            has_key_from(rest.lru, n, key) ==> has_key_from(s.lru, n, key),
        forall|h: u64| #[trigger] is_under_key_from(s, n, h) <==> is_under_key_from(rest, n, h),
{
    let last = s.lru.len() - 1;
    assert forall|key: Seq<u64>| #[trigger] has_key_from(s.lru, n, key) implies has_key_from(
        rest.lru,
        n,
        key,
    ) || cached_handle(s.entries, key) is None by {
        let k = choose|k: int| n <= k < s.lru.len() && (#[trigger] s.lru[k]).0 == key;
        if k < last {
            assert(rest.lru[k].0 == key);
        }
    }
    assert forall|key: Seq<u64>| #[trigger] has_key_from(rest.lru, n, key) implies has_key_from(
        s.lru,
        n,
        key,
    ) by {
        let k = choose|k: int| n <= k < rest.lru.len() && (#[trigger] rest.lru[k]).0 == key;
        assert(s.lru[k].0 == key);
    }
    assert forall|h: u64| #[trigger] is_under_key_from(s, n, h) <==> is_under_key_from(
        rest,
        n,
        h,
    ) by {
        if is_under_key_from(s, n, h) {
            let k = choose|k: int|
                n <= k < s.lru.len() && cached_handle(s.entries, (#[trigger] s.lru[k]).0) == Some(
                    h,
                );
            assert(rest.lru[k].0 == s.lru[k].0);
        }
        if is_under_key_from(rest, n, h) {
            let k = choose|k: int|
                n <= k < rest.lru.len() && cached_handle(rest.entries, (#[trigger] rest.lru[k]).0)
                    == Some(h);
            assert(s.lru[k].0 == rest.lru[k].0);
        }
    }
}

#[verifier::rlimit(60)]
proof fn lemma_eviction_step(
    s: ShardModel,
    t: TableModel,
    expired_before_ms: u64,
    n: int,
    h: u64,
)
    requires
        s.lru.len() > 0,
        cached_handle(s.entries, s.lru.last().0) == Some(h),
        is_stale(t, h, expired_before_ms) || is_short(t.limiter),
        ({
            let next = ShardModel {
                entries: without_block(s.entries, s.lru.last().0),
                lru: s.lru.drop_last(),
                ..s
            };
            let freed = freed_handle(t, h);
            let (after, table) = evicted(next, freed, expired_before_ms);
            is_eviction(next, freed, expired_before_ms, n, after, table)
        }),
    ensures
        is_eviction(
            s,
            t,
            expired_before_ms,
            n,
            evicted(s, t, expired_before_ms).0,
            evicted(s, t, expired_before_ms).1,
        ),
{
    let last = s.lru.len() - 1;
    let key = s.lru.last().0;
    assert(s.lru[last].0 == key);
    let next = ShardModel {
        entries: without_block(s.entries, key),
        lru: s.lru.drop_last(),
        ..s
    };
    let freed = freed_handle(t, h);
    let (after, table) = evicted(next, freed, expired_before_ms);
    assert((after, table) == evicted(s, t, expired_before_ms));
    lemma_freed(t, h);
    assert(next.lru.take(n) =~= s.lru.take(n));
    assert forall|other: Seq<u64>| #[trigger]
        cached_handle(after.entries, other) == if has_key_from(s.lru, n, other) {
            None
        } else {
            cached_handle(s.entries, other)
        } by {
        law_removed_block_is_not_cached(s.entries, key, other);
        if has_key_from(next.lru, n, other) {
            let k = choose|k: int| n <= k < next.lru.len() && (#[trigger] next.lru[k]).0 == other;
            assert(s.lru[k].0 == other);
            assert(has_key_from(s.lru, n, other));
        } else if has_key_from(s.lru, n, other) {
            let k = choose|k: int| n <= k < s.lru.len() && (#[trigger] s.lru[k]).0 == other;
            if k < last {
                assert(next.lru[k].0 == other);
                assert(false);
            }
        }
    }
    assert forall|i: int| 0 <= i < t.blocks.len() implies is_freed_at_most(
        #[trigger] t.blocks[i],
        table.blocks[i],
    ) by {
        assert(is_freed_at_most(freed.blocks[i], table.blocks[i]));
    }
    assert forall|g: u64| #[trigger] is_under_key_from(next, n, g) implies is_under_key_from(
        s,
        n,
        g,
    ) by {
        let k = choose|k: int|
            n <= k < next.lru.len() && cached_handle(next.entries, (#[trigger] next.lru[k]).0)
                == Some(g);
        law_removed_block_is_not_cached(s.entries, key, next.lru[k].0);
        assert(s.lru[k].0 == next.lru[k].0);
    }
    assert(is_under_key_from(s, n, h)) by {
        assert(cached_handle(s.entries, s.lru[last].0) == Some(h));
    }
    assert forall|i: int|
        0 <= i < t.blocks.len() && (#[trigger] t.blocks[i])
            != table.blocks[i] implies is_under_key_from(s, n, t.blocks[i].handle) by {
        if t.blocks[i] == freed.blocks[i] {
            assert(freed.blocks[i] != table.blocks[i]);
            assert(is_under_key_from(next, n, freed.blocks[i].handle));
        }
    }
    assert forall|g: u64| #[trigger] is_under_key_from(s, n, g) implies (index_of(
        t.blocks,
        g,
    ) matches Some(i) ==> table.blocks[i].freed) by {
        lemma_same_index(t.blocks, freed.blocks, g);
        law_block_is_found_by_handle(t.blocks, g);
        if index_of(t.blocks, g) is Some {
            let i = index_of(t.blocks, g)->0;
            if g == h {
                assert(freed.blocks[i].freed);
                assert(is_freed_at_most(freed.blocks[i], table.blocks[i]));
            } else {
                let k = choose|k: int|
                    n <= k < s.lru.len() && cached_handle(s.entries, (#[trigger] s.lru[k]).0)
                        == Some(g);
                assert(k < last);
                assert(next.lru[k].0 == s.lru[k].0);
                law_removed_block_is_not_cached(s.entries, key, s.lru[k].0);
                assert(is_under_key_from(next, n, g));
            }
        }
    }
}

/// Eviction goes from the least recently used block on, and stops at the first one that is not
/// stale once memory is not short. Exactly the blocks behind that one leave the shard, and they
/// are freed; every other block stays as it was.
pub proof fn law_eviction_frees_least_recently_used(
    s: ShardModel,
    t: TableModel,
    expired_before_ms: u64,
)
    ensures
        exists|n: int|
            #[trigger] is_eviction(
                s,
                t,
                expired_before_ms,
                n,
                evicted(s, t, expired_before_ms).0,
                evicted(s, t, expired_before_ms).1,
            ),
{
    let n = lemma_evicted(s, t, expired_before_ms);
}

/// Where memory is left, nobody waits for it, and no block is stale, no block is evicted.
pub proof fn law_nothing_is_evicted_without_need(
    s: ShardModel,
    t: TableModel,
    expired_before_ms: u64,
)
    requires
        t.limiter.permits > 0,
        t.limiter.waiters.len() == 0,
        forall|i: int|
            0 <= i < t.blocks.len() ==> (#[trigger] t.blocks[i]).last_access_ms
                >= expired_before_ms,
    ensures
        evicted(s, t, expired_before_ms).0.entries == s.entries,
        evicted(s, t, expired_before_ms).1 == t,
    decreases s.lru.len(),
{
    if s.lru.len() > 0 {
        let rest = ShardModel { lru: s.lru.drop_last(), ..s };
        match cached_handle(s.entries, s.lru.last().0) {
            None => {
                law_nothing_is_evicted_without_need(rest, t, expired_before_ms);
            },
            Some(h) => {
                law_block_is_found_by_handle(t.blocks, h);
            },
        }
    }
}

/// A block is stale exactly if more than the time to live has passed since its last use.
pub proof fn law_block_is_stale_after_ttl(m: BlockCacheModel, i: int, now_ms: u64)
    requires
        is_consistent(m),
        0 <= i < m.table.blocks.len(),
    ensures
        is_stale(m.table, m.table.blocks[i].handle, expiry(m, now_ms))
            <==> m.table.blocks[i].last_access_ms + m.ttl_ms < now_ms,
{
    let h = m.table.blocks[i].handle;
    law_block_is_found_by_handle(m.table.blocks, h);
    let k = index_of(m.table.blocks, h)->0;
    if k != i {
        assert(m.table.blocks[k].handle == m.table.blocks[i].handle);
    }
}

/// What eviction in all shards keeps.
spec fn is_relieved(m: BlockCacheModel, n: int, after: BlockCacheModel) -> bool {
    &&& after.shards.len() == m.shards.len()
    &&& after.next_handle == m.next_handle
    &&& after.ttl_ms == m.ttl_ms
    &&& after.table.blocks.len() == m.table.blocks.len()
    &&& forall|i: int|
        0 <= i < m.table.blocks.len() ==> is_freed_at_most(
            #[trigger] m.table.blocks[i],
            after.table.blocks[i],
        )
    &&& forall|j: int, key: Seq<u64>|
        0 <= j < m.shards.len() && cached_handle(m.shards[j].entries, key) is None
            ==> #[trigger] cached_handle(after.shards[j].entries, key) is None
    &&& forall|j: int|
        n <= j < m.shards.len() ==> #[trigger] after.shards[j] == m.shards[j]
    &&& is_short(after.table.limiter) ==> forall|j: int|
        0 <= j < n ==> (#[trigger] after.shards[j]).lru.len() == 0
    &&& !is_short(m.table.limiter) ==> !is_short(after.table.limiter)
}

proof fn lemma_evicted_shards(m: BlockCacheModel, n: int, now_ms: u64)
    requires
        0 <= n <= m.shards.len(),
    ensures
        is_relieved(m, n, evicted_shards(m, n, now_ms)),
    decreases n,
{
    if n > 0 {
        lemma_evicted_shards(m, n - 1, now_ms);
        let before = evicted_shards(m, n - 1, now_ms);
        let after = evicted_shards(m, n, now_ms);
        let k = lemma_evicted(before.shards[n - 1], before.table, expiry(before, now_ms));
        let (s, t) = evicted(before.shards[n - 1], before.table, expiry(before, now_ms));
        assert(after == with_shard(before, n - 1, s, t));
        assert forall|i: int| 0 <= i < m.table.blocks.len() implies is_freed_at_most(
            #[trigger] m.table.blocks[i],
            after.table.blocks[i],
        ) by {
            assert(is_freed_at_most(m.table.blocks[i], before.table.blocks[i]));
            assert(is_freed_at_most(before.table.blocks[i], after.table.blocks[i]));
        }
        assert forall|j: int, key: Seq<u64>|
            0 <= j < m.shards.len() && cached_handle(
                m.shards[j].entries,
                key,
            ) is None implies #[trigger] cached_handle(after.shards[j].entries, key) is None by {
            assert(cached_handle(before.shards[j].entries, key) is None);
        }
        if is_short(after.table.limiter) {
            assert(is_short(before.table.limiter));
            assert forall|j: int| 0 <= j < n implies (#[trigger] after.shards[j]).lru.len()
                == 0 by {
                if j < n - 1 {
                    assert(before.shards[j].lru.len() == 0);
                } else {
                    assert(k == 0);
                }
            }
        }
    }
}

/// Memory stays short after an eviction only where no block was left to evict.
pub proof fn law_memory_is_short_only_when_nothing_is_left(m: BlockCacheModel, now_ms: u64)
    requires
        evicted_all(m, now_ms).table.limiter.permits <= 0 || evicted_all(
            m,
            now_ms,
        ).table.limiter.waiters.len() > 0,
    ensures
        forall|j: int|
            0 <= j < m.shards.len() ==> (#[trigger] evicted_all(m, now_ms).shards[j]).lru.len()
                == 0,
{
    lemma_evicted_shards(m, m.shards.len() as int, now_ms);
}

proof fn lemma_relieved(m: BlockCacheModel, now_ms: u64)
    ensures
        is_relieved(m, m.shards.len() as int, relieved(m, now_ms)) || relieved(m, now_ms) == m,
{
    lemma_evicted_shards(m, m.shards.len() as int, now_ms);
}

/// A block that was fetched is loaded and holds exactly the records that were decoded.
pub proof fn law_loaded_block_holds_its_records(
    m: BlockCacheModel,
    i: int,
    records: Seq<Seq<u8>>,
    now_ms: u64,
)
    requires
        0 <= i < m.table.blocks.len(),
        m.shards.len() > 0,
    ensures
        loaded(m, i, records, now_ms).table.blocks.len() == m.table.blocks.len(),
        loaded(m, i, records, now_ms).table.blocks[i].load == LoadState::Loaded,
        loaded(m, i, records, now_ms).table.blocks[i].records == records,
        loaded(m, i, records, now_ms).table.blocks[i].handle == m.table.blocks[i].handle,
{
    let b = m.table.blocks[i];
    let k = shard_of(m, b.index.stream_id);
    let s = m.shards[k];
    let before = with_shard(
        m,
        k,
        ShardModel {
            lru: crate::cache::blockcache::recency::pushed(
                s.lru,
                usize::MAX as nat,
                block_key(b.object_id, b.index),
                0,
            ),
            ..s
        },
        crate::cache::blockcache::block_table::with_block(
            m.table,
            i,
            BlockModel { load: LoadState::Loaded, records, ..b },
        ),
    );
    lemma_relieved(before, now_ms);
    assert(loaded(m, i, records, now_ms) == relieved(before, now_ms));
    if relieved(before, now_ms) != before {
        assert(is_freed_at_most(
            before.table.blocks[i],
            relieved(before, now_ms).table.blocks[i],
        ));
    }
}

/// A block whose load failed is free, says why, and is fetched anew by the next lookup.
pub proof fn law_failed_block_is_fetched_anew(
    m: BlockCacheModel,
    i: int,
    error: StreamError,
    now_ms: u64,
    later_ms: u64,
)
    requires
        0 <= i < m.table.blocks.len(),
        m.shards.len() > 0,
        cached_handle(
            m.shards[shard_of(m, m.table.blocks[i].index.stream_id)].entries,
            block_key(m.table.blocks[i].object_id, m.table.blocks[i].index),
        ) == Some(m.table.blocks[i].handle),
    ensures
        ({
            let b = m.table.blocks[i];
            let after = unfetched(m, i, error, now_ms);
            &&& after.table.blocks[i].freed
            &&& after.table.blocks[i].load == LoadState::Failed(error)
            &&& looked_up(after, b.object_id, b.index, later_ms).1.start_load
        }),
        ({
            let b = m.table.blocks[i];
            let after = undecodable(m, i, error, now_ms);
            &&& after.table.blocks[i].freed
            &&& after.table.blocks[i].load == LoadState::Failed(error)
            &&& looked_up(after, b.object_id, b.index, later_ms).1.start_load
        }),
{
    let b = m.table.blocks[i];
    let key = block_key(b.object_id, b.index);
    let k = shard_of(m, b.index.stream_id);
    assert(0 <= k < m.shards.len());
    law_removed_block_is_not_cached(m.shards[k].entries, key, key);
    let d = dropped(m, b);
    let x = BlockCacheModel {
        table: crate::cache::blockcache::data_block_cache::failed_at(d.table, i, error),
        ..d
    };
    lemma_relieved(x, now_ms);
    assert(unfetched(m, i, error, now_ms) == relieved(x, now_ms));
    assert(x.table.blocks[i].freed && x.table.blocks[i].load == LoadState::Failed(error));
    if relieved(x, now_ms) != x {
        assert(is_freed_at_most(x.table.blocks[i], relieved(x, now_ms).table.blocks[i]));
    }
    assert(cached_handle(x.shards[k].entries, key) is None);
    assert(cached_handle(relieved(x, now_ms).shards[k].entries, key) is None);
    let y = dropped(
        BlockCacheModel {
            table: crate::cache::blockcache::data_block_cache::failed_at(m.table, i, error),
            ..m
        },
        b,
    );
    lemma_relieved(y, now_ms);
    assert(undecodable(m, i, error, now_ms) == relieved(y, now_ms));
    assert(y.table.blocks[i].freed && y.table.blocks[i].load == LoadState::Failed(error));
    if relieved(y, now_ms) != y {
        assert(is_freed_at_most(y.table.blocks[i], relieved(y, now_ms).table.blocks[i]));
    }
    assert(cached_handle(y.shards[k].entries, key) is None);
    assert(cached_handle(relieved(y, now_ms).shards[k].entries, key) is None);
}

/// A block that is not cached gets a handle that no block has, and is loading until it is
/// fetched.
pub proof fn law_new_block_is_loading(
    m: BlockCacheModel,
    object_id: u64,
    index: DataBlockIndex,
    now_ms: u64,
)
    requires
        is_consistent(m),
        cached_handle(
            m.shards[shard_of(m, index.stream_id)].entries,
            block_key(object_id, index),
        ) is None,
    ensures
        ({
            let (after, r) = looked_up(m, object_id, index, now_ms);
            let i = m.table.blocks.len() as int;
            &&& r.start_load
            &&& index_of(m.table.blocks, r.handle) is None
            &&& index_of(after.table.blocks, r.handle) == Some(i)
            &&& after.table.blocks[i].object_id == object_id
            &&& after.table.blocks[i].index == index
            &&& after.table.blocks[i].load == LoadState::Loading
            &&& !after.table.blocks[i].freed
            &&& after.table.blocks[i].last_access_ms == now_ms
        }),
{
    let (after, r) = looked_up(m, object_id, index, now_ms);
    law_block_is_found_by_handle(m.table.blocks, r.handle);
    if index_of(m.table.blocks, r.handle) is Some {
        let i = index_of(m.table.blocks, r.handle)->0;
        assert(m.table.blocks[i].handle < m.next_handle);
    }
    assert(after.table.blocks.drop_last() =~= m.table.blocks);
}

/// Once a shard was checked it is not checked again until more than the interval has passed.
pub proof fn law_shard_is_checked_once_per_interval(
    m: BlockCacheModel,
    stream_id: u64,
    now_ms: u64,
    later_ms: u64,
)
    requires
        m.shards.len() > 0,
        now_ms - m.shards[shard_of(m, stream_id)].last_evict_check_ms > m.check_interval_ms,
        later_ms <= now_ms + m.check_interval_ms,
    ensures
        checked(checked(m, stream_id, now_ms), stream_id, later_ms) == checked(
            m,
            stream_id,
            now_ms,
        ),
        checked(m, stream_id, now_ms).shards[shard_of(m, stream_id)].last_evict_check_ms == now_ms,
{
    let i = shard_of(m, stream_id);
    let s = m.shards[i];
    let before = with_shard(m, i, ShardModel { last_evict_check_ms: now_ms, ..s }, m.table);
    let n = lemma_evicted(before.shards[i], before.table, expiry(before, now_ms));
    assert(checked(m, stream_id, now_ms) == evicted_shard(before, i, now_ms));
}

/// A block stays while a reader is left: with two or more readers, one of them being done
/// changes nothing but the count.
pub proof fn law_block_stays_while_it_is_read(m: BlockCacheModel, i: int)
    requires
        0 <= i < m.table.blocks.len(),
        m.table.blocks[i].unread >= 2,
    ensures
        read_by_one(m, i).shards == m.shards,
        read_by_one(m, i).table.limiter == m.table.limiter,
        read_by_one(m, i).table.blocks[i] == (BlockModel {
            unread: m.table.blocks[i].unread - 1,
            ..m.table.blocks[i]
        }),
{
}

/// As many readers are left as asked for the block and are not done: the first one makes it
/// one, and each further one adds one.
pub proof fn law_readers_of_a_block_are_counted(
    handle: u64,
    object_id: u64,
    index: DataBlockIndex,
    created_ms: u64,
    m: BlockModel,
    now_ms: u64,
)
    ensures
        marked_unread(fresh_block(handle, object_id, index, created_ms), now_ms).unread == 1,
        m.unread >= 0 ==> marked_unread(m, now_ms).unread == m.unread + 1,
        marked_unread(m, now_ms).last_access_ms == now_ms,
        marked_unread(m, now_ms).freed == m.freed,
{
}

/// Waiters for memory are woken in turn, one for each release that leaves some: the one that is
/// woken and those that still wait are those that waited.
pub proof fn law_waiters_are_woken_in_turn(m: LimiterModel, amount: int)
    ensures
        match woken_by(m, amount) {
            Some(w) => {
                &&& after_release(m, amount).permits > 0
                &&& m.waiters == seq![w] + after_release(m, amount).waiters
            },
            None => {
                &&& after_release(m, amount).waiters == m.waiters
                &&& after_release(m, amount).permits <= 0 || m.waiters.len() == 0
            },
        },
        is_short(m) <==> !(m.permits > 0 && m.waiters.len() == 0),
{
    if woken_by(m, amount) is Some {
        assert(m.waiters =~= seq![m.waiters[0]] + m.waiters.skip(1));
    }
}

/// The readers that stay are the most recently used ones whose indexes fit together, and at
/// least one; one more would not fit.
pub proof fn law_as_many_readers_stay_as_fit(
    entries: Seq<(Seq<u64>, u64)>,
    index_bytes: Map<u64, usize>,
    max_bytes: int,
)
    ensures
        ({
            let n = kept_count(entries, index_bytes, max_bytes);
            &&& 0 <= n <= entries.len()
            &&& entries.len() > 0 ==> n > 0
            &&& n > 1 ==> total_loaded(readers_of(entries.take(n)), index_bytes) <= max_bytes
            &&& n < entries.len() ==> total_loaded(readers_of(entries.take(n + 1)), index_bytes)
                > max_bytes
        }),
    decreases entries.len(),
{
    let n = kept_count(entries, index_bytes, max_bytes);
    assert(entries.take(entries.len() as int) =~= entries);
    if entries.len() > 1 && total_loaded(readers_of(entries), index_bytes) > max_bytes {
        let rest = entries.drop_last();
        law_as_many_readers_stay_as_fit(rest, index_bytes, max_bytes);
        assert(rest.take(n) =~= entries.take(n));
        if n < rest.len() {
            assert(rest.take(n + 1) =~= entries.take(n + 1));
        } else {
            assert(entries.take(n + 1) =~= entries);
        }
    }
}

/// What the readers of a shared load are told decides the same about a retry as the error
/// itself.
pub proof fn law_shared_error_decides_the_same(error: StreamError)
    ensures
        recoverable(shared(error)) == recoverable(error),
        recoverable(error) ==> shared(error) == error,
{
}

/// A read that began at `start` has been in flight for a number of milliseconds from then on.
pub proof fn law_read_is_pending_from_then_on(start: u64, now_ms: u64, threshold_ms: u64)
    ensures
        pending_ms(start, now_ms) >= threshold_ms <==> threshold_ms == 0 || start + threshold_ms
            <= now_ms,
{
}

} // verus!

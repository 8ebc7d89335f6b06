//! The page-cache layer of the cold read path.
//!
//! - One fetch per block, shared by all waiters.
//! - Drop-behind: a block is freed as soon as every interested reader is done with it
//!   (unread count reaches 0), so the cache holds only the prefetch-to-consume window.
//! - Eviction by age and by recency of use when memory is short.
use lru::LruCache;
use vstd::prelude::*;

use crate::cache::blockcache::block_table::{
    freed_at, freed_handle, held, index_of, lemma_freed_at, lemma_index_of, lemma_index_of_push,
    lemma_index_of_same, with_block, BlockTable, FreeNotice, TableModel,
};
use crate::cache::blockcache::cold_reads::{ColdReadGuard, ColdReadInflightRegistry};
use crate::cache::blockcache::data_block::{
    fresh_block, marked_unread, picked, BlockModel, GetOptions, LoadState,
};
use crate::cache::blockcache::recency::{
    find_value, fronted, lru_cap, lru_entries, lru_peek_last, lru_pop, lru_pop_last, lru_promote,
    lru_push, lru_unbounded, pushed, without_key,
};
use crate::cache::blockcache::size_limiter::{is_short, LimiterModel};
use crate::cache::stream_cache::record_views;
use crate::codec::record::{is_batch, StreamRecordBatch};
use crate::error::StreamError;
use crate::numbers::signed;
use crate::object::DataBlockIndex;

verus! {

/// How long a block may go without use.
pub const DATA_TTL_MS: u64 = 60_000;

/// How often a shard looks for blocks that went without use for too long.
pub const CHECK_EXPIRED_DATA_INTERVAL_MS: u64 = 60_000;

/// A block in the cache.
#[derive(Debug, Clone, Copy, PartialEq, Eq, Structural)]
pub struct CachedBlock {
    pub object_id: u64,
    pub index: DataBlockIndex,
    pub handle: u64,
}

/// What tells a block from all others: its object and its index entry.
pub open spec fn block_key(object_id: u64, index: DataBlockIndex) -> Seq<u64> {
    seq![
        object_id,
        (index.block_id + 0x8000_0000) as u64,
        index.stream_id,
        index.start_offset,
        index.end_offset_delta as u64,
        index.record_count as u64,
        index.start_position,
        index.size as u64,
    ]
}

/// Two blocks have one key exactly where they are the same block of the same object.
pub proof fn law_block_keys_are_unique(
    object_a: u64,
    index_a: DataBlockIndex,
    object_b: u64,
    index_b: DataBlockIndex,
)
    ensures
        block_key(object_a, index_a) == block_key(object_b, index_b) <==> object_a == object_b
            && index_a == index_b,
{
    let a = block_key(object_a, index_a);
    let b = block_key(object_b, index_b);
    if a == b {
        assert(a[0] == b[0] && a[1] == b[1] && a[2] == b[2] && a[3] == b[3]);
        assert(a[4] == b[4] && a[5] == b[5] && a[6] == b[6] && a[7] == b[7]);
    }
}

fn make_key(object_id: u64, index: DataBlockIndex) -> (r: Vec<u64>)
    ensures
        r@ == block_key(object_id, index),
{
    let mut key: Vec<u64> = Vec::new();
    key.push(object_id);
    key.push((index.block_id as i64 + 0x8000_0000) as u64);
    key.push(index.stream_id);
    key.push(index.start_offset);
    key.push(index.end_offset_delta as u64);
    key.push(index.record_count as u64);
    key.push(index.start_position);
    key.push(index.size as u64);
    assert(key@ =~= block_key(object_id, index));
    key
}

fn same_key(a: &Vec<u64>, b: &Vec<u64>) -> (r: bool)
    ensures
        r == (a@ == b@),
{
    if a.len() != b.len() {
        return false;
    }
    let mut i: usize = 0;
    while i < a.len()
        invariant
            i <= a@.len() == b@.len(),
            forall|j: int| 0 <= j < i ==> a@[j] == b@[j],
        decreases a@.len() - i,
    {
        if a[i] != b[i] {
            return false;
        }
        i += 1;
    }
    assert(a@ =~= b@);
    true
}

/// The blocks of some streams: which are cached, and in which order they were used.
#[verifier::ext_equal]
pub struct ShardModel {
    pub entries: Seq<CachedBlock>,
    pub lru: Seq<(Seq<u64>, u64)>,
    pub last_evict_check_ms: u64,
}

/// The cached block under a key.
pub open spec fn cached_handle(entries: Seq<CachedBlock>, key: Seq<u64>) -> Option<u64>
    decreases entries.len(),
{
    if entries.len() == 0 {
        None
    } else {
        match cached_handle(entries.drop_last(), key) {
            Some(h) => Some(h),
            None => if block_key(entries.last().object_id, entries.last().index) == key {
                Some(entries.last().handle)
            } else {
                None
            },
        }
    }
}

/// The cached blocks but for the one under a key.
pub open spec fn without_block(entries: Seq<CachedBlock>, key: Seq<u64>) -> Seq<CachedBlock> {
    entries.filter(|e: CachedBlock| block_key(e.object_id, e.index) != key)
}

/// A shard after a block left it, if it holds that very block.
pub open spec fn removed_if_same(s: ShardModel, key: Seq<u64>, handle: u64) -> ShardModel {
    if cached_handle(s.entries, key) == Some(handle) {
        ShardModel {
            entries: without_block(s.entries, key),
            lru: without_key(s.lru, key),
            ..s
        }
    } else {
        s
    }
}

/// The block went without use for too long.
pub open spec fn is_stale(t: TableModel, handle: u64, expired_before_ms: u64) -> bool {
    index_of(t.blocks, handle) matches Some(i) && t.blocks[i].last_access_ms < expired_before_ms
}

/// Eviction from the least recently used block on: as long as it went without use for too
/// long, or memory is short. Entries whose block is gone are dropped on the way.
pub open spec fn evicted(s: ShardModel, t: TableModel, expired_before_ms: u64) -> (
    ShardModel,
    TableModel,
)
    decreases s.lru.len(),
{
    if s.lru.len() == 0 {
        (s, t)
    } else {
        let key = s.lru.last().0;
        let rest = ShardModel { lru: s.lru.drop_last(), ..s };
        match cached_handle(s.entries, key) {
            None => evicted(rest, t, expired_before_ms),
            Some(h) => if !is_stale(t, h, expired_before_ms) && !is_short(t.limiter) {
                (s, t)
            } else {
                evicted(
                    ShardModel { entries: without_block(s.entries, key), ..rest },
                    freed_handle(t, h),
                    expired_before_ms,
                )
            },
        }
    }
}

/// Every cached block is one of the table.
pub open spec fn refers(entries: Seq<CachedBlock>, blocks: Seq<BlockModel>) -> bool {
    forall|i: int|
        0 <= i < entries.len() ==> index_of(blocks, (#[trigger] entries[i]).handle) is Some
}

/// A cached block that is found is one of the entries.
proof fn lemma_cached_handle(entries: Seq<CachedBlock>, key: Seq<u64>)
    ensures
        cached_handle(entries, key) matches Some(h) ==> exists|i: int|
            0 <= i < entries.len() && (#[trigger] entries[i]).handle == h,
    decreases entries.len(),
{
    if entries.len() > 0 {
        lemma_cached_handle(entries.drop_last(), key);
        if cached_handle(entries.drop_last(), key) is Some {
            let h = cached_handle(entries.drop_last(), key)->0;
            let i = choose|i: int|
                0 <= i < entries.len() - 1 && (#[trigger] entries.drop_last()[i]).handle == h;
            assert(entries[i].handle == h);
        } else {
            assert(entries[entries.len() - 1] == entries.last());
        }
    }
}

proof fn lemma_refers_filter(
    entries: Seq<CachedBlock>,
    key: Seq<u64>,
    blocks: Seq<BlockModel>,
)
    requires
        refers(entries, blocks),
    ensures
        refers(without_block(entries, key), blocks),
{
    broadcast use vstd::seq_lib::group_filter_ensures;

    let kept = without_block(entries, key);
    assert forall|i: int| 0 <= i < kept.len() implies index_of(
        blocks,
        (#[trigger] kept[i]).handle,
    ) is Some by {
        assert(kept.contains(kept[i]));
        let p = |e: CachedBlock| block_key(e.object_id, e.index) != key;
        entries.lemma_filter_contains_rev(p, kept[i]);
        assert(entries.contains(kept[i]));
        let j = choose|j: int| 0 <= j < entries.len() && entries[j] == kept[i];
        assert(index_of(blocks, entries[j].handle) is Some);
    }
}

/// One shard.
#[derive(Debug)]
struct Shard {
    entries: Vec<CachedBlock>,
    lru: LruCache<Vec<u64>, u64>,
    last_evict_check_ms: u64,
}

impl View for Shard {
    type V = ShardModel;

    closed spec fn view(&self) -> ShardModel {
        ShardModel {
            entries: self.entries@,
            lru: lru_entries(self.lru),
            last_evict_check_ms: self.last_evict_check_ms,
        }
    }
}

impl Shard {
    spec fn wf(&self) -> bool {
        lru_cap(self.lru) == usize::MAX
    }

    fn new(now_ms: u64) -> (r: Self)
        ensures
            r.wf(),
            r@ == (ShardModel {
                entries: Seq::empty(),
                lru: Seq::empty(),
                last_evict_check_ms: now_ms,
            }),
    {
        Shard { entries: Vec::new(), lru: lru_unbounded(), last_evict_check_ms: now_ms }
    }

    fn handle_of(&self, key: &Vec<u64>) -> (r: Option<u64>)
        ensures
            r == cached_handle(self@.entries, key@),
    {
        let ghost all = self.entries@;
        let mut i: usize = 0;
        assert(cached_handle(all.take(0), key@) is None);
        while i < self.entries.len()
            invariant
                i <= self.entries@.len(),
                all == self.entries@,
                cached_handle(all.take(i as int), key@) is None,
            decreases self.entries@.len() - i,
        {
            let e = self.entries[i];
            let own = make_key(e.object_id, e.index);
            assert(all.take(i + 1).drop_last() =~= all.take(i as int));
            if same_key(&own, key) {
                assert(cached_handle(all.take(i + 1), key@) == Some(e.handle));
                proof {
                    lemma_cached_prefix(all, i + 1, key@);
                }
                return Some(e.handle);
            }
            i += 1;
        }
        assert(all.take(i as int) =~= all);
        None
    }

    fn remove(&mut self, key: &Vec<u64>)
        requires
            old(self).wf(),
        ensures
            final(self).wf(),
            final(self)@ == (ShardModel {
                entries: without_block(old(self)@.entries, key@),
                ..old(self)@
            }),
    {
        let ghost all = self.entries@;
        let ghost p = |e: CachedBlock| block_key(e.object_id, e.index) != key@;
        let mut kept: Vec<CachedBlock> = Vec::new();
        let mut i: usize = 0;
        assert(all.take(0).filter(p) =~= Seq::empty());
        while i < self.entries.len()
            invariant
                i <= self.entries@.len(),
                *self == *old(self),
                all == self.entries@,
                p == (|e: CachedBlock| block_key(e.object_id, e.index) != key@),
                kept@ == all.take(i as int).filter(p),
            decreases self.entries@.len() - i,
        {
            let e = self.entries[i];
            proof {
                assert(all.take(i + 1) =~= all.take(i as int).push(e));
                all.take(i as int).lemma_filter_push(e, p);
            }
            let own = make_key(e.object_id, e.index);
            if !same_key(&own, key) {
                kept.push(e);
            }
            i += 1;
        }
        assert(all.take(i as int) =~= all);
        self.entries = kept;
    }

    fn remove_if_same(&mut self, key: &Vec<u64>, handle: u64) -> (r: bool)
        requires
            old(self).wf(),
        ensures
            final(self).wf(),
            final(self)@ == removed_if_same(old(self)@, key@, handle),
            r == (cached_handle(old(self)@.entries, key@) == Some(handle)),
    {
        match self.handle_of(key) {
            Some(h) => {
                if h == handle {
                    self.remove(key);
                    let _ = lru_pop(&mut self.lru, key);
                    true
                } else {
                    false
                }
            },
            None => false,
        }
    }

    /// Evicts blocks that went without use for too long, and more while memory is short.
    fn evict(&mut self, table: &mut BlockTable, expired_before_ms: u64)
        requires
            old(self).wf(),
            old(table).wf(),
            refers(old(self)@.entries, old(table)@.blocks),
        ensures
            final(self).wf(),
            final(table).wf(),
            (final(self)@, final(table)@) == evicted(old(self)@, old(table)@, expired_before_ms),
            refers(final(self)@.entries, final(table)@.blocks),
            same_handles(old(table)@.blocks, final(table)@.blocks),
            final(table)@.limiter.permits + held(final(table)@.blocks)
                == old(table)@.limiter.permits + held(old(table)@.blocks),
    {
        let ghost goal = evicted(self@, table@, expired_before_ms);
        let ghost blocks = table@.blocks;
        let ghost total = table@.limiter.permits + held(table@.blocks);
        loop
            invariant_except_break
                evicted(self@, table@, expired_before_ms) == goal,
            invariant
                self.wf(),
                table.wf(),
                refers(self@.entries, table@.blocks),
                same_handles(blocks, table@.blocks),
                table@.limiter.permits + held(table@.blocks) == total,
            ensures
                (self@, table@) == goal,
            decreases self@.lru.len(),
        {
            let key = match lru_peek_last(&self.lru) {
                Some(k) => k,
                None => {
                    break ;
                },
            };
            match self.handle_of(&key) {
                None => {
                    let _ = lru_pop_last(&mut self.lru);
                },
                Some(h) => {
                    proof {
                        lemma_cached_handle(self@.entries, key@);
                        let i = choose|i: int|
                            0 <= i < self@.entries.len() && (#[trigger] self@.entries[i]).handle
                                == h;
                        assert(index_of(table@.blocks, self@.entries[i].handle) is Some);
                    }
                    let i: usize = match table.find(h) {
                        Some(i) => i,
                        None => {
                            assert(false);
                            0
                        },
                    };
                    if !table.block(i).is_expired(expired_before_ms) && !table.required_release() {
                        break ;
                    }
                    let _ = lru_pop_last(&mut self.lru);
                    proof {
                        lemma_refers_filter(self@.entries, key@, table@.blocks);
                        lemma_freed_at(table@, i as int);
                    }
                    self.remove(&key);
                    table.free(i);
                },
            }
        }
    }
}

/// The same blocks, by handle.
pub open spec fn same_handles(a: Seq<BlockModel>, b: Seq<BlockModel>) -> bool {
    &&& a.len() == b.len()
    &&& forall|i: int| 0 <= i < a.len() ==> (#[trigger] a[i]).handle == b[i].handle
    &&& forall|h: u64| #[trigger] index_of(a, h) == index_of(b, h)
}

proof fn lemma_cached_prefix(entries: Seq<CachedBlock>, n: int, key: Seq<u64>)
    requires
        0 <= n <= entries.len(),
        cached_handle(entries.take(n), key) is Some,
    ensures
        cached_handle(entries, key) == cached_handle(entries.take(n), key),
    decreases entries.len(),
{
    if n < entries.len() {
        assert(entries.drop_last().take(n) =~= entries.take(n));
        lemma_cached_prefix(entries.drop_last(), n, key);
    } else {
        assert(entries.take(n) =~= entries);
    }
}

/// What the cache holds.
#[verifier::ext_equal]
pub struct BlockCacheModel {
    pub shards: Seq<ShardModel>,
    pub table: TableModel,
    pub ttl_ms: u64,
    pub check_interval_ms: u64,
    pub next_handle: u64,
}

/// The shard of a stream.
pub open spec fn shard_of(m: BlockCacheModel, stream_id: u64) -> int {
    stream_id as int % m.shards.len() as int
}

/// The cache with one shard and the table changed.
pub open spec fn with_shard(m: BlockCacheModel, i: int, s: ShardModel, t: TableModel) -> BlockCacheModel {
    BlockCacheModel { shards: m.shards.update(i, s), table: t, ..m }
}

/// Blocks last used before this are stale.
pub open spec fn expiry(m: BlockCacheModel, now_ms: u64) -> u64 {
    if now_ms >= m.ttl_ms {
        (now_ms - m.ttl_ms) as u64
    } else {
        0
    }
}

/// The cache after one shard evicted.
pub open spec fn evicted_shard(m: BlockCacheModel, i: int, now_ms: u64) -> BlockCacheModel {
    let (s, t) = evicted(m.shards[i], m.table, expiry(m, now_ms));
    with_shard(m, i, s, t)
}

/// The cache after the first `n` shards evicted, in order.
pub open spec fn evicted_shards(m: BlockCacheModel, n: int, now_ms: u64) -> BlockCacheModel
    decreases n,
{
    if n <= 0 {
        m
    } else {
        evicted_shard(evicted_shards(m, n - 1, now_ms), n - 1, now_ms)
    }
}

/// The cache after every shard evicted.
pub open spec fn evicted_all(m: BlockCacheModel, now_ms: u64) -> BlockCacheModel {
    evicted_shards(m, m.shards.len() as int, now_ms)
}

/// The cache after a shard evicted, if its last check is long enough ago.
pub open spec fn checked(m: BlockCacheModel, stream_id: u64, now_ms: u64) -> BlockCacheModel {
    let i = shard_of(m, stream_id);
    let s = m.shards[i];
    if now_ms - s.last_evict_check_ms > m.check_interval_ms {
        evicted_shard(
            with_shard(m, i, ShardModel { last_evict_check_ms: now_ms, ..s }, m.table),
            i,
            now_ms,
        )
    } else {
        m
    }
}

/// What a lookup gives: the block, and whether its load is to be started.
#[derive(Debug, Clone, Copy, PartialEq, Eq, Structural)]
pub struct BlockLookup {
    pub handle: u64,
    pub start_load: bool,
}

/// The cache after a lookup, before stale blocks are looked for.
pub open spec fn looked_up(
    m: BlockCacheModel,
    object_id: u64,
    index: DataBlockIndex,
    now_ms: u64,
) -> (BlockCacheModel, BlockLookup) {
    let i = shard_of(m, index.stream_id);
    let s = m.shards[i];
    let key = block_key(object_id, index);
    match cached_handle(s.entries, key) {
        Some(h) => (
            with_shard(
                m,
                i,
                ShardModel {
                    lru: match find_value(s.lru, key) {
                        Some(v) => fronted(s.lru, key, v),
                        None => s.lru,
                    },
                    ..s
                },
                m.table,
            ),
            BlockLookup { handle: h, start_load: false },
        ),
        None => (
            BlockCacheModel {
                next_handle: (m.next_handle + 1) as u64,
                ..with_shard(
                    m,
                    i,
                    ShardModel {
                        entries: s.entries.push(
                            CachedBlock { object_id, index, handle: m.next_handle },
                        ),
                        ..s
                    },
                    TableModel {
                        blocks: m.table.blocks.push(
                            fresh_block(m.next_handle, object_id, index, now_ms),
                        ),
                        ..m.table
                    },
                )
            },
            BlockLookup { handle: m.next_handle, start_load: true },
        ),
    }
}

/// The cache after a block, by its position, was failed and freed.
pub open spec fn failed_at(t: TableModel, i: int, error: StreamError) -> TableModel {
    freed_at(
        with_block(t, i, BlockModel { load: LoadState::Failed(error), ..t.blocks[i] }),
        i,
    )
}

/// The cache without a block, if the block's shard holds that very block.
pub open spec fn dropped(m: BlockCacheModel, b: BlockModel) -> BlockCacheModel {
    let i = shard_of(m, b.index.stream_id);
    with_shard(
        m,
        i,
        removed_if_same(m.shards[i], block_key(b.object_id, b.index), b.handle),
        m.table,
    )
}

/// The cache after eviction, if memory is short.
pub open spec fn relieved(m: BlockCacheModel, now_ms: u64) -> BlockCacheModel {
    if is_short(m.table.limiter) {
        evicted_all(m, now_ms)
    } else {
        m
    }
}

/// The cache after a block at a position was decoded.
pub open spec fn loaded(
    m: BlockCacheModel,
    i: int,
    records: Seq<Seq<u8>>,
    now_ms: u64,
) -> BlockCacheModel {
    let b = m.table.blocks[i];
    let k = shard_of(m, b.index.stream_id);
    let s = m.shards[k];
    relieved(
        with_shard(
            m,
            k,
            ShardModel {
                lru: pushed(s.lru, usize::MAX as nat, block_key(b.object_id, b.index), 0),
                ..s
            },
            with_block(m.table, i, BlockModel { load: LoadState::Loaded, records, ..b }),
        ),
        now_ms,
    )
}

/// The cache after a block at a position was fetched and did not decode.
pub open spec fn undecodable(
    m: BlockCacheModel,
    i: int,
    error: StreamError,
    now_ms: u64,
) -> BlockCacheModel {
    relieved(
        dropped(
            BlockCacheModel { table: failed_at(m.table, i, error), ..m },
            m.table.blocks[i],
        ),
        now_ms,
    )
}

/// The cache after the fetch of a block at a position failed.
pub open spec fn unfetched(
    m: BlockCacheModel,
    i: int,
    error: StreamError,
    now_ms: u64,
) -> BlockCacheModel {
    let d = dropped(m, m.table.blocks[i]);
    relieved(BlockCacheModel { table: failed_at(d.table, i, error), ..d }, now_ms)
}

/// The cache after a reader was done with a block at a position.
pub open spec fn read_by_one(m: BlockCacheModel, i: int) -> BlockCacheModel {
    let b = m.table.blocks[i];
    let m1 = BlockCacheModel {
        table: with_block(m.table, i, BlockModel { unread: b.unread - 1, ..b }),
        ..m
    };
    let s = m.shards[shard_of(m, b.index.stream_id)];
    if b.unread - 1 > 0 {
        m1
    } else if cached_handle(s.entries, block_key(b.object_id, b.index)) == Some(b.handle) {
        let d = dropped(m1, b);
        BlockCacheModel { table: freed_at(d.table, i), ..d }
    } else {
        m1
    }
}

/// How an object read is throttled.
#[derive(Debug, Clone, Copy, PartialEq, Eq, Structural)]
pub enum ThrottleStrategy {
    CatchUp,
    Bypass,
}

/// How the load of a block is throttled: readahead yields to readers.
pub fn throttle_of(options: GetOptions) -> (r: ThrottleStrategy)
    ensures
        r == (if options.readahead {
            ThrottleStrategy::CatchUp
        } else {
            ThrottleStrategy::Bypass
        }),
{
    if options.readahead {
        ThrottleStrategy::CatchUp
    } else {
        ThrottleStrategy::Bypass
    }
}

/// The sharded block cache.
#[derive(Debug)]
pub struct DataBlockCache {
    shards: Vec<Shard>,
    table: BlockTable,
    ttl_ms: u64,
    check_interval_ms: u64,
    next_handle: u64,
    cold_reads: ColdReadInflightRegistry,
}

impl View for DataBlockCache {
    type V = BlockCacheModel;

    closed spec fn view(&self) -> BlockCacheModel {
        BlockCacheModel {
            shards: self.shards@.map_values(|s: Shard| s@),
            table: self.table@,
            ttl_ms: self.ttl_ms,
            check_interval_ms: self.check_interval_ms,
            next_handle: self.next_handle,
        }
    }
}

/// Handles are given out once, and the shards hold blocks of the table.
pub open spec fn is_consistent(m: BlockCacheModel) -> bool {
    &&& m.shards.len() > 0
    &&& forall|i: int|
        0 <= i < m.shards.len() ==> refers((#[trigger] m.shards[i]).entries, m.table.blocks)
    &&& forall|i: int|
        0 <= i < m.table.blocks.len() ==> (#[trigger] m.table.blocks[i]).handle < m.next_handle
    &&& forall|i: int, j: int|
        0 <= i < j < m.table.blocks.len() ==> (#[trigger] m.table.blocks[i]).handle != (
        #[trigger] m.table.blocks[j]).handle
}

proof fn lemma_refers_same(m: BlockCacheModel, blocks: Seq<BlockModel>)
    requires
        is_consistent(m),
        same_handles(m.table.blocks, blocks),
    ensures
        forall|i: int|
            0 <= i < m.shards.len() ==> refers((#[trigger] m.shards[i]).entries, blocks),
{
    assert forall|i: int| 0 <= i < m.shards.len() implies refers(
        (#[trigger] m.shards[i]).entries,
        blocks,
    ) by {
        let entries = m.shards[i].entries;
        assert forall|k: int| 0 <= k < entries.len() implies index_of(
            blocks,
            (#[trigger] entries[k]).handle,
        ) is Some by {
            assert(index_of(m.table.blocks, entries[k].handle) is Some);
        }
    }
}

/// The same table but for one block, which keeps its handle.
proof fn lemma_with_block(t: TableModel, i: int, b: BlockModel)
    requires
        0 <= i < t.blocks.len(),
        b.handle == t.blocks[i].handle,
    ensures
        same_handles(t.blocks, with_block(t, i, b).blocks),
{
    assert forall|h: u64| #[trigger] index_of(t.blocks, h) == index_of(
        with_block(t, i, b).blocks,
        h,
    ) by {
        lemma_index_of_same(t.blocks, with_block(t, i, b).blocks, h);
    }
}

proof fn lemma_consistent_step(m: BlockCacheModel, i: int, s: ShardModel, t: TableModel)
    requires
        is_consistent(m),
        0 <= i < m.shards.len(),
        same_handles(m.table.blocks, t.blocks),
        refers(s.entries, t.blocks),
    ensures
        is_consistent(with_shard(m, i, s, t)),
{
    lemma_refers_same(m, t.blocks);
    let n = with_shard(m, i, s, t);
    assert forall|k: int| 0 <= k < n.shards.len() implies refers(
        (#[trigger] n.shards[k]).entries,
        n.table.blocks,
    ) by {
        if k != i {
            assert(n.shards[k] == m.shards[k]);
        }
    }
    assert forall|k: int| 0 <= k < n.table.blocks.len() implies (
    #[trigger] n.table.blocks[k]).handle < n.next_handle by {
        assert(m.table.blocks[k].handle == n.table.blocks[k].handle);
    }
    assert forall|a: int, b: int| 0 <= a < b < n.table.blocks.len() implies (
    #[trigger] n.table.blocks[a]).handle != (#[trigger] n.table.blocks[b]).handle by {
        assert(m.table.blocks[a].handle == n.table.blocks[a].handle);
        assert(m.table.blocks[b].handle == n.table.blocks[b].handle);
    }
}

impl DataBlockCache {
    pub closed spec fn parts_ok(&self) -> bool {
        &&& self.table.wf()
        &&& forall|i: int| 0 <= i < self.shards@.len() ==> (#[trigger] self.shards@[i]).wf()
    }

    pub open spec fn wf(&self) -> bool {
        self.parts_ok() && is_consistent(self@)
    }

    pub closed spec fn registry(&self) -> ColdReadInflightRegistry {
        self.cold_reads
    }

    pub fn new(max_size: u64, concurrency: usize, now_ms: u64) -> (r: Self)
        ensures
            r.wf(),
            is_empty_cache(r@, max_size, concurrency, now_ms),
            r@.ttl_ms == DATA_TTL_MS,
            r@.check_interval_ms == CHECK_EXPIRED_DATA_INTERVAL_MS,
            r.registry().reads() == Map::<u64, u64>::empty(),
            r.registry().next() == 0,
    {
        Self::with_config(
            max_size,
            concurrency,
            DATA_TTL_MS,
            CHECK_EXPIRED_DATA_INTERVAL_MS,
            now_ms,
        )
    }

    pub fn with_config(
        max_size: u64,
        concurrency: usize,
        ttl_ms: u64,
        check_interval_ms: u64,
        now_ms: u64,
    ) -> (r: Self)
        ensures
            r.wf(),
            is_empty_cache(r@, max_size, concurrency, now_ms),
            r@.ttl_ms == ttl_ms,
            r@.check_interval_ms == check_interval_ms,
            r.registry().reads() == Map::<u64, u64>::empty(),
            r.registry().next() == 0,
    {
        let n: usize = if concurrency > 1 {
            concurrency
        } else {
            1
        };
        let mut shards: Vec<Shard> = Vec::new();
        let mut i: usize = 0;
        while i < n
            invariant
                i <= n,
                shards@.len() == i,
                forall|j: int|
                    0 <= j < i ==> (#[trigger] shards@[j]).wf() && shards@[j]@ == (ShardModel {
                        entries: Seq::empty(),
                        lru: Seq::empty(),
                        last_evict_check_ms: now_ms,
                    }),
            decreases n - i,
        {
            shards.push(Shard::new(now_ms));
            i += 1;
        }
        DataBlockCache {
            shards,
            table: BlockTable::new(max_size),
            ttl_ms,
            check_interval_ms,
            next_handle: 0,
            cold_reads: ColdReadInflightRegistry::new(),
        }
    }

    /// Bytes of memory left.
    pub fn available(&self) -> (r: i64)
        ensures
            r == self@.table.limiter.permits,
    {
        self.table.permits()
    }

    pub fn cold_read_registry(&self) -> (r: &ColdReadInflightRegistry)
        ensures
            *r == self.registry(),
    {
        &self.cold_reads
    }

    /// A block is fetched. Only reads that a reader waits for are tracked.
    pub fn track_fetch(&mut self, options: GetOptions, now_ms: u64) -> (r: Option<ColdReadGuard>)
        requires
            old(self).wf(),
        ensures
            final(self).wf(),
            final(self)@ == old(self)@,
            if options.readahead {
                r is None && final(self).registry() == old(self).registry()
            } else {
                &&& r matches Some(g) && g.id == old(self).registry().next()
                    && final(self).registry().reads() == old(self).registry().reads().insert(
                    g.id,
                    now_ms,
                )
                &&& final(self).registry().next() == (old(self).registry().next() + 1)
                    % 0x1_0000_0000_0000_0000
            },
    {
        if options.readahead {
            None
        } else {
            Some(self.cold_reads.track(now_ms))
        }
    }

    /// The fetch of a block is over.
    pub fn untrack_fetch(&mut self, guard: Option<ColdReadGuard>)
        requires
            old(self).wf(),
        ensures
            final(self).wf(),
            final(self)@ == old(self)@,
            final(self).registry().next() == old(self).registry().next(),
            final(self).registry().reads() == (match guard {
                Some(g) => old(self).registry().reads().remove(g.id),
                None => old(self).registry().reads(),
            }),
    {
        match guard {
            Some(g) => {
                self.cold_reads.untrack(g);
            },
            None => {},
        }
    }

    fn shard_index(&self, stream_id: u64) -> (r: usize)
        requires
            self.wf(),
        ensures
            r == shard_of(self@, stream_id),
            r < self@.shards.len(),
            r < self.shards@.len(),
    {
        let n: u64 = self.shards.len() as u64;
        let r: u64 = stream_id % n;
        assert(r < self.shards@.len());
        r as usize
    }

    fn evict_one(&mut self, i: usize, now_ms: u64)
        requires
            old(self).wf(),
            i < old(self)@.shards.len(),
        ensures
            final(self).wf(),
            final(self).registry() == old(self).registry(),
            final(self)@ == evicted_shard(old(self)@, i as int, now_ms),
            same_handles(old(self)@.table.blocks, final(self)@.table.blocks),
            final(self)@.table.limiter.permits + held(final(self)@.table.blocks)
                == old(self)@.table.limiter.permits + held(old(self)@.table.blocks),
    {
        let ghost before = self@;
        let expired_before: u64 = if now_ms >= self.ttl_ms {
            now_ms - self.ttl_ms
        } else {
            0
        };
        assert(before.shards[i as int] == self.shards@[i as int]@);
        assert(refers(before.shards[i as int].entries, before.table.blocks));
        self.shards[i].evict(&mut self.table, expired_before);
        proof {
            assert(self@.shards =~= before.shards.update(i as int, self.shards@[i as int]@));
            lemma_consistent_step(before, i as int, self.shards@[i as int]@, self@.table);
            assert(self@ == with_shard(before, i as int, self.shards@[i as int]@, self@.table));
        }
    }

    /// Evicts in every shard.
    pub fn evict_all(&mut self, now_ms: u64)
        requires
            old(self).wf(),
        ensures
            final(self).wf(),
            final(self).registry() == old(self).registry(),
            final(self)@ == evicted_all(old(self)@, now_ms),
            same_handles(old(self)@.table.blocks, final(self)@.table.blocks),
            final(self)@.table.limiter.permits + held(final(self)@.table.blocks)
                == old(self)@.table.limiter.permits + held(old(self)@.table.blocks),
    {
        let ghost before = self@;
        let mut i: usize = 0;
        while i < self.shards.len()
            invariant
                i <= self.shards@.len(),
                self.wf(),
                self.registry() == old(self).registry(),
                self.shards@.len() == before.shards.len(),
                self@.shards.len() == before.shards.len(),
                self@ == evicted_shards(before, i as int, now_ms),
                same_handles(before.table.blocks, self@.table.blocks),
                self@.table.limiter.permits + held(self@.table.blocks)
                    == before.table.limiter.permits + held(before.table.blocks),
            decreases before.shards.len() - i,
        {
            let ghost prior = self@.table.blocks;
            self.evict_one(i, now_ms);
            proof {
                assert forall|k: int| 0 <= k < before.table.blocks.len() implies (
                #[trigger] before.table.blocks[k]).handle == self@.table.blocks[k].handle by {
                    assert(prior[k].handle == before.table.blocks[k].handle);
                }
            }
            i += 1;
        }
    }

    fn try_evict_expired(&mut self, stream_id: u64, now_ms: u64)
        requires
            old(self).wf(),
        ensures
            final(self).wf(),
            final(self).registry() == old(self).registry(),
            final(self)@ == checked(old(self)@, stream_id, now_ms),
    {
        let i: usize = self.shard_index(stream_id);
        let ghost before = self@;
        assert(before.shards[i as int] == self.shards@[i as int]@);
        let last: u64 = self.shards[i].last_evict_check_ms;
        let past: u64 = if now_ms > last {
            now_ms - last
        } else {
            0
        };
        if past > self.check_interval_ms {
            self.shards[i].last_evict_check_ms = now_ms;
            proof {
                assert(refers(before.shards[i as int].entries, before.table.blocks));
                assert(self@.shards =~= before.shards.update(i as int, self.shards@[i as int]@));
                assert(same_handles(before.table.blocks, self@.table.blocks));
                lemma_consistent_step(before, i as int, self.shards@[i as int]@, self@.table);
                assert(self@ == with_shard(before, i as int, self.shards@[i as int]@, before.table));
            }
            self.evict_one(i, now_ms);
        }
    }

    /// Get or start loading a block. All who ask for it while it loads share one fetch.
    pub fn get_block_handle(&mut self, object_id: u64, index: DataBlockIndex, now_ms: u64) -> (r:
        BlockLookup)
        requires
            old(self).wf(),
            old(self)@.next_handle < u64::MAX,
            old(self)@.table.limiter.permits + held(old(self)@.table.blocks) + index.size
                <= i64::MAX,
        ensures
            final(self).wf(),
            final(self).registry() == old(self).registry(),
            r == looked_up(old(self)@, object_id, index, now_ms).1,
            final(self)@ == checked(
                looked_up(old(self)@, object_id, index, now_ms).0,
                index.stream_id,
                now_ms,
            ),
    {
        let ghost before = self@;
        let i: usize = self.shard_index(index.stream_id);
        let key = make_key(object_id, index);
        assert(before.shards[i as int] == self.shards@[i as int]@);
        assert(refers(before.shards[i as int].entries, before.table.blocks));
        let r = match self.shards[i].handle_of(&key) {
            Some(handle) => {
                let _ = lru_promote(&mut self.shards[i].lru, &key);
                proof {
                    assert(self@.shards =~= before.shards.update(
                        i as int,
                        self.shards@[i as int]@,
                    ));
                    assert(same_handles(before.table.blocks, self@.table.blocks));
                    lemma_consistent_step(before, i as int, self.shards@[i as int]@, self@.table);
                    assert(self@ == with_shard(
                        before,
                        i as int,
                        self.shards@[i as int]@,
                        before.table,
                    ));
                }
                BlockLookup { handle, start_load: false }
            },
            None => {
                let handle: u64 = self.next_handle;
                self.next_handle = handle + 1;
                self.table.add(handle, object_id, index, now_ms);
                self.shards[i].entries.push(CachedBlock { object_id, index, handle });
                proof {
                    let s = self.shards@[i as int]@;
                    assert(self@.shards =~= before.shards.update(i as int, s));
                    assert(self@ == looked_up(before, object_id, index, now_ms).0);
                    let blocks = before.table.blocks;
                    let added = fresh_block(handle, object_id, index, now_ms);
                    assert forall|k: int| 0 <= k < self@.shards.len() implies refers(
                        (#[trigger] self@.shards[k]).entries,
                        self@.table.blocks,
                    ) by {
                        let entries = self@.shards[k].entries;
                        assert forall|e: int| 0 <= e < entries.len() implies index_of(
                            self@.table.blocks,
                            (#[trigger] entries[e]).handle,
                        ) is Some by {
                            let h = entries[e].handle;
                            lemma_index_of_push(blocks, added, h);
                            if k == i && e == entries.len() - 1 {
                                lemma_index_of(blocks, h);
                            } else {
                                assert(entries[e] == before.shards[k].entries[e]);
                                assert(index_of(blocks, before.shards[k].entries[e].handle)
                                    is Some);
                            }
                        }
                    }
                }
                BlockLookup { handle, start_load: true }
            },
        };
        self.try_evict_expired(index.stream_id, now_ms);
        r
    }

    /// The position of a block.
    fn position(&self, handle: u64) -> (r: usize)
        requires
            index_of(self@.table.blocks, handle) is Some,
        ensures
            Some(r as int) == index_of(self@.table.blocks, handle),
            r < self@.table.blocks.len(),
            self@.table.blocks[r as int].handle == handle,
    {
        match self.table.find(handle) {
            Some(i) => i,
            None => {
                assert(false);
                0
            },
        }
    }

    /// Is there such a block?
    pub fn knows(&self, handle: u64) -> (r: bool)
        ensures
            r == (index_of(self@.table.blocks, handle) is Some),
    {
        self.table.find(handle).is_some()
    }

    /// What a waiter of the block gets once its load is over; `None` while it runs.
    pub fn load_result(&self, handle: u64) -> (r: Option<Result<(), StreamError>>)
        requires
            self.wf(),
            index_of(self@.table.blocks, handle) is Some,
        ensures
            r == (match self@.table.blocks[index_of(self@.table.blocks, handle)->0].load {
                LoadState::Loading => None,
                LoadState::Loaded => Some(Ok::<(), StreamError>(())),
                LoadState::Failed(e) => Some(
                    Err::<(), StreamError>(crate::cache::blockcache::data_block::shared(e)),
                ),
            }),
    {
        let i: usize = self.position(handle);
        self.table.block(i).load_result()
    }

    /// The load of a block takes memory for it. Where there is none, the waiter queues, and
    /// the cache makes room.
    pub fn start_load(&mut self, handle: u64, waiter: u64, now_ms: u64) -> (r: bool)
        requires
            old(self).wf(),
            index_of(old(self)@.table.blocks, handle) is Some,
        ensures
            final(self).wf(),
            final(self).registry() == old(self).registry(),
            r == (old(self)@.table.limiter.permits >= 0),
            ({
                let t = old(self)@.table;
                let b = t.blocks[index_of(t.blocks, handle)->0];
                final(self)@ == (if r {
                    BlockCacheModel {
                        table: TableModel {
                            limiter: LimiterModel {
                                permits: t.limiter.permits - b.index.size,
                                ..t.limiter
                            },
                            ..t
                        },
                        ..old(self)@
                    }
                } else {
                    evicted_all(
                        BlockCacheModel {
                            table: TableModel {
                                limiter: LimiterModel {
                                    waiters: t.limiter.waiters.push(waiter),
                                    ..t.limiter
                                },
                                ..t
                            },
                            ..old(self)@
                        },
                        now_ms,
                    )
                })
            }),
    {
        let i: usize = self.position(handle);
        let acquired: bool = self.table.try_acquire(i, waiter);
        if !acquired {
            self.evict_all(now_ms);
        }
        acquired
    }

    /// The block was fetched and decoded.
    pub fn on_loaded(&mut self, handle: u64, records: Vec<StreamRecordBatch>, now_ms: u64)
        requires
            old(self).wf(),
            index_of(old(self)@.table.blocks, handle) is Some,
            forall|k: int| 0 <= k < records@.len() ==> is_batch((#[trigger] records@[k])@),
        ensures
            final(self).wf(),
            final(self).registry() == old(self).registry(),
            final(self)@ == loaded(
                old(self)@,
                index_of(old(self)@.table.blocks, handle)->0,
                record_views(records@),
                now_ms,
            ),
    {
        let ghost before = self@;
        let i: usize = self.position(handle);
        let object_id: u64 = self.table.block(i).object_id();
        let index = self.table.block(i).index();
        let k: usize = self.shard_index(index.stream_id);
        let key = make_key(object_id, index);
        proof {
            assert(before.shards[k as int] == self.shards@[k as int]@);
            assert(refers(before.shards[k as int].entries, before.table.blocks));
            lemma_with_block(
                before.table,
                i as int,
                BlockModel {
                    load: LoadState::Loaded,
                    records: record_views(records@),
                    ..before.table.blocks[i as int]
                },
            );
        }
        self.table.complete(i, records);
        let _ = lru_push(&mut self.shards[k].lru, key, 0);
        proof {
            assert(self@.shards =~= before.shards.update(k as int, self.shards@[k as int]@));
            lemma_refers_same(before, self@.table.blocks);
            lemma_consistent_step(before, k as int, self.shards@[k as int]@, self@.table);
            assert(self@ == with_shard(before, k as int, self.shards@[k as int]@, self@.table));
        }
        if self.table.required_release() {
            self.evict_all(now_ms);
        }
    }

    fn drop_if_same(&mut self, handle: u64, object_id: u64, index: DataBlockIndex) -> (r: bool)
        requires
            old(self).wf(),
        ensures
            final(self).wf(),
            final(self).registry() == old(self).registry(),
            ({
                let i = shard_of(old(self)@, index.stream_id);
                let key = block_key(object_id, index);
                &&& r == (cached_handle(old(self)@.shards[i].entries, key) == Some(handle))
                &&& final(self)@ == with_shard(
                    old(self)@,
                    i,
                    removed_if_same(old(self)@.shards[i], key, handle),
                    old(self)@.table,
                )
            }),
    {
        let ghost before = self@;
        let k: usize = self.shard_index(index.stream_id);
        let key = make_key(object_id, index);
        proof {
            assert(before.shards[k as int] == self.shards@[k as int]@);
            assert(refers(before.shards[k as int].entries, before.table.blocks));
            lemma_refers_filter(before.shards[k as int].entries, key@, before.table.blocks);
        }
        let r: bool = self.shards[k].remove_if_same(&key, handle);
        proof {
            assert(self@.shards =~= before.shards.update(k as int, self.shards@[k as int]@));
            assert(same_handles(before.table.blocks, self@.table.blocks));
            lemma_consistent_step(before, k as int, self.shards@[k as int]@, self@.table);
        }
        r
    }

    fn fail_block(&mut self, i: usize, error: StreamError)
        requires
            old(self).wf(),
            i < old(self)@.table.blocks.len(),
        ensures
            final(self).wf(),
            final(self).registry() == old(self).registry(),
            final(self)@ == (BlockCacheModel {
                table: failed_at(old(self)@.table, i as int, error),
                ..old(self)@
            }),
            same_handles(old(self)@.table.blocks, final(self)@.table.blocks),
    {
        let ghost before = self@;
        proof {
            lemma_with_block(
                before.table,
                i as int,
                BlockModel { load: LoadState::Failed(error), ..before.table.blocks[i as int] },
            );
        }
        self.table.fail(i, error);
        let ghost mid = self.table@;
        proof {
            lemma_freed_at(mid, i as int);
        }
        self.table.free(i);
        proof {
            assert(same_handles(before.table.blocks, self@.table.blocks)) by {
                assert forall|k: int| 0 <= k < before.table.blocks.len() implies (
                #[trigger] before.table.blocks[k]).handle == self@.table.blocks[k].handle by {
                    assert(mid.blocks[k].handle == before.table.blocks[k].handle);
                    assert(freed_at(mid, i as int).blocks[k].handle == mid.blocks[k].handle);
                }
            }
            assert(before.shards.len() > 0);
            assert(self@.shards =~= before.shards);
            lemma_refers_same(before, self@.table.blocks);
            lemma_consistent_step(before, 0, before.shards[0], self@.table);
            assert(with_shard(before, 0, before.shards[0], self@.table).shards =~= before.shards);
        }
    }

    /// The block was fetched and did not decode.
    pub fn on_undecodable(&mut self, handle: u64, error: StreamError, now_ms: u64)
        requires
            old(self).wf(),
            index_of(old(self)@.table.blocks, handle) is Some,
        ensures
            final(self).wf(),
            final(self).registry() == old(self).registry(),
            final(self)@ == undecodable(
                old(self)@,
                index_of(old(self)@.table.blocks, handle)->0,
                error,
                now_ms,
            ),
    {
        let i: usize = self.position(handle);
        let object_id: u64 = self.table.block(i).object_id();
        let index = self.table.block(i).index();
        self.fail_block(i, error);
        let _ = self.drop_if_same(handle, object_id, index);
        if self.table.required_release() {
            self.evict_all(now_ms);
        }
    }

    /// The fetch of the block failed.
    pub fn on_fetch_failed(&mut self, handle: u64, error: StreamError, now_ms: u64)
        requires
            old(self).wf(),
            index_of(old(self)@.table.blocks, handle) is Some,
        ensures
            final(self).wf(),
            final(self).registry() == old(self).registry(),
            final(self)@ == unfetched(
                old(self)@,
                index_of(old(self)@.table.blocks, handle)->0,
                error,
                now_ms,
            ),
    {
        let i: usize = self.position(handle);
        let object_id: u64 = self.table.block(i).object_id();
        let index = self.table.block(i).index();
        let _ = self.drop_if_same(handle, object_id, index);
        self.fail_block(i, error);
        if self.table.required_release() {
            self.evict_all(now_ms);
        }
    }

    /// The cache is going away while the block waits for memory.
    pub fn on_shutdown(&mut self, handle: u64, error: StreamError)
        requires
            old(self).wf(),
            index_of(old(self)@.table.blocks, handle) is Some,
        ensures
            final(self).wf(),
            final(self).registry() == old(self).registry(),
            final(self)@ == (BlockCacheModel {
                table: failed_at(
                    old(self)@.table,
                    index_of(old(self)@.table.blocks, handle)->0,
                    error,
                ),
                ..old(self)@
            }),
    {
        let i: usize = self.position(handle);
        self.fail_block(i, error);
    }

    proof fn lemma_block_changed(before: BlockCacheModel, after: BlockCacheModel, i: int, b: BlockModel)
        requires
            is_consistent(before),
            0 <= i < before.table.blocks.len(),
            b.handle == before.table.blocks[i].handle,
            after == (BlockCacheModel { table: with_block(before.table, i, b), ..before }),
        ensures
            is_consistent(after),
    {
        lemma_with_block(before.table, i, b);
        lemma_refers_same(before, after.table.blocks);
        lemma_consistent_step(before, 0, before.shards[0], after.table);
        assert(with_shard(before, 0, before.shards[0], after.table).shards =~= before.shards);
    }

    /// One more reader is going to read the block.
    pub fn mark_unread(&mut self, handle: u64, now_ms: u64)
        requires
            old(self).wf(),
            index_of(old(self)@.table.blocks, handle) is Some,
            old(self)@.table.blocks[index_of(old(self)@.table.blocks, handle)->0].unread
                < i32::MAX,
        ensures
            final(self).wf(),
            final(self).registry() == old(self).registry(),
            ({
                let t = old(self)@.table;
                let i = index_of(t.blocks, handle)->0;
                final(self)@ == (BlockCacheModel {
                    table: with_block(t, i, marked_unread(t.blocks[i], now_ms)),
                    ..old(self)@
                })
            }),
    {
        let ghost before = self@;
        let i: usize = self.position(handle);
        self.table.mark_unread(i, now_ms);
        proof {
            assert(self@.shards =~= before.shards);
            Self::lemma_block_changed(
                before,
                self@,
                i as int,
                marked_unread(before.table.blocks[i as int], now_ms),
            );
        }
    }

    /// A reader is done with the block. The last one frees it from the cache.
    pub fn mark_read(&mut self, handle: u64)
        requires
            old(self).wf(),
            index_of(old(self)@.table.blocks, handle) is Some,
            old(self)@.table.blocks[index_of(old(self)@.table.blocks, handle)->0].unread
                > i32::MIN,
        ensures
            final(self).wf(),
            final(self).registry() == old(self).registry(),
            final(self)@ == read_by_one(
                old(self)@,
                index_of(old(self)@.table.blocks, handle)->0,
            ),
    {
        let ghost before = self@;
        let i: usize = self.position(handle);
        let object_id: u64 = self.table.block(i).object_id();
        let index = self.table.block(i).index();
        let ghost b = before.table.blocks[i as int];
        let left: i32 = self.table.mark_read_delta(i);
        proof {
            assert(self@.shards =~= before.shards);
            Self::lemma_block_changed(
                before,
                self@,
                i as int,
                BlockModel { unread: b.unread - 1, ..b },
            );
        }
        if left > 0 {
            return ;
        }
        let ghost mid = self@;
        let removed: bool = self.drop_if_same(handle, object_id, index);
        let ghost last = self@;
        if removed {
            proof {
                lemma_freed_at(self@.table, i as int);
            }
            self.table.free(i);
            proof {
                assert(self@.shards =~= last.shards);
                lemma_refers_same(last, self@.table.blocks);
                lemma_consistent_step(last, 0, last.shards[0], self@.table);
                assert(with_shard(last, 0, last.shards[0], self@.table).shards =~= last.shards);
            }
        } else {
            assert(self@.shards =~= mid.shards);
        }
    }

    /// Asks to be told when the block is freed. `None` where it is free already.
    pub fn register_free_listener(&mut self, handle: u64) -> (r: Option<u64>)
        requires
            old(self).wf(),
            index_of(old(self)@.table.blocks, handle) is Some,
        ensures
            final(self).wf(),
            final(self).registry() == old(self).registry(),
            ({
                let t = old(self)@.table;
                let i = index_of(t.blocks, handle)->0;
                let b = t.blocks[i];
                if b.freed {
                    r is None && final(self)@ == old(self)@
                } else {
                    &&& r == Some(b.next_listener)
                    &&& final(self)@ == (BlockCacheModel {
                        table: with_block(
                            t,
                            i,
                            BlockModel {
                                listeners: b.listeners.push(b.next_listener),
                                next_listener: ((b.next_listener + 1)
                                    % 0x1_0000_0000_0000_0000) as u64,
                                ..b
                            },
                        ),
                        ..old(self)@
                    })
                }
            }),
    {
        let ghost before = self@;
        let i: usize = self.position(handle);
        let r = self.table.register_free_listener(i);
        proof {
            assert(self@.shards =~= before.shards);
            let b = before.table.blocks[i as int];
            if !b.freed {
                Self::lemma_block_changed(
                    before,
                    self@,
                    i as int,
                    BlockModel {
                        listeners: b.listeners.push(b.next_listener),
                        next_listener: ((b.next_listener + 1) % 0x1_0000_0000_0000_0000) as u64,
                        ..b
                    },
                );
            }
        }
        r
    }

    /// Takes the registration of a free listener back.
    pub fn close_listener(&mut self, handle: u64, id: u64)
        requires
            old(self).wf(),
            index_of(old(self)@.table.blocks, handle) is Some,
        ensures
            final(self).wf(),
            final(self).registry() == old(self).registry(),
            ({
                let t = old(self)@.table;
                let i = index_of(t.blocks, handle)->0;
                final(self)@ == (BlockCacheModel {
                    table: with_block(
                        t,
                        i,
                        BlockModel {
                            listeners: t.blocks[i].listeners.filter(|l: u64| l != id),
                            ..t.blocks[i]
                        },
                    ),
                    ..old(self)@
                })
            }),
    {
        let ghost before = self@;
        let i: usize = self.position(handle);
        self.table.close_listener(i, id);
        proof {
            assert(self@.shards =~= before.shards);
            let b = before.table.blocks[i as int];
            Self::lemma_block_changed(
                before,
                self@,
                i as int,
                BlockModel { listeners: b.listeners.filter(|l: u64| l != id), ..b },
            );
        }
    }

    /// Records of a loaded block that overlap `[start_offset, end_offset)`, up to about
    /// `max_bytes`.
    pub fn get_records(
        &self,
        handle: u64,
        start_offset: u64,
        end_offset: u64,
        max_bytes: i64,
    ) -> (r: Vec<StreamRecordBatch>)
        requires
            self.wf(),
            index_of(self@.table.blocks, handle) is Some,
            self@.table.blocks[index_of(self@.table.blocks, handle)->0].load == LoadState::Loaded,
            max_bytes >= i64::MIN + u32::MAX,
        ensures
            record_views(r@) == picked(
                self@.table.blocks[index_of(self@.table.blocks, handle)->0].records,
                start_offset,
                end_offset,
                max_bytes as int,
            ),
    {
        let i: usize = self.position(handle);
        self.table.block(i).get_records(start_offset, end_offset, max_bytes)
    }

    /// Does a shard hold the block?
    fn holds_block(&self, handle: u64) -> (r: bool)
        ensures
            r == is_cached(self@.shards, handle),
    {
        let ghost shards = self@.shards;
        let mut k: usize = 0;
        while k < self.shards.len()
            invariant
                k <= self.shards@.len(),
                shards == self@.shards,
                forall|a: int, b: int|
                    0 <= a < k && 0 <= b < shards[a].entries.len() ==> (
                    #[trigger] shards[a].entries[b]).handle != handle,
            decreases self.shards@.len() - k,
        {
            let entries = &self.shards[k].entries;
            assert(shards[k as int].entries == entries@);
            let mut e: usize = 0;
            while e < entries.len()
                invariant
                    k < shards.len(),
                    e <= entries@.len(),
                    shards == self@.shards,
                    shards[k as int].entries == entries@,
                    forall|b: int|
                        0 <= b < e ==> (#[trigger] shards[k as int].entries[b]).handle != handle,
                decreases entries@.len() - e,
            {
                if entries[e].handle == handle {
                    assert(shards[k as int].entries[e as int].handle == handle);
                    return true;
                }
                e += 1;
            }
            k += 1;
        }
        false
    }

    /// The last reader dropped its handle of the block. A block that is free, and that no
    /// shard holds any more, is dropped too.
    pub fn forget(&mut self, handle: u64) -> (r: bool)
        requires
            old(self).wf(),
            index_of(old(self)@.table.blocks, handle) is Some,
        ensures
            final(self).wf(),
            final(self).registry() == old(self).registry(),
            ({
                let i = index_of(old(self)@.table.blocks, handle)->0;
                &&& r == (old(self)@.table.blocks[i].freed && !is_cached(
                    old(self)@.shards,
                    handle,
                ))
                &&& final(self)@ == (if r {
                    BlockCacheModel {
                        table: TableModel {
                            blocks: old(self)@.table.blocks.remove(i),
                            ..old(self)@.table
                        },
                        ..old(self)@
                    }
                } else {
                    old(self)@
                })
            }),
    {
        let ghost before = self@;
        let i: usize = self.position(handle);
        if !self.table.block(i).is_freed() {
            return false;
        }
        if self.holds_block(handle) {
            return false;
        }
        self.table.drop_block(i);
        proof {
            assert(self@.shards =~= before.shards);
            let blocks = before.table.blocks;
            let after = blocks.remove(i as int);
            assert forall|a: int| 0 <= a < self@.shards.len() implies refers(
                (#[trigger] self@.shards[a]).entries,
                after,
            ) by {
                let entries = self@.shards[a].entries;
                assert(refers(before.shards[a].entries, blocks));
                assert forall|b: int| 0 <= b < entries.len() implies index_of(
                    after,
                    (#[trigger] entries[b]).handle,
                ) is Some by {
                    let h = before.shards[a].entries[b].handle;
                    assert(index_of(blocks, h) is Some);
                    lemma_index_of(blocks, h);
                    lemma_index_of(after, h);
                    let j = index_of(blocks, h)->0;
                    if j < i {
                        assert(after[j].handle == h);
                    } else {
                        assert(after[j - 1].handle == h);
                    }
                }
            }
            assert forall|a: int| 0 <= a < after.len() implies (#[trigger] after[a]).handle
                < before.next_handle by {
                if a < i {
                    assert(after[a] == blocks[a]);
                } else {
                    assert(after[a] == blocks[a + 1]);
                }
            }
            assert forall|a: int, b: int| 0 <= a < b < after.len() implies (
            #[trigger] after[a]).handle != (#[trigger] after[b]).handle by {
                let x = if a < i {
                    a
                } else {
                    a + 1
                };
                let y = if b < i {
                    b
                } else {
                    b + 1
                };
                assert(after[a] == blocks[x] && after[b] == blocks[y]);
            }
        }
        true
    }

    /// Takes the waiters that are to try again.
    pub fn take_woken(&mut self) -> (r: Vec<u64>)
        requires
            old(self).wf(),
        ensures
            final(self).wf(),
            final(self).registry() == old(self).registry(),
            r@ == old(self)@.table.woken,
            final(self)@ == (BlockCacheModel {
                table: TableModel { woken: Seq::empty(), ..old(self)@.table },
                ..old(self)@
            }),
    {
        self.table.take_woken()
    }

    /// Takes the listeners that are to be told that a block was freed.
    pub fn take_notices(&mut self) -> (r: Vec<FreeNotice>)
        requires
            old(self).wf(),
        ensures
            final(self).wf(),
            final(self).registry() == old(self).registry(),
            r@ == old(self)@.table.notices,
            final(self)@ == (BlockCacheModel {
                table: TableModel { notices: Seq::empty(), ..old(self)@.table },
                ..old(self)@
            }),
    {
        self.table.take_notices()
    }
}

/// A shard holds the block.
pub open spec fn is_cached(shards: Seq<ShardModel>, handle: u64) -> bool {
    exists|a: int, b: int|
        0 <= a < shards.len() && 0 <= b < shards[a].entries.len() && (
        #[trigger] shards[a].entries[b]).handle == handle
}

proof fn lemma_not_cached(entries: Seq<CachedBlock>, key: Seq<u64>)
    requires
        forall|i: int|
            0 <= i < entries.len() ==> block_key(
                (#[trigger] entries[i]).object_id,
                entries[i].index,
            ) != key,
    ensures
        cached_handle(entries, key) is None,
    decreases entries.len(),
{
    if entries.len() > 0 {
        assert forall|i: int| 0 <= i < entries.len() - 1 implies block_key(
            (#[trigger] entries.drop_last()[i]).object_id,
            entries.drop_last()[i].index,
        ) != key by {
            assert(entries[i] == entries.drop_last()[i]);
        }
        lemma_not_cached(entries.drop_last(), key);
        assert(entries[entries.len() - 1] == entries.last());
    }
}

/// All who ask for a block while it is cached get the same block, and only the first of
/// them starts its load.
pub proof fn law_lookups_share_one_fetch(
    m: BlockCacheModel,
    object_id: u64,
    index: DataBlockIndex,
    now_ms: u64,
    later_ms: u64,
)
    requires
        is_consistent(m),
    ensures
        looked_up(looked_up(m, object_id, index, now_ms).0, object_id, index, later_ms).1 == (
        BlockLookup {
            handle: looked_up(m, object_id, index, now_ms).1.handle,
            start_load: false,
        }),
{
    let i = shard_of(m, index.stream_id);
    let s = m.shards[i];
    let key = block_key(object_id, index);
    assert(0 <= i < m.shards.len()) by (nonlinear_arith)
        requires
            i == index.stream_id as int % m.shards.len() as int,
            m.shards.len() > 0,
    ;
    if cached_handle(s.entries, key) is None {
        let e = CachedBlock { object_id, index, handle: m.next_handle };
        assert(s.entries.push(e).drop_last() =~= s.entries);
        assert(cached_handle(s.entries.push(e), key) == Some(m.next_handle));
    }
}

/// Drop-behind: when the last interested reader is done with a cached block, the block is
/// free and the cache does not hold it any more.
pub proof fn law_last_reader_drops_block(m: BlockCacheModel, i: int)
    requires
        is_consistent(m),
        0 <= i < m.table.blocks.len(),
        m.table.blocks[i].unread <= 1,
        cached_handle(
            m.shards[shard_of(m, m.table.blocks[i].index.stream_id)].entries,
            block_key(m.table.blocks[i].object_id, m.table.blocks[i].index),
        ) == Some(m.table.blocks[i].handle),
    ensures
        read_by_one(m, i).table.blocks[i].freed,
        cached_handle(
            read_by_one(m, i).shards[shard_of(m, m.table.blocks[i].index.stream_id)].entries,
            block_key(m.table.blocks[i].object_id, m.table.blocks[i].index),
        ) is None,
{
    let b = m.table.blocks[i];
    let k = shard_of(m, b.index.stream_id);
    let key = block_key(b.object_id, b.index);
    assert(0 <= k < m.shards.len()) by (nonlinear_arith)
        requires
            k == b.index.stream_id as int % m.shards.len() as int,
            m.shards.len() > 0,
    ;
    let kept = without_block(m.shards[k].entries, key);
    assert forall|j: int| 0 <= j < kept.len() implies block_key(
        (#[trigger] kept[j]).object_id,
        kept[j].index,
    ) != key by {
        broadcast use vstd::seq_lib::group_filter_ensures;

        assert(kept.contains(kept[j]));
    }
    lemma_not_cached(kept, key);
}

/// A cache with nothing in it.
pub open spec fn is_empty_cache(
    m: BlockCacheModel,
    max_size: u64,
    concurrency: usize,
    now_ms: u64,
) -> bool {
    &&& m.shards.len() == (if concurrency > 1 {
        concurrency as int
    } else {
        1
    })
    &&& forall|i: int|
        0 <= i < m.shards.len() ==> (#[trigger] m.shards[i]) == (ShardModel {
            entries: Seq::empty(),
            lru: Seq::empty(),
            last_evict_check_ms: now_ms,
        })
    &&& m.table == (TableModel {
        blocks: Seq::empty(),
        limiter: LimiterModel { permits: signed(max_size), waiters: Seq::empty() },
        woken: Seq::empty(),
        notices: Seq::empty(),
    })
    &&& m.next_handle == 0
}

} // verus!

//! Blocks of the log cache: per-stream records, with what a block needs to be sealed,
//! uploaded, merged and released.
use std::collections::BTreeMap;
use vstd::prelude::*;

use crate::cache::stream_cache::{
    cache_get, cache_takes, empty_cache, is_chained, is_continuous, is_read, joined_caches,
    occupied_bytes,
    record_views, replaced, with_record, CacheModel, StreamCache,
};
use crate::codec::record::{
    is_batch, rec_size, rec_stream_id, StreamRecordBatch, OBJECT_OVERHEAD,
};
use crate::collections::{lists_keys, sorted_keys, tree_keys};
use crate::object::RecordOffset;

verus! {

/// Stands for every stream.
pub const MATCH_ALL_STREAMS: u64 = u64::MAX;

pub const DEFAULT_MAX_BLOCK_STREAM_COUNT: usize = 10_000;

/// Offset range of one stream inside a cache block.
#[derive(Debug, Clone, Copy, PartialEq, Eq, Structural)]
pub struct StreamRangeBound {
    pub stream_id: u64,
    pub start_offset: u64,
    pub end_offset: u64,
}

/// What a block holds.
#[verifier::ext_equal]
pub struct BlockModel {
    pub id: u64,
    pub max_size: u64,
    pub max_streams: usize,
    pub streams: Map<u64, CacheModel>,
    pub last_record_offset: Option<RecordOffset>,
    pub size: u64,
    pub overflow: bool,
    pub free: bool,
    /// Two blocks were merged into it.
    pub merged: bool,
}

pub open spec fn new_block(id: u64, max_size: u64, max_streams: usize) -> BlockModel {
    BlockModel {
        id,
        max_size,
        max_streams,
        streams: Map::empty(),
        last_record_offset: None,
        size: 0,
        overflow: false,
        free: false,
        merged: false,
    }
}

/// The block takes no more records.
pub open spec fn block_full(b: BlockModel) -> bool {
    b.overflow || b.size >= b.max_size || b.streams.dom().len() >= b.max_streams
}

/// The cache of a stream, empty if the block has none.
pub open spec fn cache_of(b: BlockModel, stream_id: u64) -> CacheModel {
    if b.streams.contains_key(stream_id) {
        b.streams[stream_id]
    } else {
        empty_cache()
    }
}

/// The block takes the record: it has room, and the record begins where its stream ends in
/// the block.
pub open spec fn block_takes(b: BlockModel, record: Seq<u8>) -> bool {
    !block_full(b) && cache_takes(cache_of(b, rec_stream_id(record)), record)
}

/// The sum of two counters, in 64-bit wrapping arithmetic.
pub open spec fn wrapping_sum(a: int, b: int) -> u64 {
    ((a + b) % 0x1_0000_0000_0000_0000) as u64
}

/// The difference of two counters, in 64-bit wrapping arithmetic.
pub open spec fn wrapping_diff(a: int, b: int) -> u64 {
    ((a - b) % 0x1_0000_0000_0000_0000) as u64
}

/// The block after a put. A record that leaves a gap in its stream, or that would span too
/// many offsets, is not taken, and closes the block.
pub open spec fn block_put(b: BlockModel, record: Seq<u8>) -> BlockModel {
    let id = rec_stream_id(record);
    let c = cache_of(b, id);
    if block_full(b) {
        b
    } else if cache_takes(c, record) {
        BlockModel {
            streams: b.streams.insert(id, with_record(c, record)),
            size: wrapping_sum(b.size as int, rec_size(record) + OBJECT_OVERHEAD),
            ..b
        }
    } else {
        BlockModel { streams: b.streams.insert(id, c), overflow: true, ..b }
    }
}

/// What a read of one stream gives from a block.
pub open spec fn block_get(b: BlockModel, stream_id: u64, start: u64, end: u64, budget: int) -> Seq<
    Seq<u8>,
> {
    cache_get(cache_of(b, stream_id), start, end, budget)
}

/// The cached range of a stream in a block.
pub open spec fn block_range(b: BlockModel, stream_id: u64) -> Option<(u64, u64)> {
    match (cache_of(b, stream_id).start, cache_of(b, stream_id).end) {
        (Some(s), Some(e)) => Some((s, e)),
        _ => None,
    }
}

/// The bounds of the streams of a list of ids that have a range.
pub open spec fn bounds_of(streams: Map<u64, CacheModel>, ids: Seq<u64>) -> Seq<StreamRangeBound>
    decreases ids.len(),
{
    if ids.len() == 0 {
        Seq::empty()
    } else {
        let before = bounds_of(streams, ids.drop_last());
        match (streams[ids.last()].start, streams[ids.last()].end) {
            (Some(s), Some(e)) => before.push(
                StreamRangeBound { stream_id: ids.last(), start_offset: s, end_offset: e },
            ),
            _ => before,
        }
    }
}

pub open spec fn map_model(m: Map<u64, StreamCache>) -> Map<u64, CacheModel> {
    m.map_values(|c: StreamCache| c.model())
}

/// One sealed or active cache block.
#[derive(Debug)]
pub struct LogCacheBlock {
    block_id: u64,
    max_size: u64,
    max_stream_count: usize,
    map: BTreeMap<u64, StreamCache>,
    last_record_offset: Option<RecordOffset>,
    size: u64,
    overflow: bool,
    free: bool,
    merged: bool,
}

impl View for LogCacheBlock {
    type V = BlockModel;

    closed spec fn view(&self) -> BlockModel {
        BlockModel {
            id: self.block_id,
            max_size: self.max_size,
            max_streams: self.max_stream_count,
            streams: map_model(self.map@),
            last_record_offset: self.last_record_offset,
            size: self.size,
            overflow: self.overflow,
            free: self.free,
            merged: self.merged,
        }
    }
}

impl LogCacheBlock {
    pub closed spec fn wf(&self) -> bool {
        forall|k: u64| #[trigger] self.map@.contains_key(k) ==> self.map@[k].wf()
    }

    /// Every record held is a batch.
    pub proof fn lemma_records_are_batches(&self, stream_id: u64, j: int)
        requires
            self.wf(),
            0 <= j < cache_of(self@, stream_id).records.len(),
        ensures
            is_batch(cache_of(self@, stream_id).records[j]),
    {
        assert(self.map@.contains_key(stream_id));
        self.map@[stream_id].lemma_wf_ok();
    }

    pub fn new(block_id: u64, max_size: u64, max_stream_count: usize) -> (r: Self)
        ensures
            r.wf(),
            r@ == new_block(block_id, max_size, max_stream_count),
    {
        let r = LogCacheBlock {
            block_id,
            max_size,
            max_stream_count,
            map: BTreeMap::new(),
            last_record_offset: None,
            size: 0,
            overflow: false,
            free: false,
            merged: false,
        };
        assert(r@.streams =~= Map::empty());
        r
    }

    pub fn block_id(&self) -> (r: u64)
        ensures
            r == self@.id,
    {
        self.block_id
    }

    pub fn is_full(&self) -> (r: bool)
        ensures
            r == block_full(self@),
    {
        broadcast use vstd::std_specs::btree::group_btree_axioms;

        assert(self@.streams.dom() =~= self.map@.dom());
        self.overflow || self.size >= self.max_size || self.map.len() >= self.max_stream_count
    }

    /// Adds a record at the end of its stream, unless the block is full or the record does not
    /// begin there.
    pub fn put(&mut self, record: StreamRecordBatch) -> (r: bool)
        requires
            old(self).wf(),
            is_batch(record@),
        ensures
            final(self).wf(),
            r == block_takes(old(self)@, record@),
            final(self)@ == block_put(old(self)@, record@),
    {
        broadcast use vstd::std_specs::btree::group_btree_axioms;

        if self.is_full() {
            return false;
        }
        let ghost before = self@;
        let ghost map0 = self.map@;
        let occupied: u64 = record.occupied_size() as u64;
        let stream_id: u64 = record.stream_id();
        let mut cache = match self.map.remove(&stream_id) {
            Some(c) => c,
            None => StreamCache::new(),
        };
        assert(cache.model() == cache_of(before, stream_id));
        let ghost rec = record@;
        let added: bool = cache.add(record);
        let ghost after = cache;
        self.map.insert(stream_id, cache);
        proof {
            assert(map_model(self.map@) =~= before.streams.insert(stream_id, after.model()));
            assert forall|k: u64| #[trigger] self.map@.contains_key(k) implies self.map@[k].wf() by {
                if k != stream_id {
                    assert(map0.contains_key(k));
                }
            }
        }
        if !added {
            self.overflow = true;
            return false;
        }
        self.size = self.size.wrapping_add(occupied);
        true
    }

    /// Reads from one stream. In a continuous stream the batches are those from the one that
    /// holds `start_offset` on. Where it has empty batches they may begin with one of those at
    /// `start_offset`: with which, the reads before decide.
    pub fn get(
        &mut self,
        stream_id: u64,
        start_offset: u64,
        end_offset: u64,
        max_bytes: usize,
    ) -> (r: Vec<StreamRecordBatch>)
        requires
            old(self).wf(),
        ensures
            final(self).wf(),
            final(self)@ == old(self)@,
            exists|i: int, j: int|
                0 <= i <= j <= cache_of(old(self)@, stream_id).records.len() && record_views(r@)
                    == #[trigger] cache_of(old(self)@, stream_id).records.subrange(i, j),
            is_chained(cache_of(old(self)@, stream_id)) ==> is_read(
                cache_of(old(self)@, stream_id),
                start_offset,
                end_offset,
                max_bytes as int,
                record_views(r@),
            ),
            is_continuous(cache_of(old(self)@, stream_id)) ==> record_views(r@) == block_get(
                old(self)@,
                stream_id,
                start_offset,
                end_offset,
                max_bytes as int,
            ),
    {
        broadcast use vstd::std_specs::btree::group_btree_axioms;

        let ghost before = self@;
        let ghost map0 = self.map@;
        match self.map.remove(&stream_id) {
            Some(c) => {
                let mut cache = c;
                let ghost c0 = cache.model();
                let r = cache.get(start_offset, end_offset, max_bytes);
                let ghost after = cache;
                self.map.insert(stream_id, cache);
                proof {
                    assert(c0 == cache_of(before, stream_id));
                    assert(map_model(self.map@) =~= before.streams);
                    assert forall|k: u64| #[trigger] self.map@.contains_key(k) implies self.map@[k].wf() by {
                        if k != stream_id {
                            assert(map0.contains_key(k));
                        }
                    }
                }
                r
            },
            None => {
                let none: Vec<StreamRecordBatch> = Vec::new();
                proof {
                    assert(self.map@ =~= map0);
                    assert(record_views(none@) =~= cache_of(before, stream_id).records.subrange(
                        0,
                        0,
                    ));
                    assert(record_views(none@) =~= Seq::empty());
                }
                none
            },
        }
    }

    /// The cached range of a stream.
    pub fn stream_range(&self, stream_id: u64) -> (r: Option<(u64, u64)>)
        requires
            self.wf(),
        ensures
            r == block_range(self@, stream_id),
    {
        broadcast use vstd::std_specs::btree::group_btree_axioms;

        match self.map.get(&stream_id) {
            Some(c) => c.range(),
            None => None,
        }
    }

    /// Per-stream records, offset-ordered (the upload task's input).
    pub fn records(&self) -> (r: BTreeMap<u64, Vec<StreamRecordBatch>>)
        ensures
            r@.dom() == self@.streams.dom(),
            forall|k: u64| #[trigger]
                r@.contains_key(k) ==> record_views(r@[k]@) == self@.streams[k].records,
    {
        broadcast use vstd::std_specs::btree::group_btree_axioms;

        let keys = tree_keys(&self.map);
        let mut out: BTreeMap<u64, Vec<StreamRecordBatch>> = BTreeMap::new();
        let mut i: usize = 0;
        while i < keys.len()
            invariant
                i <= keys@.len(),
                lists_keys(self.map@, keys@),
                forall|k: u64| #[trigger]
                    out@.contains_key(k) <==> keys@.take(i as int).contains(k),
                forall|k: u64| #[trigger]
                    out@.contains_key(k) ==> record_views(out@[k]@) == self@.streams[k].records,
            decreases keys@.len() - i,
        {
            let key: u64 = keys[i];
            let ghost before = out@;
            proof {
                assert(keys@.contains(keys@[i as int]));
                assert(keys@.take(i + 1) =~= keys@.take(i as int).push(key));
            }
            match self.map.get(&key) {
                Some(c) => {
                    let list = c.all_records();
                    out.insert(key, list);
                },
                None => {
                    assert(false);
                },
            }
            proof {
                assert forall|k: u64| #[trigger] out@.contains_key(k) <==> keys@.take(
                    i + 1,
                ).contains(k) by {
                    vstd::seq_lib::lemma_seq_contains_after_push(keys@.take(i as int), key, k);
                    assert(before.contains_key(k) <==> keys@.take(i as int).contains(k));
                }
                assert forall|k: u64| #[trigger] out@.contains_key(k) implies record_views(
                    out@[k]@,
                ) == self@.streams[k].records by {
                    if k != key {
                        assert(before.contains_key(k));
                    }
                }
            }
            i += 1;
        }
        proof {
            assert(keys@.take(i as int) =~= keys@);
            assert forall|k: u64| #[trigger] out@.dom().contains(k) <==> self@.streams.dom().contains(
                k,
            ) by {
                assert(out@.contains_key(k) <==> keys@.contains(k));
            }
            assert(out@.dom() =~= self@.streams.dom());
        }
        out
    }

    /// WAL offset of the last record confirmed before this block sealed.
    pub fn last_record_offset(&self) -> (r: Option<RecordOffset>)
        ensures
            r == self@.last_record_offset,
    {
        self.last_record_offset
    }

    pub fn set_last_record_offset(&mut self, offset: RecordOffset)
        requires
            old(self).wf(),
        ensures
            final(self).wf(),
            final(self)@ == (BlockModel { last_record_offset: Some(offset), ..old(self)@ }),
    {
        self.last_record_offset = Some(offset);
    }

    pub fn size(&self) -> (r: u64)
        ensures
            r == self@.size,
    {
        self.size
    }

    /// Two blocks were merged into it.
    pub fn is_merged(&self) -> (r: bool)
        ensures
            r == self@.merged,
    {
        self.merged
    }

    pub fn is_free(&self) -> (r: bool)
        ensures
            r == self@.free,
    {
        self.free
    }

    pub(crate) fn set_free(&mut self)
        requires
            old(self).wf(),
        ensures
            final(self).wf(),
            final(self)@ == (BlockModel { free: true, ..old(self)@ }),
    {
        self.free = true;
    }

    /// Swap a record in place (recovery link-record materialization).
    pub fn replace_record(&mut self, stream_id: u64, base_offset: u64, decoded: StreamRecordBatch)
        requires
            old(self).wf(),
            is_batch(decoded@),
        ensures
            final(self).wf(),
            final(self)@ == (if old(self)@.streams.contains_key(stream_id) {
                BlockModel {
                    streams: old(self)@.streams.insert(
                        stream_id,
                        replaced(old(self)@.streams[stream_id], base_offset, decoded@),
                    ),
                    ..old(self)@
                }
            } else {
                old(self)@
            }),
    {
        broadcast use vstd::std_specs::btree::group_btree_axioms;

        let ghost before = self@;
        let ghost map0 = self.map@;
        match self.map.remove(&stream_id) {
            Some(c) => {
                let mut cache = c;
                cache.replace_record(base_offset, decoded);
                let ghost after = cache;
                self.map.insert(stream_id, cache);
                proof {
                    assert(map_model(self.map@) =~= before.streams.insert(
                        stream_id,
                        after.model(),
                    ));
                    assert forall|k: u64| #[trigger] self.map@.contains_key(k) implies self.map@[k].wf() by {
                        if k != stream_id {
                            assert(map0.contains_key(k));
                        }
                    }
                }
            },
            None => {
                assert(self.map@ =~= map0);
            },
        }
    }

    /// Does the block hold the stream? Every block holds the stream that stands for all.
    pub fn contains_stream(&self, stream_id: u64) -> (r: bool)
        ensures
            r <==> stream_id == MATCH_ALL_STREAMS || self@.streams.contains_key(stream_id),
    {
        broadcast use vstd::std_specs::btree::group_btree_axioms;

        if stream_id == MATCH_ALL_STREAMS {
            return true;
        }
        self.map.contains_key(&stream_id)
    }

    /// The bounds of every stream in the block, by stream id.
    pub(crate) fn bounds(&self) -> (r: Vec<StreamRangeBound>)
        requires
            self.wf(),
        ensures
            r@ == bounds_of(self@.streams, sorted_keys(self@.streams)),
    {
        broadcast use vstd::std_specs::btree::group_btree_axioms;

        let keys = tree_keys(&self.map);
        proof {
            crate::collections::lemma_sorted_keys(self@.streams, keys@);
        }
        let mut out: Vec<StreamRangeBound> = Vec::new();
        let mut i: usize = 0;
        assert(keys@.take(0) =~= Seq::empty());
        while i < keys.len()
            invariant
                i <= keys@.len(),
                self.wf(),
                lists_keys(self.map@, keys@),
                out@ == bounds_of(self@.streams, keys@.take(i as int)),
            decreases keys@.len() - i,
        {
            let key: u64 = keys[i];
            proof {
                assert(keys@.contains(keys@[i as int]));
                assert(keys@.take(i + 1).drop_last() =~= keys@.take(i as int));
            }
            match self.map.get(&key) {
                Some(c) => {
                    assert(self.map@.contains_key(key));
                    match c.range() {
                        Some((start_offset, end_offset)) => {
                            out.push(
                                StreamRangeBound { stream_id: key, start_offset, end_offset },
                            );
                        },
                        None => {},
                    }
                },
                None => {
                    assert(false);
                },
            }
            i += 1;
        }
        assert(keys@.take(i as int) =~= keys@);
        out
    }

    /// Drops a stream. Returns the bytes that its records occupied.
    pub(crate) fn free_stream(&mut self, stream_id: u64) -> (r: u64)
        requires
            old(self).wf(),
        ensures
            final(self).wf(),
            final(self)@ == (BlockModel {
                streams: old(self)@.streams.remove(stream_id),
                ..old(self)@
            }),
            r == occupied_bytes(cache_of(old(self)@, stream_id).records) % 0x1_0000_0000_0000_0000,
    {
        broadcast use vstd::std_specs::btree::group_btree_axioms;

        let ghost before = self@;
        let ghost map0 = self.map@;
        let r: u64 = match self.map.remove(&stream_id) {
            Some(c) => {
                assert(map0.contains_key(stream_id));
                c.occupied()
            },
            None => 0,
        };
        proof {
            assert(map_model(self.map@) =~= before.streams.remove(stream_id));
            assert forall|k: u64| #[trigger] self.map@.contains_key(k) implies self.map@[k].wf() by {
                assert(map0.contains_key(k));
            }
        }
        r
    }
}

/// Streams of two blocks, one after the other.
pub open spec fn joined_streams(
    a: Map<u64, CacheModel>,
    b: Map<u64, CacheModel>,
) -> Map<u64, CacheModel> {
    Map::new(
        |k: u64| a.contains_key(k) || b.contains_key(k),
        |k: u64|
            if a.contains_key(k) && b.contains_key(k) {
                joined_caches(a[k], b[k])
            } else if a.contains_key(k) {
                a[k]
            } else {
                b[k]
            },
    )
}

/// A stream ends in one block at another offset than it begins at in the next.
pub open spec fn discontinuous(a: BlockModel, b: BlockModel) -> bool {
    exists|k: u64|
        #![trigger a.streams[k]]
        a.streams.contains_key(k) && b.streams.contains_key(k) && a.streams[k].end
            != b.streams[k].start
}

/// Two free blocks merged into one.
pub open spec fn joined_blocks(a: BlockModel, b: BlockModel, id: u64) -> BlockModel {
    BlockModel {
        id,
        max_size: u64::MAX,
        max_streams: DEFAULT_MAX_BLOCK_STREAM_COUNT,
        streams: joined_streams(a.streams, b.streams),
        last_record_offset: if b.last_record_offset is Some {
            b.last_record_offset
        } else {
            a.last_record_offset
        },
        size: wrapping_sum(a.size as int, b.size as int),
        overflow: false,
        free: true,
        merged: true,
    }
}

pub(crate) fn is_discontinuous(left: &LogCacheBlock, right: &LogCacheBlock) -> (r: bool)
    requires
        left.wf(),
        right.wf(),
    ensures
        r == discontinuous(left@, right@),
{
    broadcast use vstd::std_specs::btree::group_btree_axioms;

    let keys = tree_keys(&left.map);
    let mut i: usize = 0;
    while i < keys.len()
        invariant
            i <= keys@.len(),
            left.wf(),
            right.wf(),
            lists_keys(left.map@, keys@),
            forall|j: int|
                0 <= j < i ==> !(right@.streams.contains_key(#[trigger] keys@[j])
                    && left@.streams[keys@[j]].end != right@.streams[keys@[j]].start),
        decreases keys@.len() - i,
    {
        let key: u64 = keys[i];
        assert(keys@.contains(keys@[i as int]));
        match left.map.get(&key) {
            Some(a) => match right.map.get(&key) {
                Some(b) => {
                    proof {
                        assert(left.map@.contains_key(key) && right.map@.contains_key(key));
                        assert(left@.streams[key] == a.model());
                        assert(right@.streams[key] == b.model());
                    }
                    let same: bool = match (a.range(), b.range()) {
                        (Some(x), Some(y)) => x.1 == y.0,
                        (None, None) => true,
                        _ => false,
                    };
                    proof {
                        lemma_range_tells(*a);
                        lemma_range_tells(*b);
                    }
                    if !same {
                        return true;
                    }
                },
                None => {},
            },
            None => {
                assert(false);
            },
        }
        i += 1;
    }
    proof {
        assert forall|k: u64|
            #![trigger left@.streams[k]]
            left@.streams.contains_key(k) && right@.streams.contains_key(
                k,
            ) implies left@.streams[k].end == right@.streams[k].start by {
            assert(left.map@.dom().contains(k));
            assert(keys@.contains(k));
            let j = choose|j: int| 0 <= j < keys@.len() && keys@[j] == k;
            assert(keys@[j] == k);
        }
    }
    false
}

proof fn lemma_range_tells(c: StreamCache)
    requires
        c.wf(),
    ensures
        c.model().start is Some <==> c.model().end is Some,
        crate::cache::stream_cache::cache_ok(c.model()),
{
    c.lemma_wf_ok();
}

/// Merges two neighbouring free blocks.
pub(crate) fn merge_blocks(left: &LogCacheBlock, right: &LogCacheBlock, block_id: u64) -> (r: LogCacheBlock)
    requires
        left.wf(),
        right.wf(),
        !discontinuous(left@, right@),
    ensures
        r.wf(),
        r@ == joined_blocks(left@, right@, block_id),
{
    broadcast use vstd::std_specs::btree::group_btree_axioms;

    let mut map: BTreeMap<u64, StreamCache> = BTreeMap::new();
    let left_keys = tree_keys(&left.map);
    let mut i: usize = 0;
    while i < left_keys.len()
        invariant
            i <= left_keys@.len(),
            left.wf(),
            lists_keys(left.map@, left_keys@),
            forall|k: u64| #[trigger]
                map@.contains_key(k) <==> left_keys@.take(i as int).contains(k),
            forall|k: u64| #[trigger]
                map@.contains_key(k) ==> {
                    &&& map@[k].wf()
                    &&& map@[k].model() == left@.streams[k]
                },
        decreases left_keys@.len() - i,
    {
        let key: u64 = left_keys[i];
        let ghost before = map@;
        proof {
            assert(left_keys@.contains(left_keys@[i as int]));
            assert(left_keys@.take(i + 1) =~= left_keys@.take(i as int).push(key));
        }
        match left.map.get(&key) {
            Some(c) => {
                assert(left.map@.contains_key(key));
                let copy = StreamCache::copy_of(c);
                map.insert(key, copy);
            },
            None => {
                assert(false);
            },
        }
        proof {
            assert forall|k: u64| #[trigger] map@.contains_key(k) <==> left_keys@.take(
                i + 1,
            ).contains(k) by {
                vstd::seq_lib::lemma_seq_contains_after_push(left_keys@.take(i as int), key, k);
                assert(before.contains_key(k) <==> left_keys@.take(i as int).contains(k));
            }
            assert forall|k: u64| #[trigger] map@.contains_key(k) implies {
                &&& map@[k].wf()
                &&& map@[k].model() == left@.streams[k]
            } by {
                if k != key {
                    assert(before.contains_key(k));
                }
            }
        }
        i += 1;
    }
    proof {
        assert(left_keys@.take(i as int) =~= left_keys@);
        assert forall|k: u64| #[trigger] map@.contains_key(k) <==> left.map@.contains_key(k) by {
            assert(left_keys@.contains(k) <==> left.map@.dom().contains(k));
        }
    }
    let right_keys = tree_keys(&right.map);
    let ghost copied = map@;
    let mut n: usize = 0;
    assert(!right_keys@.take(0).contains(0));
    while n < right_keys.len()
        invariant
            n <= right_keys@.len(),
            left.wf(),
            right.wf(),
            !discontinuous(left@, right@),
            lists_keys(right.map@, right_keys@),
            forall|k: u64| #[trigger]
                map@.contains_key(k) <==> left.map@.contains_key(k) || right_keys@.take(
                    n as int,
                ).contains(k),
            forall|k: u64| #[trigger]
                map@.contains_key(k) ==> {
                    &&& map@[k].wf()
                    &&& map@[k].model() == (if left.map@.contains_key(k) && right_keys@.take(
                        n as int,
                    ).contains(k) {
                        joined_caches(left@.streams[k], right@.streams[k])
                    } else if left.map@.contains_key(k) {
                        left@.streams[k]
                    } else {
                        right@.streams[k]
                    })
                },
        decreases right_keys@.len() - n,
    {
        let key: u64 = right_keys[n];
        let ghost before = map@;
        proof {
            assert(right_keys@.contains(right_keys@[n as int]));
            assert(right_keys@.take(n + 1) =~= right_keys@.take(n as int).push(key));
            assert(!right_keys@.take(n as int).contains(key)) by {
                if right_keys@.take(n as int).contains(key) {
                    let k = choose|k: int| 0 <= k < n && right_keys@.take(n as int)[k] == key;
                    assert(right_keys@[k] == right_keys@[n as int]);
                }
            }
        }
        match right.map.get(&key) {
            Some(c) => {
                assert(right.map@.contains_key(key));
                assert(right@.streams[key] == c.model());
                match map.remove(&key) {
                    Some(existing) => {
                        let mut merged = existing;
                        proof {
                            assert(before.contains_key(key));
                            assert(left@.streams.contains_key(key));
                            assert(left@.streams[key].end == right@.streams[key].start);
                        }
                        merged.append_cache(c);
                        map.insert(key, merged);
                    },
                    None => {
                        assert(!before.contains_key(key));
                        let copy = StreamCache::copy_of(c);
                        map.insert(key, copy);
                    },
                }
            },
            None => {
                assert(false);
            },
        }
        proof {
            assert forall|k: u64| #[trigger] map@.contains_key(k) <==> left.map@.contains_key(k)
                || right_keys@.take(n + 1).contains(k) by {
                vstd::seq_lib::lemma_seq_contains_after_push(right_keys@.take(n as int), key, k);
                assert(before.contains_key(k) <==> left.map@.contains_key(k) || right_keys@.take(
                    n as int,
                ).contains(k));
            }
            assert forall|k: u64| #[trigger] map@.contains_key(k) implies {
                &&& map@[k].wf()
                &&& map@[k].model() == (if left.map@.contains_key(k) && right_keys@.take(
                    n + 1,
                ).contains(k) {
                    joined_caches(left@.streams[k], right@.streams[k])
                } else if left.map@.contains_key(k) {
                    left@.streams[k]
                } else {
                    right@.streams[k]
                })
            } by {
                vstd::seq_lib::lemma_seq_contains_after_push(right_keys@.take(n as int), key, k);
                if k != key {
                    assert(before.contains_key(k));
                }
            }
        }
        n += 1;
    }
    proof {
        assert(right_keys@.take(n as int) =~= right_keys@);
        assert forall|k: u64| #[trigger] right_keys@.contains(k) <==> right.map@.contains_key(
            k,
        ) by {
            assert(right_keys@.contains(k) <==> right.map@.dom().contains(k));
        }
    }
    let last_record_offset = match right.last_record_offset {
        Some(o) => Some(o),
        None => left.last_record_offset,
    };
    let r = LogCacheBlock {
        block_id,
        max_size: u64::MAX,
        max_stream_count: DEFAULT_MAX_BLOCK_STREAM_COUNT,
        map,
        last_record_offset,
        size: left.size.wrapping_add(right.size),
        overflow: false,
        free: true,
        merged: true,
    };
    proof {
        assert(r@.streams =~= joined_streams(left@.streams, right@.streams));
    }
    r
}

} // verus!

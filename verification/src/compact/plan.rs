//! The units that compaction plans with: data blocks tagged with their source object,
//! groups of them, and planned output objects.
use std::collections::{HashMap, HashSet};
use vstd::prelude::*;

use crate::collections::{hash_keys, lists_keys};
use crate::object::{DataBlockIndex, NO_BLOCK_ID};
use crate::order::{arrange, arranged, is_stable_order, stable_order};

verus! {

/// One data block tagged with its source object: the unit compaction moves around.
#[derive(Debug, Clone, Copy, PartialEq, Eq, Structural)]
pub struct StreamDataBlock {
    pub object_id: u64,
    pub index: DataBlockIndex,
}

impl StreamDataBlock {
    /// A block of `[start_offset, end_offset)` at `block_position` of an object.
    pub fn new(
        stream_id: u64,
        start_offset: u64,
        end_offset: u64,
        object_id: u64,
        block_position: u64,
        block_size: u32,
        record_count: u32,
    ) -> (r: Self)
        requires
            start_offset <= end_offset,
        ensures
            r == (StreamDataBlock {
                object_id,
                index: DataBlockIndex {
                    block_id: NO_BLOCK_ID,
                    stream_id,
                    start_offset,
                    end_offset_delta: ((end_offset - start_offset) % 0x1_0000_0000) as u32,
                    record_count,
                    start_position: block_position,
                    size: block_size,
                },
            }),
    {
        StreamDataBlock {
            object_id,
            index: DataBlockIndex {
                block_id: NO_BLOCK_ID,
                stream_id,
                start_offset,
                end_offset_delta: ((end_offset - start_offset) % 0x1_0000_0000) as u32,
                record_count,
                start_position: block_position,
                size: block_size,
            },
        }
    }

    pub fn stream_id(&self) -> (r: u64)
        ensures
            r == self.index.stream_id,
    {
        self.index.stream_id
    }

    pub fn start_offset(&self) -> (r: u64)
        ensures
            r == self.index.start_offset,
    {
        self.index.start_offset
    }

    pub fn end_offset(&self) -> (r: u64)
        requires
            self.index.valid(),
        ensures
            r == self.index.end(),
    {
        self.index.end_offset()
    }

    pub fn block_start_position(&self) -> (r: u64)
        ensures
            r == self.index.start_position,
    {
        self.index.start_position
    }

    pub fn block_size(&self) -> (r: u32)
        ensures
            r == self.index.size,
    {
        self.index.size
    }
}

#[derive(Debug, Clone, Copy, PartialEq, Eq, Structural)]
pub enum CompactionType {
    /// Blocks of one stream split out into a standalone stream object.
    Split,
    /// Blocks of many streams merged into a new stream set object.
    Compact,
}

#[derive(Debug, Clone, Copy, PartialEq, Eq, Structural)]
pub enum CompactOperations {
    /// Normal object: delete. Composite object: delete the composite only.
    Delete,
    /// Only delete the metadata in the control plane.
    KeepData,
    /// Composite object: delete it and all linked objects.
    DeepDelete,
}

impl CompactOperations {
    /// The number that stands for the operation on the wire.
    pub fn code(self) -> (r: u8)
        ensures
            r == match self {
                CompactOperations::Delete => 0u8,
                CompactOperations::KeepData => 1u8,
                CompactOperations::DeepDelete => 2u8,
            },
    {
        match self {
            CompactOperations::Delete => 0,
            CompactOperations::KeepData => 1,
            CompactOperations::DeepDelete => 2,
        }
    }
}

#[derive(Debug, Clone, Copy, PartialEq, Eq, Structural)]
pub enum CompactResult {
    Success,
    Skipped,
    Failed,
}

/// Every block stays within 64 bits.
pub open spec fn all_valid(blocks: Seq<StreamDataBlock>) -> bool {
    forall|i: int| 0 <= i < blocks.len() ==> (#[trigger] blocks[i]).index.valid()
}

/// Bytes in a list of blocks.
pub open spec fn sizes(blocks: Seq<StreamDataBlock>) -> int
    decreases blocks.len(),
{
    if blocks.len() == 0 {
        0
    } else {
        sizes(blocks.drop_last()) + blocks.last().index.size
    }
}

pub proof fn lemma_sizes_nonneg(blocks: Seq<StreamDataBlock>)
    ensures
        sizes(blocks) >= 0,
    decreases blocks.len(),
{
    if blocks.len() > 0 {
        lemma_sizes_nonneg(blocks.drop_last());
    }
}

pub proof fn lemma_sizes_push(blocks: Seq<StreamDataBlock>, b: StreamDataBlock)
    ensures
        sizes(blocks.push(b)) == sizes(blocks) + b.index.size,
{
    assert(blocks.push(b).drop_last() =~= blocks);
}

pub proof fn lemma_sizes_add(a: Seq<StreamDataBlock>, b: Seq<StreamDataBlock>)
    ensures
        sizes(a + b) == sizes(a) + sizes(b),
    decreases b.len(),
{
    if b.len() == 0 {
        assert(a + b =~= a);
    } else {
        assert((a + b).drop_last() =~= a + b.drop_last());
        lemma_sizes_add(a, b.drop_last());
    }
}

pub proof fn lemma_sizes_split(s: Seq<StreamDataBlock>, n: int)
    requires
        0 <= n <= s.len(),
    ensures
        sizes(s) == sizes(s.take(n)) + sizes(s.skip(n)),
        sizes(s.take(n)) >= 0,
        sizes(s.skip(n)) >= 0,
{
    assert(s =~= s.take(n) + s.skip(n));
    lemma_sizes_add(s.take(n), s.skip(n));
    lemma_sizes_nonneg(s.take(n));
    lemma_sizes_nonneg(s.skip(n));
}

/// Bytes in a list of blocks.
pub fn total_size(blocks: &Vec<StreamDataBlock>, from: usize) -> (r: u64)
    requires
        from <= blocks@.len(),
        sizes(blocks@) <= u64::MAX,
    ensures
        r == sizes(blocks@.skip(from as int)),
{
    let mut total: u64 = 0;
    let mut i: usize = from;
    while i < blocks.len()
        invariant
            from <= i <= blocks@.len(),
            sizes(blocks@) <= u64::MAX,
            total == sizes(blocks@.subrange(from as int, i as int)),
        decreases blocks@.len() - i,
    {
        proof {
            let s = blocks@;
            lemma_sizes_split(s, i + 1);
            lemma_sizes_split(s.take(i + 1), from as int);
            assert(s.take(i + 1).skip(from as int) =~= s.subrange(from as int, i as int).push(
                s[i as int],
            ));
            lemma_sizes_push(s.subrange(from as int, i as int), s[i as int]);
        }
        total = total + blocks[i].index.size as u64;
        i += 1;
        assert(blocks@.subrange(from as int, i as int) =~= blocks@.subrange(
            from as int,
            i - 1,
        ).push(blocks@[i - 1]));
    }
    assert(blocks@.subrange(from as int, i as int) =~= blocks@.skip(from as int));
    total
}

/// An output object as planned: its kind and the blocks copied into it, in order.
#[verifier::ext_equal]
pub struct Planned {
    pub kind: CompactionType,
    pub blocks: Seq<StreamDataBlock>,
}

/// One planned output object.
#[derive(Debug)]
pub struct CompactedObject {
    pub compaction_type: CompactionType,
    /// Blocks to copy, stream-major, offset-ordered.
    pub blocks: Vec<StreamDataBlock>,
}

impl CompactedObject {
    pub open spec fn planned(&self) -> Planned {
        Planned { kind: self.compaction_type, blocks: self.blocks@ }
    }

    pub fn size(&self) -> (r: u64)
        requires
            sizes(self.blocks@) <= u64::MAX,
        ensures
            r == sizes(self.blocks@),
    {
        assert(self.blocks@.skip(0) =~= self.blocks@);
        total_size(&self.blocks, 0)
    }
}

/// The blocks of a map, object by object in the order of `keys`.
pub open spec fn concat_of(
    m: Map<u64, Vec<StreamDataBlock>>,
    keys: Seq<u64>,
) -> Seq<StreamDataBlock>
    decreases keys.len(),
{
    if keys.len() == 0 {
        Seq::empty()
    } else {
        concat_of(m, keys.drop_last()) + m[keys.last()]@
    }
}

/// `flat` lists the blocks of the map, object by object in some order.
pub open spec fn is_flattening(
    m: Map<u64, Vec<StreamDataBlock>>,
    flat: Seq<StreamDataBlock>,
) -> bool {
    exists|keys: Seq<u64>| #[trigger] lists_keys(m, keys) && flat == concat_of(m, keys)
}

proof fn lemma_concat_of_contains(
    m: Map<u64, Vec<StreamDataBlock>>,
    keys: Seq<u64>,
    b: StreamDataBlock,
)
    ensures
        concat_of(m, keys).contains(b) <==> exists|k: u64|
            #![trigger m[k]]
            keys.contains(k) && m[k]@.contains(b),
    decreases keys.len(),
{
    if keys.len() > 0 {
        let rest = keys.drop_last();
        let last = keys.last();
        lemma_concat_of_contains(m, rest, b);
        vstd::seq_lib::lemma_seq_concat_contains_all_elements(concat_of(m, rest), m[last]@, b);
        assert forall|k: u64| #[trigger] keys.contains(k) <==> rest.contains(k) || k == last by {
            if keys.contains(k) && k != last {
                let i = choose|i: int| 0 <= i < keys.len() && keys[i] == k;
                assert(rest[i] == k);
            }
            if rest.contains(k) {
                let i = choose|i: int| 0 <= i < rest.len() && rest[i] == k;
                assert(keys[i] == k);
            }
            if k == last {
                assert(keys[keys.len() - 1] == k);
            }
        }
    }
}

/// A block of the flattened map comes from one of its entries.
pub proof fn lemma_flat_source(
    m: Map<u64, Vec<StreamDataBlock>>,
    flat: Seq<StreamDataBlock>,
    b: StreamDataBlock,
) -> (k: u64)
    requires
        is_flattening(m, flat),
        flat.contains(b),
    ensures
        m.dom().contains(k),
        m[k]@.contains(b),
{
    let keys = choose|keys: Seq<u64>| #[trigger] lists_keys(m, keys) && flat == concat_of(m, keys);
    lemma_concat_of_contains(m, keys, b);
    choose|k: u64| #![trigger m[k]] keys.contains(k) && m[k]@.contains(b)
}

/// A block of an entry of the map is in the flattened map.
pub proof fn lemma_flat_has(
    m: Map<u64, Vec<StreamDataBlock>>,
    flat: Seq<StreamDataBlock>,
    b: StreamDataBlock,
)
    requires
        is_flattening(m, flat),
        exists|k: u64| #[trigger] m.dom().contains(k) && m[k]@.contains(b),
    ensures
        flat.contains(b),
{
    let keys = choose|keys: Seq<u64>| #[trigger] lists_keys(m, keys) && flat == concat_of(m, keys);
    let k = choose|k: u64| #[trigger] m.dom().contains(k) && m[k]@.contains(b);
    assert(keys.contains(k));
    lemma_concat_of_contains(m, keys, b);
}

/// Lists with the same blocks have the same size.
pub proof fn lemma_sizes_of_multiset(a: Seq<StreamDataBlock>, b: Seq<StreamDataBlock>)
    requires
        a.to_multiset() == b.to_multiset(),
    ensures
        sizes(a) == sizes(b),
    decreases a.len(),
{
    broadcast use vstd::seq_lib::group_to_multiset_ensures;

    assert(a.len() == a.to_multiset().len());
    assert(b.len() == b.to_multiset().len());
    if a.len() > 0 {
        let x = a.last();
        assert(a.contains(x)) by {
            assert(a[a.len() - 1] == x);
        }
        assert(a.to_multiset().count(x) > 0);
        assert(b.contains(x));
        let i = choose|i: int| 0 <= i < b.len() && b[i] == x;
        let rest = b.remove(i);
        assert(a.drop_last() =~= a.remove(a.len() - 1));
        assert(a.drop_last().to_multiset() =~= rest.to_multiset());
        lemma_sizes_of_multiset(a.drop_last(), rest);
        let head = b.take(i);
        let tail = b.skip(i + 1);
        assert(rest =~= head + tail);
        assert(b =~= head.push(x) + tail);
        lemma_sizes_add(head, tail);
        lemma_sizes_add(head.push(x), tail);
        lemma_sizes_push(head, x);
    }
}

/// Lists the blocks of a map, object by object in the order in which it is walked.
pub fn flatten_blocks(m: &HashMap<u64, Vec<StreamDataBlock>>) -> (flat: Vec<StreamDataBlock>)
    ensures
        is_flattening(m@, flat@),
{
    broadcast use vstd::std_specs::hash::group_hash_axioms;

    let keys = hash_keys(m);
    let mut flat: Vec<StreamDataBlock> = Vec::new();
    let mut i: usize = 0;
    while i < keys.len()
        invariant
            i <= keys@.len(),
            lists_keys(m@, keys@),
            flat@ == concat_of(m@, keys@.take(i as int)),
        decreases keys@.len() - i,
    {
        assert(keys@.contains(keys@[i as int]));
        match m.get(&keys[i]) {
            Some(blocks) => {
                let ghost before = flat@;
                flat.extend_from_slice(blocks.as_slice());
                assert(flat@ =~= before + blocks@);
                assert(keys@.take(i + 1).drop_last() =~= keys@.take(i as int));
            },
            None => {
                assert(false);
            },
        }
        i += 1;
    }
    assert(keys@.take(i as int) =~= keys@);
    flat
}

/// An object shares a stream with another one: a block of the object, and a block of
/// some other object, belong to the same stream.
pub open spec fn shares_stream(blocks: Seq<StreamDataBlock>, id: u64) -> bool {
    exists|i: int, j: int|
        #![trigger blocks[i], blocks[j]]
        0 <= i < blocks.len() && 0 <= j < blocks.len() && blocks[i].object_id == id
            && blocks[j].object_id != id && blocks[i].index.stream_id == blocks[j].index.stream_id
}

/// The same of the blocks in a map.
pub open spec fn object_is_shared(m: Map<u64, Vec<StreamDataBlock>>, id: u64) -> bool {
    exists|k1: u64, b1: StreamDataBlock, k2: u64, b2: StreamDataBlock|
        #![trigger m[k1]@.contains(b1), m[k2]@.contains(b2)]
        m.dom().contains(k1) && m[k1]@.contains(b1) && m.dom().contains(k2) && m[k2]@.contains(b2)
            && b1.object_id == id && b2.object_id != id && b1.index.stream_id == b2.index.stream_id
}

/// The entries of the objects that share a stream with another object.
pub open spec fn shared_only(m: Map<u64, Vec<StreamDataBlock>>) -> Map<u64, Vec<StreamDataBlock>> {
    m.restrict(m.dom().filter(|k: u64| object_is_shared(m, k)))
}

proof fn lemma_shared_in_flat(
    m: Map<u64, Vec<StreamDataBlock>>,
    flat: Seq<StreamDataBlock>,
    id: u64,
)
    requires
        is_flattening(m, flat),
    ensures
        shares_stream(flat, id) <==> object_is_shared(m, id),
{
    let keys = choose|keys: Seq<u64>| #[trigger] lists_keys(m, keys) && flat == concat_of(m, keys);
    if shares_stream(flat, id) {
        let (i, j) = choose|i: int, j: int|
            #![trigger flat[i], flat[j]]
            0 <= i < flat.len() && 0 <= j < flat.len() && flat[i].object_id == id
                && flat[j].object_id != id && flat[i].index.stream_id == flat[j].index.stream_id;
        lemma_concat_of_contains(m, keys, flat[i]);
        lemma_concat_of_contains(m, keys, flat[j]);
        assert(flat.contains(flat[i]) && flat.contains(flat[j]));
        let k1 = choose|k: u64| #![trigger m[k]] keys.contains(k) && m[k]@.contains(flat[i]);
        let k2 = choose|k: u64| #![trigger m[k]] keys.contains(k) && m[k]@.contains(flat[j]);
        assert(m[k1]@.contains(flat[i]) && m[k2]@.contains(flat[j]));
    }
    if object_is_shared(m, id) {
        let (k1, b1, k2, b2) = choose|
            k1: u64,
            b1: StreamDataBlock,
            k2: u64,
            b2: StreamDataBlock,
        |
            #![trigger m[k1]@.contains(b1), m[k2]@.contains(b2)]
            m.dom().contains(k1) && m[k1]@.contains(b1) && m.dom().contains(k2) && m[k2]@.contains(
                b2,
            ) && b1.object_id == id && b2.object_id != id && b1.index.stream_id
                == b2.index.stream_id;
        assert(keys.contains(k1) && keys.contains(k2));
        lemma_concat_of_contains(m, keys, b1);
        lemma_concat_of_contains(m, keys, b2);
        let i = choose|i: int| 0 <= i < flat.len() && flat[i] == b1;
        let j = choose|j: int| 0 <= j < flat.len() && flat[j] == b2;
        assert(flat[i].object_id == id && flat[j].object_id != id);
    }
}

/// The objects that share a stream with another object.
fn shared_objects(flat: &Vec<StreamDataBlock>) -> (ids: HashSet<u64>)
    ensures
        forall|id: u64| #[trigger] ids@.contains(id) <==> shares_stream(flat@, id),
{
    broadcast use vstd::std_specs::hash::group_hash_axioms;

    // The object that each stream was first seen in, and the streams seen in another.
    let mut owner: HashMap<u64, u64> = HashMap::new();
    let mut shared: HashSet<u64> = HashSet::new();
    let mut i: usize = 0;
    while i < flat.len()
        invariant
            i <= flat@.len(),
            forall|j: int|
                0 <= j < i ==> owner@.contains_key((#[trigger] flat@[j]).index.stream_id),
            forall|s: u64| #[trigger]
                owner@.contains_key(s) ==> exists|j: int|
                    0 <= j < i && (#[trigger] flat@[j]).index.stream_id == s && flat@[j].object_id
                        == owner@[s],
            forall|j: int|
                0 <= j < i && (#[trigger] flat@[j]).object_id
                    != owner@[flat@[j].index.stream_id] ==> shared@.contains(
                    flat@[j].index.stream_id,
                ),
            forall|s: u64| #[trigger]
                shared@.contains(s) ==> exists|j: int, k: int|
                    #![trigger flat@[j], flat@[k]]
                    0 <= j < i && 0 <= k < i && flat@[j].index.stream_id == s
                        && flat@[k].index.stream_id == s && flat@[j].object_id
                        != flat@[k].object_id,
        decreases flat@.len() - i,
    {
        let block = flat[i];
        let stream: u64 = block.index.stream_id;
        let ghost owner0 = owner@;
        let ghost shared0 = shared@;
        let seen: Option<u64> = match owner.get(&stream) {
            Some(o) => Some(*o),
            None => None,
        };
        match seen {
            Some(o) => {
                if o != block.object_id {
                    shared.insert(stream);
                    assert(exists|j: int|
                        0 <= j < i && (#[trigger] flat@[j]).index.stream_id == stream
                            && flat@[j].object_id == owner@[stream]);
                }
            },
            None => {
                owner.insert(stream, block.object_id);
            },
        }
        proof {
            assert(flat@[i as int] == block);
            assert forall|s: u64| #[trigger] owner@.contains_key(s) implies exists|j: int|
                0 <= j < i + 1 && (#[trigger] flat@[j]).index.stream_id == s && flat@[j].object_id
                    == owner@[s] by {
                if owner0.contains_key(s) {
                    let j = choose|j: int|
                        0 <= j < i && (#[trigger] flat@[j]).index.stream_id == s
                            && flat@[j].object_id == owner0[s];
                    assert(flat@[j].object_id == owner@[s]);
                } else {
                    assert(flat@[i as int].index.stream_id == s);
                }
            }
            assert forall|s: u64| #[trigger] shared@.contains(s) implies exists|j: int, k: int|
                #![trigger flat@[j], flat@[k]]
                0 <= j < i + 1 && 0 <= k < i + 1 && flat@[j].index.stream_id == s
                    && flat@[k].index.stream_id == s && flat@[j].object_id
                    != flat@[k].object_id by {
                if shared0.contains(s) {
                    let (j, k) = choose|j: int, k: int|
                        #![trigger flat@[j], flat@[k]]
                        0 <= j < i && 0 <= k < i && flat@[j].index.stream_id == s
                            && flat@[k].index.stream_id == s && flat@[j].object_id
                            != flat@[k].object_id;
                    assert(flat@[j].object_id != flat@[k].object_id);
                } else {
                    let j = choose|j: int|
                        0 <= j < i && (#[trigger] flat@[j]).index.stream_id == s
                            && flat@[j].object_id == owner0[s];
                    assert(flat@[j].object_id != flat@[i as int].object_id);
                }
            }
        }
        i += 1;
    }
    let mut ids: HashSet<u64> = HashSet::new();
    let mut n: usize = 0;
    while n < flat.len()
        invariant
            n <= flat@.len(),
            forall|id: u64| #[trigger]
                ids@.contains(id) <==> exists|j: int|
                    0 <= j < n && (#[trigger] flat@[j]).object_id == id && shared@.contains(
                        flat@[j].index.stream_id,
                    ),
        decreases flat@.len() - n,
    {
        let block = flat[n];
        let ghost ids0 = ids@;
        if shared.contains(&block.index.stream_id) {
            ids.insert(block.object_id);
        }
        proof {
            assert(flat@[n as int] == block);
            assert forall|id: u64| #[trigger] ids@.contains(id) <==> exists|j: int|
                0 <= j < n + 1 && (#[trigger] flat@[j]).object_id == id && shared@.contains(
                    flat@[j].index.stream_id,
                ) by {
                if ids0.contains(id) {
                    let j = choose|j: int|
                        0 <= j < n && (#[trigger] flat@[j]).object_id == id && shared@.contains(
                            flat@[j].index.stream_id,
                        );
                    assert(flat@[j].object_id == id);
                }
            }
        }
        n += 1;
    }
    proof {
        assert forall|id: u64| #[trigger] ids@.contains(id) <==> shares_stream(flat@, id) by {
            if ids@.contains(id) {
                let j = choose|j: int|
                    0 <= j < n && (#[trigger] flat@[j]).object_id == id && shared@.contains(
                        flat@[j].index.stream_id,
                    );
                let s = flat@[j].index.stream_id;
                let (a, b) = choose|a: int, b: int|
                    #![trigger flat@[a], flat@[b]]
                    0 <= a < i && 0 <= b < i && flat@[a].index.stream_id == s
                        && flat@[b].index.stream_id == s && flat@[a].object_id
                        != flat@[b].object_id;
                if flat@[a].object_id != id {
                    assert(flat@[j].object_id == id && flat@[a].object_id != id);
                } else {
                    assert(flat@[j].object_id == id && flat@[b].object_id != id);
                }
            }
            if shares_stream(flat@, id) {
                let (a, b) = choose|a: int, b: int|
                    #![trigger flat@[a], flat@[b]]
                    0 <= a < flat@.len() && 0 <= b < flat@.len() && flat@[a].object_id == id
                        && flat@[b].object_id != id && flat@[a].index.stream_id
                        == flat@[b].index.stream_id;
                assert(shared@.contains(flat@[a].index.stream_id));
                assert(flat@[a].object_id == id);
            }
        }
    }
    ids
}

/// Keep only objects that share at least one stream with another object.
pub fn filter_blocks_to_compact(
    stream_data_block_map: HashMap<u64, Vec<StreamDataBlock>>,
) -> (r: HashMap<u64, Vec<StreamDataBlock>>)
    ensures
        r@ == shared_only(stream_data_block_map@),
{
    broadcast use vstd::std_specs::hash::group_hash_axioms;

    let flat = flatten_blocks(&stream_data_block_map);
    let ids = shared_objects(&flat);
    let keys = hash_keys(&stream_data_block_map);
    let ghost m = stream_data_block_map@;
    let mut out = stream_data_block_map;
    let mut i: usize = 0;
    while i < keys.len()
        invariant
            i <= keys@.len(),
            lists_keys(m, keys@),
            forall|k: u64| #[trigger]
                out@.contains_key(k) <==> m.contains_key(k) && (ids@.contains(k)
                    || !keys@.take(i as int).contains(k)),
            forall|k: u64| #[trigger] out@.contains_key(k) ==> out@[k] == m[k],
        decreases keys@.len() - i,
    {
        let key: u64 = keys[i];
        let ghost before = out@;
        if !ids.contains(&key) {
            out.remove(&key);
        }
        proof {
            assert(keys@.take(i + 1) =~= keys@.take(i as int).push(key));
            assert forall|k: u64| #[trigger] out@.contains_key(k) <==> m.contains_key(k) && (
            ids@.contains(k) || !keys@.take(i + 1).contains(k)) by {
                vstd::seq_lib::lemma_seq_contains_after_push(keys@.take(i as int), key, k);
                assert(before.contains_key(k) <==> m.contains_key(k) && (ids@.contains(k)
                    || !keys@.take(i as int).contains(k)));
            }
        }
        i += 1;
    }
    proof {
        assert(keys@.take(i as int) =~= keys@);
        assert forall|k: u64| #[trigger] out@.contains_key(k) <==> shared_only(m).contains_key(
            k,
        ) by {
            lemma_shared_in_flat(m, flat@, k);
            assert(keys@.contains(k) <==> m.dom().contains(k));
        }
        assert(out@ =~= shared_only(m));
    }
    out
}

/// The keys that blocks are sorted by: stream, then start offset.
pub open spec fn stream_keys(blocks: Seq<StreamDataBlock>) -> Seq<(u64, u64)> {
    blocks.map_values(|b: StreamDataBlock| (b.index.stream_id, b.index.start_offset))
}

/// `out` is `flat` in stable order of stream and start offset.
pub open spec fn is_stream_sorted(flat: Seq<StreamDataBlock>, out: Seq<StreamDataBlock>) -> bool {
    exists|perm: Seq<usize>| #[trigger]
        is_stable_order(stream_keys(flat), perm) && out == arranged(flat, perm)
}

/// `out` is what sorting the blocks of a map gives, whatever the order in which the map
/// is walked.
pub open spec fn is_sorted_map(
    m: Map<u64, Vec<StreamDataBlock>>,
    out: Seq<StreamDataBlock>,
) -> bool {
    exists|flat: Seq<StreamDataBlock>| #[trigger]
        is_flattening(m, flat) && is_stream_sorted(flat, out)
}

/// Sort stream data blocks by stream id, then start offset. Blocks that agree on both
/// stay in the order in which the map is walked.
pub fn sort_stream_range_positions(
    stream_data_block_map: &HashMap<u64, Vec<StreamDataBlock>>,
) -> (r: Vec<StreamDataBlock>)
    ensures
        is_sorted_map(stream_data_block_map@, r@),
{
    let flat = flatten_blocks(stream_data_block_map);
    let mut keys: Vec<(u64, u64)> = Vec::new();
    let mut i: usize = 0;
    while i < flat.len()
        invariant
            i <= flat@.len(),
            keys@ == stream_keys(flat@.take(i as int)),
        decreases flat@.len() - i,
    {
        keys.push((flat[i].index.stream_id, flat[i].index.start_offset));
        i += 1;
        assert(keys@ =~= stream_keys(flat@.take(i as int)));
    }
    assert(flat@.take(i as int) =~= flat@);
    let perm = stable_order(&keys);
    let r = arrange(&flat, &perm);
    assert(is_stream_sorted(flat@, r@));
    r
}

/// Sorting the blocks of a map keeps every block and orders them by stream, then by
/// start offset.
pub proof fn law_sorted_blocks(flat: Seq<StreamDataBlock>, out: Seq<StreamDataBlock>)
    requires
        is_stream_sorted(flat, out),
        flat.len() <= usize::MAX,
    ensures
        out.to_multiset() == flat.to_multiset(),
        forall|i: int, j: int|
            0 <= i < j < out.len() ==> {
                ||| out[i].index.stream_id < out[j].index.stream_id
                ||| out[i].index.stream_id == out[j].index.stream_id && out[i].index.start_offset
                    <= out[j].index.start_offset
            },
{
    let perm = choose|perm: Seq<usize>| #[trigger]
        is_stable_order(stream_keys(flat), perm) && out == arranged(flat, perm);
    crate::order::law_arranged_keeps_items(stream_keys(flat), flat, perm);
    assert forall|i: int, j: int| 0 <= i < j < out.len() implies {
        ||| out[i].index.stream_id < out[j].index.stream_id
        ||| out[i].index.stream_id == out[j].index.stream_id && out[i].index.start_offset
            <= out[j].index.start_offset
    } by {
        assert(crate::order::comes_before(stream_keys(flat), perm[i] as int, perm[j] as int));
    }
}

} // verus!

//! Compaction planning: which blocks of which objects become which new objects.
use std::collections::{BTreeMap, HashMap, HashSet};
use vstd::prelude::*;

use crate::compact::builder::{
    cut_run, distinct_objects, draft_of, lemma_cut_run, lemma_distinct_objects, lemma_draft_prefix,
    lemma_draft_sizes, lemma_planned_push, lemma_run_start, lemma_stream_ids_push, objects_for,
    planned_blocks, planned_views, run_start, stream_ids, CompactedObjectBuilder, Draft,
};
use crate::compact::plan::{
    all_valid, lemma_sizes_add, lemma_sizes_push, lemma_sizes_split, sizes,
    filter_blocks_to_compact, is_flattening, is_sorted_map, is_stream_sorted, law_sorted_blocks,
    lemma_flat_source, lemma_sizes_of_multiset, shared_only, sort_stream_range_positions,
    CompactionType, Planned, StreamDataBlock,
};
use crate::compact::stages::{
    generate_plan_with_cache_limit, law_stages_keep_blocks, plan_views, plans_ok, stage_blocks,
    stages_of, CompactionPlan,
};

verus! {

/// Streams written to stream set objects, counted once per object.
pub open spec fn set_streams(objects: Seq<Planned>) -> int
    decreases objects.len(),
{
    if objects.len() == 0 {
        0
    } else {
        set_streams(objects.drop_last()) + if objects.last().kind == CompactionType::Compact {
            stream_ids(objects.last().blocks).len() as int
        } else {
            0
        }
    }
}

/// Stream objects that hold a block.
pub open spec fn stream_objects(objects: Seq<Planned>) -> int
    decreases objects.len(),
{
    if objects.len() == 0 {
        0
    } else {
        stream_objects(objects.drop_last()) + if objects.last().kind == CompactionType::Split
            && objects.last().blocks.len() > 0 {
            1int
        } else {
            0
        }
    }
}

/// The number of output objects that take blocks from a source object.
pub open spec fn uses_of(objects: Seq<Planned>, id: u64) -> int
    decreases objects.len(),
{
    if objects.len() == 0 {
        0
    } else {
        uses_of(objects.drop_last(), id) + if distinct_objects(objects.last().blocks).contains(
            id,
        ) {
            1int
        } else {
            0
        }
    }
}

/// Uses of a list of source objects, added up.
pub open spec fn uses_sum(objects: Seq<Planned>, ids: Seq<u64>) -> int
    decreases ids.len(),
{
    if ids.len() == 0 {
        0
    } else {
        uses_sum(objects, ids.drop_last()) + uses_of(objects, ids.last())
    }
}

pub proof fn lemma_counts_bounded(objects: Seq<Planned>, id: u64)
    ensures
        0 <= uses_of(objects, id) <= objects.len(),
        0 <= stream_objects(objects) <= objects.len(),
        0 <= set_streams(objects),
    decreases objects.len(),
{
    if objects.len() > 0 {
        lemma_counts_bounded(objects.drop_last(), id);
    }
}

/// What planned objects add up to.
struct CompactionStats {
    stream_num_in_stream_set: u128,
    stream_object_num: usize,
    object_to_compacted_object_num: BTreeMap<u64, usize>,
}

impl CompactionStats {
    spec fn describes(&self, objects: Seq<Planned>) -> bool {
        &&& self.stream_num_in_stream_set == set_streams(objects)
        &&& self.stream_object_num == stream_objects(objects)
        &&& forall|id: u64|
            (#[trigger] self.object_to_compacted_object_num@.contains_key(id)) ==> uses_of(
                objects,
                id,
            ) == self.object_to_compacted_object_num@[id]
        &&& forall|id: u64|
            !(#[trigger] self.object_to_compacted_object_num@.contains_key(id)) ==> uses_of(
                objects,
                id,
            ) == 0
    }

    fn of(builders: &Vec<CompactedObjectBuilder>) -> (r: Self)
        ensures
            r.describes(planned_views(builders@)),
    {
        broadcast use vstd::std_specs::btree::group_btree_axioms;

        let mut set_num: u128 = 0;
        let mut split_num: usize = 0;
        let mut uses: BTreeMap<u64, usize> = BTreeMap::new();
        let ghost objects = planned_views(builders@);
        let mut i: usize = 0;
        assert(objects.take(0) =~= Seq::empty());
        while i < builders.len()
            invariant
                i <= builders@.len(),
                objects == planned_views(builders@),
                set_num == set_streams(objects.take(i as int)),
                set_num <= i * usize::MAX,
                split_num == stream_objects(objects.take(i as int)),
                split_num <= i,
                forall|id: u64|
                    (#[trigger] uses@.contains_key(id)) ==> uses_of(objects.take(i as int), id)
                        == uses@[id],
                forall|id: u64|
                    !(#[trigger] uses@.contains_key(id)) ==> uses_of(objects.take(i as int), id)
                        == 0,
            decreases builders@.len() - i,
        {
            let builder = &builders[i];
            let ghost cur = objects[i as int];
            proof {
                assert(cur == builder.planned());
                assert(objects.take(i + 1).drop_last() =~= objects.take(i as int));
                assert(objects.take(i + 1).last() == cur);
            }
            let ids = builder.unique_object_ids();
            let ghost before = objects.take(i as int);
            let mut j: usize = 0;
            proof {
                lemma_distinct_objects(cur.blocks);
                assert forall|id: u64| 0 <= #[trigger] uses_of(before, id) <= i by {
                    lemma_counts_bounded(before, id);
                }
            }
            while j < ids.len()
                invariant
                    j <= ids@.len(),
                    ids@.no_duplicates(),
                    i < usize::MAX,
                    forall|id: u64| 0 <= #[trigger] uses_of(before, id) <= i,
                    forall|id: u64|
                        (#[trigger] uses@.contains_key(id)) ==> uses@[id] == uses_of(before, id) + (
                        if ids@.take(j as int).contains(id) {
                            1int
                        } else {
                            0
                        }),
                    forall|id: u64|
                        !(#[trigger] uses@.contains_key(id)) ==> uses_of(before, id) == 0
                            && !ids@.take(j as int).contains(id),
                decreases ids@.len() - j,
            {
                let id: u64 = ids[j];
                let ghost uses0 = uses@;
                let n: usize = match uses.get(&id) {
                    Some(n) => *n,
                    None => 0,
                };
                proof {
                    assert(!ids@.take(j as int).contains(id)) by {
                        if ids@.take(j as int).contains(id) {
                            let k = choose|k: int|
                                0 <= k < j && #[trigger] ids@.take(j as int)[k] == id;
                            assert(ids@[k] == ids@[j as int]);
                        }
                    }
                    assert(uses_of(before, id) == n);
                    assert(ids@.take(j + 1) =~= ids@.take(j as int).push(id));
                }
                uses.insert(id, n + 1);
                proof {
                    assert forall|x: u64|
                        (#[trigger] uses@.contains_key(x)) implies uses@[x] == uses_of(before, x)
                        + (if ids@.take(j + 1).contains(x) {
                        1int
                    } else {
                        0
                    }) by {
                        vstd::seq_lib::lemma_seq_contains_after_push(ids@.take(j as int), id, x);
                        if x != id {
                            assert(uses0.contains_key(x));
                        }
                    }
                    assert forall|x: u64|
                        !(#[trigger] uses@.contains_key(x)) implies uses_of(before, x) == 0
                        && !ids@.take(j + 1).contains(x) by {
                        vstd::seq_lib::lemma_seq_contains_after_push(ids@.take(j as int), id, x);
                        assert(!uses0.contains_key(x));
                    }
                }
                j += 1;
            }
            assert(ids@.take(j as int) =~= ids@);
            if matches!(builder.kind(), CompactionType::Split) {
                if builder.block_count() > 0 {
                    split_num += 1;
                }
            } else {
                let n: usize = builder.total_stream_num();
                assert(i * usize::MAX + usize::MAX == (i + 1) * usize::MAX) by (nonlinear_arith);
                assert(i * usize::MAX + usize::MAX < u128::MAX) by (nonlinear_arith)
                    requires
                        i <= usize::MAX,
                        usize::MAX <= u64::MAX,
                ;
                set_num = set_num + n as u128;
            }
            assert(i * usize::MAX <= (i + 1) * usize::MAX) by (nonlinear_arith);
            i += 1;
        }
        assert(objects.take(i as int) =~= objects);
        CompactionStats {
            stream_num_in_stream_set: set_num,
            stream_object_num: split_num,
            object_to_compacted_object_num: uses,
        }
    }
}

/// How costly it is to leave out a planned stream object: its blocks, then the uses of
/// its source objects.
pub open spec fn split_cost(objects: Seq<Planned>, k: int) -> (int, int) {
    (
        objects[k].blocks.len() as int,
        uses_sum(objects, distinct_objects(objects[k].blocks)),
    )
}

pub open spec fn cost_lt(a: (int, int), b: (int, int)) -> bool {
    a.0 < b.0 || (a.0 == b.0 && a.1 < b.1)
}

/// The first of the cheapest stream objects among the first `n`.
pub open spec fn cheapest_split(objects: Seq<Planned>, n: int) -> Option<int>
    decreases n,
{
    if n <= 0 {
        None
    } else {
        let best = cheapest_split(objects, n - 1);
        if objects[n - 1].kind != CompactionType::Split {
            best
        } else {
            match best {
                None => Some(n - 1),
                Some(k) => if cost_lt(split_cost(objects, n - 1), split_cost(objects, k)) {
                    Some(n - 1)
                } else {
                    best
                },
            }
        }
    }
}

proof fn lemma_cheapest_split(objects: Seq<Planned>, n: int)
    requires
        0 <= n <= objects.len(),
    ensures
        cheapest_split(objects, n) matches Some(k) ==> 0 <= k < n && objects[k].kind
            == CompactionType::Split,
    decreases n,
{
    if n > 0 {
        lemma_cheapest_split(objects, n - 1);
    }
}

/// The blocks of the stream set objects.
pub open spec fn set_blocks(objects: Seq<Planned>) -> Seq<StreamDataBlock>
    decreases objects.len(),
{
    if objects.len() == 0 {
        Seq::empty()
    } else if objects.last().kind == CompactionType::Compact {
        set_blocks(objects.drop_last()) + objects.last().blocks
    } else {
        set_blocks(objects.drop_last())
    }
}

/// The blocks of one stream.
pub open spec fn of_stream(blocks: Seq<StreamDataBlock>, stream: u64) -> Seq<StreamDataBlock> {
    blocks.filter(|b: StreamDataBlock| b.index.stream_id == stream)
}

/// The blocks of one source object.
pub open spec fn of_object(blocks: Seq<StreamDataBlock>, id: u64) -> Seq<StreamDataBlock> {
    blocks.filter(|b: StreamDataBlock| b.object_id == id)
}

/// Streams of a list of source objects, counted once per object.
pub open spec fn streams_in(blocks: Seq<StreamDataBlock>, ids: Seq<u64>) -> int
    decreases ids.len(),
{
    if ids.len() == 0 {
        0
    } else {
        streams_in(blocks, ids.drop_last()) + stream_ids(of_object(blocks, ids.last())).len()
    }
}

/// How far the source objects of a stream spread over streams.
pub open spec fn dispersion(blocks: Seq<StreamDataBlock>, stream: u64) -> int {
    streams_in(blocks, distinct_objects(of_stream(blocks, stream)))
}

/// The stream whose source objects spread least; the lowest id among equals.
pub open spec fn is_least_dispersed(blocks: Seq<StreamDataBlock>, stream: u64) -> bool {
    &&& stream_ids(blocks).contains(stream)
    &&& forall|s: u64| #[trigger]
        stream_ids(blocks).contains(s) ==> dispersion(blocks, stream) < dispersion(blocks, s) || (
        dispersion(blocks, stream) == dispersion(blocks, s) && stream <= s)
}

/// The source objects to leave out so that there are fewer objects of a kind.
pub open spec fn objects_to_leave_out(kind: CompactionType, objects: Seq<Planned>) -> Set<u64> {
    if kind == CompactionType::Split {
        match cheapest_split(objects, objects.len() as int) {
            None => Set::empty(),
            Some(k) => distinct_objects(objects[k].blocks).to_set(),
        }
    } else if set_blocks(objects).len() == 0 {
        Set::empty()
    } else {
        distinct_objects(
            of_stream(
                set_blocks(objects),
                choose|s: u64| is_least_dispersed(set_blocks(objects), s),
            ),
        ).to_set()
    }
}

fn uses_total(stats: &BTreeMap<u64, usize>, ids: &Vec<u64>, Ghost(objects): Ghost<Seq<Planned>>) -> (r: u128)
    requires
        forall|id: u64|
            (#[trigger] stats@.contains_key(id)) ==> uses_of(objects, id) == stats@[id],
        forall|id: u64| !(#[trigger] stats@.contains_key(id)) ==> uses_of(objects, id) == 0,
    ensures
        r == uses_sum(objects, ids@),
{
    broadcast use vstd::std_specs::btree::group_btree_axioms;

    let mut total: u128 = 0;
    let mut i: usize = 0;
    assert(ids@.take(0) =~= Seq::empty());
    while i < ids.len()
        invariant
            i <= ids@.len(),
            forall|id: u64|
                (#[trigger] stats@.contains_key(id)) ==> uses_of(objects, id) == stats@[id],
            forall|id: u64| !(#[trigger] stats@.contains_key(id)) ==> uses_of(objects, id) == 0,
            total == uses_sum(objects, ids@.take(i as int)),
            total <= i * usize::MAX,
        decreases ids@.len() - i,
    {
        let n: usize = match stats.get(&ids[i]) {
            Some(n) => *n,
            None => 0,
        };
        proof {
            assert(ids@.take(i + 1).drop_last() =~= ids@.take(i as int));
            assert(i * usize::MAX + usize::MAX == (i + 1) * usize::MAX) by (nonlinear_arith);
            assert(i * usize::MAX + usize::MAX < u128::MAX) by (nonlinear_arith)
                requires
                    i <= usize::MAX,
                    usize::MAX <= u64::MAX,
            ;
        }
        total = total + n as u128;
        i += 1;
    }
    assert(ids@.take(i as int) =~= ids@);
    total
}

fn leave_out_split(builders: &Vec<CompactedObjectBuilder>, stats: &CompactionStats) -> (r: Vec<u64>)
    requires
        stats.describes(planned_views(builders@)),
    ensures
        r@.to_set() == objects_to_leave_out(CompactionType::Split, planned_views(builders@)),
{
    let ghost objects = planned_views(builders@);
    let mut best: Option<usize> = None;
    let mut best_len: usize = 0;
    let mut best_uses: u128 = 0;
    let mut i: usize = 0;
    while i < builders.len()
        invariant
            i <= builders@.len(),
            objects == planned_views(builders@),
            stats.describes(objects),
            match best {
                None => cheapest_split(objects, i as int) is None,
                Some(k) => {
                    &&& k < i
                    &&& cheapest_split(objects, i as int) == Some(k as int)
                    &&& split_cost(objects, k as int) == (best_len as int, best_uses as int)
                },
            },
        decreases builders@.len() - i,
    {
        let builder = &builders[i];
        assert(objects[i as int] == builder.planned());
        if matches!(builder.kind(), CompactionType::Split) {
            let len: usize = builder.block_count();
            let ids = builder.unique_object_ids();
            let uses: u128 = uses_total(
                &stats.object_to_compacted_object_num,
                &ids,
                Ghost(objects),
            );
            if best.is_none() || len < best_len || (len == best_len && uses < best_uses) {
                best = Some(i);
                best_len = len;
                best_uses = uses;
            }
        }
        i += 1;
    }
    match best {
        None => {
            let r: Vec<u64> = Vec::new();
            assert(r@.to_set() =~= Set::empty());
            r
        },
        Some(k) => {
            assert(objects[k as int] == builders@[k as int].planned());
            builders[k].unique_object_ids()
        },
    }
}

proof fn lemma_of_stream_push(blocks: Seq<StreamDataBlock>, b: StreamDataBlock, s: u64)
    ensures
        of_stream(blocks.push(b), s) == (if b.index.stream_id == s {
            of_stream(blocks, s).push(b)
        } else {
            of_stream(blocks, s)
        }),
{
    blocks.lemma_filter_push(b, |b: StreamDataBlock| b.index.stream_id == s);
}

proof fn lemma_of_object_push(blocks: Seq<StreamDataBlock>, b: StreamDataBlock, id: u64)
    ensures
        of_object(blocks.push(b), id) == (if b.object_id == id {
            of_object(blocks, id).push(b)
        } else {
            of_object(blocks, id)
        }),
{
    blocks.lemma_filter_push(b, |b: StreamDataBlock| b.object_id == id);
}

proof fn lemma_distinct_push(blocks: Seq<StreamDataBlock>, b: StreamDataBlock)
    ensures
        distinct_objects(blocks.push(b)) == (if distinct_objects(blocks).contains(b.object_id) {
            distinct_objects(blocks)
        } else {
            distinct_objects(blocks).push(b.object_id)
        }),
{
    assert(blocks.push(b).drop_last() =~= blocks);
}

/// The source objects of each stream, and the streams of each source object.
struct Spread {
    objects_of_stream: BTreeMap<u64, Vec<u64>>,
    streams_of_object: BTreeMap<u64, HashSet<u64>>,
}

impl Spread {
    spec fn describes(&self, blocks: Seq<StreamDataBlock>) -> bool {
        &&& self.objects_of_stream@.dom() == stream_ids(blocks)
        &&& forall|s: u64| #[trigger]
            self.objects_of_stream@.contains_key(s) ==> self.objects_of_stream@[s]@
                == distinct_objects(of_stream(blocks, s))
        &&& forall|i: int|
            0 <= i < blocks.len() ==> self.streams_of_object@.contains_key(
                (#[trigger] blocks[i]).object_id,
            )
        &&& forall|id: u64| #[trigger]
            self.streams_of_object@.contains_key(id) ==> self.streams_of_object@[id]@
                == stream_ids(of_object(blocks, id))
    }

    fn of(blocks: &Vec<StreamDataBlock>) -> (r: Self)
        ensures
            r.describes(blocks@),
    {
        broadcast use vstd::std_specs::btree::group_btree_axioms;
        broadcast use vstd::std_specs::hash::group_hash_axioms;

        let mut r = Spread { objects_of_stream: BTreeMap::new(), streams_of_object: BTreeMap::new() };
        let mut i: usize = 0;
        proof {
            assert(blocks@.take(0) =~= Seq::empty());
            assert(stream_ids(Seq::empty()) =~= Set::empty());
            assert(r.objects_of_stream@.dom() =~= Set::empty());
        }
        while i < blocks.len()
            invariant
                i <= blocks@.len(),
                r.describes(blocks@.take(i as int)),
            decreases blocks@.len() - i,
        {
            let block = blocks[i];
            let stream: u64 = block.index.stream_id;
            let id: u64 = block.object_id;
            let ghost seen = blocks@.take(i as int);
            let ghost r0 = r;
            proof {
                assert(blocks@.take(i + 1) =~= seen.push(block));
                lemma_stream_ids_push(seen, block);
                lemma_unseen(seen, stream, id);
            }
            let mut objects: Vec<u64> = match r.objects_of_stream.remove(&stream) {
                Some(v) => v,
                None => Vec::new(),
            };
            assert(objects@ == distinct_objects(of_stream(seen, stream)));
            let known: bool = contains_id(&objects, id);
            if !known {
                objects.push(id);
            }
            proof {
                lemma_of_stream_push(seen, block, stream);
                lemma_distinct_push(of_stream(seen, stream), block);
            }
            r.objects_of_stream.insert(stream, objects);
            let mut streams: HashSet<u64> = match r.streams_of_object.remove(&id) {
                Some(v) => v,
                None => HashSet::new(),
            };
            assert(streams@ == stream_ids(of_object(seen, id)));
            streams.insert(stream);
            proof {
                lemma_of_object_push(seen, block, id);
                lemma_stream_ids_push(of_object(seen, id), block);
            }
            r.streams_of_object.insert(id, streams);
            proof {
                let now = seen.push(block);
                assert(r.objects_of_stream@.dom() =~= stream_ids(now));
                assert forall|s: u64| #[trigger]
                    r.objects_of_stream@.contains_key(s) implies r.objects_of_stream@[s]@
                    == distinct_objects(of_stream(now, s)) by {
                    lemma_of_stream_push(seen, block, s);
                    if s != stream {
                        assert(r0.objects_of_stream@.contains_key(s));
                    }
                }
                assert forall|x: u64| #[trigger]
                    r.streams_of_object@.contains_key(x) implies r.streams_of_object@[x]@
                    == stream_ids(of_object(now, x)) by {
                    lemma_of_object_push(seen, block, x);
                    if x != id {
                        assert(r0.streams_of_object@.contains_key(x));
                    }
                }
                assert forall|j: int| 0 <= j < now.len() implies r.streams_of_object@.contains_key(
                    (#[trigger] now[j]).object_id,
                ) by {
                    if j < seen.len() {
                        assert(r0.streams_of_object@.contains_key(seen[j].object_id));
                    }
                }
            }
            i += 1;
        }
        assert(blocks@.take(i as int) =~= blocks@);
        r
    }
}

proof fn lemma_unseen(blocks: Seq<StreamDataBlock>, stream: u64, id: u64)
    ensures
        !stream_ids(blocks).contains(stream) ==> of_stream(blocks, stream) == Seq::<
            StreamDataBlock,
        >::empty(),
        (forall|i: int| 0 <= i < blocks.len() ==> (#[trigger] blocks[i]).object_id != id)
            ==> of_object(blocks, id) == Seq::<StreamDataBlock>::empty(),
{
    let f = |b: StreamDataBlock| b.index.stream_id;
    if !stream_ids(blocks).contains(stream) {
        assert forall|i: int| 0 <= i < blocks.len() implies (#[trigger] blocks[i]).index.stream_id
            != stream by {
            assert(blocks.map_values(f)[i] == blocks[i].index.stream_id);
        }
        blocks.lemma_all_neg_filter_empty(|b: StreamDataBlock| b.index.stream_id == stream);
        assert(of_stream(blocks, stream) =~= Seq::empty());
    }
    if forall|i: int| 0 <= i < blocks.len() ==> (#[trigger] blocks[i]).object_id != id {
        blocks.lemma_all_neg_filter_empty(|b: StreamDataBlock| b.object_id == id);
        assert(of_object(blocks, id) =~= Seq::empty());
    }
}

fn contains_id(ids: &Vec<u64>, id: u64) -> (r: bool)
    ensures
        r <==> ids@.contains(id),
{
    let mut i: usize = 0;
    while i < ids.len()
        invariant
            i <= ids@.len(),
            forall|j: int| 0 <= j < i ==> ids@[j] != id,
        decreases ids@.len() - i,
    {
        if ids[i] == id {
            return true;
        }
        i += 1;
    }
    false
}


fn streams_total(
    spread: &Spread,
    ids: &Vec<u64>,
    Ghost(blocks): Ghost<Seq<StreamDataBlock>>,
) -> (r: u128)
    requires
        spread.describes(blocks),
        forall|i: int|
            0 <= i < ids@.len() ==> spread.streams_of_object@.contains_key(#[trigger] ids@[i]),
    ensures
        r == streams_in(blocks, ids@),
{
    broadcast use vstd::std_specs::btree::group_btree_axioms;
    broadcast use vstd::std_specs::hash::group_hash_axioms;

    let mut total: u128 = 0;
    let mut i: usize = 0;
    assert(ids@.take(0) =~= Seq::empty());
    while i < ids.len()
        invariant
            i <= ids@.len(),
            spread.describes(blocks),
            forall|i: int|
                0 <= i < ids@.len() ==> spread.streams_of_object@.contains_key(#[trigger] ids@[i]),
            total == streams_in(blocks, ids@.take(i as int)),
            total <= i * usize::MAX,
        decreases ids@.len() - i,
    {
        assert(spread.streams_of_object@.contains_key(ids@[i as int]));
        let n: usize = match spread.streams_of_object.get(&ids[i]) {
            Some(set) => set.len(),
            None => 0,
        };
        proof {
            assert(ids@.take(i + 1).drop_last() =~= ids@.take(i as int));
            assert(i * usize::MAX + usize::MAX == (i + 1) * usize::MAX) by (nonlinear_arith);
            assert(i * usize::MAX + usize::MAX < u128::MAX) by (nonlinear_arith)
                requires
                    i <= usize::MAX,
                    usize::MAX <= u64::MAX,
            ;
        }
        total = total + n as u128;
        i += 1;
    }
    assert(ids@.take(i as int) =~= ids@);
    total
}

/// The blocks of the stream set objects.
fn collect_set_blocks(builders: &Vec<CompactedObjectBuilder>) -> (r: Vec<StreamDataBlock>)
    ensures
        r@ == set_blocks(planned_views(builders@)),
{
    let ghost objects = planned_views(builders@);
    let mut out: Vec<StreamDataBlock> = Vec::new();
    let mut i: usize = 0;
    assert(objects.take(0) =~= Seq::empty());
    while i < builders.len()
        invariant
            i <= builders@.len(),
            objects == planned_views(builders@),
            out@ == set_blocks(objects.take(i as int)),
        decreases builders@.len() - i,
    {
        let builder = &builders[i];
        let ghost before = out@;
        proof {
            assert(objects[i as int] == builder.planned());
            assert(objects.take(i + 1).drop_last() =~= objects.take(i as int));
        }
        if matches!(builder.kind(), CompactionType::Compact) {
            let n: usize = builder.block_count();
            let mut j: usize = 0;
            while j < n
                invariant
                    j <= n,
                    n == builder.planned().blocks.len(),
                    out@ == before + builder.planned().blocks.take(j as int),
                decreases n - j,
            {
                out.push(builder.block(j));
                j += 1;
                assert(out@ =~= before + builder.planned().blocks.take(j as int));
            }
            assert(builder.planned().blocks.take(j as int) =~= builder.planned().blocks);
        }
        i += 1;
    }
    assert(objects.take(i as int) =~= objects);
    out
}

fn leave_out_compact(builders: &Vec<CompactedObjectBuilder>) -> (r: Vec<u64>)
    ensures
        r@.to_set() == objects_to_leave_out(CompactionType::Compact, planned_views(builders@)),
{
    broadcast use vstd::std_specs::btree::group_btree_axioms;

    let blocks = collect_set_blocks(builders);
    if blocks.len() == 0 {
        let r: Vec<u64> = Vec::new();
        assert(r@.to_set() =~= Set::empty());
        return r;
    }
    let mut spread = Spread::of(&blocks);
    let streams = crate::collections::tree_keys(&spread.objects_of_stream);
    proof {
        let f = |b: StreamDataBlock| b.index.stream_id;
        assert(blocks@.map_values(f)[0] == blocks@[0].index.stream_id);
        assert(stream_ids(blocks@).contains(blocks@[0].index.stream_id));
        assert(streams@.contains(blocks@[0].index.stream_id));
    }
    let mut best: u64 = 0;
    let mut best_total: u128 = 0;
    let mut i: usize = 0;
    while i < streams.len()
        invariant
            i <= streams@.len(),
            spread.describes(blocks@),
            crate::collections::lists_keys(spread.objects_of_stream@, streams@),
            crate::collections::ascending(streams@),
            i > 0 ==> {
                &&& stream_ids(blocks@).contains(best)
                &&& best_total == dispersion(blocks@, best)
                &&& forall|j: int|
                    0 <= j < i ==> best_total < dispersion(blocks@, #[trigger] streams@[j]) || (
                    best_total == dispersion(blocks@, streams@[j]) && best <= streams@[j])
                &&& exists|j: int| 0 <= j < i && #[trigger] streams@[j] == best
            },
        decreases streams@.len() - i,
    {
        let stream: u64 = streams[i];
        assert(streams@.contains(streams@[i as int]));
        let total: u128 = match spread.objects_of_stream.get(&stream) {
            Some(ids) => {
                proof {
                    assert forall|k: int| 0 <= k < ids@.len() implies spread.streams_of_object@.contains_key(#[trigger] ids@[k]) by {
                        let part = of_stream(blocks@, stream);
                        lemma_distinct_objects(part);
                        assert(distinct_objects(part).contains(ids@[k]));
                        let n = choose|n: int| 0 <= n < part.len() && (#[trigger] part[n]).object_id == ids@[k];
                        blocks@.lemma_filter_contains_rev(|b: StreamDataBlock| b.index.stream_id == stream, part[n]);
                        assert(blocks@.contains(part[n])) by {
                            broadcast use vstd::seq_lib::group_filter_ensures;
                            assert(part.contains(part[n]));
                        }
                        let m = choose|m: int| 0 <= m < blocks@.len() && blocks@[m] == part[n];
                        assert(blocks@[m].object_id == ids@[k]);
                    }
                }
                streams_total(&spread, ids, Ghost(blocks@))
            },
            None => {
                assert(false);
                0
            },
        };
        assert(total == dispersion(blocks@, stream));
        if i == 0 || total < best_total {
            best = stream;
            best_total = total;
        }
        i += 1;
    }
    proof {
        assert(is_least_dispersed(blocks@, best)) by {
            assert forall|s: u64| #[trigger]
                stream_ids(blocks@).contains(s) implies dispersion(blocks@, best) < dispersion(
                blocks@,
                s,
            ) || (dispersion(blocks@, best) == dispersion(blocks@, s) && best <= s) by {
                assert(spread.objects_of_stream@.dom().contains(s));
                assert(streams@.contains(s));
                let j = choose|j: int| 0 <= j < streams@.len() && streams@[j] == s;
                assert(streams@[j] == s);
            }
        }
        let chosen = choose|s: u64| is_least_dispersed(blocks@, s);
        assert(is_least_dispersed(blocks@, chosen));
        assert(chosen == best);
        assert(spread.objects_of_stream@.contains_key(best));
    }
    match spread.objects_of_stream.remove(&best) {
        Some(ids) => ids,
        None => Vec::new(),
    }
}


proof fn lemma_planned_contains(objects: Seq<Planned>, k: int, b: StreamDataBlock)
    requires
        0 <= k < objects.len(),
        objects[k].blocks.contains(b),
    ensures
        planned_blocks(objects).contains(b),
    decreases objects.len(),
{
    let rest = objects.drop_last();
    let last = objects.last().blocks;
    if k < rest.len() {
        lemma_planned_contains(rest, k, b);
    }
    vstd::seq_lib::lemma_seq_concat_contains_all_elements(planned_blocks(rest), last, b);
}

proof fn lemma_set_blocks_contained(objects: Seq<Planned>, b: StreamDataBlock)
    requires
        set_blocks(objects).contains(b),
    ensures
        planned_blocks(objects).contains(b),
    decreases objects.len(),
{
    if objects.len() > 0 {
        let rest = objects.drop_last();
        let last = objects.last().blocks;
        vstd::seq_lib::lemma_seq_concat_contains_all_elements(set_blocks(rest), last, b);
        vstd::seq_lib::lemma_seq_concat_contains_all_elements(planned_blocks(rest), last, b);
        if set_blocks(rest).contains(b) {
            lemma_set_blocks_contained(rest, b);
        }
    }
}

/// Only source objects of planned blocks are left out.
proof fn lemma_left_out_have_blocks(kind: CompactionType, objects: Seq<Planned>, id: u64)
    requires
        objects_to_leave_out(kind, objects).contains(id),
    ensures
        exists|b: StreamDataBlock| #[trigger]
            planned_blocks(objects).contains(b) && b.object_id == id,
{
    if kind == CompactionType::Split {
        lemma_cheapest_split(objects, objects.len() as int);
        let k = cheapest_split(objects, objects.len() as int)->0;
        let blocks = objects[k].blocks;
        lemma_distinct_objects(blocks);
        assert(distinct_objects(blocks).contains(id));
        let i = choose|i: int| 0 <= i < blocks.len() && (#[trigger] blocks[i]).object_id == id;
        assert(blocks.contains(blocks[i]));
        lemma_planned_contains(objects, k, blocks[i]);
    } else {
        let all = set_blocks(objects);
        let s = choose|s: u64| is_least_dispersed(all, s);
        let part = of_stream(all, s);
        lemma_distinct_objects(part);
        assert(distinct_objects(part).contains(id));
        let i = choose|i: int| 0 <= i < part.len() && (#[trigger] part[i]).object_id == id;
        broadcast use vstd::seq_lib::group_filter_ensures;

        all.lemma_filter_contains_rev(|b: StreamDataBlock| b.index.stream_id == s, part[i]);
        assert(all.contains(part[i]));
        lemma_set_blocks_contained(objects, part[i]);
    }
}

/// The blocks whose source object stays.
pub open spec fn without(blocks: Seq<StreamDataBlock>, gone: Set<u64>) -> Seq<StreamDataBlock> {
    blocks.filter(|b: StreamDataBlock| !gone.contains(b.object_id))
}

proof fn lemma_without_push(blocks: Seq<StreamDataBlock>, b: StreamDataBlock, gone: Set<u64>)
    ensures
        without(blocks.push(b), gone) == (if gone.contains(b.object_id) {
            without(blocks, gone)
        } else {
            without(blocks, gone).push(b)
        }),
{
    blocks.lemma_filter_push(b, |b: StreamDataBlock| !gone.contains(b.object_id));
}

proof fn lemma_without(blocks: Seq<StreamDataBlock>, gone: Set<u64>)
    ensures
        sizes(without(blocks, gone)) <= sizes(blocks),
        without(blocks, gone).len() <= blocks.len(),
        all_valid(blocks) ==> all_valid(without(blocks, gone)),
        forall|b: StreamDataBlock| #[trigger] without(blocks, gone).contains(b) ==> blocks.contains(b),
        (exists|i: int| 0 <= i < blocks.len() && gone.contains((#[trigger] blocks[i]).object_id))
            ==> without(blocks, gone).len() < blocks.len(),
    decreases blocks.len(),
{
    if blocks.len() == 0 {
        assert(without(blocks, gone) =~= Seq::empty());
    } else {
        let rest = blocks.drop_last();
        let b = blocks.last();
        assert(blocks =~= rest.push(b));
        lemma_without_push(rest, b, gone);
        lemma_without(rest, gone);
        lemma_sizes_push(without(rest, gone), b);
        lemma_sizes_push(rest, b);
        assert forall|x: StreamDataBlock| #[trigger]
            without(blocks, gone).contains(x) implies blocks.contains(x) by {
            vstd::seq_lib::lemma_seq_contains_after_push(without(rest, gone), b, x);
            if without(rest, gone).contains(x) {
                assert(rest.contains(x));
                let i = choose|i: int| 0 <= i < rest.len() && rest[i] == x;
                assert(blocks[i] == x);
            } else {
                assert(blocks[blocks.len() - 1] == x);
            }
        }
        if all_valid(blocks) {
            assert forall|i: int| 0 <= i < rest.len() implies (
            #[trigger] rest[i]).index.valid() by {
                assert(blocks[i].index.valid());
            }
            assert(blocks[blocks.len() - 1].index.valid());
        }
        if exists|i: int| 0 <= i < blocks.len() && gone.contains((#[trigger] blocks[i]).object_id) {
            let i = choose|i: int|
                0 <= i < blocks.len() && gone.contains((#[trigger] blocks[i]).object_id);
            if i < rest.len() {
                assert(gone.contains(rest[i].object_id));
            }
        }
    }
}

/// Plan builder for stream set compaction.
#[derive(Debug)]
pub struct CompactionAnalyzer {
    compaction_cache_size: u64,
    stream_split_size: u64,
    max_stream_num_in_stream_set: usize,
    max_stream_object_num: usize,
}

/// Both limits are kept.
pub open spec fn within_limits(a: CompactionAnalyzer, objects: Seq<Planned>) -> bool {
    set_streams(objects) <= a.max_set_streams() && stream_objects(objects)
        <= a.max_stream_objects()
}

/// The kind of object there are too many of.
pub open spec fn crowded_kind(a: CompactionAnalyzer, objects: Seq<Planned>) -> CompactionType {
    if stream_objects(objects) > a.max_stream_objects() {
        CompactionType::Split
    } else {
        CompactionType::Compact
    }
}

/// The objects planned within the limits, and the source objects left out for it. As
/// long as there are too many, source objects are left out and the rest is planned
/// anew. Nothing is planned once no two of the remaining objects share a stream, where
/// blocks overlap, or where nothing more can be left out.
pub open spec fn plan_within_limits(
    a: CompactionAnalyzer,
    sorted: Seq<StreamDataBlock>,
    m: Map<u64, Vec<StreamDataBlock>>,
    excluded: Set<u64>,
) -> (Option<Seq<Planned>>, Set<u64>)
    decreases sorted.len(),
{
    let shared = shared_only(m);
    if shared.dom() == Set::<u64>::empty() {
        (None, excluded)
    } else {
        match objects_for(a.split_size(), sorted) {
            None => (None, excluded),
            Some(objects) => {
                let gone = objects_to_leave_out(crowded_kind(a, objects), objects);
                let rest = without(sorted, gone);
                if within_limits(a, objects) {
                    (Some(objects), excluded)
                } else if gone == Set::<u64>::empty() || rest.len() >= sorted.len() {
                    (None, excluded)
                } else {
                    plan_within_limits(a, rest, shared.remove_keys(gone), excluded.union(gone))
                }
            },
        }
    }
}

/// Leaving out the least valuable objects strictly shrinks the list of blocks.
proof fn lemma_leaving_out_shrinks(
    a: CompactionAnalyzer,
    sorted: Seq<StreamDataBlock>,
    objects: Seq<Planned>,
)
    requires
        objects_for(a.split_size(), sorted) == Some(objects),
        objects_to_leave_out(crowded_kind(a, objects), objects) != Set::<u64>::empty(),
    ensures
        without(sorted, objects_to_leave_out(crowded_kind(a, objects), objects)).len()
            < sorted.len(),
{
    let gone = objects_to_leave_out(crowded_kind(a, objects), objects);
    assert(exists|id: u64| gone.contains(id)) by {
        if forall|id: u64| !gone.contains(id) {
            assert(gone =~= Set::<u64>::empty());
        }
    }
    let id = choose|id: u64| gone.contains(id);
    lemma_left_out_have_blocks(crowded_kind(a, objects), objects, id);
    let b = choose|b: StreamDataBlock| #[trigger]
        planned_blocks(objects).contains(b) && b.object_id == id;
    lemma_objects_from_sorted(a.split_size(), sorted, b);
    let i = choose|i: int| 0 <= i < sorted.len() && sorted[i] == b;
    assert(gone.contains(sorted[i].object_id));
    lemma_without(sorted, gone);
}

proof fn lemma_objects_from_sorted(
    split_size: u64,
    sorted: Seq<StreamDataBlock>,
    b: StreamDataBlock,
)
    requires
        objects_for(split_size, sorted) is Some,
        planned_blocks(objects_for(split_size, sorted)->0).contains(b),
    ensures
        sorted.contains(b),
{
    lemma_draft_sizes(split_size, sorted);
    let d = draft_of(split_size, sorted)->0;
    lemma_cut_run(d);
    let p = Planned { kind: CompactionType::Compact, blocks: d.filling };
    lemma_planned_push(d.objects, p);
    vstd::seq_lib::lemma_seq_concat_contains_all_elements(
        planned_blocks(d.objects),
        d.filling,
        b,
    );
    if planned_blocks(d.objects).contains(b) {
        assert(sorted.contains(b));
    } else {
        assert(d.filling.contains(b));
    }
}

/// The block is in one of the entries of the map.
pub open spec fn in_map(m: Map<u64, Vec<StreamDataBlock>>, b: StreamDataBlock) -> bool {
    exists|k: u64| #[trigger] m.dom().contains(k) && m[k]@.contains(b)
}

/// Every block of the list is in one of the entries of the map.
pub open spec fn comes_from(
    m: Map<u64, Vec<StreamDataBlock>>,
    blocks: Seq<StreamDataBlock>,
) -> bool {
    forall|b: StreamDataBlock| #[trigger] blocks.contains(b) ==> in_map(m, b)
}

/// The blocks of a map stay within 64 bits, each of them fits the cache, and so do all
/// of them taken together.
pub open spec fn map_is_plannable(
    a: CompactionAnalyzer,
    m: Map<u64, Vec<StreamDataBlock>>,
) -> bool {
    &&& forall|k: u64, b: StreamDataBlock| #[trigger]
        m[k]@.contains(b) && m.dom().contains(k) ==> b.index.valid() && b.index.size
            <= a.cache_size()
    &&& forall|part: Map<u64, Vec<StreamDataBlock>>, flat: Seq<StreamDataBlock>|
        part.submap_of(m) && #[trigger] is_flattening(part, flat) ==> sizes(flat) <= u64::MAX
}

/// The plans for the objects in a map, and the objects left out, for the order in which
/// the map happens to be walked: only objects that share a stream with another one take
/// part, and the objects planned within the limits are cut into stages.
pub open spec fn is_analysis(
    a: CompactionAnalyzer,
    m: Map<u64, Vec<StreamDataBlock>>,
    excluded_before: Set<u64>,
    excluded_after: Set<u64>,
    plans: Seq<Seq<Planned>>,
) -> bool {
    let shared = shared_only(m);
    if shared.dom() == Set::<u64>::empty() {
        plans.len() == 0 && excluded_after == excluded_before
    } else {
        exists|sorted: Seq<StreamDataBlock>|
            {
                let (objects, excluded) = plan_within_limits(a, sorted, shared, excluded_before);
                &&& #[trigger] is_sorted_map(shared, sorted)
                &&& excluded_after == excluded
                &&& plans == match objects {
                    None => Seq::empty(),
                    Some(o) => stages_of(a.cache_size() as int, o),
                }
            }
    }
}

impl CompactionAnalyzer {
    pub closed spec fn cache_size(self) -> u64 {
        self.compaction_cache_size
    }

    pub closed spec fn split_size(self) -> u64 {
        self.stream_split_size
    }

    pub closed spec fn max_set_streams(self) -> usize {
        self.max_stream_num_in_stream_set
    }

    pub closed spec fn max_stream_objects(self) -> usize {
        self.max_stream_object_num
    }

    pub fn new(
        compaction_cache_size: u64,
        stream_split_size: u64,
        max_stream_num_in_stream_set: usize,
        max_stream_object_num: usize,
    ) -> (r: Self)
        ensures
            r.cache_size() == compaction_cache_size,
            r.split_size() == stream_split_size,
            r.max_set_streams() == max_stream_num_in_stream_set,
            r.max_stream_objects() == max_stream_object_num,
    {
        CompactionAnalyzer {
            compaction_cache_size,
            stream_split_size,
            max_stream_num_in_stream_set,
            max_stream_object_num,
        }
    }

    /// Plans the compaction of the objects in the map. The objects left out to stay within
    /// the limits are added to `excluded_object_ids`. Objects that share no stream with
    /// another one are not touched.
    pub fn analyze(
        &self,
        stream_data_block_map: HashMap<u64, Vec<StreamDataBlock>>,
        excluded_object_ids: &mut HashSet<u64>,
    ) -> (r: Vec<CompactionPlan>)
        requires
            map_is_plannable(*self, stream_data_block_map@),
        ensures
            plans_ok(r@),
            comes_from(stream_data_block_map@, stage_blocks(plan_views(r@))),
            sizes(stage_blocks(plan_views(r@))) <= u64::MAX,
            is_analysis(
                *self,
                stream_data_block_map@,
                old(excluded_object_ids)@,
                final(excluded_object_ids)@,
                plan_views(r@),
            ),
    {
        broadcast use vstd::std_specs::hash::group_hash_axioms;

        let ghost m = stream_data_block_map@;
        let shared = filter_blocks_to_compact(stream_data_block_map);
        if shared.is_empty() {
            assert(shared@.dom() =~= Set::<u64>::empty());
            let none: Vec<CompactionPlan> = Vec::new();
            assert(plan_views(none@) =~= Seq::empty());
            return none;
        }
        let sorted = sort_stream_range_positions(&shared);
        let ghost sm = shared@;
        proof {
            assert(sm.submap_of(m));
            assert(sorted.len() == sorted@.len());
            lemma_sorted_map(*self, m, sm, sorted@);
        }
        match self.group_object_with_limits(shared, sorted, excluded_object_ids) {
            Some(builders) => {
                proof {
                    let all = planned_blocks(planned_views(builders@));
                    assert forall|i: int| 0 <= i < all.len() implies (#[trigger] all[i]).index.size
                        <= self.cache_size() by {
                        assert(all.contains(all[i]));
                        assert(sorted@.contains(all[i]));
                        let j = choose|j: int| 0 <= j < sorted@.len() && sorted@[j] == all[i];
                        assert(sorted@[j].index.size <= self.cache_size());
                    }
                }
                let ghost objects = planned_views(builders@);
                let plans = generate_plan_with_cache_limit(self.compaction_cache_size, builders);
                proof {
                    let cache = self.cache_size() as int;
                    law_stages_keep_blocks(cache, objects);
                    let written = stage_blocks(stages_of(cache, objects));
                    lemma_sizes_of_multiset(written, planned_blocks(objects));
                    assert forall|b: StreamDataBlock| #[trigger]
                        written.contains(b) implies in_map(m, b) by {
                        broadcast use vstd::seq_lib::group_to_multiset_ensures;

                        assert(written.to_multiset().count(b) > 0);
                        assert(planned_blocks(objects).contains(b));
                        assert(sorted@.contains(b));
                    }
                }
                plans
            },
            None => {
                let none: Vec<CompactionPlan> = Vec::new();
                assert(plan_views(none@) =~= Seq::empty());
                none
            },
        }
    }

    /// Splits the current run out and starts a new object.
    fn split_object(
        builder: CompactedObjectBuilder,
        builders: &mut Vec<CompactedObjectBuilder>,
    ) -> (r: CompactedObjectBuilder)
        requires
            builder.wf(),
            builder.planned().kind == CompactionType::Compact,
            sizes(builder.planned().blocks) <= u64::MAX,
        ensures
            r.wf(),
            r.planned() == (Planned { kind: CompactionType::Compact, blocks: Seq::empty() }),
            planned_views(final(builders)@) == cut_run(
                Draft {
                    objects: planned_views(old(builders)@),
                    filling: builder.planned().blocks,
                },
            ),
    {
        let mut builder = builder;
        let ghost all = builder.planned().blocks;
        let mut split_builder = builder.split_current_stream();
        split_builder.mark_split();
        proof {
            lemma_run_start(all);
            lemma_sizes_split(all, run_start(all));
        }
        let ghost before = builders@;
        if builder.total_block_size() != 0 {
            builders.push(builder);
            assert(planned_views(builders@) =~= planned_views(before).push(builder.planned()));
        }
        let ghost mid = builders@;
        builders.push(split_builder);
        assert(planned_views(builders@) =~= planned_views(mid).push(split_builder.planned()));
        CompactedObjectBuilder::new()
    }

    /// Lays sorted blocks out into objects.
    fn compact_objects(&self, sorted_blocks: &Vec<StreamDataBlock>) -> (r: Option<
        Vec<CompactedObjectBuilder>,
    >)
        requires
            all_valid(sorted_blocks@),
            sizes(sorted_blocks@) <= u64::MAX,
        ensures
            match objects_for(self.split_size(), sorted_blocks@) {
                None => r is None,
                Some(objects) => r is Some && planned_views(r->0@) == objects,
            },
    {
        let ghost all = sorted_blocks@;
        let mut builders: Vec<CompactedObjectBuilder> = Vec::new();
        let mut builder = CompactedObjectBuilder::new();
        let mut i: usize = 0;
        assert(all.take(0) =~= Seq::empty());
        assert(planned_views(builders@) =~= Seq::empty());
        while i < sorted_blocks.len()
            invariant
                i <= all.len(),
                all == sorted_blocks@,
                all_valid(all),
                sizes(all) <= u64::MAX,
                builder.wf(),
                builder.planned().kind == CompactionType::Compact,
                draft_of(self.split_size(), all.take(i as int)) == Some(
                    Draft {
                        objects: planned_views(builders@),
                        filling: builder.planned().blocks,
                    },
                ),
            decreases all.len() - i,
        {
            let block = sorted_blocks[i];
            let ghost d = Draft {
                objects: planned_views(builders@),
                filling: builder.planned().blocks,
            };
            proof {
                assert(all.take(i + 1).drop_last() =~= all.take(i as int));
                assert(all.take(i + 1).last() == block);
                lemma_draft_sizes(self.split_size(), all.take(i as int));
                lemma_sizes_split(all, i as int);
                assert(block.index.valid());
                assert forall|b: StreamDataBlock| all.take(i as int).contains(b) implies b.index.valid() by {
                    let j = choose|j: int| 0 <= j < i && all.take(i as int)[j] == b;
                    assert(all[j].index.valid());
                }
            }
            match builder.last_block() {
                None => {
                    builder.add_block(block);
                    assert(builder.planned().blocks =~= seq![block]);
                },
                Some(last) => {
                    proof {
                        let f = builder.planned().blocks;
                        assert(f.contains(f[f.len() - 1]));
                        assert(all.take(i as int).contains(last));
                    }
                    if last.index.stream_id == block.index.stream_id {
                        let last_offset: u64 = last.index.end_offset();
                        if block.index.start_offset > last_offset {
                            builder = Self::split_object(builder, &mut builders);
                            builder.add_block(block);
                            assert(builder.planned().blocks =~= seq![block]);
                        } else if block.index.start_offset == last_offset {
                            builder.add_block(block);
                        } else {
                            proof {
                                lemma_draft_prefix(self.split_size(), all, i + 1);
                            }
                            return None;
                        }
                    } else {
                        if builder.curr_stream_block_size() > self.stream_split_size {
                            builder = Self::split_object(builder, &mut builders);
                            builder.add_block(block);
                            assert(builder.planned().blocks =~= seq![block]);
                        } else {
                            builder.add_block(block);
                        }
                    }
                },
            }
            i += 1;
        }
        assert(all.take(i as int) =~= all);
        proof {
            lemma_draft_sizes(self.split_size(), all);
        }
        if builder.curr_stream_block_size() > self.stream_split_size {
            let _rest = Self::split_object(builder, &mut builders);
        } else {
            let ghost before = builders@;
            builders.push(builder);
            assert(planned_views(builders@) =~= planned_views(before).push(builder.planned()));
        }
        Some(builders)
    }

    fn group_object_with_limits(
        &self,
        stream_data_block_map: HashMap<u64, Vec<StreamDataBlock>>,
        sorted_blocks: Vec<StreamDataBlock>,
        excluded_object_ids: &mut HashSet<u64>,
    ) -> (r: Option<Vec<CompactedObjectBuilder>>)
        requires
            all_valid(sorted_blocks@),
            sizes(sorted_blocks@) <= u64::MAX,
        ensures
            ({
                let (objects, excluded) = plan_within_limits(
                    *self,
                    sorted_blocks@,
                    stream_data_block_map@,
                    old(excluded_object_ids)@,
                );
                &&& final(excluded_object_ids)@ == excluded
                &&& match objects {
                    None => r is None,
                    Some(o) => r is Some && planned_views(r->0@) == o,
                }
                &&& r is Some ==> sizes(planned_blocks(planned_views(r->0@))) <= sizes(
                    sorted_blocks@,
                )
                &&& r is Some ==> forall|b: StreamDataBlock| #[trigger]
                    planned_blocks(planned_views(r->0@)).contains(b) ==> sorted_blocks@.contains(b)
            }),
    {
        broadcast use vstd::std_specs::hash::group_hash_axioms;

        let ghost goal = plan_within_limits(
            *self,
            sorted_blocks@,
            stream_data_block_map@,
            excluded_object_ids@,
        );
        let ghost all = sorted_blocks@;
        let mut map = stream_data_block_map;
        let mut sorted = sorted_blocks;
        loop
            invariant
                all_valid(sorted@),
                sizes(sorted@) <= sizes(all) <= u64::MAX,
                forall|b: StreamDataBlock| #[trigger] sorted@.contains(b) ==> all.contains(b),
                goal == plan_within_limits(*self, sorted@, map@, excluded_object_ids@),
                all == sorted_blocks@,
                goal == plan_within_limits(
                    *self,
                    sorted_blocks@,
                    stream_data_block_map@,
                    old(excluded_object_ids)@,
                ),
            decreases sorted@.len(),
        {
            map = filter_blocks_to_compact(map);
            if map.is_empty() {
                proof {
                    assert(map@.dom() =~= Set::<u64>::empty());
                }
                return None;
            }
            proof {
                assert(map@.dom() != Set::<u64>::empty());
            }
            let builders = match self.compact_objects(&sorted) {
                Some(builders) => builders,
                None => {
                    return None;
                },
            };
            let ghost objects = planned_views(builders@);
            let stats = CompactionStats::of(&builders);
            let too_many_splits: bool = stats.stream_object_num > self.max_stream_object_num;
            if !too_many_splits && stats.stream_num_in_stream_set
                <= self.max_stream_num_in_stream_set as u128 {
                proof {
                    lemma_objects_sizes(self.split_size(), sorted@);
                    assert forall|b: StreamDataBlock| #[trigger]
                        planned_blocks(objects).contains(b) implies all.contains(b) by {
                        lemma_objects_from_sorted(self.split_size(), sorted@, b);
                    }
                }
                return Some(builders);
            }
            let gone: Vec<u64> = if too_many_splits {
                leave_out_split(&builders, &stats)
            } else {
                leave_out_compact(&builders)
            };
            let ghost out = objects_to_leave_out(crowded_kind(*self, objects), objects);
            assert(gone@.to_set() == out);
            if gone.len() == 0 {
                assert(gone@.to_set() =~= Set::<u64>::empty());
                return None;
            }
            proof {
                assert(out.contains(gone@[0])) by {
                    assert(gone@.contains(gone@[0]));
                }
                lemma_leaving_out_shrinks(*self, sorted@, objects);
            }
            let rest = Self::retain_others(&sorted, &gone);
            Self::drop_objects(&mut map, excluded_object_ids, &gone);
            proof {
                lemma_without(sorted@, out);
                assert(rest@ == without(sorted@, out));
            }
            sorted = rest;
        }
    }

    /// The blocks whose source object is not among `gone`.
    fn retain_others(sorted: &Vec<StreamDataBlock>, gone: &Vec<u64>) -> (r: Vec<StreamDataBlock>)
        ensures
            r@ == without(sorted@, gone@.to_set()),
    {
        broadcast use vstd::std_specs::hash::group_hash_axioms;

        let mut set: HashSet<u64> = HashSet::new();
        let mut i: usize = 0;
        proof {
            assert(gone@.take(0).to_set() =~= Set::empty());
        }
        while i < gone.len()
            invariant
                i <= gone@.len(),
                set@ == gone@.take(i as int).to_set(),
            decreases gone@.len() - i,
        {
            set.insert(gone[i]);
            proof {
                assert(gone@.take(i + 1) =~= gone@.take(i as int).push(gone@[i as int]));
                gone@.take(i as int).lemma_push_to_set_commute(gone@[i as int]);
            }
            i += 1;
        }
        assert(gone@.take(i as int) =~= gone@);
        let mut out: Vec<StreamDataBlock> = Vec::new();
        let mut n: usize = 0;
        proof {
            assert(sorted@.take(0) =~= Seq::empty());
            assert(without(Seq::empty(), set@) =~= Seq::empty());
        }
        while n < sorted.len()
            invariant
                n <= sorted@.len(),
                set@ == gone@.to_set(),
                out@ == without(sorted@.take(n as int), set@),
            decreases sorted@.len() - n,
        {
            let block = sorted[n];
            proof {
                assert(sorted@.take(n + 1) =~= sorted@.take(n as int).push(block));
                lemma_without_push(sorted@.take(n as int), block, set@);
            }
            if !set.contains(&block.object_id) {
                out.push(block);
            }
            n += 1;
        }
        assert(sorted@.take(n as int) =~= sorted@);
        out
    }

    /// Takes objects out of the map and records them as left out.
    fn drop_objects(
        map: &mut HashMap<u64, Vec<StreamDataBlock>>,
        excluded: &mut HashSet<u64>,
        gone: &Vec<u64>,
    )
        ensures
            final(map)@ == old(map)@.remove_keys(gone@.to_set()),
            final(excluded)@ == old(excluded)@.union(gone@.to_set()),
    {
        broadcast use vstd::std_specs::hash::group_hash_axioms;

        let ghost map0 = map@;
        let ghost excluded0 = excluded@;
        let mut i: usize = 0;
        proof {
            assert(gone@.take(0).to_set() =~= Set::empty());
            assert(map@ =~= map0.remove_keys(Set::empty()));
            assert(excluded@ =~= excluded0.union(Set::empty()));
        }
        while i < gone.len()
            invariant
                i <= gone@.len(),
                map@ == map0.remove_keys(gone@.take(i as int).to_set()),
                excluded@ == excluded0.union(gone@.take(i as int).to_set()),
            decreases gone@.len() - i,
        {
            map.remove(&gone[i]);
            excluded.insert(gone[i]);
            proof {
                assert(gone@.take(i + 1) =~= gone@.take(i as int).push(gone@[i as int]));
                gone@.take(i as int).lemma_push_to_set_commute(gone@[i as int]);
                assert(map@ =~= map0.remove_keys(gone@.take(i + 1).to_set()));
                assert(excluded@ =~= excluded0.union(gone@.take(i + 1).to_set()));
            }
            i += 1;
        }
        assert(gone@.take(i as int) =~= gone@);
    }
}

proof fn lemma_sorted_map(
    a: CompactionAnalyzer,
    m: Map<u64, Vec<StreamDataBlock>>,
    part: Map<u64, Vec<StreamDataBlock>>,
    sorted: Seq<StreamDataBlock>,
)
    requires
        map_is_plannable(a, m),
        part.submap_of(m),
        is_sorted_map(part, sorted),
        sorted.len() <= usize::MAX,
    ensures
        all_valid(sorted),
        sizes(sorted) <= u64::MAX,
        forall|i: int| 0 <= i < sorted.len() ==> (#[trigger] sorted[i]).index.size <= a.cache_size(),
        comes_from(m, sorted),
{
    let flat = choose|flat: Seq<StreamDataBlock>| #[trigger]
        is_flattening(part, flat) && is_stream_sorted(flat, sorted);
    let perm = choose|perm: Seq<usize>| #[trigger]
        crate::order::is_stable_order(crate::compact::plan::stream_keys(flat), perm) && sorted
            == crate::order::arranged(flat, perm);
    assert forall|i: int| 0 <= i < flat.len() implies (#[trigger] flat[i]).index.valid()
        && flat[i].index.size <= a.cache_size() by {
        assert(flat.contains(flat[i]));
        let k = lemma_flat_source(part, flat, flat[i]);
        assert(part.dom().contains(k));
        assert(m.dom().contains(k) && m[k] == part[k]);
    }
    assert forall|i: int| 0 <= i < sorted.len() implies (#[trigger] sorted[i]).index.valid()
        && sorted[i].index.size <= a.cache_size() by {
        assert(sorted[i] == flat[perm[i] as int]);
    }
    assert forall|b: StreamDataBlock| #[trigger] sorted.contains(b) implies in_map(m, b) by {
        let i = choose|i: int| 0 <= i < sorted.len() && sorted[i] == b;
        assert(flat[perm[i] as int] == b);
        assert(flat.contains(b));
        let k = lemma_flat_source(part, flat, b);
        assert(part.dom().contains(k));
        assert(m.dom().contains(k) && m[k] == part[k]);
    }
    law_sorted_blocks(flat, sorted);
    lemma_sizes_of_multiset(flat, sorted);
}

/// Leaving out two sets of objects is leaving out their union.
proof fn lemma_without_twice(blocks: Seq<StreamDataBlock>, a: Set<u64>, b: Set<u64>)
    ensures
        without(without(blocks, a), b) == without(blocks, a.union(b)),
    decreases blocks.len(),
{
    if blocks.len() == 0 {
        assert(without(blocks, a) =~= Seq::empty());
        assert(without(without(blocks, a), b) =~= without(blocks, a.union(b)));
    } else {
        let rest = blocks.drop_last();
        let x = blocks.last();
        assert(blocks =~= rest.push(x));
        lemma_without_twice(rest, a, b);
        lemma_without_push(rest, x, a);
        lemma_without_push(without(rest, a), x, b);
        lemma_without_push(rest, x, a.union(b));
    }
}

/// Planning within the limits keeps every block of the objects that are not left out, in
/// order, and records exactly the objects that are left out, where every block holds
/// bytes.
pub proof fn law_planning_keeps_blocks(
    a: CompactionAnalyzer,
    sorted: Seq<StreamDataBlock>,
    m: Map<u64, Vec<StreamDataBlock>>,
    excluded: Set<u64>,
)
    requires
        forall|i: int| 0 <= i < sorted.len() ==> (#[trigger] sorted[i]).index.size > 0,
        plan_within_limits(a, sorted, m, excluded).0 is Some,
    ensures
        within_limits(a, plan_within_limits(a, sorted, m, excluded).0->0),
        exists|gone: Set<u64>|
            {
                &&& plan_within_limits(a, sorted, m, excluded).1 == excluded.union(gone)
                &&& planned_blocks(plan_within_limits(a, sorted, m, excluded).0->0)
                    == #[trigger] without(sorted, gone)
            },
    decreases sorted.len(),
{
    let shared = shared_only(m);
    let objects = objects_for(a.split_size(), sorted)->0;
    let (planned, all_excluded) = plan_within_limits(a, sorted, m, excluded);
    if within_limits(a, objects) {
        crate::compact::builder::law_objects_keep_blocks(a.split_size(), sorted);
        lemma_without_nothing(sorted);
        assert(excluded.union(Set::<u64>::empty()) =~= excluded);
        assert(planned_blocks(planned->0) == without(sorted, Set::<u64>::empty()));
    } else {
        let gone = objects_to_leave_out(crowded_kind(a, objects), objects);
        let rest = without(sorted, gone);
        lemma_without(sorted, gone);
        assert forall|i: int| 0 <= i < rest.len() implies (#[trigger] rest[i]).index.size > 0 by {
            assert(rest.contains(rest[i]));
            assert(sorted.contains(rest[i]));
            let j = choose|j: int| 0 <= j < sorted.len() && sorted[j] == rest[i];
            assert(sorted[j].index.size > 0);
        }
        law_planning_keeps_blocks(a, rest, shared.remove_keys(gone), excluded.union(gone));
        let more = choose|more: Set<u64>|
            {
                &&& all_excluded == excluded.union(gone).union(more)
                &&& planned_blocks(planned->0) == #[trigger] without(rest, more)
            };
        lemma_without_twice(sorted, gone, more);
        assert(excluded.union(gone).union(more) =~= excluded.union(gone.union(more)));
        assert(planned_blocks(planned->0) == without(sorted, gone.union(more)));
    }
}

proof fn lemma_without_nothing(blocks: Seq<StreamDataBlock>)
    ensures
        without(blocks, Set::<u64>::empty()) == blocks,
    decreases blocks.len(),
{
    if blocks.len() == 0 {
        assert(without(blocks, Set::<u64>::empty()) =~= blocks);
    } else {
        lemma_without_nothing(blocks.drop_last());
        lemma_without_push(blocks.drop_last(), blocks.last(), Set::<u64>::empty());
        assert(blocks =~= blocks.drop_last().push(blocks.last()));
    }
}

proof fn lemma_objects_sizes(split_size: u64, sorted: Seq<StreamDataBlock>)
    requires
        objects_for(split_size, sorted) is Some,
    ensures
        sizes(planned_blocks(objects_for(split_size, sorted)->0)) == sizes(sorted),
{
    lemma_draft_sizes(split_size, sorted);
    let d = draft_of(split_size, sorted)->0;
    lemma_cut_run(d);
    lemma_planned_push(d.objects, Planned { kind: CompactionType::Compact, blocks: d.filling });
    lemma_sizes_add(planned_blocks(d.objects), d.filling);
}

} // verus!

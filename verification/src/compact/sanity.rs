//! Checks on a compaction before it is committed: no live data may get lost.
use std::collections::HashMap;
use vstd::prelude::*;

use crate::collections::{hash_keys, lists_keys};
use crate::compact::plan::{all_valid, StreamDataBlock};
use crate::manager::{CommitStreamSetObjectRequest, StreamMetadata, StreamObject};
use crate::object::ObjectStreamRange;
use crate::order::{arranged, is_stable_order, stable_order};

verus! {

/// Start offset of a stream in a list of streams, the last entry deciding.
pub open spec fn start_of(streams: Seq<StreamMetadata>, id: u64) -> Option<u64>
    decreases streams.len(),
{
    if streams.len() == 0 {
        None
    } else if streams.last().stream_id == id {
        Some(streams.last().start_offset)
    } else {
        start_of(streams.drop_last(), id)
    }
}

/// The block belongs to a known stream and reaches above its start offset.
pub open spec fn is_live(streams: Seq<StreamMetadata>, b: StreamDataBlock) -> bool {
    start_of(streams, b.index.stream_id) matches Some(start) && b.index.end() > start
}

/// The live blocks of a list, in order.
pub open spec fn live_blocks(
    streams: Seq<StreamMetadata>,
    blocks: Seq<StreamDataBlock>,
) -> Seq<StreamDataBlock> {
    blocks.filter(|b: StreamDataBlock| is_live(streams, b))
}

/// The map holds the start offset of every known stream.
spec fn knows_starts(m: Map<u64, u64>, streams: Seq<StreamMetadata>) -> bool {
    &&& forall|id: u64| #[trigger] m.contains_key(id) ==> start_of(streams, id) == Some(m[id])
    &&& forall|id: u64| !(#[trigger] m.contains_key(id)) ==> start_of(streams, id) is None
}

/// Start offsets by stream.
fn start_offsets(streams: &Vec<StreamMetadata>) -> (r: HashMap<u64, u64>)
    ensures
        knows_starts(r@, streams@),
{
    broadcast use vstd::std_specs::hash::group_hash_axioms;

    let mut map: HashMap<u64, u64> = HashMap::new();
    let mut i: usize = 0;
    assert(streams@.take(0) =~= Seq::empty());
    while i < streams.len()
        invariant
            i <= streams@.len(),
            knows_starts(map@, streams@.take(i as int)),
        decreases streams@.len() - i,
    {
        let ghost before = map@;
        map.insert(streams[i].stream_id, streams[i].start_offset);
        proof {
            let s = streams@.take(i + 1);
            assert(s.drop_last() =~= streams@.take(i as int));
            assert(s.last() == streams@[i as int]);
            assert forall|id: u64| #[trigger] map@.contains_key(id) implies start_of(s, id)
                == Some(map@[id]) by {
                if id != streams@[i as int].stream_id {
                    assert(before.contains_key(id));
                }
            }
            assert forall|id: u64| !(#[trigger] map@.contains_key(id)) implies start_of(
                s,
                id,
            ) is None by {
                assert(!before.contains_key(id));
            }
        }
        i += 1;
    }
    assert(streams@.take(i as int) =~= streams@);
    map
}

/// Every block of the map stays within 64 bits.
pub open spec fn map_valid(m: Map<u64, Vec<StreamDataBlock>>) -> bool {
    forall|k: u64| #[trigger] m.contains_key(k) ==> all_valid(m[k]@)
}

/// Drops the blocks of unknown streams and those that were trimmed away.
pub fn filter_invalid_stream_data_blocks(
    streams: &Vec<StreamMetadata>,
    block_map: &mut HashMap<u64, Vec<StreamDataBlock>>,
)
    requires
        map_valid(old(block_map)@),
    ensures
        final(block_map)@.dom() == old(block_map)@.dom(),
        forall|k: u64| #[trigger]
            final(block_map)@.contains_key(k) ==> final(block_map)@[k]@ == live_blocks(
                streams@,
                old(block_map)@[k]@,
            ),
        map_valid(final(block_map)@),
{
    broadcast use vstd::std_specs::hash::group_hash_axioms;

    let starts = start_offsets(streams);
    let keys = hash_keys(block_map);
    let ghost m0 = block_map@;
    let mut i: usize = 0;
    while i < keys.len()
        invariant
            i <= keys@.len(),
            lists_keys(m0, keys@),
            map_valid(m0),
            knows_starts(starts@, streams@),
            block_map@.dom() == m0.dom(),
            forall|k: u64| #[trigger]
                m0.contains_key(k) ==> block_map@[k]@ == (if keys@.take(i as int).contains(k) {
                    live_blocks(streams@, m0[k]@)
                } else {
                    m0[k]@
                }),
        decreases keys@.len() - i,
    {
        let key: u64 = keys[i];
        let ghost before = block_map@;
        proof {
            assert(keys@.contains(keys@[i as int]));
            assert(keys@.take(i + 1) =~= keys@.take(i as int).push(key));
            assert(!keys@.take(i as int).contains(key)) by {
                if keys@.take(i as int).contains(key) {
                    let k = choose|k: int| 0 <= k < i && keys@.take(i as int)[k] == key;
                    assert(keys@[k] == keys@[i as int]);
                }
            }
        }
        match block_map.remove(&key) {
            Some(blocks) => {
                let mut kept: Vec<StreamDataBlock> = Vec::new();
                let mut j: usize = 0;
                proof {
                    assert(m0.contains_key(key));
                    assert(blocks@ == m0[key]@);
                    assert(blocks@.take(0) =~= Seq::empty());
                    assert(live_blocks(streams@, Seq::empty()) =~= Seq::empty());
                }
                while j < blocks.len()
                    invariant
                        j <= blocks@.len(),
                        all_valid(blocks@),
                        knows_starts(starts@, streams@),
                        kept@ == live_blocks(streams@, blocks@.take(j as int)),
                    decreases blocks@.len() - j,
                {
                    let block = blocks[j];
                    assert(block.index.valid());
                    let live: bool = match starts.get(&block.index.stream_id) {
                        Some(start) => block.end_offset() > *start,
                        None => false,
                    };
                    proof {
                        let id = block.index.stream_id;
                        assert(starts@.contains_key(id) || !starts@.contains_key(id));
                        assert(live == is_live(streams@, block));
                        assert(blocks@.take(j + 1) =~= blocks@.take(j as int).push(block));
                        blocks@.take(j as int).lemma_filter_push(
                            block,
                            |b: StreamDataBlock| is_live(streams@, b),
                        );
                    }
                    if live {
                        kept.push(block);
                    }
                    j += 1;
                }
                assert(blocks@.take(j as int) =~= blocks@);
                block_map.insert(key, kept);
                proof {
                    assert(block_map@.dom() =~= m0.dom());
                    assert forall|k: u64| #[trigger] m0.contains_key(k) implies block_map@[k]@ == (
                    if keys@.take(i + 1).contains(k) {
                        live_blocks(streams@, m0[k]@)
                    } else {
                        m0[k]@
                    }) by {
                        vstd::seq_lib::lemma_seq_contains_after_push(keys@.take(i as int), key, k);
                        if k != key {
                            assert(block_map@[k] == before[k]);
                        }
                    }
                }
            },
            None => {
                assert(false);
            },
        }
        i += 1;
    }
    proof {
        assert(keys@.take(i as int) =~= keys@);
        assert forall|k: u64| #[trigger] block_map@.contains_key(k) implies block_map@[k]@
            == live_blocks(streams@, m0[k]@) && all_valid(block_map@[k]@) by {
            assert(m0.contains_key(k));
            assert(keys@.contains(k));
            let s = m0[k]@;
            let p = |b: StreamDataBlock| is_live(streams@, b);
            broadcast use vstd::seq_lib::group_filter_ensures;

            assert forall|n: int| 0 <= n < live_blocks(streams@, s).len() implies (
            #[trigger] live_blocks(streams@, s)[n]).index.valid() by {
                let x = live_blocks(streams@, s)[n];
                s.lemma_filter_contains_rev(p, x);
                assert(s.contains(x));
                let w = choose|w: int| 0 <= w < s.len() && s[w] == x;
                assert(s[w].index.valid());
            }
        }
    }
}

/// A list of ranges covers `[s, e)`: every offset of it is in one of them. An empty range
/// is covered where its offset is inside a range or at its end.
pub open spec fn covers(ranges: Seq<(u64, u64)>, s: int, e: int) -> bool {
    if s < e {
        forall|x: int| s <= x < e ==> #[trigger] in_some(ranges, x)
    } else {
        at_some(ranges, s)
    }
}

/// The offset is in one of the ranges.
pub open spec fn in_some(ranges: Seq<(u64, u64)>, x: int) -> bool {
    exists|i: int| 0 <= i < ranges.len() && (#[trigger] ranges[i]).0 <= x < ranges[i].1
}

/// The offset is in one of the ranges or at its end.
pub open spec fn at_some(ranges: Seq<(u64, u64)>, x: int) -> bool {
    exists|i: int| 0 <= i < ranges.len() && (#[trigger] ranges[i]).0 <= x <= ranges[i].1
}

/// One output range: stream, start offset, end offset.
pub type OutputRange = (u64, u64, u64);

/// Everything that a request writes: its ranges, then its stream objects.
pub open spec fn output_ranges(req: CommitStreamSetObjectRequest) -> Seq<OutputRange> {
    req.stream_ranges@.map_values(
        |r: ObjectStreamRange| (r.stream_id, r.start_offset, r.end_offset),
    ) + req.stream_objects@.map_values(
        |s: StreamObject| (s.stream_id, s.start_offset, s.end_offset),
    )
}

/// The ranges of one stream.
pub open spec fn ranges_of(outputs: Seq<OutputRange>, stream: u64) -> Seq<(u64, u64)>
    decreases outputs.len(),
{
    if outputs.len() == 0 {
        Seq::empty()
    } else {
        let r = outputs.last();
        let before = ranges_of(outputs.drop_last(), stream);
        if r.0 == stream {
            before.push((r.1, r.2))
        } else {
            before
        }
    }
}

/// A live block of a compacted object that the request does not write.
pub open spec fn is_lost(
    streams: Seq<StreamMetadata>,
    req: CommitStreamSetObjectRequest,
    b: StreamDataBlock,
) -> bool {
    &&& is_live(streams, b)
    &&& !covers(
        ranges_of(output_ranges(req), b.index.stream_id),
        b.index.start_offset as int,
        b.index.end(),
    )
}

/// Runs that hold the same offsets as the ranges, disjoint and not even touching.
spec fn merges(runs: Seq<(u64, u64)>, ranges: Seq<(u64, u64)>) -> bool {
    &&& forall|x: int| #[trigger] in_some(runs, x) <==> in_some(ranges, x)
    &&& forall|x: int| #[trigger] at_some(runs, x) <==> at_some(ranges, x)
    &&& forall|j: int, k: int|
        0 <= j < k < runs.len() ==> (#[trigger] runs[j]).1 < (#[trigger] runs[k]).0
}

/// No run starts above `start`.
spec fn starts_below(runs: Seq<(u64, u64)>, start: u64) -> bool {
    forall|j: int| 0 <= j < runs.len() ==> (#[trigger] runs[j]).0 <= start
}

/// Adds a range that starts no lower than any range before it.
fn merge_range(runs: &mut Vec<(u64, u64)>, start: u64, end: u64, Ghost(ranges): Ghost<Seq<(u64, u64)>>)
    requires
        merges(old(runs)@, ranges),
        starts_below(old(runs)@, start),
    ensures
        merges(final(runs)@, ranges.push((start, end))),
        starts_below(final(runs)@, start),
{
    let ghost r0 = runs@;
    let ghost all = ranges.push((start, end));
    let n: usize = runs.len();
    proof {
        assert forall|x: int| #[trigger] in_some(all, x) <==> in_some(ranges, x) || start <= x
            < end by {
            if in_some(ranges, x) {
                let i = choose|i: int|
                    0 <= i < ranges.len() && (#[trigger] ranges[i]).0 <= x < ranges[i].1;
                assert(all[i] == ranges[i]);
            }
            if start <= x < end {
                assert(all[ranges.len() as int] == (start, end));
            }
            if in_some(all, x) {
                let i = choose|i: int| 0 <= i < all.len() && (#[trigger] all[i]).0 <= x < all[i].1;
                if i < ranges.len() {
                    assert(ranges[i] == all[i]);
                }
            }
        }
        assert forall|x: int| #[trigger] at_some(all, x) <==> at_some(ranges, x) || start <= x
            <= end by {
            if at_some(ranges, x) {
                let i = choose|i: int|
                    0 <= i < ranges.len() && (#[trigger] ranges[i]).0 <= x <= ranges[i].1;
                assert(all[i] == ranges[i]);
            }
            if start <= x <= end {
                assert(all[ranges.len() as int] == (start, end));
            }
            if at_some(all, x) {
                let i = choose|i: int| 0 <= i < all.len() && (#[trigger] all[i]).0 <= x <= all[i].1;
                if i < ranges.len() {
                    assert(ranges[i] == all[i]);
                }
            }
        }
    }
    if n > 0 && start <= runs[n - 1].1 {
        let last = runs[n - 1];
        let new_end: u64 = if last.1 >= end {
            last.1
        } else {
            end
        };
        runs[n - 1] = (last.0, new_end);
        proof {
            let r1 = runs@;
            assert(r0[n - 1].0 <= start);
            assert forall|x: int| #[trigger] in_some(r1, x) <==> in_some(r0, x) || start <= x
                < end by {
                if in_some(r0, x) {
                    let i = choose|i: int|
                        0 <= i < r0.len() && (#[trigger] r0[i]).0 <= x < r0[i].1;
                    assert(r1[i].0 <= x < r1[i].1);
                }
                if start <= x < end {
                    assert(r1[n - 1].0 <= x < r1[n - 1].1);
                }
                if in_some(r1, x) {
                    let i = choose|i: int|
                        0 <= i < r1.len() && (#[trigger] r1[i]).0 <= x < r1[i].1;
                    if i < n - 1 || x < last.1 {
                        assert(r0[i].0 <= x < r0[i].1);
                    }
                }
            }
            assert forall|x: int| #[trigger] at_some(r1, x) <==> at_some(r0, x) || start <= x
                <= end by {
                if at_some(r0, x) {
                    let i = choose|i: int|
                        0 <= i < r0.len() && (#[trigger] r0[i]).0 <= x <= r0[i].1;
                    assert(r1[i].0 <= x <= r1[i].1);
                }
                if start <= x <= end {
                    assert(r1[n - 1].0 <= x <= r1[n - 1].1);
                }
                if at_some(r1, x) {
                    let i = choose|i: int|
                        0 <= i < r1.len() && (#[trigger] r1[i]).0 <= x <= r1[i].1;
                    if i < n - 1 || x <= last.1 {
                        assert(r0[i].0 <= x <= r0[i].1);
                    }
                }
            }
        }
    } else {
        runs.push((start, end));
        proof {
            let r1 = runs@;
            assert(r1[n as int] == (start, end));
            assert forall|x: int| #[trigger] in_some(r1, x) <==> in_some(r0, x) || start <= x
                < end by {
                if in_some(r0, x) {
                    let i = choose|i: int|
                        0 <= i < r0.len() && (#[trigger] r0[i]).0 <= x < r0[i].1;
                    assert(r1[i].0 <= x < r1[i].1);
                }
                if start <= x < end {
                    assert(r1[n as int].0 <= x < r1[n as int].1);
                }
                if in_some(r1, x) {
                    let i = choose|i: int|
                        0 <= i < r1.len() && (#[trigger] r1[i]).0 <= x < r1[i].1;
                    if i < n {
                        assert(r0[i].0 <= x < r0[i].1);
                    }
                }
            }
            assert forall|x: int| #[trigger] at_some(r1, x) <==> at_some(r0, x) || start <= x
                <= end by {
                if at_some(r0, x) {
                    let i = choose|i: int|
                        0 <= i < r0.len() && (#[trigger] r0[i]).0 <= x <= r0[i].1;
                    assert(r1[i].0 <= x <= r1[i].1);
                }
                if start <= x <= end {
                    assert(r1[n as int].0 <= x <= r1[n as int].1);
                }
                if at_some(r1, x) {
                    let i = choose|i: int|
                        0 <= i < r1.len() && (#[trigger] r1[i]).0 <= x <= r1[i].1;
                    if i < n {
                        assert(r0[i].0 <= x <= r0[i].1);
                    }
                }
            }
            assert forall|j: int, k: int| 0 <= j < k < r1.len() implies (#[trigger] r1[j]).1 < (
            #[trigger] r1[k]).0 by {
                if k == n {
                    if j < n - 1 {
                        assert(r0[j].1 < r0[n - 1].0);
                        assert(r0[n - 1].0 <= start);
                    }
                } else {
                    assert(r0[j].1 < r0[k].0);
                }
            }
        }
    }
}

/// A block is inside one run exactly where the ranges cover it.
proof fn lemma_run_covers(runs: Seq<(u64, u64)>, ranges: Seq<(u64, u64)>, s: int, e: int)
    requires
        merges(runs, ranges),
        s <= e,
    ensures
        covers(ranges, s, e) <==> exists|j: int|
            0 <= j < runs.len() && (#[trigger] runs[j]).0 <= s && e <= runs[j].1,
{
    if exists|j: int| 0 <= j < runs.len() && (#[trigger] runs[j]).0 <= s && e <= runs[j].1 {
        let j = choose|j: int| 0 <= j < runs.len() && (#[trigger] runs[j]).0 <= s && e <= runs[j].1;
        if s < e {
            assert forall|x: int| s <= x < e implies #[trigger] in_some(ranges, x) by {
                assert(runs[j].0 <= x < runs[j].1);
                assert(in_some(runs, x));
            }
        } else {
            assert(runs[j].0 <= s <= runs[j].1);
            assert(at_some(runs, s));
        }
    }
    if covers(ranges, s, e) {
        if s < e {
            assert(in_some(ranges, s));
            assert(in_some(runs, s));
            let j = choose|j: int| 0 <= j < runs.len() && (#[trigger] runs[j]).0 <= s < runs[j].1;
            if runs[j].1 < e {
                let x = runs[j].1 as int;
                assert(in_some(ranges, x));
                assert(in_some(runs, x));
                let k = choose|k: int|
                    0 <= k < runs.len() && (#[trigger] runs[k]).0 <= x < runs[k].1;
                if k > j {
                    assert(runs[j].1 < runs[k].0);
                } else if k < j {
                    assert(runs[k].1 < runs[j].0);
                }
            }
        } else {
            assert(at_some(runs, s));
            let j = choose|j: int| 0 <= j < runs.len() && (#[trigger] runs[j]).0 <= s <= runs[j].1;
            assert(runs[j].0 <= s && e <= runs[j].1);
        }
    }
}

/// What the request writes.
fn collect_outputs(req: &CommitStreamSetObjectRequest) -> (r: Vec<OutputRange>)
    ensures
        r@ == output_ranges(*req),
{
    let mut out: Vec<OutputRange> = Vec::new();
    let ghost goal = output_ranges(*req);
    let mut i: usize = 0;
    while i < req.stream_ranges.len()
        invariant
            i <= req.stream_ranges@.len(),
            goal == output_ranges(*req),
            out@ =~= goal.take(i as int),
        decreases req.stream_ranges@.len() - i,
    {
        let r = req.stream_ranges[i];
        out.push((r.stream_id, r.start_offset, r.end_offset));
        i += 1;
    }
    let mut j: usize = 0;
    let ghost n = req.stream_ranges@.len() as int;
    while j < req.stream_objects.len()
        invariant
            j <= req.stream_objects@.len(),
            n == req.stream_ranges@.len(),
            goal == output_ranges(*req),
            out@ =~= goal.take(n + j),
        decreases req.stream_objects@.len() - j,
    {
        let s = req.stream_objects[j];
        out.push((s.stream_id, s.start_offset, s.end_offset));
        j += 1;
    }
    assert(out@ =~= goal);
    out
}

/// The merged runs of every stream.
spec fn merged_by_stream(m: Map<u64, Vec<(u64, u64)>>, outputs: Seq<OutputRange>) -> bool {
    &&& forall|s: u64| #[trigger] m.contains_key(s) ==> merges(m[s]@, ranges_of(outputs, s))
    &&& forall|s: u64|
        !(#[trigger] m.contains_key(s)) ==> ranges_of(outputs, s).len() == 0
}

proof fn lemma_ranges_of_push(outputs: Seq<OutputRange>, r: OutputRange, s: u64)
    ensures
        ranges_of(outputs.push(r), s) == (if r.0 == s {
            ranges_of(outputs, s).push((r.1, r.2))
        } else {
            ranges_of(outputs, s)
        }),
{
    assert(outputs.push(r).drop_last() =~= outputs);
}

/// Covering looks at which ranges there are, not at their order.
proof fn lemma_arranged_same_ranges(outputs: Seq<OutputRange>, perm: Seq<usize>, keys: Seq<(u64, u64)>, s: u64, x: int)
    requires
        keys.len() == outputs.len() <= usize::MAX,
        is_stable_order(keys, perm),
    ensures
        in_some(ranges_of(arranged(outputs, perm), s), x) <==> in_some(ranges_of(outputs, s), x),
        at_some(ranges_of(arranged(outputs, perm), s), x) <==> at_some(ranges_of(outputs, s), x),
{
    let sorted = arranged(outputs, perm);
    lemma_in_outputs(outputs, s, x);
    lemma_in_outputs(sorted, s, x);
    assert forall|i: int| 0 <= i < outputs.len() implies sorted.contains(#[trigger] outputs[i]) by {
        assert(perm.contains(i as usize));
        let j = choose|j: int| 0 <= j < perm.len() && perm[j] == i as usize;
        assert(sorted[j] == outputs[i]);
    }
    assert forall|j: int| 0 <= j < sorted.len() implies outputs.contains(#[trigger] sorted[j]) by {
        assert(perm[j] < keys.len());
        assert(outputs[perm[j] as int] == sorted[j]);
    }
}

spec fn output_in(outputs: Seq<OutputRange>, s: u64, x: int) -> bool {
    exists|r: OutputRange| #[trigger] outputs.contains(r) && r.0 == s && r.1 <= x < r.2
}

spec fn output_at(outputs: Seq<OutputRange>, s: u64, x: int) -> bool {
    exists|r: OutputRange| #[trigger] outputs.contains(r) && r.0 == s && r.1 <= x <= r.2
}

proof fn lemma_in_outputs(outputs: Seq<OutputRange>, s: u64, x: int)
    ensures
        in_some(ranges_of(outputs, s), x) <==> output_in(outputs, s, x),
        at_some(ranges_of(outputs, s), x) <==> output_at(outputs, s, x),
    decreases outputs.len(),
{
    if outputs.len() > 0 {
        let rest = outputs.drop_last();
        let r = outputs.last();
        lemma_in_outputs(rest, s, x);
        let before = ranges_of(rest, s);
        let now = ranges_of(outputs, s);
        assert(outputs[outputs.len() - 1] == r);
        assert forall|q: OutputRange| #[trigger] outputs.contains(q) <==> rest.contains(q) || q
            == r by {
            if rest.contains(q) {
                let i = choose|i: int| 0 <= i < rest.len() && rest[i] == q;
                assert(outputs[i] == q);
            }
            if outputs.contains(q) && q != r {
                let i = choose|i: int| 0 <= i < outputs.len() && outputs[i] == q;
                assert(rest[i] == q);
            }
        }
        if r.0 == s {
            assert(now == before.push((r.1, r.2)));
            assert(now[before.len() as int] == (r.1, r.2));
            assert(in_some(now, x) <==> in_some(before, x) || r.1 <= x < r.2) by {
                if in_some(before, x) {
                    let i = choose|i: int|
                        0 <= i < before.len() && (#[trigger] before[i]).0 <= x < before[i].1;
                    assert(now[i] == before[i]);
                }
                if in_some(now, x) {
                    let i = choose|i: int|
                        0 <= i < now.len() && (#[trigger] now[i]).0 <= x < now[i].1;
                    if i < before.len() {
                        assert(before[i] == now[i]);
                    }
                }
            }
            assert(at_some(now, x) <==> at_some(before, x) || r.1 <= x <= r.2) by {
                if at_some(before, x) {
                    let i = choose|i: int|
                        0 <= i < before.len() && (#[trigger] before[i]).0 <= x <= before[i].1;
                    assert(now[i] == before[i]);
                }
                if at_some(now, x) {
                    let i = choose|i: int|
                        0 <= i < now.len() && (#[trigger] now[i]).0 <= x <= now[i].1;
                    if i < before.len() {
                        assert(before[i] == now[i]);
                    }
                }
            }
        }
        assert(output_in(outputs, s, x) <==> output_in(rest, s, x) || (r.0 == s && r.1 <= x < r.2))
            by {
            if output_in(rest, s, x) {
                let q = choose|q: OutputRange| #[trigger] rest.contains(q) && q.0 == s && q.1 <= x
                    < q.2;
                assert(outputs.contains(q));
            }
            if r.0 == s && r.1 <= x < r.2 {
                assert(outputs.contains(r));
            }
            if output_in(outputs, s, x) {
                let q = choose|q: OutputRange| #[trigger] outputs.contains(q) && q.0 == s && q.1
                    <= x < q.2;
                assert(rest.contains(q) || q == r);
            }
        }
        assert(output_at(outputs, s, x) <==> output_at(rest, s, x) || (r.0 == s && r.1 <= x <= r.2))
            by {
            if output_at(rest, s, x) {
                let q = choose|q: OutputRange| #[trigger] rest.contains(q) && q.0 == s && q.1 <= x
                    <= q.2;
                assert(outputs.contains(q));
            }
            if r.0 == s && r.1 <= x <= r.2 {
                assert(outputs.contains(r));
            }
            if output_at(outputs, s, x) {
                let q = choose|q: OutputRange| #[trigger] outputs.contains(q) && q.0 == s && q.1
                    <= x <= q.2;
                assert(rest.contains(q) || q == r);
            }
        }
    }
}

/// Merges the output ranges of every stream.
fn merge_outputs(outputs: &Vec<OutputRange>) -> (r: HashMap<u64, Vec<(u64, u64)>>)
    ensures
        merged_by_stream(r@, outputs@),
{
    broadcast use vstd::std_specs::hash::group_hash_axioms;

    let mut keys: Vec<(u64, u64)> = Vec::new();
    let mut i: usize = 0;
    while i < outputs.len()
        invariant
            i <= outputs@.len(),
            keys@.len() == i,
            forall|j: int| 0 <= j < i ==> #[trigger] keys@[j] == (outputs@[j].0, outputs@[j].1),
        decreases outputs@.len() - i,
    {
        keys.push((outputs[i].0, outputs[i].1));
        i += 1;
    }
    let perm = stable_order(&keys);
    let ghost sorted = arranged(outputs@, perm@);
    let mut map: HashMap<u64, Vec<(u64, u64)>> = HashMap::new();
    let mut n: usize = 0;
    assert(sorted.take(0) =~= Seq::empty());
    while n < perm.len()
        invariant
            n <= perm@.len(),
            keys@.len() == outputs@.len(),
            forall|j: int|
                0 <= j < outputs@.len() ==> #[trigger] keys@[j] == (outputs@[j].0, outputs@[j].1),
            is_stable_order(keys@, perm@),
            sorted == arranged(outputs@, perm@),
            merged_by_stream(map@, sorted.take(n as int)),
            forall|s: u64, j: int|
                #![trigger map@.contains_key(s), sorted[j]]
                n <= j < sorted.len() && sorted[j].0 == s && map@.contains_key(s) ==> starts_below(
                    map@[s]@,
                    sorted[j].1,
                ),
        decreases perm@.len() - n,
    {
        assert(perm@[n as int] < keys@.len());
        let r = outputs[perm[n]];
        let stream: u64 = r.0;
        let ghost before = map@;
        let ghost seen = sorted.take(n as int);
        proof {
            assert(r == sorted[n as int]);
            assert(sorted.take(n + 1) =~= seen.push(r));
        }
        let mut runs: Vec<(u64, u64)> = match map.remove(&stream) {
            Some(v) => v,
            None => Vec::new(),
        };
        proof {
            if !before.contains_key(stream) {
                assert(ranges_of(seen, stream) =~= Seq::empty());
                assert(runs@ =~= Seq::empty());
                assert(merges(runs@, ranges_of(seen, stream)));
            }
            assert(starts_below(runs@, r.1)) by {
                if before.contains_key(stream) {
                    assert(sorted[n as int].0 == stream);
                }
            }
        }
        merge_range(&mut runs, r.1, r.2, Ghost(ranges_of(seen, stream)));
        map.insert(stream, runs);
        proof {
            assert forall|s: u64| #[trigger] map@.contains_key(s) implies merges(
                map@[s]@,
                ranges_of(seen.push(r), s),
            ) by {
                lemma_ranges_of_push(seen, r, s);
                if s != stream {
                    assert(before.contains_key(s));
                }
            }
            assert forall|s: u64| !(#[trigger] map@.contains_key(s)) implies ranges_of(
                seen.push(r),
                s,
            ).len() == 0 by {
                lemma_ranges_of_push(seen, r, s);
                assert(!before.contains_key(s));
            }
            assert forall|s: u64, j: int|
                #![trigger map@.contains_key(s), sorted[j]]
                n + 1 <= j < sorted.len() && sorted[j].0 == s && map@.contains_key(
                    s,
                ) implies starts_below(map@[s]@, sorted[j].1) by {
                if s == stream {
                    assert(crate::order::comes_before(keys@, perm@[n as int] as int, perm@[j] as int));
                    assert(keys@[perm@[n as int] as int] == (r.0, r.1));
                    assert(keys@[perm@[j] as int] == (sorted[j].0, sorted[j].1));
                    assert(r.1 <= sorted[j].1);
                } else {
                    assert(before.contains_key(s));
                }
            }
        }
        n += 1;
    }
    proof {
        assert(sorted.take(n as int) =~= sorted);
        assert(outputs.len() == outputs@.len());
        assert forall|s: u64| #[trigger] map@.contains_key(s) implies merges(
            map@[s]@,
            ranges_of(outputs@, s),
        ) by {
            assert forall|x: int| #[trigger] in_some(map@[s]@, x) <==> in_some(
                ranges_of(outputs@, s),
                x,
            ) by {
                lemma_arranged_same_ranges(outputs@, perm@, keys@, s, x);
                assert(in_some(map@[s]@, x) <==> in_some(ranges_of(sorted, s), x));
            }
            assert forall|x: int| #[trigger] at_some(map@[s]@, x) <==> at_some(
                ranges_of(outputs@, s),
                x,
            ) by {
                lemma_arranged_same_ranges(outputs@, perm@, keys@, s, x);
                assert(at_some(map@[s]@, x) <==> at_some(ranges_of(sorted, s), x));
            }
        }
        assert forall|s: u64| !(#[trigger] map@.contains_key(s)) implies ranges_of(
            outputs@,
            s,
        ).len() == 0 by {
            if ranges_of(outputs@, s).len() > 0 {
                let q = lemma_range_source(outputs@, s);
                let i = choose|i: int| 0 <= i < outputs@.len() && outputs@[i] == q;
                assert(perm@.contains(i as usize));
                let j = choose|j: int| 0 <= j < perm@.len() && perm@[j] == i as usize;
                assert(sorted[j] == q);
                assert(sorted.contains(q));
                lemma_source_range(sorted, s, q);
            }
        }
    }
    map
}

proof fn lemma_range_source(outputs: Seq<OutputRange>, s: u64) -> (q: OutputRange)
    requires
        ranges_of(outputs, s).len() > 0,
    ensures
        outputs.contains(q),
        q.0 == s,
    decreases outputs.len(),
{
    let r = outputs.last();
    if r.0 == s {
        assert(outputs[outputs.len() - 1] == r);
        r
    } else {
        let q = lemma_range_source(outputs.drop_last(), s);
        let i = choose|i: int| 0 <= i < outputs.len() - 1 && outputs.drop_last()[i] == q;
        assert(outputs[i] == q);
        q
    }
}

proof fn lemma_source_range(outputs: Seq<OutputRange>, s: u64, q: OutputRange)
    requires
        outputs.contains(q),
        q.0 == s,
    ensures
        ranges_of(outputs, s).len() > 0,
    decreases outputs.len(),
{
    let rest = outputs.drop_last();
    if outputs.last().0 != s {
        let i = choose|i: int| 0 <= i < outputs.len() && outputs[i] == q;
        assert(rest[i] == q);
        lemma_source_range(rest, s, q);
    }
}

/// Would committing the request lose live data? Every live block of the compacted
/// objects must be covered by what the request writes. Objects without known blocks, and
/// blocks of unknown streams, are not looked at.
pub fn is_sanity_check_failed(
    streams: &Vec<StreamMetadata>,
    block_map: &HashMap<u64, Vec<StreamDataBlock>>,
    request: &CommitStreamSetObjectRequest,
) -> (r: bool)
    requires
        map_valid(block_map@),
    ensures
        r <==> exists|k: int, i: int|
            #![trigger block_map@[request.compacted_object_ids@[k]]@[i]]
            0 <= k < request.compacted_object_ids@.len() && block_map@.contains_key(
                request.compacted_object_ids@[k],
            ) && 0 <= i < block_map@[request.compacted_object_ids@[k]]@.len() && is_lost(
                streams@,
                *request,
                block_map@[request.compacted_object_ids@[k]]@[i],
            ),
{
    broadcast use vstd::std_specs::hash::group_hash_axioms;

    let starts = start_offsets(streams);
    let outputs = collect_outputs(request);
    let merged = merge_outputs(&outputs);
    let ghost ids = request.compacted_object_ids@;
    let mut k: usize = 0;
    while k < request.compacted_object_ids.len()
        invariant
            k <= ids.len(),
            ids == request.compacted_object_ids@,
            map_valid(block_map@),
            outputs@ == output_ranges(*request),
            merged_by_stream(merged@, outputs@),
            knows_starts(starts@, streams@),
            forall|n: int, i: int|
                #![trigger block_map@[ids[n]]@[i]]
                0 <= n < k && block_map@.contains_key(ids[n]) && 0 <= i < block_map@[ids[n]]@.len()
                    ==> !is_lost(streams@, *request, block_map@[ids[n]]@[i]),
        decreases ids.len() - k,
    {
        match block_map.get(&request.compacted_object_ids[k]) {
            None => {},
            Some(blocks) => {
                let mut i: usize = 0;
                assert(block_map@.contains_key(ids[k as int]));
                while i < blocks.len()
                    invariant
                        i <= blocks@.len(),
                        k < ids.len(),
                        ids == request.compacted_object_ids@,
                        block_map@.contains_key(ids[k as int]),
                        *blocks == block_map@[ids[k as int]],
                        all_valid(blocks@),
                        outputs@ == output_ranges(*request),
                        merged_by_stream(merged@, outputs@),
                        knows_starts(starts@, streams@),
                        forall|n: int|
                            0 <= n < i ==> !is_lost(streams@, *request, #[trigger] blocks@[n]),
                    decreases blocks@.len() - i,
                {
                    let block = blocks[i];
                    let stream: u64 = block.index.stream_id;
                    assert(block.index.valid());
                    let end: u64 = block.end_offset();
                    assert(starts@.contains_key(stream) || !starts@.contains_key(stream));
                    let live: bool = match starts.get(&stream) {
                        Some(start) => end > *start,
                        None => false,
                    };
                    assert(live == is_live(streams@, block));
                    if live {
                        let ghost ranges = ranges_of(outputs@, stream);
                        let covered: bool = match merged.get(&stream) {
                            Some(runs) => {
                                proof {
                                    lemma_run_covers(
                                        runs@,
                                        ranges,
                                        block.index.start_offset as int,
                                        end as int,
                                    );
                                }
                                inside_one(runs, block.index.start_offset, end)
                            },
                            None => {
                                assert(ranges.len() == 0);
                                assert(!in_some(ranges, block.index.start_offset as int));
                                assert(!at_some(ranges, block.index.start_offset as int));
                                false
                            },
                        };
                        if !covered {
                            assert(is_lost(
                                streams@,
                                *request,
                                block_map@[request.compacted_object_ids@[k as int]]@[i as int],
                            ));
                            return true;
                        }
                    }
                    i += 1;
                }
            },
        }
        k += 1;
    }
    false
}

fn inside_one(runs: &Vec<(u64, u64)>, start: u64, end: u64) -> (r: bool)
    ensures
        r <==> exists|j: int|
            0 <= j < runs@.len() && (#[trigger] runs@[j]).0 <= start && end <= runs@[j].1,
{
    let mut i: usize = 0;
    while i < runs.len()
        invariant
            i <= runs@.len(),
            forall|j: int|
                0 <= j < i ==> !((#[trigger] runs@[j]).0 <= start && end <= runs@[j].1),
        decreases runs@.len() - i,
    {
        if runs[i].0 <= start && end <= runs[i].1 {
            assert(runs@[i as int].0 <= start && end <= runs@[i as int].1);
            return true;
        }
        i += 1;
    }
    false
}

} // verus!

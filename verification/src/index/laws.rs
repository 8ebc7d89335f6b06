//! Laws of the range index: which object a lookup finds, what appends, compactions, evictions
//! and prunes keep, and what a commit adds.
use vstd::prelude::*;

use crate::index::range_cache::{
    appended_all, fits_cap, is_compacted, is_pruned, request_ranges, sparse_of,
};
use crate::index::sparse::{
    appended, bisected, bisected_object, compacted, evicted_once, holder, not_in, slot_for,
    starts_ascend, starts_in_order, RangeIndex, SparseModel,
};
use crate::index::totals::total_bytes;
use crate::object::{ObjectStreamRange, NOOP_OBJECT_ID};

verus! {

/// The object of the last range that begins at or below the offset, if there is one.
pub open spec fn is_holder(ranges: Seq<RangeIndex>, offset: u64, r: Option<u64>) -> bool {
    match r {
        None => forall|i: int|
            0 <= i < ranges.len() ==> offset < (#[trigger] ranges[i]).start_offset,
        Some(id) => exists|i: int|
            0 <= i < ranges.len() && (#[trigger] ranges[i]).object_id == id
                && ranges[i].start_offset <= offset && forall|j: int|
                i < j < ranges.len() ==> offset < (#[trigger] ranges[j]).start_offset,
    }
}

/// A lookup names the object of the last range that begins at or below the offset, and none
/// exactly where every range begins above it.
pub proof fn law_lookup_names_last_range_below(ranges: Seq<RangeIndex>, offset: u64)
    ensures
        is_holder(ranges, offset, holder(ranges, offset)),
        starts_in_order(ranges) ==> is_holder(ranges, offset, bisected_object(ranges, offset)),
{
    lemma_is_holder(ranges, offset);
    if starts_in_order(ranges) {
        lemma_bisected(ranges, offset, 0, ranges.len() as int);
        let at = bisected(ranges, offset, 0, ranges.len() as int);
        if at > 0 {
            assert(ranges[at - 1].start_offset <= offset);
        }
    }
}

proof fn lemma_is_holder(ranges: Seq<RangeIndex>, offset: u64)
    ensures
        is_holder(ranges, offset, holder(ranges, offset)),
    decreases ranges.len(),
{
    if ranges.len() > 0 {
        let n = ranges.len() - 1;
        let front = ranges.drop_last();
        if ranges.last().start_offset <= offset {
            assert(ranges[n].object_id == ranges.last().object_id);
        } else {
            lemma_is_holder(front, offset);
            match holder(front, offset) {
                None => {
                    assert forall|i: int| 0 <= i < ranges.len() implies offset < (
                    #[trigger] ranges[i]).start_offset by {
                        if i < n {
                            assert(front[i] == ranges[i]);
                        }
                    }
                },
                Some(id) => {
                    let i = choose|i: int|
                        0 <= i < front.len() && (#[trigger] front[i]).object_id == id
                            && front[i].start_offset <= offset && forall|j: int|
                            i < j < front.len() ==> offset < (#[trigger] front[j]).start_offset;
                    assert(ranges[i] == front[i]);
                    assert forall|j: int| i < j < ranges.len() implies offset < (
                    #[trigger] ranges[j]).start_offset by {
                        if j < n {
                            assert(front[j] == ranges[j]);
                        }
                    }
                },
            }
        }
    }
}

proof fn lemma_bisected(ranges: Seq<RangeIndex>, offset: u64, low: int, high: int)
    requires
        starts_in_order(ranges),
        0 <= low <= high <= ranges.len(),
        forall|k: int| 0 <= k < low ==> (#[trigger] ranges[k]).start_offset <= offset,
        forall|k: int| high <= k < ranges.len() ==> (#[trigger] ranges[k]).start_offset > offset,
    ensures
        ({
            let at = bisected(ranges, offset, low, high);
            &&& low <= at <= high
            &&& forall|k: int| 0 <= k < at ==> (#[trigger] ranges[k]).start_offset <= offset
            &&& forall|k: int|
                at <= k < ranges.len() ==> (#[trigger] ranges[k]).start_offset > offset
        }),
    decreases high - low,
{
    if low < high {
        let mid = low + (high - low) / 2;
        if ranges[mid].start_offset <= offset {
            assert forall|k: int| 0 <= k < mid + 1 implies (#[trigger] ranges[k]).start_offset
                <= offset by {
                if k < mid {
                    assert(ranges[k].start_offset <= ranges[mid].start_offset);
                }
            }
            lemma_bisected(ranges, offset, mid + 1, high);
        } else {
            assert forall|k: int| mid <= k < ranges.len() implies (
            #[trigger] ranges[k]).start_offset > offset by {
                if k > mid {
                    assert(ranges[mid].start_offset <= ranges[k].start_offset);
                }
            }
            lemma_bisected(ranges, offset, low, mid);
        }
    }
}

/// A range that was appended is found for every offset from its start on. Where it begins
/// beyond the others, nothing changes for the offsets below it; else it alone is left.
pub proof fn law_appended_range_is_found(m: SparseModel, range: RangeIndex, offset: u64)
    ensures
        range.start_offset <= offset ==> holder(appended(m, range).ranges, offset) == Some(
            range.object_id,
        ),
        offset < range.start_offset && (m.ranges.len() == 0 || m.ranges.last().start_offset
            < range.start_offset) ==> holder(appended(m, range).ranges, offset) == holder(
            m.ranges,
            offset,
        ),
        m.ranges.len() > 0 && range.start_offset <= m.ranges.last().start_offset ==> appended(
            m,
            range,
        ).ranges == seq![range],
        appended(m, range).compact_num == m.compact_num,
{
    let after = appended(m, range).ranges;
    assert(after.last() == range);
    if m.ranges.len() == 0 || m.ranges.last().start_offset < range.start_offset {
        assert(after.drop_last() =~= m.ranges);
    }
}

/// A compaction takes out exactly the ranges of the objects that were compacted, and puts the
/// range of the new object, if there is one, where it belongs: the rest stays, in order.
pub proof fn law_compaction_replaces_ranges(
    m: SparseModel,
    range: Option<RangeIndex>,
    ids: Set<u64>,
    x: RangeIndex,
)
    requires
        ids.len() > 0,
        starts_in_order(m.ranges),
    ensures
        starts_in_order(compacted(m, range, ids).ranges),
        compacted(m, range, ids).ranges.contains(x) <==> (m.ranges.contains(x) && !ids.contains(
            x.object_id,
        )) || range == Some(x),
        ({
            let kept = m.ranges.filter(|r: RangeIndex| !ids.contains(r.object_id));
            match range {
                None => compacted(m, range, ids).ranges == kept,
                Some(r) => exists|k: int|
                    0 <= k <= kept.len() && compacted(m, range, ids).ranges
                        == #[trigger] kept.insert(k, r),
            }
        }),
{
    let p = |r: RangeIndex| !ids.contains(r.object_id);
    let kept = not_in(m.ranges, ids);
    lemma_filter_in_order(m.ranges, ids);
    lemma_filter_contains(m.ranges, p, x);
    match range {
        None => {},
        Some(r) => {
            let k = slot_for(kept, r.start_offset);
            lemma_slot(kept, r.start_offset);
            let all = kept.insert(k, r);
            assert forall|i: int, j: int|
                #![trigger all[i], all[j]]
                0 <= i < j < all.len() implies all[i].start_offset <= all[j].start_offset by {
                let a = if i < k {
                    i
                } else {
                    i - 1
                };
                let b = if j < k {
                    j
                } else {
                    j - 1
                };
                if i != k {
                    assert(all[i] == kept[a]);
                }
                if j != k {
                    assert(all[j] == kept[b]);
                }
            }
            if kept.contains(x) {
                let i = choose|i: int| 0 <= i < kept.len() && kept[i] == x;
                if i < k {
                    assert(all[i] == x);
                } else {
                    assert(all[i + 1] == x);
                }
            }
            if x == r {
                assert(all[k] == x);
            }
            if all.contains(x) && x != r {
                let i = choose|i: int| 0 <= i < all.len() && all[i] == x;
                if i < k {
                    assert(kept[i] == x);
                } else {
                    assert(kept[i - 1] == x);
                }
            }
        },
    }
}

proof fn lemma_filter_contains(ranges: Seq<RangeIndex>, p: spec_fn(RangeIndex) -> bool, x: RangeIndex)
    ensures
        ranges.filter(p).contains(x) <==> ranges.contains(x) && p(x),
    decreases ranges.len(),
{
    if ranges.len() == 0 {
        assert(ranges.filter(p) =~= Seq::empty());
    } else {
        let front = ranges.drop_last();
        lemma_filter_contains(front, p, x);
        assert(ranges =~= front.push(ranges.last()));
        front.lemma_filter_push(ranges.last(), p);
        vstd::seq_lib::lemma_seq_contains_after_push(front, ranges.last(), x);
        vstd::seq_lib::lemma_seq_contains_after_push(front.filter(p), ranges.last(), x);
    }
}

proof fn lemma_filter_in_order(ranges: Seq<RangeIndex>, ids: Set<u64>)
    requires
        starts_in_order(ranges),
    ensures
        starts_in_order(not_in(ranges, ids)),
    decreases ranges.len(),
{
    let p = |r: RangeIndex| !ids.contains(r.object_id);
    if ranges.len() == 0 {
        assert(ranges.filter(p) =~= Seq::empty());
    } else {
        let front = ranges.drop_last();
        let last = ranges.last();
        assert forall|i: int, j: int|
            #![trigger front[i], front[j]]
            0 <= i < j < front.len() implies front[i].start_offset <= front[j].start_offset by {
            assert(front[i] == ranges[i] && front[j] == ranges[j]);
        }
        lemma_filter_in_order(front, ids);
        assert(ranges =~= front.push(last));
        front.lemma_filter_push(last, p);
        let before = not_in(front, ids);
        let all = not_in(ranges, ids);
        if p(last) {
            assert(all == before.push(last));
            assert forall|i: int, j: int|
                #![trigger all[i], all[j]]
                0 <= i < j < all.len() implies all[i].start_offset <= all[j].start_offset by {
                assert(all[i] == before[i]);
                if j < before.len() {
                    assert(all[j] == before[j]);
                } else {
                    lemma_filter_contains(front, p, before[i]);
                    assert(before.contains(before[i]));
                    let a = choose|a: int| 0 <= a < front.len() && front[a] == before[i];
                    assert(ranges[a] == before[i]);
                    assert(ranges[ranges.len() - 1] == last);
                }
            }
        }
    }
}

proof fn lemma_slot(ranges: Seq<RangeIndex>, start: u64)
    requires
        starts_in_order(ranges),
    ensures
        0 <= slot_for(ranges, start) <= ranges.len(),
        forall|i: int|
            0 <= i < slot_for(ranges, start) ==> (#[trigger] ranges[i]).start_offset <= start,
        forall|i: int|
            slot_for(ranges, start) <= i < ranges.len() ==> (#[trigger] ranges[i]).start_offset
                > start,
    decreases ranges.len(),
{
    if ranges.len() > 0 {
        let rest = ranges.skip(1);
        if ranges[0].start_offset > start {
            assert forall|i: int| 0 <= i < ranges.len() implies (#[trigger] ranges[i]).start_offset
                > start by {
                if i > 0 {
                    assert(ranges[0].start_offset <= ranges[i].start_offset);
                }
            }
        } else {
            assert forall|i: int, j: int|
                #![trigger rest[i], rest[j]]
                0 <= i < j < rest.len() implies rest[i].start_offset <= rest[j].start_offset by {
                assert(rest[i] == ranges[i + 1] && rest[j] == ranges[j + 1]);
            }
            lemma_slot(rest, start);
            let k = slot_for(rest, start);
            assert forall|i: int| 0 <= i < k + 1 implies (#[trigger] ranges[i]).start_offset
                <= start by {
                if i > 0 {
                    assert(rest[i - 1] == ranges[i]);
                }
            }
            assert forall|i: int| k + 1 <= i < ranges.len() implies (
            #[trigger] ranges[i]).start_offset > start by {
                assert(rest[i - 1] == ranges[i]);
            }
        }
    }
}

/// An eviction takes out one range, and as long as there are others neither the first one nor
/// one of the newest.
pub proof fn law_eviction_spares_first_and_newest(m: SparseModel, i: int)
    requires
        m.evict_index >= 0,
        m.ranges.len() > 0,
    ensures
        evicted_once(m).ranges.len() == m.ranges.len() - 1,
        m.ranges.len() > 1 ==> evicted_once(m).ranges[0] == m.ranges[0],
        m.ranges.len() > 1 + m.compact_num && m.ranges.len() - m.compact_num <= i
            < m.ranges.len() ==> evicted_once(m).ranges[i - 1] == m.ranges[i],
        exists|k: int| 0 <= k < m.ranges.len() && evicted_once(m).ranges == #[trigger] m.ranges.remove(k),
        evicted_once(m).compact_num == m.compact_num,
        evicted_once(m).evict_index >= 0,
{
    let n = m.ranges.len() as int;
    if n > 1 + m.compact_num && m.evict_index < n - m.compact_num && m.evict_index % n != 0 {
        if m.evict_index == 0 {
            assert(0int % n == 0) by (nonlinear_arith)
                requires
                    n > 0,
            ;
        }
        assert(0 < m.evict_index < n);
    }
}

/// Evictions go round the ranges between the first one and the newest: each takes the one that
/// the last eviction left off at, and the next one goes on behind it. Where only the first range
/// and the newest are left, the second one goes, and the place to go on at stays.
pub proof fn law_evictions_go_round(m: SparseModel)
    requires
        m.ranges.len() > 1,
        m.evict_index >= 0,
    ensures
        ({
            let n = m.ranges.len() as int;
            let after = evicted_once(m);
            let spared = n - m.compact_num;
            &&& spared <= 1 ==> after.ranges == m.ranges.remove(1) && after.evict_index
                == m.evict_index
            &&& spared > 1 && 0 < m.evict_index < spared ==> after.ranges == m.ranges.remove(
                m.evict_index as int,
            ) && after.evict_index == m.evict_index + 1
            &&& spared > 1 && !(0 < m.evict_index < spared) ==> after.ranges == m.ranges.remove(1)
                && after.evict_index == 2
        }),
{
    let n = m.ranges.len() as int;
    if 0 < m.evict_index < n {
        assert(m.evict_index as int % n == m.evict_index) by (nonlinear_arith)
            requires
                0 < m.evict_index < n,
        ;
    }
    assert(0int % n == 0) by (nonlinear_arith)
        requires
            n > 0,
    ;
}

/// The index keeps its cap: it is as it was where it fits, and is cut down to the cap, but by
/// less than one range more, where it does not. No stream is added.
pub proof fn law_index_keeps_cap(
    before: Map<u64, SparseModel>,
    after: Map<u64, SparseModel>,
    compact_num: usize,
    cap: int,
)
    requires
        fits_cap(before, after, compact_num, cap),
    ensures
        total_bytes(after) <= cap,
        total_bytes(before) <= cap ==> after == before,
        total_bytes(before) > cap ==> total_bytes(after) + 40 > cap,
        forall|s: u64| #[trigger] after.contains_key(s) ==> before.contains_key(s),
{
}

/// Streams that are not among the keys stay as they were; of one that is, the index ends with
/// its new range.
pub proof fn law_appends_reach_their_streams(
    m: Map<u64, SparseModel>,
    ranges: Map<u64, Option<RangeIndex>>,
    keys: Seq<u64>,
    compact_num: usize,
    s: u64,
)
    requires
        keys.no_duplicates(),
    ensures
        ({
            let after = appended_all(m, ranges, keys, compact_num);
            match ranges[s] {
                Some(r) => if keys.contains(s) {
                    &&& after.contains_key(s)
                    &&& after[s].ranges.len() > 0
                    &&& after[s].ranges.last() == r
                    &&& after[s] == appended(sparse_of(m, s, compact_num), r)
                } else {
                    after.contains_key(s) == m.contains_key(s) && after[s] == m[s]
                },
                None => after.contains_key(s) == m.contains_key(s) && after[s] == m[s],
            }
        }),
    decreases keys.len(),
{
    if keys.len() > 0 {
        let front = keys.drop_last();
        let k = keys.last();
        assert(front.no_duplicates()) by {
            assert forall|i: int, j: int|
                0 <= i < front.len() && 0 <= j < front.len() && i != j implies front[i]
                != front[j] by {
                assert(front[i] == keys[i] && front[j] == keys[j]);
            }
        }
        law_appends_reach_their_streams(m, ranges, front, compact_num, s);
        assert(keys =~= front.push(k));
        vstd::seq_lib::lemma_seq_contains_after_push(front, k, s);
        assert(!front.contains(k)) by {
            if front.contains(k) {
                let i = choose|i: int| 0 <= i < front.len() && front[i] == k;
                assert(keys[i] == keys[keys.len() - 1]);
            }
        }
    }
}

/// The ranges of streams that a commit adds: of each stream that it names the last one, in the
/// object that it commits.
pub proof fn law_commit_adds_last_ranges(
    object_id: u64,
    ranges: Seq<ObjectStreamRange>,
    i: int,
    s: u64,
)
    ensures
        request_ranges(object_id, ranges).contains_key(s) <==> exists|j: int|
            0 <= j < ranges.len() && (#[trigger] ranges[j]).stream_id == s,
        0 <= i < ranges.len() && ranges[i].stream_id == s && (forall|j: int|
            i < j < ranges.len() ==> (#[trigger] ranges[j]).stream_id != s) ==> match request_ranges(
            object_id,
            ranges,
        )[s] {
            Some(r) => object_id != NOOP_OBJECT_ID && r.object_id == object_id && r.start_offset
                == ranges[i].start_offset && r.end_offset == ranges[i].end_offset,
            None => object_id == NOOP_OBJECT_ID,
        },
    decreases ranges.len(),
{
    if ranges.len() > 0 {
        let front = ranges.drop_last();
        let n = ranges.len() - 1;
        law_commit_adds_last_ranges(object_id, front, i, s);
        assert forall|j: int| 0 <= j < n implies #[trigger] front[j] == ranges[j] by {}
        if exists|j: int| 0 <= j < front.len() && (#[trigger] front[j]).stream_id == s {
            let j = choose|j: int| 0 <= j < front.len() && (#[trigger] front[j]).stream_id == s;
            assert(ranges[j].stream_id == s);
        }
        if exists|j: int| 0 <= j < ranges.len() && (#[trigger] ranges[j]).stream_id == s {
            let j = choose|j: int| 0 <= j < ranges.len() && (#[trigger] ranges[j]).stream_id == s;
            if j < n {
                assert(front[j].stream_id == s);
            }
        }
        if ranges[n].stream_id == s {
            assert(request_ranges(object_id, ranges).contains_key(s));
        }
        if 0 <= i < n && forall|j: int|
            i < j < ranges.len() ==> (#[trigger] ranges[j]).stream_id != s {
            assert(ranges[n].stream_id != s);
            assert(front[i] == ranges[i]);
            assert forall|j: int| i < j < front.len() implies (#[trigger] front[j]).stream_id
                != s by {
                assert(ranges[j].stream_id != s);
            }
        }
    }
}

/// A prune leaves exactly the ranges of live objects, in order, and no stream without a range
/// of which there was a dead one.
pub proof fn law_prune_keeps_live_ranges(
    before: Map<u64, SparseModel>,
    after: Map<u64, SparseModel>,
    live: Set<u64>,
    s: u64,
)
    requires
        is_pruned(before, after, live),
    ensures
        after.contains_key(s) ==> before.contains_key(s) && after[s].ranges
            == before[s].ranges.filter(|r: RangeIndex| live.contains(r.object_id)),
        before.contains_key(s) && !after.contains_key(s) ==> before[s].ranges.filter(
            |r: RangeIndex| live.contains(r.object_id),
        ).len() == 0,
{
    let p = |r: RangeIndex| live.contains(r.object_id);
    let known = after.contains_key(s);
    if before.contains_key(s) {
        let ranges = before[s].ranges;
        if forall|i: int|
            0 <= i < ranges.len() ==> live.contains((#[trigger] ranges[i]).object_id) {
            lemma_filter_all(ranges, p);
        }
    }
}

proof fn lemma_filter_all(ranges: Seq<RangeIndex>, p: spec_fn(RangeIndex) -> bool)
    requires
        forall|i: int| 0 <= i < ranges.len() ==> p(#[trigger] ranges[i]),
    ensures
        ranges.filter(p) == ranges,
    decreases ranges.len(),
{
    if ranges.len() == 0 {
        assert(ranges.filter(p) =~= ranges);
    } else {
        let front = ranges.drop_last();
        assert forall|i: int| 0 <= i < front.len() implies p(#[trigger] front[i]) by {
            assert(front[i] == ranges[i]);
        }
        lemma_filter_all(front, p);
        assert(ranges =~= front.push(ranges.last()));
        assert(p(ranges[ranges.len() - 1]));
        front.lemma_filter_push(ranges.last(), p);
    }
}

/// A compaction of the index goes through every stream: a stream that has ranges left keeps
/// just those of objects that were not compacted, and its new one, and a stream that has none
/// left is gone.
pub proof fn law_index_compaction_reaches_every_stream(
    before: Map<u64, SparseModel>,
    after: Map<u64, SparseModel>,
    ranges: Map<u64, Option<RangeIndex>>,
    ids: Set<u64>,
    s: u64,
    x: RangeIndex,
)
    requires
        is_compacted(before, after, ranges, ids),
        ids.len() > 0,
        before.contains_key(s),
        starts_in_order(before[s].ranges),
    ensures
        (after.contains_key(s) && after[s].ranges.contains(x)) <==> ((before[s].ranges.contains(x)
            && !ids.contains(x.object_id)) || (ranges.contains_key(s) && ranges[s] == Some(x))),
        after.contains_key(s) ==> after[s].ranges.len() > 0,
{
    let new_range = if ranges.contains_key(s) {
        ranges[s]
    } else {
        None
    };
    law_compaction_replaces_ranges(before[s], new_range, ids, x);
    let known = after.contains_key(s);
}

/// Ranges that begin one above the other are in order.
pub proof fn law_ascending_starts_are_in_order(ranges: Seq<RangeIndex>)
    requires
        starts_ascend(ranges),
    ensures
        starts_in_order(ranges),
{
}

} // verus!

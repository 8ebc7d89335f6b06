//! The range indexes of one stream, sparse after eviction.
use std::collections::HashSet;
use vstd::prelude::*;

verus! {

/// One stream range inside a stream set object.
#[derive(Debug, Clone, Copy, PartialEq, Eq, Structural)]
pub struct RangeIndex {
    pub start_offset: u64,
    pub end_offset: u64,
    pub object_id: u64,
}

impl RangeIndex {
    /// What one range counts for: three 8-byte numbers and a 16-byte header.
    pub const OBJECT_SIZE: usize = 40;
}

/// What the index of a stream holds.
#[verifier::ext_equal]
pub struct SparseModel {
    pub compact_num: usize,
    pub ranges: Seq<RangeIndex>,
    pub evict_index: int,
}

/// Bytes that the index of a stream counts for.
pub open spec fn index_bytes(m: SparseModel) -> int {
    m.ranges.len() as int * 40
}

/// The index of a stream after a range was appended. A range that does not begin beyond the
/// last one resets the index: it was read from an outdated file.
pub open spec fn appended(m: SparseModel, range: RangeIndex) -> SparseModel {
    if m.ranges.len() > 0 && range.start_offset <= m.ranges.last().start_offset {
        SparseModel { ranges: seq![range], evict_index: 0, ..m }
    } else {
        SparseModel { ranges: m.ranges.push(range), ..m }
    }
}

/// Ranges whose objects are not in a set.
pub open spec fn not_in(ranges: Seq<RangeIndex>, ids: Set<u64>) -> Seq<RangeIndex> {
    ranges.filter(|r: RangeIndex| !ids.contains(r.object_id))
}

/// Where a new range goes: before the first range that begins beyond it.
pub open spec fn slot_for(ranges: Seq<RangeIndex>, start: u64) -> int
    decreases ranges.len(),
{
    if ranges.len() == 0 {
        0
    } else if ranges[0].start_offset > start {
        0
    } else {
        1 + slot_for(ranges.skip(1), start)
    }
}

/// The index of a stream after some objects were compacted, into a new range where there is
/// one.
pub open spec fn compacted(m: SparseModel, range: Option<RangeIndex>, ids: Set<u64>) -> SparseModel {
    if ids.len() == 0 {
        match range {
            Some(r) => appended(m, r),
            None => m,
        }
    } else {
        let kept = not_in(m.ranges, ids);
        SparseModel {
            ranges: match range {
                Some(r) => kept.insert(slot_for(kept, r.start_offset), r),
                None => kept,
            },
            evict_index: 0,
            ..m
        }
    }
}

/// The range that goes next, and where the one after it is looked for. The first range and
/// the newest ones go last.
pub open spec fn victim(m: SparseModel) -> (int, int) {
    let n = m.ranges.len() as int;
    if n <= 1 {
        (0, m.evict_index)
    } else if n <= 1 + m.compact_num {
        (1, m.evict_index)
    } else if m.evict_index % n == 0 || m.evict_index >= n - m.compact_num {
        (1, 2)
    } else {
        (m.evict_index, m.evict_index + 1)
    }
}

/// The index of a stream after one eviction.
pub open spec fn evicted_once(m: SparseModel) -> SparseModel {
    if m.ranges.len() == 0 {
        m
    } else {
        SparseModel { ranges: m.ranges.remove(victim(m).0), evict_index: victim(m).1, ..m }
    }
}

/// The index of a stream after a number of evictions.
pub open spec fn evicted_times(m: SparseModel, n: nat) -> SparseModel
    decreases n,
{
    if n == 0 {
        m
    } else {
        evicted_once(evicted_times(m, (n - 1) as nat))
    }
}

/// Per-stream list of range indexes, sparse after eviction.
#[derive(Debug)]
pub struct SparseRangeIndex {
    compact_num: usize,
    ranges: Vec<RangeIndex>,
    size: usize,
    evict_index: usize,
}

impl Default for SparseRangeIndex {
    fn default() -> (r: Self)
        ensures
            r.wf(),
            r@ == (SparseModel { compact_num: 0, ranges: Seq::empty(), evict_index: 0 }),
    {
        SparseRangeIndex { compact_num: 0, ranges: Vec::new(), size: 0, evict_index: 0 }
    }
}

impl View for SparseRangeIndex {
    type V = SparseModel;

    closed spec fn view(&self) -> SparseModel {
        SparseModel {
            compact_num: self.compact_num,
            ranges: self.ranges@,
            evict_index: self.evict_index as int,
        }
    }
}

impl SparseRangeIndex {
    pub closed spec fn counted(&self) -> bool {
        self.size == self.ranges@.len() * 40
    }

    /// The size is that of the ranges, and counts in a signed word.
    pub open spec fn wf(&self) -> bool {
        &&& self.counted()
        &&& index_bytes(self@) <= isize::MAX
        &&& self@.compact_num < usize::MAX
        &&& 0 <= self@.evict_index
    }

    pub fn new(compact_num: usize) -> (r: Self)
        requires
            compact_num < usize::MAX,
        ensures
            r.wf(),
            r@ == (SparseModel { compact_num, ranges: Seq::empty(), evict_index: 0 }),
    {
        Self::with_ranges(compact_num, Vec::new())
    }

    pub fn with_ranges(compact_num: usize, ranges: Vec<RangeIndex>) -> (r: Self)
        requires
            compact_num < usize::MAX,
            ranges@.len() * 40 <= isize::MAX,
        ensures
            r.wf(),
            r@ == (SparseModel { compact_num, ranges: ranges@, evict_index: 0 }),
    {
        let size: usize = ranges.len() * RangeIndex::OBJECT_SIZE;
        SparseRangeIndex { compact_num, ranges, size, evict_index: 0 }
    }

    /// Appends a range. Returns by how much the size changed.
    pub fn append(&mut self, new_range: RangeIndex) -> (r: isize)
        requires
            old(self).wf(),
            index_bytes(old(self)@) + 40 <= isize::MAX,
        ensures
            final(self).wf(),
            final(self)@ == appended(old(self)@, new_range),
            r == index_bytes(final(self)@) - index_bytes(old(self)@),
    {
        let mut delta: isize = 0;
        let n: usize = self.ranges.len();
        if n > 0 && new_range.start_offset <= self.ranges[n - 1].start_offset {
            delta = -(self.size as isize);
            self.reset();
        }
        self.ranges.push(new_range);
        self.size = self.size + RangeIndex::OBJECT_SIZE;
        assert(self@.ranges =~= appended(old(self)@, new_range).ranges);
        delta + RangeIndex::OBJECT_SIZE as isize
    }

    pub fn reset(&mut self)
        requires
            old(self).wf(),
        ensures
            final(self).wf(),
            final(self)@ == (SparseModel { ranges: Seq::empty(), evict_index: 0, ..old(self)@ }),
    {
        self.ranges = Vec::new();
        self.size = 0;
        self.evict_index = 0;
    }

    /// Replaces the ranges of compacted objects. Returns by how much the size changed.
    pub fn compact(
        &mut self,
        new_range: Option<RangeIndex>,
        compacted_object_ids: &HashSet<u64>,
    ) -> (r: isize)
        requires
            old(self).wf(),
            index_bytes(old(self)@) + 40 <= isize::MAX,
        ensures
            final(self).wf(),
            final(self)@ == compacted(old(self)@, new_range, compacted_object_ids@),
            r == index_bytes(final(self)@) - index_bytes(old(self)@),
    {
        broadcast use vstd::std_specs::hash::group_hash_axioms;

        if compacted_object_ids.len() == 0 {
            return match new_range {
                Some(range) => self.append(range),
                None => 0,
            };
        }
        let ghost all = self.ranges@;
        let ghost ids = compacted_object_ids@;
        let ghost p = |r: RangeIndex| !ids.contains(r.object_id);
        let mut new_list: Vec<RangeIndex> = Vec::new();
        let mut i: usize = 0;
        let mut at: usize = 0;
        let mut inserted: bool = false;
        assert(all.take(0).filter(p) =~= Seq::empty());
        while i < self.ranges.len()
            invariant
                i <= self.ranges@.len(),
                *self == *old(self),
                all == self.ranges@,
                ids == compacted_object_ids@,
                p == (|r: RangeIndex| !ids.contains(r.object_id)),
                at <= all.take(i as int).filter(p).len(),
                all.take(i as int).filter(p).len() <= i,
                inserted ==> new_range is Some,
                match new_range {
                    Some(r) => {
                        &&& forall|k: int|
                            0 <= k < at ==> (#[trigger] all.take(i as int).filter(p)[k]).start_offset
                                <= r.start_offset
                        &&& if inserted {
                            &&& at < all.take(i as int).filter(p).len()
                            &&& all.take(i as int).filter(p)[at as int].start_offset
                                > r.start_offset
                            &&& new_list@ == all.take(i as int).filter(p).insert(at as int, r)
                        } else {
                            &&& at == all.take(i as int).filter(p).len()
                            &&& new_list@ == all.take(i as int).filter(p)
                        }
                    },
                    None => new_list@ == all.take(i as int).filter(p),
                },
            decreases self.ranges@.len() - i,
        {
            broadcast use vstd::std_specs::hash::group_hash_axioms;

            let range = self.ranges[i];
            let ghost kept = all.take(i as int).filter(p);
            proof {
                assert(all.take(i + 1) =~= all.take(i as int).push(range));
                all.take(i as int).lemma_filter_push(range, p);
            }
            if !compacted_object_ids.contains(&range.object_id) {
                assert(all.take(i + 1).filter(p) == kept.push(range));
                match new_range {
                    Some(r) => {
                        if !inserted {
                            if range.start_offset > r.start_offset {
                                new_list.push(r);
                                inserted = true;
                            } else {
                                at += 1;
                            }
                        }
                    },
                    None => {},
                }
                new_list.push(range);
                proof {
                    if new_range is Some && inserted {
                        assert(new_list@ =~= kept.push(range).insert(
                            at as int,
                            new_range->0,
                        ));
                    }
                }
            }
            i += 1;
        }
        let ghost kept = all.filter(p);
        assert(all.take(i as int) =~= all);
        match new_range {
            Some(r) => {
                if !inserted {
                    new_list.push(r);
                    assert(new_list@ =~= kept.insert(at as int, r));
                }
                proof {
                    lemma_slot_for(kept, r.start_offset, at as int);
                }
            },
            None => {},
        }
        let old_size: isize = self.size as isize;
        assert(new_list@.len() <= all.len() + 1);
        self.ranges = new_list;
        self.size = self.ranges.len() * RangeIndex::OBJECT_SIZE;
        self.evict_index = 0;
        self.size as isize - old_size
    }

    /// Evicts one range. Returns the bytes that it counted for.
    pub fn evict_once(&mut self) -> (r: usize)
        requires
            old(self).wf(),
        ensures
            final(self).wf(),
            final(self)@ == evicted_once(old(self)@),
            r == index_bytes(old(self)@) - index_bytes(final(self)@),
    {
        let len: usize = self.ranges.len();
        if len == 0 {
            return 0;
        }
        let index_to_evict: usize = if len == 1 {
            0
        } else if len <= 1 + self.compact_num {
            1
        } else {
            if self.evict_index % len == 0 || self.evict_index >= len - self.compact_num {
                self.evict_index = 1;
            }
            let i: usize = self.evict_index;
            self.evict_index = i + 1;
            i
        };
        let _ = self.ranges.remove(index_to_evict);
        self.size = self.size - RangeIndex::OBJECT_SIZE;
        RangeIndex::OBJECT_SIZE
    }

    pub fn len(&self) -> (r: usize)
        ensures
            r == self@.ranges.len(),
    {
        self.ranges.len()
    }

    pub fn is_empty(&self) -> (r: bool)
        ensures
            r == (self@.ranges.len() == 0),
    {
        self.ranges.len() == 0
    }

    pub fn size(&self) -> (r: usize)
        requires
            self.wf(),
        ensures
            r == index_bytes(self@),
    {
        self.size
    }

    pub fn ranges(&self) -> (r: &[RangeIndex])
        ensures
            r@ == self@.ranges,
    {
        self.ranges.as_slice()
    }
}

/// The slot is the one before the first range that begins beyond.
proof fn lemma_slot_for(ranges: Seq<RangeIndex>, start: u64, at: int)
    requires
        0 <= at <= ranges.len(),
        forall|k: int| 0 <= k < at ==> (#[trigger] ranges[k]).start_offset <= start,
        at < ranges.len() ==> ranges[at].start_offset > start,
    ensures
        slot_for(ranges, start) == at,
    decreases ranges.len(),
{
    if at > 0 {
        assert(ranges[0].start_offset <= start);
        let rest = ranges.skip(1);
        assert forall|k: int| 0 <= k < at - 1 implies (#[trigger] rest[k]).start_offset
            <= start by {
            assert(ranges[k + 1].start_offset <= start);
        }
        lemma_slot_for(rest, start, at - 1);
    }
}

/// Ranges in ascending order of their starts.
pub open spec fn starts_ascend(ranges: Seq<RangeIndex>) -> bool {
    forall|i: int, j: int|
        #![trigger ranges[i], ranges[j]]
        0 <= i < j < ranges.len() ==> ranges[i].start_offset < ranges[j].start_offset
}

/// Ranges none of which begins below the one before it.
pub open spec fn starts_in_order(ranges: Seq<RangeIndex>) -> bool {
    forall|i: int, j: int|
        #![trigger ranges[i], ranges[j]]
        0 <= i < j < ranges.len() ==> ranges[i].start_offset <= ranges[j].start_offset
}

/// Where bisection between two positions ends: behind a range that begins at or below an
/// offset, in front of one that begins above it.
pub open spec fn bisected(ranges: Seq<RangeIndex>, offset: u64, low: int, high: int) -> int
    decreases high - low,
{
    if low >= high {
        low
    } else {
        let mid = low + (high - low) / 2;
        if ranges[mid].start_offset <= offset {
            bisected(ranges, offset, mid + 1, high)
        } else {
            bisected(ranges, offset, low, mid)
        }
    }
}

/// The object of the range in front of the position that bisection gives.
pub open spec fn bisected_object(ranges: Seq<RangeIndex>, offset: u64) -> Option<u64> {
    let at = bisected(ranges, offset, 0, ranges.len() as int);
    if at == 0 {
        None
    } else {
        Some(ranges[at - 1].object_id)
    }
}

/// The object of the last range that begins at or below an offset.
pub open spec fn holder(ranges: Seq<RangeIndex>, offset: u64) -> Option<u64>
    decreases ranges.len(),
{
    if ranges.len() == 0 {
        None
    } else if ranges.last().start_offset <= offset {
        Some(ranges.last().object_id)
    } else {
        holder(ranges.drop_last(), offset)
    }
}

/// The object that may hold an offset: that of the last range that begins at or below it.
/// Where the ranges are not in order, it is the one that bisection ends at.
pub fn binary_search_object_id(start_offset: u64, ranges: &[RangeIndex]) -> (r: Option<u64>)
    ensures
        r == bisected_object(ranges@, start_offset),
        starts_in_order(ranges@) ==> r == holder(ranges@, start_offset),
{
    let ghost all = ranges@;
    let mut low: usize = 0;
    let mut high: usize = ranges.len();
    while low < high
        invariant
            low <= high <= ranges@.len(),
            all == ranges@,
            bisected(all, start_offset, 0, all.len() as int) == bisected(
                all,
                start_offset,
                low as int,
                high as int,
            ),
            starts_in_order(all) ==> {
                &&& forall|k: int|
                    0 <= k < low ==> (#[trigger] all[k]).start_offset <= start_offset
                &&& forall|k: int|
                    high <= k < all.len() ==> (#[trigger] all[k]).start_offset > start_offset
            },
        decreases high - low,
    {
        let mid: usize = low + (high - low) / 2;
        if ranges[mid].start_offset <= start_offset {
            proof {
                if starts_in_order(all) {
                    assert forall|k: int| 0 <= k < mid + 1 implies (#[trigger] all[k]).start_offset
                        <= start_offset by {
                        if k < mid {
                            assert(all[k].start_offset <= all[mid as int].start_offset);
                        }
                    }
                }
            }
            low = mid + 1;
        } else {
            proof {
                if starts_in_order(all) {
                    assert forall|k: int| mid <= k < all.len() implies (
                    #[trigger] all[k]).start_offset > start_offset by {
                        if k > mid {
                            assert(all[mid as int].start_offset <= all[k].start_offset);
                        }
                    }
                }
            }
            high = mid;
        }
    }
    proof {
        if starts_in_order(all) {
            lemma_holder(all, start_offset, low as int);
        }
    }
    if low == 0 {
        None
    } else {
        Some(ranges[low - 1].object_id)
    }
}

proof fn lemma_holder(ranges: Seq<RangeIndex>, offset: u64, n: int)
    requires
        0 <= n <= ranges.len(),
        forall|k: int| 0 <= k < n ==> (#[trigger] ranges[k]).start_offset <= offset,
        forall|k: int| n <= k < ranges.len() ==> (#[trigger] ranges[k]).start_offset > offset,
    ensures
        holder(ranges, offset) == (if n == 0 {
            None
        } else {
            Some(ranges[n - 1].object_id)
        }),
    decreases ranges.len(),
{
    if ranges.len() > 0 {
        if n == ranges.len() {
            assert(ranges[n - 1].start_offset <= offset);
        } else {
            assert(ranges[ranges.len() - 1].start_offset > offset);
            let front = ranges.drop_last();
            assert forall|k: int| 0 <= k < n implies (#[trigger] front[k]).start_offset
                <= offset by {
                assert(ranges[k].start_offset <= offset);
            }
            assert forall|k: int| n <= k < front.len() implies (#[trigger] front[k]).start_offset
                > offset by {
                assert(ranges[k].start_offset > offset);
            }
            lemma_holder(front, offset, n);
        }
    }
}

/// Appends keep the ranges in order, whatever is appended.
pub proof fn law_appends_keep_order(m: SparseModel, range: RangeIndex)
    requires
        starts_ascend(m.ranges),
    ensures
        starts_ascend(appended(m, range).ranges),
{
    let a = appended(m, range).ranges;
    assert forall|i: int, j: int|
        #![trigger a[i], a[j]]
        0 <= i < j < a.len() implies a[i].start_offset < a[j].start_offset by {
        if j < m.ranges.len() {
            assert(m.ranges[i].start_offset < m.ranges[j].start_offset);
        } else if i < m.ranges.len() - 1 {
            assert(m.ranges[i].start_offset < m.ranges[m.ranges.len() - 1].start_offset);
        }
    }
}

/// Eviction keeps the ranges in order, and the first of them, the anchor for old offsets,
/// goes only when it is the last one left.
pub proof fn law_eviction_keeps_first(m: SparseModel)
    requires
        m.ranges.len() > 1,
        starts_ascend(m.ranges),
        m.evict_index >= 0,
    ensures
        evicted_once(m).ranges.len() == m.ranges.len() - 1,
        evicted_once(m).ranges[0] == m.ranges[0],
        starts_ascend(evicted_once(m).ranges),
{
    let v = victim(m).0;
    let n = m.ranges.len() as int;
    if m.evict_index == 0 {
        assert(m.evict_index % n == 0) by (nonlinear_arith)
            requires
                m.evict_index == 0,
                n > 1,
        ;
    }
    assert(1 <= v < n);
    let a = evicted_once(m).ranges;
    assert forall|i: int, j: int|
        #![trigger a[i], a[j]]
        0 <= i < j < a.len() implies a[i].start_offset < a[j].start_offset by {
        let x = if i < v {
            i
        } else {
            i + 1
        };
        let y = if j < v {
            j
        } else {
            j + 1
        };
        assert(a[i] == m.ranges[x] && a[j] == m.ranges[y]);
    }
}

} // verus!

//! The node-local stream range index.
//!
//! One entry per stream range in a stream set object, updated on every commit, and evicted
//! when it outgrows the size cap. Eviction goes in rounds: in each, the streams give up one
//! range each, by ascending stream id, until the index fits.
use std::collections::{BTreeMap, HashSet};
use vstd::prelude::*;

use crate::collections::{ascending, lists_keys, sorted_keys, tree_keys};
use crate::index::sparse::{
    appended, binary_search_object_id, bisected_object, compacted, evicted_once, evicted_times, holder,
    index_bytes, not_in, starts_in_order, RangeIndex, SparseModel, SparseRangeIndex,
};
use crate::index::totals::{
    is_listed, lemma_total_add, lemma_total_covers, lemma_total_empty, lemma_total_remove,
    lemma_total_some, lemma_total_update, total_bytes,
};
use crate::manager::CommitStreamSetObjectRequest;
use crate::object::{ObjectStreamRange, NOOP_OBJECT_ID};

verus! {

/// Newest ranges of a stream that are evicted last, unless the host says otherwise.
pub const DEFAULT_COMPACT_NUM: usize = 3;

/// Size cap of the index, unless the host says otherwise.
pub const DEFAULT_MAX_INDEX_SIZE: usize = 1024 * 1024;

/// At most one flush for closing streams per interval.
pub const UPLOAD_ON_STREAM_CLOSE_INTERVAL_MS: u64 = 5_000;

/// A closing stream waits at most this long for the flush.
pub const UPLOAD_ON_STREAM_CLOSE_TIMEOUT_MS: u64 = 1_000;

pub open spec fn sparse_models(m: Map<u64, SparseRangeIndex>) -> Map<u64, SparseModel> {
    m.map_values(|s: SparseRangeIndex| s@)
}

/// The index of a stream, empty where there is none yet.
pub open spec fn sparse_of(m: Map<u64, SparseModel>, stream_id: u64, compact_num: usize) -> SparseModel {
    if m.contains_key(stream_id) {
        m[stream_id]
    } else {
        SparseModel { compact_num, ranges: Seq::empty(), evict_index: 0 }
    }
}

/// The index after the new ranges of some streams were appended, in the order of `keys`.
pub open spec fn appended_all(
    m: Map<u64, SparseModel>,
    ranges: Map<u64, Option<RangeIndex>>,
    keys: Seq<u64>,
    compact_num: usize,
) -> Map<u64, SparseModel>
    decreases keys.len(),
{
    if keys.len() == 0 {
        m
    } else {
        let before = appended_all(m, ranges, keys.drop_last(), compact_num);
        let k = keys.last();
        match ranges[k] {
            Some(r) => before.insert(k, appended(sparse_of(before, k, compact_num), r)),
            None => before,
        }
    }
}

/// One index came out of another by evictions: `counts` says how many each stream took. A
/// stream with no range left is gone.
pub open spec fn is_evicted(
    before: Map<u64, SparseModel>,
    after: Map<u64, SparseModel>,
    counts: Map<u64, nat>,
) -> bool {
    &&& forall|s: u64| #[trigger] after.contains_key(s) ==> before.contains_key(s)
    &&& forall|s: u64| #[trigger]
        before.contains_key(s) ==> {
            let e = evicted_times(before[s], counts[s]);
            if counts[s] > 0 && e.ranges.len() == 0 {
                !after.contains_key(s)
            } else {
                after.contains_key(s) && after[s] == e
            }
        }
}

/// A stream gives up one of its first and newest ranges only where no stream has others
/// left.
pub open spec fn is_fair(
    before: Map<u64, SparseModel>,
    after: Map<u64, SparseModel>,
    counts: Map<u64, nat>,
    compact_num: usize,
) -> bool {
    ||| forall|s: u64| #[trigger]
        before.contains_key(s) && counts[s] > 0 ==> after.contains_key(s)
            && after[s].ranges.len() >= 1 + compact_num
    ||| forall|s: u64| #[trigger]
        after.contains_key(s) ==> after[s].ranges.len() <= 1 + compact_num
}

/// The index once a stream gave up one range. A stream with no range left is gone.
pub open spec fn without_one(m: Map<u64, SparseModel>, stream_id: u64) -> Map<u64, SparseModel> {
    let e = evicted_once(m[stream_id]);
    if e.ranges.len() == 0 {
        m.remove(stream_id)
    } else {
        m.insert(stream_id, e)
    }
}

/// A round of evictions over the streams from `i` on: each gives up one range, until the
/// index fits. Streams that have no ranges besides their first and newest ones are spared,
/// if that is asked for. Tells whether any range was given up.
pub open spec fn round_from(
    m: Map<u64, SparseModel>,
    keys: Seq<u64>,
    i: int,
    spares: bool,
    compact_num: usize,
    cap: int,
) -> (Map<u64, SparseModel>, bool)
    decreases keys.len() - i,
{
    if i < 0 || i >= keys.len() {
        (m, false)
    } else if spares && m[keys[i]].ranges.len() <= 1 + compact_num {
        round_from(m, keys, i + 1, spares, compact_num, cap)
    } else {
        let next = without_one(m, keys[i]);
        if total_bytes(next) <= cap {
            (next, true)
        } else {
            (round_from(next, keys, i + 1, spares, compact_num, cap).0, true)
        }
    }
}

/// The index after `n` rounds, by ascending stream id, and whether streams are still spared:
/// none is once a round gave up nothing.
pub open spec fn after_rounds(m: Map<u64, SparseModel>, compact_num: usize, cap: int, n: nat) -> (
    Map<u64, SparseModel>,
    bool,
)
    decreases n,
{
    if n == 0 {
        (m, true)
    } else {
        let (before, spares) = after_rounds(m, compact_num, cap, (n - 1) as nat);
        let (after, evicted) = round_from(
            before,
            sorted_keys(before),
            0,
            spares,
            compact_num,
            cap,
        );
        (after, spares && evicted)
    }
}

/// Rounds go on until the index fits, and no longer.
pub open spec fn is_evicted_by_rounds(
    before: Map<u64, SparseModel>,
    after: Map<u64, SparseModel>,
    compact_num: usize,
    cap: int,
) -> bool {
    exists|n: nat|
        {
            &&& #[trigger] after_rounds(before, compact_num, cap, n).0 == after
            &&& total_bytes(after) <= cap
            &&& forall|k: nat|
                k < n ==> total_bytes(#[trigger] after_rounds(before, compact_num, cap, k).0) > cap
        }
}

/// The index after eviction down to a size cap: it evicts no more than it has to.
pub open spec fn fits_cap(
    before: Map<u64, SparseModel>,
    after: Map<u64, SparseModel>,
    compact_num: usize,
    cap: int,
) -> bool {
    if total_bytes(before) <= cap {
        after == before
    } else {
        &&& is_evicted_by_rounds(before, after, compact_num, cap)
        &&& cap - 40 < total_bytes(after) <= cap
        &&& exists|counts: Map<u64, nat>| #[trigger]
            is_evicted(before, after, counts) && is_fair(before, after, counts, compact_num)
    }
}

/// The new range of a stream.
pub open spec fn new_range_of(ranges: Map<u64, Option<RangeIndex>>, stream_id: u64) -> Option<
    RangeIndex,
> {
    if ranges.contains_key(stream_id) {
        ranges[stream_id]
    } else {
        None
    }
}

/// The index after some objects were compacted. Streams with no range left are gone.
pub open spec fn is_compacted(
    before: Map<u64, SparseModel>,
    after: Map<u64, SparseModel>,
    ranges: Map<u64, Option<RangeIndex>>,
    ids: Set<u64>,
) -> bool {
    forall|s: u64|
        (#[trigger] after.contains_key(s) <==> before.contains_key(s) && compacted(
            before[s],
            new_range_of(ranges, s),
            ids,
        ).ranges.len() > 0) && (after.contains_key(s) ==> after[s] == compacted(
            before[s],
            new_range_of(ranges, s),
            ids,
        ))
}

/// Every range of the stream is in a live object.
pub open spec fn all_live(m: SparseModel, live: Set<u64>) -> bool {
    forall|i: int| 0 <= i < m.ranges.len() ==> live.contains((#[trigger] m.ranges[i]).object_id)
}

/// The index of a stream without the ranges of dead objects.
pub open spec fn pruned(m: SparseModel, live: Set<u64>) -> SparseModel {
    if all_live(m, live) {
        m
    } else {
        SparseModel {
            ranges: m.ranges.filter(|r: RangeIndex| live.contains(r.object_id)),
            evict_index: 0,
            ..m
        }
    }
}

/// The index without the ranges of dead objects. Streams that lost all of theirs are gone.
pub open spec fn is_pruned(
    before: Map<u64, SparseModel>,
    after: Map<u64, SparseModel>,
    live: Set<u64>,
) -> bool {
    forall|s: u64|
        (#[trigger] after.contains_key(s) <==> before.contains_key(s) && (all_live(
            before[s],
            live,
        ) || pruned(before[s], live).ranges.len() > 0)) && (after.contains_key(s) ==> after[s]
            == pruned(before[s], live))
}

/// The ranges that a commit adds, by stream. Of two ranges of one stream the later one
/// counts.
pub open spec fn request_ranges(object_id: u64, ranges: Seq<ObjectStreamRange>) -> Map<
    u64,
    Option<RangeIndex>,
>
    decreases ranges.len(),
{
    if ranges.len() == 0 {
        Map::empty()
    } else {
        let r = ranges.last();
        request_ranges(object_id, ranges.drop_last()).insert(
            r.stream_id,
            if object_id != NOOP_OBJECT_ID {
                Some(
                    RangeIndex {
                        start_offset: r.start_offset,
                        end_offset: r.end_offset,
                        object_id,
                    },
                )
            } else {
                None
            },
        )
    }
}

/// The node-local stream range index.
#[derive(Debug)]
pub struct LocalStreamRangeIndexCache {
    node_id: u32,
    compact_num: usize,
    max_index_size: usize,
    streams: BTreeMap<u64, SparseRangeIndex>,
    total_size: usize,
    last_upload_ms: Option<u64>,
    pruned: bool,
}

impl LocalStreamRangeIndexCache {
    /// The index of each stream.
    pub closed spec fn index(&self) -> Map<u64, SparseModel> {
        sparse_models(self.streams@)
    }

    pub closed spec fn node(&self) -> u32 {
        self.node_id
    }

    pub closed spec fn compact_num_spec(&self) -> usize {
        self.compact_num
    }

    pub closed spec fn cap(&self) -> usize {
        self.max_index_size
    }

    pub closed spec fn last_upload(&self) -> Option<u64> {
        self.last_upload_ms
    }

    pub closed spec fn was_pruned(&self) -> bool {
        self.pruned
    }

    /// Everything but the index is the same.
    pub open spec fn same_settings(&self, other: &Self) -> bool {
        &&& self.node() == other.node()
        &&& self.compact_num_spec() == other.compact_num_spec()
        &&& self.cap() == other.cap()
        &&& self.last_upload() == other.last_upload()
        &&& self.was_pruned() == other.was_pruned()
    }

    pub closed spec fn counted(&self) -> bool {
        &&& self.total_size == total_bytes(self.index())
        &&& forall|k: u64| #[trigger] self.streams@.contains_key(k) ==> self.streams@[k].wf()
    }

    /// The total size is that of the streams, and counts in a signed word.
    pub open spec fn wf(&self) -> bool {
        &&& self.counted()
        &&& is_listed(self.index())
        &&& total_bytes(self.index()) <= isize::MAX
        &&& self.compact_num_spec() < usize::MAX
    }

    /// An empty index.
    pub fn new(node_id: u32, compact_num: usize, max_index_size: usize) -> (r: Self)
        requires
            compact_num < usize::MAX,
        ensures
            r.wf(),
            r.index() == Map::<u64, SparseModel>::empty(),
            r.node() == node_id,
            r.compact_num_spec() == compact_num,
            r.cap() == max_index_size,
            r.last_upload() is None,
            !r.was_pruned(),
    {
        proof {
            lemma_total_empty();
        }
        let r = LocalStreamRangeIndexCache {
            node_id,
            compact_num,
            max_index_size,
            streams: BTreeMap::new(),
            total_size: 0,
            last_upload_ms: None,
            pruned: false,
        };
        assert(r.index() =~= Map::empty());
        r
    }

    /// Takes the persisted ranges of a stream in. The stream is not in the index yet.
    pub fn load_stream(&mut self, stream_id: u64, ranges: Vec<RangeIndex>)
        requires
            old(self).wf(),
            !old(self).index().contains_key(stream_id),
            total_bytes(old(self).index()) + ranges@.len() * 40 <= isize::MAX,
        ensures
            final(self).wf(),
            final(self).same_settings(old(self)),
            final(self).index() == old(self).index().insert(
                stream_id,
                SparseModel {
                    compact_num: old(self).compact_num_spec(),
                    ranges: ranges@,
                    evict_index: 0,
                },
            ),
    {
        broadcast use vstd::std_specs::btree::group_btree_axioms;

        let ghost before = self.index();
        proof {
            crate::index::totals::lemma_sum_positive(before, sorted_keys(before));
        }
        let size: usize = ranges.len() * RangeIndex::OBJECT_SIZE;
        let sparse = SparseRangeIndex::with_ranges(self.compact_num, ranges);
        self.total_size = self.total_size + size;
        proof {
            lemma_total_add(before, stream_id, sparse@);
        }
        self.streams.insert(stream_id, sparse);
        assert(self.index() =~= before.insert(stream_id, sparse@));
    }

    pub fn node_id(&self) -> (r: u32)
        ensures
            r == self.node(),
    {
        self.node_id
    }

    pub fn total_size(&self) -> (r: usize)
        requires
            self.wf(),
        ensures
            r == total_bytes(self.index()),
    {
        self.total_size
    }

    pub fn clear(&mut self)
        requires
            old(self).wf(),
        ensures
            final(self).wf(),
            final(self).same_settings(old(self)),
            final(self).index() == Map::<u64, SparseModel>::empty(),
    {
        proof {
            lemma_total_empty();
        }
        self.streams = BTreeMap::new();
        self.total_size = 0;
        assert(self.index() =~= Map::empty());
    }

    fn append_one(&mut self, stream_id: u64, range: RangeIndex)
        requires
            old(self).wf(),
            total_bytes(old(self).index()) + 40 <= isize::MAX,
        ensures
            final(self).wf(),
            final(self).same_settings(old(self)),
            final(self).index() == old(self).index().insert(
                stream_id,
                appended(
                    sparse_of(old(self).index(), stream_id, old(self).compact_num_spec()),
                    range,
                ),
            ),
            total_bytes(final(self).index()) <= total_bytes(old(self).index()) + 40,
    {
        broadcast use vstd::std_specs::btree::group_btree_axioms;

        let ghost before = self.index();
        let mut sparse = match self.streams.remove(&stream_id) {
            Some(s) => {
                proof {
                    lemma_total_covers(before, stream_id);
                }
                s
            },
            None => SparseRangeIndex::new(self.compact_num),
        };
        let ghost was = sparse@;
        assert(was == sparse_of(before, stream_id, self.compact_num));
        proof {
            crate::index::totals::lemma_sum_positive(before, sorted_keys(before));
        }
        let delta: isize = sparse.append(range);
        proof {
            if before.contains_key(stream_id) {
                lemma_total_update(before, stream_id, sparse@);
            } else {
                lemma_total_add(before, stream_id, sparse@);
            }
        }
        self.total_size = (self.total_size as isize + delta) as usize;
        self.streams.insert(stream_id, sparse);
        assert(self.index() =~= before.insert(stream_id, sparse@));
    }

    /// Appends the new ranges of streams, then evicts down to the size cap.
    pub fn append(&mut self, range_index_map: &BTreeMap<u64, Option<RangeIndex>>)
        requires
            old(self).wf(),
            total_bytes(old(self).index()) + sorted_keys(range_index_map@).len() * 40
                <= isize::MAX,
        ensures
            final(self).wf(),
            final(self).same_settings(old(self)),
            fits_cap(
                appended_all(
                    old(self).index(),
                    range_index_map@,
                    sorted_keys(range_index_map@),
                    old(self).compact_num_spec(),
                ),
                final(self).index(),
                old(self).compact_num_spec(),
                old(self).cap() as int,
            ),
    {
        broadcast use vstd::std_specs::btree::group_btree_axioms;

        let ghost start = self.index();
        let keys = tree_keys(range_index_map);
        let mut i: usize = 0;
        assert(keys@.take(0) =~= Seq::empty());
        assert forall|j: int| 0 <= j < keys@.len() implies range_index_map@.contains_key(
            #[trigger] keys@[j],
        ) by {
            assert(keys@.contains(keys@[j]));
        }
        while i < keys.len()
            invariant
                i <= keys@.len(),
                self.wf(),
                self.same_settings(old(self)),
                start == old(self).index(),
                total_bytes(start) + keys@.len() * 40 <= isize::MAX,
                total_bytes(self.index()) <= total_bytes(start) + i * 40,
                forall|j: int|
                    0 <= j < keys@.len() ==> range_index_map@.contains_key(#[trigger] keys@[j]),
                self.index() == appended_all(
                    start,
                    range_index_map@,
                    keys@.take(i as int),
                    old(self).compact_num_spec(),
                ),
            decreases keys@.len() - i,
        {
            broadcast use vstd::std_specs::btree::group_btree_axioms;

            let k: u64 = keys[i];
            proof {
                assert(range_index_map@.contains_key(keys@[i as int]));
                assert(keys@.take(i + 1).drop_last() =~= keys@.take(i as int));
                assert(keys@.take(i + 1).last() == k);
            }
            match range_index_map.get(&k) {
                Some(Some(range)) => {
                    self.append_one(k, *range);
                },
                _ => {},
            }
            i += 1;
        }
        assert(keys@.take(i as int) =~= keys@);
        self.evict_if_necessary();
    }

    /// Evicts one range of a stream. The stream is gone with its last range.
    fn evict_one(&mut self, stream_id: u64)
        requires
            old(self).wf(),
            old(self).index().contains_key(stream_id),
        ensures
            final(self).wf(),
            final(self).same_settings(old(self)),
            ({
                let e = evicted_once(old(self).index()[stream_id]);
                &&& final(self).index() == (if e.ranges.len() == 0 {
                    old(self).index().remove(stream_id)
                } else {
                    old(self).index().insert(stream_id, e)
                })
                &&& total_bytes(final(self).index()) == total_bytes(old(self).index())
                    - index_bytes(old(self).index()[stream_id]) + index_bytes(e)
                &&& sorted_keys(final(self).index()).len() == sorted_keys(
                    old(self).index(),
                ).len() - (if e.ranges.len() == 0 {
                    1int
                } else {
                    0
                })
            }),
    {
        broadcast use vstd::std_specs::btree::group_btree_axioms;

        let ghost before = self.index();
        let mut sparse = match self.streams.remove(&stream_id) {
            Some(s) => s,
            None => {
                assert(false);
                SparseRangeIndex::new(0)
            },
        };
        proof {
            assert(before[stream_id] == sparse@);
            lemma_total_covers(before, stream_id);
        }
        let freed: usize = sparse.evict_once();
        self.total_size = self.total_size - freed;
        if sparse.is_empty() {
            proof {
                lemma_total_remove(before, stream_id);
                assert(self.index() =~= before.remove(stream_id));
            }
        } else {
            proof {
                lemma_total_update(before, stream_id, sparse@);
            }
            self.streams.insert(stream_id, sparse);
            assert(self.index() =~= before.insert(stream_id, sparse@));
        }
    }

    /// Evicts down to the size cap: first from streams that have ranges besides their first
    /// and newest ones, then from all.
    #[verifier::rlimit(50)]
    fn evict_if_necessary(&mut self)
        requires
            old(self).wf(),
        ensures
            final(self).wf(),
            final(self).same_settings(old(self)),
            fits_cap(
                old(self).index(),
                final(self).index(),
                old(self).compact_num_spec(),
                old(self).cap() as int,
            ),
    {
        broadcast use vstd::std_specs::btree::group_btree_axioms;

        if self.total_size <= self.max_index_size {
            return ;
        }
        let ghost start = self.index();
        let ghost mut counts: Map<u64, nat> = Map::new(|s: u64| true, |s: u64| 0nat);
        let mut has_sufficient_index: bool = true;
        let ghost cap = self.max_index_size as int;
        let ghost few_num = self.compact_num;
        let ghost mut rounds: nat = 0;
        proof {
            assert forall|s: u64| #[trigger] start.contains_key(s) implies evicted_times(
                start[s],
                counts[s],
            ) == start[s] by {}
        }
        while self.total_size > self.max_index_size
            invariant
                self.wf(),
                self.same_settings(old(self)),
                start == old(self).index(),
                cap == self.max_index_size,
                few_num == self.compact_num,
                (self.index(), has_sufficient_index) == after_rounds(start, few_num, cap, rounds),
                forall|k: nat|
                    k < rounds ==> total_bytes(#[trigger] after_rounds(start, few_num, cap, k).0)
                        > cap,
                forall|s: u64| #[trigger] counts.contains_key(s),
                is_evicted(start, self.index(), counts),
                has_sufficient_index ==> forall|s: u64| #[trigger]
                    start.contains_key(s) && counts[s] > 0 ==> self.index().contains_key(s)
                        && self.index()[s].ranges.len() >= 1 + self.compact_num,
                !has_sufficient_index ==> forall|s: u64| #[trigger]
                    self.index().contains_key(s) ==> self.index()[s].ranges.len() <= 1
                        + self.compact_num,
                total_bytes(self.index()) > self.max_index_size - 40,
            decreases
                    total_bytes(self.index()) + sorted_keys(self.index()).len(),
                    if has_sufficient_index {
                        1int
                    } else {
                        0
                    },
        {
            broadcast use vstd::std_specs::btree::group_btree_axioms;

            let keys = tree_keys(&self.streams);
            let ghost at_start = self.index();
            let ghost measure = total_bytes(self.index()) + sorted_keys(self.index()).len();
            proof {
                assert(lists_keys(at_start, keys@)) by {
                    assert forall|x: u64| #[trigger] keys@.contains(x) <==> at_start.dom().contains(
                        x,
                    ) by {
                        assert(keys@.contains(x) <==> self.streams@.dom().contains(x));
                    }
                }
                crate::collections::lemma_sorted_keys(at_start, keys@);
                crate::index::totals::lemma_sum_positive(at_start, keys@);
                lemma_total_some(at_start, keys@);
                assert forall|j: int| 0 <= j < keys@.len() implies at_start.contains_key(
                    #[trigger] keys@[j],
                ) by {
                    assert(keys@.contains(keys@[j]));
                }
            }
            let ghost goal = round_from(at_start, keys@, 0, has_sufficient_index, few_num, cap);
            let mut evicted: bool = false;
            let mut i: usize = 0;
            let mut open: bool = true;
            while open && i < keys.len()
                invariant
                    i <= keys@.len(),
                    ascending(keys@),
                    self.wf(),
                    self.same_settings(old(self)),
                    start == old(self).index(),
                    cap == self.max_index_size,
                    few_num == self.compact_num,
                    ({
                        let rest = round_from(
                            self.index(),
                            keys@,
                            i as int,
                            has_sufficient_index,
                            few_num,
                            cap,
                        );
                        if open {
                            goal == (rest.0, evicted || rest.1)
                        } else {
                            goal == (self.index(), true)
                        }
                    }),
                    forall|s: u64| #[trigger] counts.contains_key(s),
                    is_evicted(start, self.index(), counts),
                    open ==> self.total_size > self.max_index_size,
                    !open ==> self.total_size <= self.max_index_size && evicted,
                    open ==> forall|j: int|
                        i <= j < keys@.len() ==> self.index().contains_key(#[trigger] keys@[j]),
                    has_sufficient_index ==> forall|s: u64| #[trigger]
                        start.contains_key(s) && counts[s] > 0 ==> self.index().contains_key(s)
                            && self.index()[s].ranges.len() >= 1 + self.compact_num,
                    !has_sufficient_index ==> forall|s: u64| #[trigger]
                        self.index().contains_key(s) ==> self.index()[s].ranges.len() <= 1
                            + self.compact_num,
                    total_bytes(self.index()) > self.max_index_size - 40,
                    total_bytes(self.index()) + sorted_keys(self.index()).len() <= measure,
                    evicted ==> total_bytes(self.index()) + sorted_keys(self.index()).len()
                        < measure,
                    !evicted ==> self.index() == at_start,
                    !evicted ==> forall|j: int|
                        0 <= j < i ==> has_sufficient_index && at_start[#[trigger] keys@[j]].ranges.len()
                            <= 1 + self.compact_num,
                decreases keys@.len() - i,
            {
                broadcast use vstd::std_specs::btree::group_btree_axioms;

                let id: u64 = keys[i];
                let ghost m = self.index();
                assert(m.contains_key(keys@[i as int]));
                let few: bool = match self.streams.get(&id) {
                    Some(s) => {
                        assert(m[id] == s@);
                        s.len() <= 1 + self.compact_num
                    },
                    None => {
                        assert(false);
                        true
                    },
                };
                if few && has_sufficient_index {
                    proof {
                        if !evicted {
                            assert(at_start[keys@[i as int]].ranges.len() <= 1 + self.compact_num);
                        }
                    }
                } else {
                    self.evict_one(id);
                    evicted = true;
                    proof {
                        assert(self.index() == without_one(m, id));
                        let old_counts = counts;
                        counts = counts.insert(id, (counts[id] + 1) as nat);
                        let e = evicted_once(m[id]);
                        assert(start.contains_key(id));
                        assert(m[id] == evicted_times(start[id], old_counts[id]));
                        assert(evicted_times(start[id], counts[id]) == e);
                        assert forall|s: u64| #[trigger] start.contains_key(s) implies {
                            let e = evicted_times(start[s], counts[s]);
                            if counts[s] > 0 && e.ranges.len() == 0 {
                                !self.index().contains_key(s)
                            } else {
                                self.index().contains_key(s) && self.index()[s] == e
                            }
                        } by {
                            if s != id {
                                assert(counts[s] == old_counts[s]);
                            }
                        }
                        assert forall|s: u64| #[trigger] self.index().contains_key(s) implies
                            start.contains_key(s) by {
                            assert(m.contains_key(s));
                        }
                        if has_sufficient_index {
                            assert(m[id].ranges.len() > 1 + self.compact_num);
                            assert forall|s: u64| #[trigger]
                                start.contains_key(s) && counts[s] > 0 implies
                                self.index().contains_key(s) && self.index()[s].ranges.len() >= 1
                                + self.compact_num by {
                                if s != id {
                                    assert(counts[s] == old_counts[s]);
                                }
                            }
                        } else {
                            assert forall|s: u64| #[trigger] self.index().contains_key(s) implies
                                self.index()[s].ranges.len() <= 1 + self.compact_num by {
                                assert(m.contains_key(s));
                            }
                        }
                        assert forall|j: int| i + 1 <= j < keys@.len() implies
                            self.index().contains_key(#[trigger] keys@[j]) by {
                            assert(m.contains_key(keys@[j]));
                            assert(keys@[i as int] < keys@[j]);
                        }
                    }
                    if self.total_size <= self.max_index_size {
                        open = false;
                    }
                }
                i += 1;
            }
            proof {
                assert(goal == (self.index(), evicted));
                rounds = rounds + 1;
                assert(after_rounds(start, few_num, cap, rounds) == (
                    self.index(),
                    has_sufficient_index && evicted,
                ));
            }
            if !evicted {
                proof {
                    assert(open);
                    assert(has_sufficient_index) by {
                        assert(keys@.len() > 0);
                        assert(at_start[keys@[0]].ranges.len() <= 1 + self.compact_num);
                    }
                    assert forall|s: u64| #[trigger] self.index().contains_key(s) implies
                        self.index()[s].ranges.len() <= 1 + self.compact_num by {
                        assert(keys@.contains(s));
                        let j = choose|j: int| 0 <= j < keys@.len() && keys@[j] == s;
                        assert(at_start[keys@[j]].ranges.len() <= 1 + self.compact_num);
                    }
                }
                has_sufficient_index = false;
            }
        }
        proof {
            assert(after_rounds(start, few_num, cap, rounds).0 == self.index());
            assert(is_evicted_by_rounds(start, self.index(), few_num, cap));
            assert(is_evicted(start, self.index(), counts));
            assert(is_fair(start, self.index(), counts, self.compact_num));
        }
    }

    /// The object that may hold an offset of a stream.
    pub fn search_object_id(&self, stream_id: u64, start_offset: u64) -> (r: Option<u64>)
        requires
            self.wf(),
        ensures
            r == (if self.index().contains_key(stream_id) {
                bisected_object(self.index()[stream_id].ranges, start_offset)
            } else {
                None
            }),
            self.index().contains_key(stream_id) && starts_in_order(
                self.index()[stream_id].ranges,
            ) ==> r == holder(self.index()[stream_id].ranges, start_offset),
    {
        broadcast use vstd::std_specs::btree::group_btree_axioms;

        match self.streams.get(&stream_id) {
            Some(s) => {
                assert(self.index()[stream_id] == s@);
                binary_search_object_id(start_offset, s.ranges())
            },
            None => None,
        }
    }

    /// Compacts one stream. The stream is gone with its last range.
    fn compact_one(
        &mut self,
        stream_id: u64,
        new_range: Option<RangeIndex>,
        ids: &HashSet<u64>,
    )
        requires
            old(self).wf(),
            old(self).index().contains_key(stream_id),
            total_bytes(old(self).index()) + 40 <= isize::MAX,
        ensures
            final(self).wf(),
            final(self).same_settings(old(self)),
            ({
                let c = compacted(old(self).index()[stream_id], new_range, ids@);
                final(self).index() == (if c.ranges.len() == 0 {
                    old(self).index().remove(stream_id)
                } else {
                    old(self).index().insert(stream_id, c)
                })
            }),
            total_bytes(final(self).index()) <= total_bytes(old(self).index()) + 40,
    {
        broadcast use vstd::std_specs::btree::group_btree_axioms;

        let ghost before = self.index();
        let mut sparse = match self.streams.remove(&stream_id) {
            Some(s) => s,
            None => {
                assert(false);
                SparseRangeIndex::new(0)
            },
        };
        proof {
            assert(before[stream_id] == sparse@);
            lemma_total_covers(before, stream_id);
            lemma_compacted_len(sparse@, new_range, ids@);
        }
        let delta: isize = sparse.compact(new_range, ids);
        proof {
            lemma_total_update(before, stream_id, sparse@);
            crate::index::totals::lemma_sum_positive(
                before.insert(stream_id, sparse@),
                sorted_keys(before.insert(stream_id, sparse@)),
            );
        }
        self.total_size = (self.total_size as isize + delta) as usize;
        if sparse.is_empty() {
            proof {
                lemma_total_remove(before, stream_id);
                assert(self.index() =~= before.remove(stream_id));
            }
        } else {
            self.streams.insert(stream_id, sparse);
            assert(self.index() =~= before.insert(stream_id, sparse@));
        }
    }

    /// The streams in ascending order.
    fn stream_ids(&self) -> (r: Vec<u64>)
        requires
            self.wf(),
        ensures
            r@ == sorted_keys(self.index()),
            lists_keys(self.index(), r@),
            ascending(r@),
            forall|j: int| 0 <= j < r@.len() ==> self.index().contains_key(#[trigger] r@[j]),
    {
        let keys = tree_keys(&self.streams);
        proof {
            assert forall|j: int| 0 <= j < keys@.len() implies self.index().contains_key(
                #[trigger] keys@[j],
            ) by {
                assert(keys@.contains(keys@[j]));
            }
            assert(lists_keys(self.index(), keys@)) by {
                assert forall|x: u64| #[trigger]
                    keys@.contains(x) <==> self.index().dom().contains(x) by {
                    assert(keys@.contains(x) <==> self.streams@.dom().contains(x));
                }
            }
            crate::collections::lemma_sorted_keys(self.index(), keys@);
        }
        keys
    }

    /// Replaces the ranges of compacted objects in every stream.
    pub fn compact(
        &mut self,
        range_index_map: &BTreeMap<u64, Option<RangeIndex>>,
        compacted_object_ids: &HashSet<u64>,
    )
        requires
            old(self).wf(),
            total_bytes(old(self).index()) + sorted_keys(old(self).index()).len() * 40
                <= isize::MAX,
        ensures
            final(self).wf(),
            final(self).same_settings(old(self)),
            is_compacted(
                old(self).index(),
                final(self).index(),
                range_index_map@,
                compacted_object_ids@,
            ),
    {
        let ghost start = self.index();
        let ghost ids = compacted_object_ids@;
        let ghost ranges = range_index_map@;
        let keys = self.stream_ids();
        let mut i: usize = 0;
        while i < keys.len()
            invariant
                i <= keys@.len(),
                keys@ == sorted_keys(start),
                lists_keys(start, keys@),
                ascending(keys@),
                self.wf(),
                self.same_settings(old(self)),
                start == old(self).index(),
                ids == compacted_object_ids@,
                ranges == range_index_map@,
                total_bytes(start) + keys@.len() * 40 <= isize::MAX,
                total_bytes(self.index()) <= total_bytes(start) + i * 40,
                forall|j: int|
                    i <= j < keys@.len() ==> self.index().contains_key(#[trigger] keys@[j])
                        && self.index()[keys@[j]] == start[keys@[j]],
                forall|j: int|
                    0 <= j < i ==> {
                        let c = compacted(
                            start[keys@[j]],
                            new_range_of(ranges, keys@[j]),
                            ids,
                        );
                        &&& self.index().contains_key(#[trigger] keys@[j]) <==> c.ranges.len() > 0
                        &&& self.index().contains_key(keys@[j]) ==> self.index()[keys@[j]] == c
                    },
                forall|s: u64| #[trigger] self.index().contains_key(s) ==> start.contains_key(s),
            decreases keys@.len() - i,
        {
            broadcast use vstd::std_specs::btree::group_btree_axioms;

            let id: u64 = keys[i];
            let ghost m = self.index();
            assert(m.contains_key(keys@[i as int]));
            let new_range: Option<RangeIndex> = match range_index_map.get(&id) {
                Some(r) => *r,
                None => None,
            };
            assert(new_range == new_range_of(ranges, id));
            self.compact_one(id, new_range, compacted_object_ids);
            proof {
                assert forall|j: int| i + 1 <= j < keys@.len() implies self.index().contains_key(
                    #[trigger] keys@[j],
                ) && self.index()[keys@[j]] == start[keys@[j]] by {
                    assert(keys@[i as int] < keys@[j]);
                    assert(m.contains_key(keys@[j]));
                }
                assert forall|j: int| 0 <= j < i + 1 implies {
                    let c = compacted(start[keys@[j]], new_range_of(ranges, keys@[j]), ids);
                    &&& self.index().contains_key(#[trigger] keys@[j]) <==> c.ranges.len() > 0
                    &&& self.index().contains_key(keys@[j]) ==> self.index()[keys@[j]] == c
                } by {
                    if j < i {
                        assert(keys@[j] < keys@[i as int]);
                        assert(m.contains_key(keys@[j]) <==> self.index().contains_key(keys@[j]));
                    }
                }
                assert forall|s: u64| #[trigger] self.index().contains_key(s) implies
                    start.contains_key(s) by {
                    assert(m.contains_key(s));
                }
            }
            i += 1;
        }
        proof {
            let after = self.index();
            assert forall|s: u64|
                (#[trigger] after.contains_key(s) <==> start.contains_key(s) && compacted(
                    start[s],
                    new_range_of(ranges, s),
                    ids,
                ).ranges.len() > 0) && (after.contains_key(s) ==> after[s] == compacted(
                    start[s],
                    new_range_of(ranges, s),
                    ids,
                )) by {
                if start.contains_key(s) {
                    assert(keys@.contains(s));
                    let j = choose|j: int| 0 <= j < keys@.len() && keys@[j] == s;
                    assert(keys@[j] == s);
                }
            }
        }
    }

    /// Drops the ranges of dead objects. True, where there were any: the index is to be
    /// persisted.
    pub fn prune(&mut self, live_object_ids: &HashSet<u64>) -> (r: bool)
        requires
            old(self).wf(),
            total_bytes(old(self).index()) + sorted_keys(old(self).index()).len() * 40
                <= isize::MAX,
        ensures
            final(self).wf(),
            final(self).same_settings(old(self)),
            is_pruned(old(self).index(), final(self).index(), live_object_ids@),
            r <==> exists|s: u64| #[trigger]
                old(self).index().contains_key(s) && !all_live(
                    old(self).index()[s],
                    live_object_ids@,
                ),
    {
        let ghost start = self.index();
        let ghost live = live_object_ids@;
        let keys = self.stream_ids();
        let mut any: bool = false;
        let mut i: usize = 0;
        while i < keys.len()
            invariant
                i <= keys@.len(),
                keys@ == sorted_keys(start),
                lists_keys(start, keys@),
                ascending(keys@),
                self.wf(),
                self.same_settings(old(self)),
                start == old(self).index(),
                live == live_object_ids@,
                total_bytes(start) + keys@.len() * 40 <= isize::MAX,
                total_bytes(self.index()) <= total_bytes(start) + i * 40,
                forall|j: int|
                    i <= j < keys@.len() ==> self.index().contains_key(#[trigger] keys@[j])
                        && self.index()[keys@[j]] == start[keys@[j]],
                forall|j: int|
                    0 <= j < i ==> {
                        let c = pruned(start[keys@[j]], live);
                        &&& self.index().contains_key(#[trigger] keys@[j]) <==> all_live(
                            start[keys@[j]],
                            live,
                        ) || c.ranges.len() > 0
                        &&& self.index().contains_key(keys@[j]) ==> self.index()[keys@[j]] == c
                    },
                forall|s: u64| #[trigger] self.index().contains_key(s) ==> start.contains_key(s),
                any <==> exists|j: int| 0 <= j < i && !all_live(start[#[trigger] keys@[j]], live),
            decreases keys@.len() - i,
        {
            let id: u64 = keys[i];
            let ghost m = self.index();
            assert(m.contains_key(keys@[i as int]));
            let invalid = self.dead_ids(id, live_object_ids);
            if invalid.len() > 0 {
                proof {
                    lemma_pruned(start[id], live, invalid@);
                }
                self.compact_one(id, None, &invalid);
                any = true;
                assert(!all_live(start[keys@[i as int]], live));
            } else {
                proof {
                    assert(all_live(start[keys@[i as int]], live));
                }
            }
            proof {
                assert forall|j: int| i + 1 <= j < keys@.len() implies self.index().contains_key(
                    #[trigger] keys@[j],
                ) && self.index()[keys@[j]] == start[keys@[j]] by {
                    assert(keys@[i as int] < keys@[j]);
                    assert(m.contains_key(keys@[j]));
                }
                assert forall|j: int| 0 <= j < i + 1 implies {
                    let c = pruned(start[keys@[j]], live);
                    &&& self.index().contains_key(#[trigger] keys@[j]) <==> all_live(
                        start[keys@[j]],
                        live,
                    ) || c.ranges.len() > 0
                    &&& self.index().contains_key(keys@[j]) ==> self.index()[keys@[j]] == c
                } by {
                    if j < i {
                        assert(keys@[j] < keys@[i as int]);
                        assert(m.contains_key(keys@[j]) <==> self.index().contains_key(keys@[j]));
                    }
                }
                assert forall|s: u64| #[trigger] self.index().contains_key(s) implies
                    start.contains_key(s) by {
                    assert(m.contains_key(s));
                }
            }
            i += 1;
        }
        proof {
            let after = self.index();
            assert forall|s: u64|
                (#[trigger] after.contains_key(s) <==> start.contains_key(s) && (all_live(
                    start[s],
                    live,
                ) || pruned(start[s], live).ranges.len() > 0)) && (after.contains_key(s)
                    ==> after[s] == pruned(start[s], live)) by {
                if start.contains_key(s) {
                    assert(keys@.contains(s));
                    let j = choose|j: int| 0 <= j < keys@.len() && keys@[j] == s;
                    assert(keys@[j] == s);
                }
            }
            if any {
                let j = choose|j: int| 0 <= j < i && !all_live(start[#[trigger] keys@[j]], live);
                assert(keys@.contains(keys@[j]));
                assert(start.contains_key(keys@[j]));
            }
            assert forall|s: u64| #[trigger]
                start.contains_key(s) && !all_live(start[s], live) implies any by {
                assert(keys@.contains(s));
                let j = choose|j: int| 0 <= j < keys@.len() && keys@[j] == s;
                assert(!all_live(start[keys@[j]], live));
            }
        }
        any
    }

    /// The dead objects that a stream has ranges in.
    fn dead_ids(&self, stream_id: u64, live: &HashSet<u64>) -> (r: HashSet<u64>)
        requires
            self.wf(),
            self.index().contains_key(stream_id),
        ensures
            r@.finite(),
            forall|id: u64| #[trigger]
                r@.contains(id) <==> !live@.contains(id) && exists|i: int|
                    0 <= i < self.index()[stream_id].ranges.len() && (
                    #[trigger] self.index()[stream_id].ranges[i]).object_id == id,
            r@.len() == 0 <==> all_live(self.index()[stream_id], live@),
    {
        broadcast use vstd::std_specs::hash::group_hash_axioms;
        broadcast use vstd::std_specs::btree::group_btree_axioms;

        let mut out: HashSet<u64> = HashSet::new();
        let ghost ranges = self.index()[stream_id].ranges;
        match self.streams.get(&stream_id) {
            Some(s) => {
                let list = s.ranges();
                assert(list@ == ranges);
                let mut i: usize = 0;
                while i < list.len()
                    invariant
                        i <= list@.len(),
                        list@ == ranges,
                        out@.finite(),
                        forall|id: u64| #[trigger]
                            out@.contains(id) <==> !live@.contains(id) && exists|j: int|
                                0 <= j < i && (#[trigger] ranges[j]).object_id == id,
                    decreases list@.len() - i,
                {
                    broadcast use vstd::std_specs::hash::group_hash_axioms;

                    let id: u64 = list[i].object_id;
                    let ghost before = out@;
                    if !live.contains(&id) {
                        out.insert(id);
                    }
                    proof {
                        assert forall|x: u64| #[trigger] out@.contains(x) <==> !live@.contains(x)
                            && exists|j: int|
                            0 <= j < i + 1 && (#[trigger] ranges[j]).object_id == x by {
                            if exists|j: int|
                                0 <= j < i + 1 && (#[trigger] ranges[j]).object_id == x {
                                let j = choose|j: int|
                                    0 <= j < i + 1 && (#[trigger] ranges[j]).object_id == x;
                                if j < i {
                                    assert(exists|j: int|
                                        0 <= j < i && (#[trigger] ranges[j]).object_id == x);
                                }
                            }
                            if out@.contains(x) && x == id {
                                assert(ranges[i as int].object_id == x);
                            }
                        }
                    }
                    i += 1;
                }
            },
            None => {
                assert(false);
            },
        }
        proof {
            if out@.len() == 0 {
                assert forall|i: int| 0 <= i < ranges.len() implies live@.contains(
                    (#[trigger] ranges[i]).object_id,
                ) by {
                    let id = ranges[i].object_id;
                    if !live@.contains(id) {
                        assert(out@.contains(id));
                        vstd::set_lib::axiom_is_empty_len0(out@);
                        assert(false);
                    }
                }
            }
            if all_live(self.index()[stream_id], live@) {
                assert(out@ =~= Set::empty());
            }
        }
        out
    }

    /// What a commit adds to the index, by stream. With compacted objects, streams that
    /// were split into objects of their own are named too.
    pub fn range_index_map_from_request(request: &CommitStreamSetObjectRequest) -> (r: BTreeMap<
        u64,
        Option<RangeIndex>,
    >)
        ensures
            forall|s: u64|
                request_ranges(request.object_id, request.stream_ranges@).contains_key(s)
                    ==> #[trigger] r@.contains_key(s) && r@[s] == request_ranges(
                    request.object_id,
                    request.stream_ranges@,
                )[s],
            forall|s: u64|
                !request_ranges(request.object_id, request.stream_ranges@).contains_key(s)
                    && #[trigger] r@.contains_key(s) ==> r@[s] is None,
            forall|s: u64| #[trigger]
                r@.contains_key(s) <==> request_ranges(
                    request.object_id,
                    request.stream_ranges@,
                ).contains_key(s) || (request.compacted_object_ids@.len() > 0 && exists|i: int|
                    0 <= i < request.stream_objects@.len() && (
                    #[trigger] request.stream_objects@[i]).stream_id == s),
    {
        broadcast use vstd::std_specs::btree::group_btree_axioms;

        let mut map: BTreeMap<u64, Option<RangeIndex>> = BTreeMap::new();
        let ghost ranges = request.stream_ranges@;
        let ghost goal = request_ranges(request.object_id, ranges);
        let mut i: usize = 0;
        assert(ranges.take(0) =~= Seq::empty());
        assert(map@ =~= Map::empty());
        while i < request.stream_ranges.len()
            invariant
                i <= request.stream_ranges@.len(),
                ranges == request.stream_ranges@,
                map@ == request_ranges(request.object_id, ranges.take(i as int)),
            decreases request.stream_ranges@.len() - i,
        {
            broadcast use vstd::std_specs::btree::group_btree_axioms;

            proof {
                assert(ranges.take(i + 1).drop_last() =~= ranges.take(i as int));
                assert(ranges.take(i + 1).last() == ranges[i as int]);
            }
            let range = request.stream_ranges[i];
            let new_range: Option<RangeIndex> = if request.object_id != NOOP_OBJECT_ID {
                Some(
                    RangeIndex {
                        start_offset: range.start_offset,
                        end_offset: range.end_offset,
                        object_id: request.object_id,
                    },
                )
            } else {
                None
            };
            map.insert(range.stream_id, new_range);
            i += 1;
        }
        assert(ranges.take(i as int) =~= ranges);
        if request.compacted_object_ids.len() > 0 {
            let ghost objects = request.stream_objects@;
            let mut k: usize = 0;
            while k < request.stream_objects.len()
                invariant
                    k <= request.stream_objects@.len(),
                    objects == request.stream_objects@,
                    forall|s: u64|
                        goal.contains_key(s) ==> #[trigger] map@.contains_key(s) && map@[s]
                            == goal[s],
                    forall|s: u64|
                        !goal.contains_key(s) && #[trigger] map@.contains_key(s) ==> map@[s]
                            is None,
                    forall|s: u64| #[trigger]
                        map@.contains_key(s) <==> goal.contains_key(s) || exists|j: int|
                            0 <= j < k && (#[trigger] objects[j]).stream_id == s,
                decreases request.stream_objects@.len() - k,
            {
                broadcast use vstd::std_specs::btree::group_btree_axioms;

                let id: u64 = request.stream_objects[k].stream_id;
                let ghost before = map@;
                if !map.contains_key(&id) {
                    map.insert(id, None);
                }
                proof {
                    assert forall|s: u64| goal.contains_key(s) implies #[trigger] map@.contains_key(
                        s,
                    ) && map@[s] == goal[s] by {
                        assert(before.contains_key(s));
                    }
                    assert forall|s: u64| #[trigger] map@.contains_key(s) <==> goal.contains_key(s)
                        || exists|j: int|
                        0 <= j < k + 1 && (#[trigger] objects[j]).stream_id == s by {
                        if s == id {
                            assert(objects[k as int].stream_id == s);
                        }
                        if exists|j: int|
                            0 <= j < k + 1 && (#[trigger] objects[j]).stream_id == s {
                            let j = choose|j: int|
                                0 <= j < k + 1 && (#[trigger] objects[j]).stream_id == s;
                            if j < k {
                                assert(before.contains_key(s));
                            }
                        }
                    }
                }
                k += 1;
            }
        }
        map
    }

    /// A stream set object was committed. True, where objects were compacted: the index is
    /// to be persisted.
    pub fn update_index_from_request(&mut self, request: &CommitStreamSetObjectRequest) -> (r: bool)
        requires
            old(self).wf(),
            total_bytes(old(self).index()) + (request.stream_ranges@.len()
                + request.stream_objects@.len() + sorted_keys(old(self).index()).len()) * 40
                <= isize::MAX,
        ensures
            final(self).wf(),
            final(self).same_settings(old(self)),
            r == (request.compacted_object_ids@.len() > 0),
            ({
                let ranges = request_ranges(request.object_id, request.stream_ranges@);
                if r {
                    is_compacted(
                        old(self).index(),
                        final(self).index(),
                        ranges,
                        request.compacted_object_ids@.to_set(),
                    )
                } else {
                    fits_cap(
                        appended_all(
                            old(self).index(),
                            ranges,
                            sorted_keys(ranges),
                            old(self).compact_num_spec(),
                        ),
                        final(self).index(),
                        old(self).compact_num_spec(),
                        old(self).cap() as int,
                    )
                }
            }),
    {
        broadcast use vstd::std_specs::hash::group_hash_axioms;

        let map = Self::range_index_map_from_request(request);
        let ghost ranges = request_ranges(request.object_id, request.stream_ranges@);
        if request.compacted_object_ids.len() == 0 {
            proof {
                assert(map@ =~= ranges);
                lemma_request_keys(request.object_id, request.stream_ranges@);
            }
            self.append(&map);
            return false;
        }
        let mut ids: HashSet<u64> = HashSet::new();
        let ghost list = request.compacted_object_ids@;
        let mut i: usize = 0;
        assert(list.take(0).to_set() =~= Set::empty());
        while i < request.compacted_object_ids.len()
            invariant
                i <= request.compacted_object_ids@.len(),
                list == request.compacted_object_ids@,
                ids@ == list.take(i as int).to_set(),
            decreases request.compacted_object_ids@.len() - i,
        {
            broadcast use vstd::std_specs::hash::group_hash_axioms;

            let id: u64 = request.compacted_object_ids[i];
            proof {
                assert(list.take(i + 1) =~= list.take(i as int).push(id));
                list.take(i as int).lemma_push_to_set_commute(id);
            }
            ids.insert(id);
            i += 1;
        }
        assert(list.take(i as int) =~= list);
        let ghost before = self.index();
        self.compact(&map, &ids);
        proof {
            assert forall|s: u64| new_range_of(map@, s) == #[trigger] new_range_of(ranges, s) by {
                assert(map@.contains_key(s) ==> (ranges.contains_key(s) || map@[s] is None));
            }
            let after = self.index();
            assert(is_compacted(before, after, map@, ids@));
            assert forall|s: u64|
                (#[trigger] after.contains_key(s) <==> before.contains_key(s) && compacted(
                    before[s],
                    new_range_of(ranges, s),
                    ids@,
                ).ranges.len() > 0) && (after.contains_key(s) ==> after[s] == compacted(
                    before[s],
                    new_range_of(ranges, s),
                    ids@,
                )) by {
                assert(new_range_of(map@, s) == new_range_of(ranges, s));
            }
        }
        true
    }

    /// A stream is closed: is the index to be persisted now? At most once per interval.
    pub fn upload_on_stream_close(&mut self, now_ms: u64) -> (r: bool)
        requires
            old(self).wf(),
        ensures
            final(self).wf(),
            final(self).index() == old(self).index(),
            r == !(old(self).last_upload() matches Some(at) && now_ms - at
                <= UPLOAD_ON_STREAM_CLOSE_INTERVAL_MS),
            final(self).last_upload() == (if r {
                Some(now_ms)
            } else {
                old(self).last_upload()
            }),
            final(self).node() == old(self).node(),
            final(self).compact_num_spec() == old(self).compact_num_spec(),
            final(self).cap() == old(self).cap(),
            final(self).was_pruned() == old(self).was_pruned(),
    {
        match self.last_upload_ms {
            Some(at) => {
                if now_ms <= at || now_ms - at <= UPLOAD_ON_STREAM_CLOSE_INTERVAL_MS {
                    return false;
                }
            },
            None => {},
        }
        self.last_upload_ms = Some(now_ms);
        true
    }

    /// The one prune after startup: true for the first call, false for all others.
    pub fn begin_async_prune(&mut self) -> (r: bool)
        requires
            old(self).wf(),
        ensures
            final(self).wf(),
            final(self).index() == old(self).index(),
            r == !old(self).was_pruned(),
            final(self).was_pruned(),
            final(self).node() == old(self).node(),
            final(self).compact_num_spec() == old(self).compact_num_spec(),
            final(self).cap() == old(self).cap(),
            final(self).last_upload() == old(self).last_upload(),
    {
        let first: bool = !self.pruned;
        self.pruned = true;
        first
    }

    /// The streams, to be persisted.
    pub fn streams(&self) -> (r: &BTreeMap<u64, SparseRangeIndex>)
        requires
            self.wf(),
        ensures
            sparse_models(r@) == self.index(),
            forall|k: u64| #[trigger] r@.contains_key(k) ==> r@[k].wf(),
    {
        &self.streams
    }
}

/// A compaction adds at most one range.
proof fn lemma_compacted_len(m: SparseModel, range: Option<RangeIndex>, ids: Set<u64>)
    ensures
        compacted(m, range, ids).ranges.len() <= m.ranges.len() + 1,
{
    let p = |r: RangeIndex| !ids.contains(r.object_id);
    lemma_filter_len(m.ranges, p);
    let kept = not_in(m.ranges, ids);
    if range is Some {
        lemma_slot_bound(kept, range->0.start_offset);
    }
}

proof fn lemma_slot_bound(ranges: Seq<RangeIndex>, start: u64)
    ensures
        0 <= crate::index::sparse::slot_for(ranges, start) <= ranges.len(),
    decreases ranges.len(),
{
    if ranges.len() > 0 && ranges[0].start_offset <= start {
        lemma_slot_bound(ranges.skip(1), start);
    }
}

proof fn lemma_filter_len(ranges: Seq<RangeIndex>, p: spec_fn(RangeIndex) -> bool)
    ensures
        ranges.filter(p).len() <= ranges.len(),
    decreases ranges.len(),
{
    reveal(Seq::filter);
    if ranges.len() > 0 {
        lemma_filter_len(ranges.drop_last(), p);
    }
}

/// Two filters that agree on every range keep the same ranges.
proof fn lemma_filter_same(
    ranges: Seq<RangeIndex>,
    p: spec_fn(RangeIndex) -> bool,
    q: spec_fn(RangeIndex) -> bool,
)
    requires
        forall|i: int| 0 <= i < ranges.len() ==> p(#[trigger] ranges[i]) == q(ranges[i]),
    ensures
        ranges.filter(p) == ranges.filter(q),
    decreases ranges.len(),
{
    reveal(Seq::filter);
    if ranges.len() > 0 {
        let front = ranges.drop_last();
        assert forall|i: int| 0 <= i < front.len() implies p(#[trigger] front[i]) == q(
            front[i],
        ) by {
            assert(p(ranges[i]) == q(ranges[i]));
        }
        lemma_filter_same(front, p, q);
        assert(p(ranges[ranges.len() - 1]) == q(ranges[ranges.len() - 1]));
    }
}

/// Compacting the dead objects away is pruning.
proof fn lemma_pruned(m: SparseModel, live: Set<u64>, dead: Set<u64>)
    requires
        dead.len() > 0,
        forall|id: u64| #[trigger]
            dead.contains(id) <==> !live.contains(id) && exists|i: int|
                0 <= i < m.ranges.len() && (#[trigger] m.ranges[i]).object_id == id,
        !all_live(m, live),
    ensures
        compacted(m, None, dead) == pruned(m, live),
{
    let p = |r: RangeIndex| !dead.contains(r.object_id);
    let q = |r: RangeIndex| live.contains(r.object_id);
    assert forall|i: int| 0 <= i < m.ranges.len() implies p(#[trigger] m.ranges[i]) == q(
        m.ranges[i],
    ) by {
        let id = m.ranges[i].object_id;
        assert(dead.contains(id) <==> !live.contains(id) && exists|i: int|
            0 <= i < m.ranges.len() && (#[trigger] m.ranges[i]).object_id == id);
    }
    lemma_filter_same(m.ranges, p, q);
}

/// A commit names no more streams than it has ranges.
proof fn lemma_request_keys(object_id: u64, ranges: Seq<ObjectStreamRange>)
    ensures
        sorted_keys(request_ranges(object_id, ranges)).len() <= ranges.len(),
        lists_keys(
            request_ranges(object_id, ranges),
            sorted_keys(request_ranges(object_id, ranges)),
        ),
        ascending(sorted_keys(request_ranges(object_id, ranges))),
    decreases ranges.len(),
{
    if ranges.len() == 0 {
        let m = Map::<u64, Option<RangeIndex>>::empty();
        assert(lists_keys(m, Seq::empty()));
        assert(ascending(Seq::<u64>::empty()));
        crate::collections::lemma_sorted_keys(m, Seq::empty());
    } else {
        lemma_request_keys(object_id, ranges.drop_last());
        let before = request_ranges(object_id, ranges.drop_last());
        let k = ranges.last().stream_id;
        let after = request_ranges(object_id, ranges);
        crate::index::totals::lemma_keys_insert(before, k, after[k]);
        assert(after =~= before.insert(k, after[k]));
    }
}

} // verus!

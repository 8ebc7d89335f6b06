//! Per-stream, offset-ordered records within one block of the log cache.
use std::collections::HashMap;
use vstd::prelude::*;

use crate::codec::record::{
    is_batch, rec_base_offset, rec_last_offset, rec_size, StreamRecordBatch, OBJECT_OVERHEAD,
};

verus! {

/// The encoded batches of a list of records.
pub open spec fn record_views(v: Seq<StreamRecordBatch>) -> Seq<Seq<u8>> {
    v.map_values(|r: StreamRecordBatch| r@)
}

/// Copies a part of a list of records.
pub fn copy_records(v: &Vec<StreamRecordBatch>, from: usize, to: usize) -> (r: Vec<
    StreamRecordBatch,
>)
    requires
        from <= to <= v@.len(),
    ensures
        record_views(r@) == record_views(v@).subrange(from as int, to as int),
{
    let mut out: Vec<StreamRecordBatch> = Vec::new();
    let mut i: usize = from;
    while i < to
        invariant
            from <= i <= to <= v@.len(),
            out@.len() == i - from,
            forall|j: int| 0 <= j < out@.len() ==> (#[trigger] out@[j])@ == v@[from + j]@,
        decreases to - i,
    {
        out.push(v[i].clone());
        i += 1;
    }
    assert(record_views(out@) =~= record_views(v@).subrange(from as int, to as int));
    out
}

/// What a stream cache holds.
#[verifier::ext_equal]
pub struct CacheModel {
    pub records: Seq<Seq<u8>>,
    pub start: Option<u64>,
    pub end: Option<u64>,
}

pub open spec fn empty_cache() -> CacheModel {
    CacheModel { records: Seq::empty(), start: None, end: None }
}

/// Every record is a batch, and the range is known exactly where there are records.
pub open spec fn cache_ok(m: CacheModel) -> bool {
    &&& forall|i: int| 0 <= i < m.records.len() ==> is_batch(#[trigger] m.records[i])
    &&& m.start is Some <==> m.records.len() > 0
    &&& m.end is Some <==> m.records.len() > 0
}

/// The batches follow each other without a gap, each ending at or above where it begins.
pub open spec fn is_chained(m: CacheModel) -> bool {
    &&& forall|i: int|
        0 <= i < m.records.len() ==> rec_base_offset(#[trigger] m.records[i]) <= rec_last_offset(
            m.records[i],
        )
    &&& forall|i: int, j: int|
        #![trigger m.records[i], m.records[j]]
        0 <= i && j == i + 1 && j < m.records.len() ==> rec_base_offset(m.records[j])
            == rec_last_offset(m.records[i])
    &&& m.records.len() > 0 ==> {
        &&& m.start == Some(rec_base_offset(m.records[0]))
        &&& m.end == Some(rec_last_offset(m.records.last()))
    }
}

/// The batches follow each other without a gap, and none of them is empty.
pub open spec fn is_continuous(m: CacheModel) -> bool {
    &&& is_chained(m)
    &&& forall|i: int|
        0 <= i < m.records.len() ==> rec_base_offset(#[trigger] m.records[i]) < rec_last_offset(
            m.records[i],
        )
}

/// Offsets never fall along a list without a gap.
pub proof fn lemma_chain_order(m: CacheModel, i: int, j: int)
    requires
        is_chained(m),
        0 <= i <= j < m.records.len(),
    ensures
        i < j ==> rec_last_offset(m.records[i]) <= rec_base_offset(m.records[j]),
        rec_base_offset(m.records[i]) <= rec_base_offset(m.records[j]),
        rec_last_offset(m.records[i]) <= rec_last_offset(m.records[j]),
    decreases j - i,
{
    if i < j {
        lemma_chain_order(m, i, j - 1);
        assert(rec_base_offset(m.records[j - 1]) <= rec_last_offset(m.records[j - 1]));
        assert(rec_base_offset(m.records[j]) == rec_last_offset(m.records[j - 1]));
        assert(rec_base_offset(m.records[j]) <= rec_last_offset(m.records[j]));
    }
}

/// The offset is one of the batch's.
pub open spec fn holds_offset(b: Seq<u8>, offset: u64) -> bool {
    rec_base_offset(b) <= offset < rec_last_offset(b)
}

/// A read from the offset may begin with the batch: it holds the offset, or it begins there
/// and is empty.
pub open spec fn starts_at(b: Seq<u8>, offset: u64) -> bool {
    rec_base_offset(b) == offset || holds_offset(b, offset)
}

/// Whether a cache that starts at `start` can take a record: the offsets that it would
/// span fit 31 bits.
pub open spec fn span_fits(start: u64, record: Seq<u8>) -> bool {
    (rec_last_offset(record) - start) % 0x1_0000_0000_0000_0000 <= i32::MAX
}

/// The first offset once a record was added.
pub open spec fn start_with(m: CacheModel, record: Seq<u8>) -> u64 {
    match m.start {
        Some(s) => s,
        None => rec_base_offset(record),
    }
}

/// The cache takes a record: it begins where the cache ends, and the offsets that the cache
/// would then span fit.
pub open spec fn cache_takes(m: CacheModel, record: Seq<u8>) -> bool {
    &&& m.end matches Some(e) ==> e == rec_base_offset(record)
    &&& span_fits(start_with(m, record), record)
}

/// The cache with a record added at its end.
pub open spec fn with_record(m: CacheModel, record: Seq<u8>) -> CacheModel {
    CacheModel {
        records: m.records.push(record),
        start: Some(start_with(m, record)),
        end: Some(rec_last_offset(record)),
    }
}

/// Bytes of a budget that are left after a record, never below 0.
pub open spec fn budget_after(budget: int, record: Seq<u8>) -> int {
    if budget > rec_size(record) {
        budget - rec_size(record)
    } else {
        0
    }
}

/// Where serving records from `i` on stops: after the first one that reaches `end` or
/// uses up the budget.
pub open spec fn serve_end(records: Seq<Seq<u8>>, i: int, end: u64, budget: int) -> int
    decreases records.len() - i,
{
    if i < 0 || i >= records.len() {
        i
    } else {
        let left = budget_after(budget, records[i]);
        if rec_last_offset(records[i]) >= end || left == 0 {
            i + 1
        } else {
            serve_end(records, i + 1, end, left)
        }
    }
}

/// The position of the batch that holds an offset.
pub open spec fn covering(records: Seq<Seq<u8>>, offset: u64) -> int {
    choose|i: int| 0 <= i < records.len() && holds_offset(#[trigger] records[i], offset)
}

/// What reading `[start, end)` within a byte budget gives: the batches from the one that
/// holds `start` on. Nothing, where `start` is not in the cached range.
pub open spec fn cache_get(m: CacheModel, start: u64, end: u64, budget: int) -> Seq<Seq<u8>> {
    match (m.start, m.end) {
        (Some(s), Some(e)) => if s > start || e <= start {
            Seq::empty()
        } else {
            let i = covering(m.records, start);
            m.records.subrange(i, serve_end(m.records, i, end, budget))
        },
        _ => Seq::empty(),
    }
}

/// What reading `[start, end)` within a byte budget may give where batches can be empty: the
/// batches from one on that the read may begin with. That is the batch that holds `start`, or
/// an empty one in front of it. Nothing, where `start` is not in the cached range.
pub open spec fn is_read(
    m: CacheModel,
    start: u64,
    end: u64,
    budget: int,
    r: Seq<Seq<u8>>,
) -> bool {
    match (m.start, m.end) {
        (Some(s), Some(e)) => if s > start || e <= start {
            r.len() == 0
        } else {
            exists|i: int|
                0 <= i < m.records.len() && starts_at(#[trigger] m.records[i], start) && r
                    == m.records.subrange(i, serve_end(m.records, i, end, budget))
        },
        _ => r.len() == 0,
    }
}

pub proof fn lemma_serve_end(records: Seq<Seq<u8>>, i: int, end: u64, budget: int)
    requires
        0 <= i <= records.len(),
    ensures
        i <= serve_end(records, i, end, budget) <= records.len(),
        i < records.len() ==> i < serve_end(records, i, end, budget),
    decreases records.len() - i,
{
    if i < records.len() {
        let left = budget_after(budget, records[i]);
        if !(rec_last_offset(records[i]) >= end || left == 0) {
            lemma_serve_end(records, i + 1, end, left);
        }
    }
}

/// In a cache without a gap exactly one batch holds an offset of the cached range.
pub proof fn lemma_covering(m: CacheModel, offset: u64)
    requires
        is_chained(m),
        m.start matches Some(s) && s <= offset,
        m.end matches Some(e) && offset < e,
        cache_ok(m),
    ensures
        0 <= covering(m.records, offset) < m.records.len(),
        holds_offset(m.records[covering(m.records, offset)], offset),
        forall|i: int|
            0 <= i < m.records.len() && holds_offset(#[trigger] m.records[i], offset) ==> i
                == covering(m.records, offset),
{
    let i = lemma_find_covering(m, offset, m.records.len() as int);
    assert(holds_offset(m.records[i], offset));
    let c = covering(m.records, offset);
    assert forall|i: int|
        0 <= i < m.records.len() && holds_offset(#[trigger] m.records[i], offset) implies i == c by {
        if i < c {
            lemma_chain_order(m, i, c);
        } else if c < i {
            lemma_chain_order(m, c, i);
        }
    }
}

proof fn lemma_find_covering(m: CacheModel, offset: u64, n: int) -> (i: int)
    requires
        is_chained(m),
        0 < n <= m.records.len(),
        rec_base_offset(m.records[0]) <= offset < rec_last_offset(m.records[n - 1]),
    ensures
        0 <= i < n,
        holds_offset(m.records[i], offset),
    decreases n,
{
    if rec_base_offset(m.records[n - 1]) <= offset {
        n - 1
    } else {
        assert(n > 1);
        assert(rec_base_offset(m.records[n - 1]) == rec_last_offset(m.records[n - 2]));
        lemma_find_covering(m, offset, n - 1)
    }
}

/// What is in front of the last record of a cache without a gap has none either.
proof fn lemma_front_chained(m: CacheModel, record: Seq<u8>)
    requires
        cache_ok(m),
        cache_takes(m, record),
        is_chained(with_record(m, record)),
    ensures
        is_chained(m),
{
    let n = with_record(m, record);
    assert forall|i: int| 0 <= i < m.records.len() implies rec_base_offset(#[trigger] m.records[i])
        <= rec_last_offset(m.records[i]) by {
        assert(n.records[i] == m.records[i]);
    }
    assert forall|i: int, j: int|
        #![trigger m.records[i], m.records[j]]
        0 <= i && j == i + 1 && j < m.records.len() implies rec_base_offset(m.records[j])
        == rec_last_offset(m.records[i]) by {
        assert(n.records[i] == m.records[i] && n.records[j] == m.records[j]);
    }
    if m.records.len() > 0 {
        let k = m.records.len() - 1;
        assert(n.records[0] == m.records[0]);
        assert(n.records[k] == m.records.last());
        assert(n.records[k + 1] == record);
    }
}

/// A record that does not end below where it begins leaves no gap in the cache that takes it.
pub proof fn law_taken_record_keeps_chain(m: CacheModel, record: Seq<u8>)
    requires
        cache_ok(m),
        is_chained(m),
        cache_takes(m, record),
        rec_base_offset(record) <= rec_last_offset(record),
    ensures
        is_chained(with_record(m, record)),
{
    let n = with_record(m, record);
    assert forall|i: int, j: int|
        #![trigger n.records[i], n.records[j]]
        0 <= i && j == i + 1 && j < n.records.len() implies rec_base_offset(n.records[j])
        == rec_last_offset(n.records[i]) by {
        if j < m.records.len() {
            assert(m.records[i] == n.records[i] && m.records[j] == n.records[j]);
        } else {
            assert(m.records.last() == n.records[i]);
        }
    }
    assert forall|i: int| 0 <= i < n.records.len() implies rec_base_offset(#[trigger] n.records[i])
        <= rec_last_offset(n.records[i]) by {
        if i < m.records.len() {
            assert(m.records[i] == n.records[i]);
        }
    }
    if m.records.len() > 0 {
        assert(n.records[0] == m.records[0]);
    }
}

/// A record that is not empty keeps the cache that takes it continuous.
pub proof fn law_taken_record_keeps_continuity(m: CacheModel, record: Seq<u8>)
    requires
        cache_ok(m),
        is_continuous(m),
        cache_takes(m, record),
        rec_base_offset(record) < rec_last_offset(record),
    ensures
        is_continuous(with_record(m, record)),
{
    law_taken_record_keeps_chain(m, record);
    let n = with_record(m, record);
    assert forall|i: int| 0 <= i < n.records.len() implies rec_base_offset(#[trigger] n.records[i])
        < rec_last_offset(n.records[i]) by {
        if i < m.records.len() {
            assert(m.records[i] == n.records[i]);
        }
    }
}

/// Records of one stream, with hints at which record the next read may start.
#[derive(Debug)]
pub struct StreamCache {
    records: Vec<StreamRecordBatch>,
    start_offset: Option<u64>,
    end_offset: Option<u64>,
    offset_index_map: HashMap<u64, (usize, u32)>,
}

impl StreamCache {
    pub closed spec fn model(&self) -> CacheModel {
        CacheModel {
            records: record_views(self.records@),
            start: self.start_offset,
            end: self.end_offset,
        }
    }

    pub closed spec fn wf(&self) -> bool {
        &&& cache_ok(self.model())
        &&& forall|o: u64| #[trigger]
            self.offset_index_map@.contains_key(o) ==> self.offset_index_map@[o].0
                <= self.records@.len()
        &&& is_chained(self.model()) ==> self.hints_match()
    }

    /// A hint names the record that begins at its offset, or the end of the records where
    /// its offset is their end.
    spec fn hints_match(&self) -> bool {
        forall|o: u64| #[trigger]
            self.offset_index_map@.contains_key(o) ==> {
                let i = self.offset_index_map@[o].0 as int;
                if i < self.records@.len() {
                    rec_base_offset(self.records@[i]@) == o
                } else {
                    self.end_offset == Some(o)
                }
            }
    }

    /// What holds of the model of any cache.
    pub proof fn lemma_wf_ok(&self)
        requires
            self.wf(),
        ensures
            cache_ok(self.model()),
    {
    }

    pub fn new() -> (r: Self)
        ensures
            r.wf(),
            r.model() == empty_cache(),
    {
        let r = StreamCache {
            records: Vec::new(),
            start_offset: None,
            end_offset: None,
            offset_index_map: HashMap::new(),
        };
        assert(r.model().records =~= Seq::empty());
        r
    }

    /// Adds a record at the end. One that leaves a gap, or that would make the cache span too
    /// many offsets, is not taken.
    pub fn add(&mut self, record: StreamRecordBatch) -> (r: bool)
        requires
            old(self).wf(),
            is_batch(record@),
        ensures
            final(self).wf(),
            r <==> cache_takes(old(self).model(), record@),
            final(self).model() == (if r {
                with_record(old(self).model(), record@)
            } else {
                old(self).model()
            }),
    {
        let base: u64 = record.base_offset();
        let last: u64 = record.last_offset();
        match self.end_offset {
            Some(end) => {
                if base != end {
                    return false;
                }
            },
            None => {},
        }
        let start: u64 = match self.start_offset {
            Some(s) => s,
            None => base,
        };
        if last.wrapping_sub(start) > i32::MAX as u64 {
            return false;
        }
        let ghost before = *self;
        if self.start_offset.is_none() {
            self.start_offset = Some(base);
        }
        self.end_offset = Some(last);
        self.records.push(record);
        proof {
            assert(self.model().records =~= before.model().records.push(record@));
            assert forall|o: u64| #[trigger]
                self.offset_index_map@.contains_key(o) implies self.offset_index_map@[o].0
                <= self.records@.len() by {
                assert(before.offset_index_map@.contains_key(o));
            }
            if is_chained(self.model()) {
                lemma_front_chained(before.model(), record@);
                assert forall|o: u64| #[trigger] self.offset_index_map@.contains_key(o) implies ({
                    let i = self.offset_index_map@[o].0 as int;
                    if i < self.records@.len() {
                        rec_base_offset(self.records@[i]@) == o
                    } else {
                        self.end_offset == Some(o)
                    }
                }) by {
                    assert(before.offset_index_map@.contains_key(o));
                    let i = before.offset_index_map@[o].0 as int;
                    if i < before.records@.len() {
                        assert(self.records@[i] == before.records@[i]);
                    } else {
                        assert(before.end_offset == Some(o));
                        assert(self.records@[i] == record);
                    }
                }
            }
        }
        true
    }

    /// The record to start reading at, by hint or by search. A hint is used up.
    fn search_start_index(&mut self, start_offset: u64) -> (r: Option<usize>)
        requires
            old(self).wf(),
        ensures
            final(self).wf(),
            final(self).model() == old(self).model(),
            r matches Some(i) ==> i <= old(self).model().records.len(),
            is_chained(old(self).model()) && (old(self).model().start matches Some(s) && s
                <= start_offset) && (old(self).model().end matches Some(e) && start_offset < e)
                ==> (r matches Some(i) && i < old(self).model().records.len() && starts_at(
                old(self).model().records[i as int],
                start_offset,
            )),
    {
        broadcast use vstd::std_specs::hash::group_hash_axioms;

        let ghost m = self.model();
        let ghost before = *self;
        proof {
            if is_chained(m) && (m.start matches Some(s) && s <= start_offset) && (
            m.end matches Some(e) && start_offset < e) {
                lemma_covering(m, start_offset);
            }
        }
        let hint: Option<(usize, u32)> = match self.offset_index_map.get(&start_offset) {
            Some(h) => Some(*h),
            None => None,
        };
        if let Some((index, count)) = hint {
            if count <= 1 {
                self.offset_index_map.remove(&start_offset);
            } else {
                self.offset_index_map.insert(start_offset, (index, count - 1));
            }
            proof {
                assert(before.offset_index_map@.contains_key(start_offset));
                assert forall|o: u64| #[trigger]
                    self.offset_index_map@.contains_key(o) implies self.offset_index_map@[o].0
                    <= self.records@.len() by {
                    assert(before.offset_index_map@.contains_key(o));
                }
                if is_chained(m) {
                    assert forall|o: u64| #[trigger]
                        self.offset_index_map@.contains_key(o) implies ({
                        let i = self.offset_index_map@[o].0 as int;
                        if i < self.records@.len() {
                            rec_base_offset(self.records@[i]@) == o
                        } else {
                            self.end_offset == Some(o)
                        }
                    }) by {
                        assert(before.offset_index_map@.contains_key(o));
                    }
                    if index < self.records@.len() {
                        assert(m.records[index as int] == self.records@[index as int]@);
                    }
                }
            }
            return Some(index);
        }
        let mut lo: usize = 0;
        let mut hi: usize = self.records.len();
        while lo < hi
            invariant
                lo <= hi <= self.records@.len(),
                *self == before,
                before == *old(self),
                self.model() == m,
                self.wf(),
                is_chained(m) ==> {
                    &&& forall|i: int|
                        0 <= i < lo ==> rec_last_offset(#[trigger] m.records[i]) <= start_offset
                    &&& forall|i: int|
                        hi <= i < m.records.len() ==> start_offset < rec_base_offset(
                            #[trigger] m.records[i],
                        )
                },
                is_chained(m) && (m.start matches Some(s) && s <= start_offset) && (
                m.end matches Some(e) && start_offset < e) ==> {
                    &&& 0 <= covering(m.records, start_offset) < m.records.len()
                    &&& holds_offset(
                        m.records[covering(m.records, start_offset)],
                        start_offset,
                    )
                    &&& forall|i: int|
                        0 <= i < m.records.len() && holds_offset(
                            #[trigger] m.records[i],
                            start_offset,
                        ) ==> i == covering(m.records, start_offset)
                },
            decreases hi - lo,
        {
            let mid: usize = lo + (hi - lo) / 2;
            let record = &self.records[mid];
            proof {
                assert(m.records[mid as int] == record@);
                assert(is_batch(m.records[mid as int]));
                if is_chained(m) {
                    assert forall|i: int| mid <= i < m.records.len() implies rec_base_offset(
                        m.records[mid as int],
                    ) <= rec_base_offset(#[trigger] m.records[i]) by {
                        lemma_chain_order(m, mid as int, i);
                    }
                    assert forall|i: int| 0 <= i <= mid implies rec_last_offset(
                        #[trigger] m.records[i],
                    ) <= rec_last_offset(m.records[mid as int]) by {
                        lemma_chain_order(m, i, mid as int);
                    }
                }
            }
            if start_offset < record.base_offset() {
                hi = mid;
            } else if start_offset >= record.last_offset() {
                lo = mid + 1;
            } else {
                assert(holds_offset(m.records[mid as int], start_offset));
                return Some(mid);
            }
        }
        None
    }

    /// Reads `[start_offset, end_offset)` within a byte budget. The records are a run of
    /// those held; in a continuous cache they are the run that begins with the batch that
    /// holds `start_offset`. Where there are empty batches the run may begin with one of those
    /// at `start_offset`: with which, the reads before decide.
    pub fn get(&mut self, start_offset: u64, end_offset: u64, max_bytes: usize) -> (r: Vec<
        StreamRecordBatch,
    >)
        requires
            old(self).wf(),
        ensures
            final(self).wf(),
            final(self).model() == old(self).model(),
            exists|i: int, j: int|
                0 <= i <= j <= old(self).model().records.len() && record_views(r@)
                    == #[trigger] old(self).model().records.subrange(i, j),
            is_chained(old(self).model()) ==> is_read(
                old(self).model(),
                start_offset,
                end_offset,
                max_bytes as int,
                record_views(r@),
            ),
            is_continuous(old(self).model()) ==> record_views(r@) == cache_get(
                old(self).model(),
                start_offset,
                end_offset,
                max_bytes as int,
            ),
    {
        broadcast use vstd::std_specs::hash::group_hash_axioms;

        let ghost m = self.model();
        let ghost sound = is_chained(m);
        let none: Vec<StreamRecordBatch> = Vec::new();
        proof {
            assert(record_views(none@) =~= m.records.subrange(0, 0));
            assert(record_views(none@) =~= Seq::empty());
        }
        let cache_start: u64 = match self.start_offset {
            Some(s) => s,
            None => {
                return none;
            },
        };
        let cache_end: u64 = match self.end_offset {
            Some(e) => e,
            None => {
                return none;
            },
        };
        if cache_start > start_offset || cache_end <= start_offset {
            return none;
        }
        proof {
            if sound {
                lemma_covering(m, start_offset);
            }
        }
        let start_index: usize = match self.search_start_index(start_offset) {
            Some(i) => i,
            None => {
                return none;
            },
        };
        let total: usize = self.records.len();
        let mut end_index: usize = start_index;
        let mut remaining: usize = max_bytes;
        let mut served_to: Option<u64> = None;
        let mut done: bool = start_index >= total;
        let ghost stop = serve_end(m.records, start_index as int, end_offset, max_bytes as int);
        while !done
            invariant
                start_index <= end_index <= total == self.records@.len(),
                self.model() == m,
                self.wf(),
                !done ==> end_index < total && stop == serve_end(
                    m.records,
                    end_index as int,
                    end_offset,
                    remaining as int,
                ),
                done ==> end_index == stop,
                served_to matches Some(o) ==> 0 < end_index && o == rec_last_offset(
                    m.records[end_index - 1],
                ),
                sound == is_chained(m),
            decreases total - end_index,
        {
            let record = &self.records[end_index];
            proof {
                assert(m.records[end_index as int] == record@);
                assert(is_batch(m.records[end_index as int]));
            }
            let size: usize = record.size();
            remaining = if remaining > size {
                remaining - size
            } else {
                0
            };
            let last: u64 = record.last_offset();
            served_to = Some(last);
            end_index = end_index + 1;
            assert(m.records.len() == total);
            assert(end_index >= total ==> serve_end(
                m.records,
                end_index as int,
                end_offset,
                remaining as int,
            ) == end_index);
            if last >= end_offset || remaining == 0 || end_index >= total {
                done = true;
            }
        }
        let ghost before = *self;
        if let Some(offset) = served_to {
            let count: u32 = match self.offset_index_map.get(&offset) {
                Some(h) => h.1,
                None => 0,
            };
            self.offset_index_map.insert(offset, (end_index, count.wrapping_add(1)));
            proof {
                assert forall|o: u64| #[trigger]
                    self.offset_index_map@.contains_key(o) implies self.offset_index_map@[o].0
                    <= self.records@.len() by {
                    if o != offset {
                        assert(before.offset_index_map@.contains_key(o));
                    }
                }
                if sound {
                    assert forall|o: u64| #[trigger]
                        self.offset_index_map@.contains_key(o) implies ({
                        let i = self.offset_index_map@[o].0 as int;
                        if i < self.records@.len() {
                            rec_base_offset(self.records@[i]@) == o
                        } else {
                            self.end_offset == Some(o)
                        }
                    }) by {
                        if o != offset {
                            assert(before.offset_index_map@.contains_key(o));
                        } else if end_index < total {
                            assert(m.records[end_index as int] == self.records@[end_index as int]@);
                            assert(rec_base_offset(m.records[end_index as int]) == rec_last_offset(
                                m.records[end_index - 1],
                            ));
                        } else {
                            assert(m.records.last() == m.records[end_index - 1]);
                        }
                    }
                }
            }
        }
        proof {
            assert(self.model() == m);
            assert(record_views(self.records@) == m.records);
        }
        copy_records(&self.records, start_index, end_index)
    }

    /// The cached range.
    pub fn range(&self) -> (r: Option<(u64, u64)>)
        requires
            self.wf(),
        ensures
            r == match (self.model().start, self.model().end) {
                (Some(s), Some(e)) => Some((s, e)),
                _ => None,
            },
    {
        match (self.start_offset, self.end_offset) {
            (Some(s), Some(e)) => Some((s, e)),
            _ => None,
        }
    }

    /// Copies of all records.
    pub fn all_records(&self) -> (r: Vec<StreamRecordBatch>)
        ensures
            record_views(r@) == self.model().records,
    {
        let r = copy_records(&self.records, 0, self.records.len());
        assert(record_views(self.records@).subrange(0, self.records@.len() as int)
            =~= record_views(self.records@));
        r
    }

    /// Puts a record in the place of the first one with the base offset, if there is one.
    pub fn replace_record(&mut self, base_offset: u64, decoded: StreamRecordBatch)
        requires
            old(self).wf(),
            is_batch(decoded@),
        ensures
            final(self).wf(),
            final(self).model() == replaced(old(self).model(), base_offset, decoded@),
    {
        let ghost m = self.model();
        let ghost before = *self;
        let mut i: usize = 0;
        while i < self.records.len()
            invariant
                i <= self.records@.len(),
                *self == before,
                before == *old(self),
                is_batch(decoded@),
                self.wf(),
                self.model() == m,
                forall|j: int|
                    0 <= j < i ==> rec_base_offset(#[trigger] m.records[j]) != base_offset,
            decreases self.records@.len() - i,
        {
            proof {
                assert(m.records[i as int] == self.records@[i as int]@);
                assert(is_batch(m.records[i as int]));
            }
            if self.records[i].base_offset() == base_offset {
                let same: bool = decoded.base_offset() == base_offset && decoded.last_offset()
                    == self.records[i].last_offset();
                self.records[i] = decoded;
                if !same {
                    self.offset_index_map.clear();
                }
                proof {
                    lemma_first_base(m.records, base_offset, i as int);
                    let n = self.model();
                    assert(n.records =~= m.records.update(i as int, decoded@));
                    assert forall|a: int| 0 <= a < n.records.len() implies is_batch(
                        #[trigger] n.records[a],
                    ) by {
                        if a != i {
                            assert(n.records[a] == m.records[a]);
                        }
                    }
                    if same && is_chained(n) {
                        lemma_same_offsets(n, m);
                        assert forall|o: u64| #[trigger]
                            self.offset_index_map@.contains_key(o) implies ({
                            let k = self.offset_index_map@[o].0 as int;
                            if k < self.records@.len() {
                                rec_base_offset(self.records@[k]@) == o
                            } else {
                                self.end_offset == Some(o)
                            }
                        }) by {
                            assert(before.offset_index_map@.contains_key(o));
                            let k = before.offset_index_map@[o].0 as int;
                            if k < self.records@.len() {
                                assert(n.records[k] == self.records@[k]@);
                                assert(m.records[k] == before.records@[k]@);
                            }
                        }
                    }
                }
                return ;
            }
            i += 1;
        }
        proof {
            lemma_no_base(m.records, base_offset);
        }
    }

    /// Copies the records of a cache that was merged away, at the end of this one.
    pub fn append_cache(&mut self, other: &StreamCache)
        requires
            old(self).wf(),
            other.wf(),
        ensures
            final(self).model() == joined_caches(old(self).model(), other.model()),
            old(self).model().end == other.model().start ==> final(self).wf(),
    {
        let ghost a = self.model();
        let ghost b = other.model();
        let mut more = copy_records(&other.records, 0, other.records.len());
        proof {
            assert(b.records.subrange(0, b.records.len() as int) =~= b.records);
        }
        let ghost before = self.records@;
        let ghost added = more@;
        self.records.append(&mut more);
        self.end_offset = other.end_offset;
        self.offset_index_map.clear();
        proof {
            assert(self.model().records =~= a.records + b.records);
            let n = self.model();
            if a.end == b.start {
                assert forall|i: int| 0 <= i < n.records.len() implies is_batch(
                    #[trigger] n.records[i],
                ) by {
                    if i < a.records.len() {
                        assert(n.records[i] == a.records[i]);
                    } else {
                        assert(n.records[i] == b.records[i - a.records.len()]);
                    }
                }
            }
        }
    }

    /// A copy without hints.
    pub fn copy_of(other: &StreamCache) -> (r: Self)
        requires
            other.wf(),
        ensures
            r.wf(),
            r.model() == other.model(),
    {
        let records = other.all_records();
        let r = StreamCache {
            records,
            start_offset: other.start_offset,
            end_offset: other.end_offset,
            offset_index_map: HashMap::new(),
        };
        assert(r.model() =~= other.model());
        r
    }

    /// Bytes that the records occupy, in 64-bit wrapping arithmetic.
    pub fn occupied(&self) -> (r: u64)
        requires
            self.wf(),
        ensures
            r == occupied_bytes(self.model().records) % 0x1_0000_0000_0000_0000,
    {
        let ghost m = self.model();
        let mut total: u64 = 0;
        let mut i: usize = 0;
        assert(m.records.take(0) =~= Seq::empty());
        while i < self.records.len()
            invariant
                i <= self.records@.len(),
                self.wf(),
                self.model() == m,
                total == occupied_bytes(m.records.take(i as int)) % 0x1_0000_0000_0000_0000,
            decreases self.records@.len() - i,
        {
            proof {
                assert(m.records[i as int] == self.records@[i as int]@);
                assert(is_batch(m.records[i as int]));
                assert(m.records.take(i + 1).drop_last() =~= m.records.take(i as int));
                assert(m.records.take(i + 1).last() == m.records[i as int]);
            }
            total = total.wrapping_add(self.records[i].occupied_size() as u64);
            i += 1;
        }
        assert(m.records.take(i as int) =~= m.records);
        total
    }
}

/// Bytes that a list of records occupies.
pub open spec fn occupied_bytes(records: Seq<Seq<u8>>) -> int
    decreases records.len(),
{
    if records.len() == 0 {
        0
    } else {
        occupied_bytes(records.drop_last()) + rec_size(records.last()) + OBJECT_OVERHEAD
    }
}

/// The first record with a base offset, the number of records if there is none.
pub open spec fn first_base(records: Seq<Seq<u8>>, base: u64) -> int
    decreases records.len(),
{
    if records.len() == 0 {
        0
    } else {
        let before = first_base(records.drop_last(), base);
        if before < records.len() - 1 || rec_base_offset(records.last()) == base {
            if before < records.len() - 1 {
                before
            } else {
                records.len() - 1
            }
        } else {
            records.len() as int
        }
    }
}

proof fn lemma_first_base(records: Seq<Seq<u8>>, base: u64, i: int)
    requires
        0 <= i < records.len(),
        rec_base_offset(records[i]) == base,
        forall|j: int| 0 <= j < i ==> rec_base_offset(#[trigger] records[j]) != base,
    ensures
        first_base(records, base) == i,
    decreases records.len(),
{
    let rest = records.drop_last();
    if i < rest.len() {
        assert(rest[i] == records[i]);
        assert forall|j: int| 0 <= j < i implies rec_base_offset(#[trigger] rest[j]) != base by {
            assert(rest[j] == records[j]);
        }
        lemma_first_base(rest, base, i);
    } else {
        assert forall|j: int| 0 <= j < rest.len() implies rec_base_offset(#[trigger] rest[j])
            != base by {
            assert(rest[j] == records[j]);
        }
        lemma_no_base(rest, base);
    }
}

proof fn lemma_no_base(records: Seq<Seq<u8>>, base: u64)
    requires
        forall|j: int| 0 <= j < records.len() ==> rec_base_offset(#[trigger] records[j]) != base,
    ensures
        first_base(records, base) == records.len(),
    decreases records.len(),
{
    if records.len() > 0 {
        let rest = records.drop_last();
        assert forall|j: int| 0 <= j < rest.len() implies rec_base_offset(#[trigger] rest[j])
            != base by {
            assert(rest[j] == records[j]);
        }
        lemma_no_base(rest, base);
        assert(rec_base_offset(records[records.len() - 1]) != base);
    }
}

/// The cache with one record put in the place of the first one with a base offset.
pub open spec fn replaced(m: CacheModel, base: u64, decoded: Seq<u8>) -> CacheModel {
    let i = first_base(m.records, base);
    if 0 <= i < m.records.len() {
        CacheModel { records: m.records.update(i, decoded), ..m }
    } else {
        m
    }
}

/// The replacement covers the same offsets.
pub open spec fn same_offsets_at(m: CacheModel, base: u64, decoded: Seq<u8>) -> bool {
    let i = first_base(m.records, base);
    0 <= i < m.records.len() ==> rec_base_offset(decoded) == rec_base_offset(m.records[i])
        && rec_last_offset(decoded) == rec_last_offset(m.records[i])
}

/// Records that cover the same offsets as some without a gap have none either.
proof fn lemma_same_offsets(m: CacheModel, n: CacheModel)
    requires
        is_chained(m),
        m.records.len() == n.records.len(),
        m.start == n.start,
        m.end == n.end,
        forall|a: int|
            0 <= a < n.records.len() ==> rec_base_offset(#[trigger] n.records[a])
                == rec_base_offset(m.records[a]) && rec_last_offset(n.records[a])
                == rec_last_offset(m.records[a]),
    ensures
        is_chained(n),
{
    assert forall|a: int, b: int|
        #![trigger n.records[a], n.records[b]]
        0 <= a && b == a + 1 && b < n.records.len() implies rec_base_offset(n.records[b])
        == rec_last_offset(n.records[a]) by {
        assert(rec_base_offset(m.records[b]) == rec_last_offset(m.records[a]));
    }
    assert forall|a: int| 0 <= a < n.records.len() implies rec_base_offset(#[trigger] n.records[a])
        <= rec_last_offset(n.records[a]) by {
        assert(rec_base_offset(m.records[a]) <= rec_last_offset(m.records[a]));
    }
    if n.records.len() > 0 {
        let k = n.records.len() - 1;
        assert(rec_base_offset(n.records[0]) == rec_base_offset(m.records[0]));
        assert(rec_last_offset(n.records[k]) == rec_last_offset(m.records[k]));
    }
}

/// A record put in the place of one with the same offsets leaves no gap, and keeps a cache
/// continuous.
pub proof fn law_replacement_keeps_continuity(m: CacheModel, base: u64, decoded: Seq<u8>)
    requires
        is_chained(m),
        same_offsets_at(m, base, decoded),
    ensures
        is_chained(replaced(m, base, decoded)),
        is_continuous(m) ==> is_continuous(replaced(m, base, decoded)),
{
    let n = replaced(m, base, decoded);
    lemma_same_offsets(m, n);
    if is_continuous(m) {
        assert forall|a: int| 0 <= a < n.records.len() implies rec_base_offset(
            #[trigger] n.records[a],
        ) < rec_last_offset(n.records[a]) by {
            assert(rec_base_offset(m.records[a]) < rec_last_offset(m.records[a]));
        }
    }
}

/// Two caches of a stream, one after the other.
pub open spec fn joined_caches(a: CacheModel, b: CacheModel) -> CacheModel {
    CacheModel { records: a.records + b.records, start: a.start, end: b.end }
}

pub proof fn lemma_joined_chained(a: CacheModel, b: CacheModel)
    requires
        cache_ok(a),
        cache_ok(b),
        is_chained(a),
        is_chained(b),
        a.end == b.start,
    ensures
        is_chained(joined_caches(a, b)),
{
    let n = joined_caches(a, b);
    let k = a.records.len();
    assert forall|i: int, j: int|
        #![trigger n.records[i], n.records[j]]
        0 <= i && j == i + 1 && j < n.records.len() implies rec_base_offset(n.records[j])
        == rec_last_offset(n.records[i]) by {
        if j < k {
            assert(n.records[i] == a.records[i] && n.records[j] == a.records[j]);
        } else if i >= k {
            assert(n.records[i] == b.records[i - k] && n.records[j] == b.records[j - k]);
        } else {
            assert(n.records[i] == a.records.last());
            assert(n.records[j] == b.records[0]);
        }
    }
    assert forall|i: int| 0 <= i < n.records.len() implies rec_base_offset(#[trigger] n.records[i])
        <= rec_last_offset(n.records[i]) by {
        if i < k {
            assert(n.records[i] == a.records[i]);
        } else {
            assert(n.records[i] == b.records[i - k]);
        }
    }
    if n.records.len() > 0 {
        if k > 0 {
            assert(n.records[0] == a.records[0]);
            assert(b.records.len() > 0);
            assert(n.records.last() == b.records.last());
        }
    }
}

/// What a read returns begins with the batch that holds the start offset, has no gap, and
/// reaches the end offset unless the budget or the cache ends before.
pub proof fn law_cache_get_is_continuous(m: CacheModel, start: u64, end: u64, budget: int)
    requires
        cache_ok(m),
        is_continuous(m),
        cache_get(m, start, end, budget).len() > 0,
    ensures
        ({
            let r = cache_get(m, start, end, budget);
            &&& holds_offset(r[0], start)
            &&& forall|i: int, j: int|
                #![trigger r[i], r[j]]
                0 <= i && j == i + 1 && j < r.len() ==> rec_base_offset(r[j]) == rec_last_offset(
                    r[i],
                )
        }),
{
    lemma_covering(m, start);
    let i = covering(m.records, start);
    lemma_serve_end(m.records, i, end, budget);
    let e = serve_end(m.records, i, end, budget);
    let r = cache_get(m, start, end, budget);
    assert(r[0] == m.records[i]);
    assert forall|a: int, b: int|
        #![trigger r[a], r[b]]
        0 <= a && b == a + 1 && b < r.len() implies rec_base_offset(r[b]) == rec_last_offset(r[a]) by {
        assert(r[a] == m.records[i + a] && r[b] == m.records[i + b]);
    }
}

} // verus!

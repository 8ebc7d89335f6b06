//! Uncached reads of committed objects.
//!
//! Objects are resolved through the metadata plane and their data blocks fetched directly.
//! Every read reports a block cache miss.
use vstd::prelude::*;

use crate::api::{CacheAccessType, ReadDataBlock};
use crate::cache::held::payload_bytes;
use crate::cache::stream_cache::{budget_after, record_views};
use crate::codec::record::{
    is_batch, rec_base_offset, rec_last_offset, rec_size, rec_stream_id, StreamRecordBatch,
};

verus! {

/// How many objects are asked for at a time.
pub const DIRECT_OBJECT_STEP: usize = 4;

/// An uncached read so far.
#[verifier::ext_equal]
pub struct DirectModel {
    pub stream_id: u64,
    pub end: u64,
    pub next_start: u64,
    pub remaining: int,
    pub records: Seq<Seq<u8>>,
    /// Nothing more is read.
    pub ended: bool,
}

/// The record is of no use: of another stream, or below the next offset.
pub open spec fn is_skipped(m: DirectModel, record: Seq<u8>) -> bool {
    rec_stream_id(record) != m.stream_id || rec_last_offset(record) <= m.next_start
}

/// The read after one record of a block.
pub open spec fn took_record(m: DirectModel, record: Seq<u8>) -> DirectModel {
    if m.ended || is_skipped(m, record) {
        m
    } else if rec_base_offset(record) >= m.end {
        DirectModel { ended: true, ..m }
    } else {
        let left = budget_after(m.remaining, record);
        DirectModel {
            next_start: rec_last_offset(record),
            remaining: left,
            records: m.records.push(record),
            ended: left == 0,
            ..m
        }
    }
}

/// The read after the records of a block.
pub open spec fn took_records(m: DirectModel, records: Seq<Seq<u8>>) -> DirectModel
    decreases records.len(),
{
    if records.len() == 0 {
        m
    } else {
        took_record(took_records(m, records.drop_last()), records.last())
    }
}

/// An uncached read of a range.
#[derive(Debug)]
pub struct DirectRead {
    stream_id: u64,
    end_offset: u64,
    next_start: u64,
    remaining: usize,
    records: Vec<StreamRecordBatch>,
    ended: bool,
}

impl View for DirectRead {
    type V = DirectModel;

    closed spec fn view(&self) -> DirectModel {
        DirectModel {
            stream_id: self.stream_id,
            end: self.end_offset,
            next_start: self.next_start,
            remaining: self.remaining as int,
            records: record_views(self.records@),
            ended: self.ended,
        }
    }
}

impl DirectRead {
    pub fn new(stream_id: u64, start_offset: u64, end_offset: u64, max_bytes: usize) -> (r: Self)
        ensures
            r@ == (DirectModel {
                stream_id,
                end: end_offset,
                next_start: start_offset,
                remaining: max_bytes as int,
                records: Seq::empty(),
                ended: false,
            }),
    {
        let r = DirectRead {
            stream_id,
            end_offset,
            next_start: start_offset,
            remaining: max_bytes,
            records: Vec::new(),
            ended: false,
        };
        assert(r@.records =~= Seq::empty());
        r
    }

    /// More objects are to be asked for, from the next offset on.
    pub fn wants_objects(&self) -> (r: bool)
        ensures
            r == (!self@.ended && self@.next_start < self@.end && self@.remaining > 0),
    {
        !self.ended && self.next_start < self.end_offset && self.remaining > 0
    }

    pub fn next_start(&self) -> (r: u64)
        ensures
            r == self@.next_start,
    {
        self.next_start
    }

    pub fn remaining(&self) -> (r: usize)
        ensures
            r == self@.remaining,
    {
        self.remaining
    }

    /// Takes the records of a data block. False, where nothing more is to be read.
    pub fn take_block(&mut self, records: &Vec<StreamRecordBatch>) -> (r: bool)
        requires
            forall|i: int| 0 <= i < records@.len() ==> is_batch((#[trigger] records@[i])@),
        ensures
            final(self)@ == took_records(old(self)@, record_views(records@)),
            r == !final(self)@.ended,
    {
        let ghost views = record_views(records@);
        let ghost start = self@;
        let mut i: usize = 0;
        assert(views.take(0) =~= Seq::empty());
        while i < records.len()
            invariant
                i <= records@.len(),
                views == record_views(records@),
                forall|i: int| 0 <= i < records@.len() ==> is_batch((#[trigger] records@[i])@),
                self@ == took_records(start, views.take(i as int)),
            decreases records@.len() - i,
        {
            proof {
                assert(is_batch(records@[i as int]@));
                assert(views.take(i + 1).drop_last() =~= views.take(i as int));
                assert(views.take(i + 1).last() == records@[i as int]@);
            }
            let record = &records[i];
            let ghost prior = self.records@;
            if self.ended || record.stream_id() != self.stream_id || record.last_offset()
                <= self.next_start {
            } else if record.base_offset() >= self.end_offset {
                self.ended = true;
            } else {
                self.next_start = record.last_offset();
                let size: usize = record.size();
                self.remaining = if self.remaining > size {
                    self.remaining - size
                } else {
                    0
                };
                self.records.push(record.clone());
                assert(record_views(self.records@) =~= record_views(prior).push(record@));
                if self.remaining == 0 {
                    self.ended = true;
                }
            }
            i += 1;
        }
        assert(views.take(i as int) =~= views);
        !self.ended
    }

    /// The blocks of an object were read. False, where nothing more is to be read.
    pub fn after_object(&mut self) -> (r: bool)
        ensures
            final(self)@ == (DirectModel {
                ended: old(self)@.ended || old(self)@.next_start >= old(self)@.end,
                ..old(self)@
            }),
            r == !final(self)@.ended,
    {
        if self.next_start >= self.end_offset {
            self.ended = true;
        }
        !self.ended
    }

    /// The objects of one round were read, from `round_start` on. A round of no objects, or
    /// one that made no progress, is the last one.
    pub fn after_round(&mut self, round_start: u64)
        ensures
            final(self)@ == (DirectModel {
                ended: old(self)@.ended || old(self)@.next_start == round_start,
                ..old(self)@
            }),
    {
        if self.next_start == round_start {
            self.ended = true;
        }
    }

    /// What was read.
    pub fn finish(self) -> (r: ReadDataBlock)
        ensures
            record_views(r.records@) == self@.records,
            r.cache_access == CacheAccessType::BlockCacheMiss,
    {
        ReadDataBlock { records: self.records, cache_access: CacheAccessType::BlockCacheMiss }
    }
}

/// Records of an uncached read: of the stream, below the end, each one beyond the one
/// before it.
pub open spec fn is_progress(m: DirectModel, start: u64) -> bool {
    &&& forall|i: int|
        0 <= i < m.records.len() ==> rec_stream_id(#[trigger] m.records[i]) == m.stream_id
            && rec_base_offset(m.records[i]) < m.end && rec_last_offset(m.records[i]) > start
    &&& forall|i: int, j: int|
        #![trigger m.records[i], m.records[j]]
        0 <= i < j < m.records.len() ==> rec_last_offset(m.records[i]) < rec_last_offset(
            m.records[j],
        )
    &&& forall|i: int|
        0 <= i < m.records.len() ==> rec_last_offset(#[trigger] m.records[i]) <= m.next_start
    &&& m.next_start >= start
}

/// Whatever blocks come in, an uncached read only takes records of its stream that end
/// beyond all it has taken before, and none that begins at or above its end.
pub proof fn law_direct_read_progresses(m: DirectModel, start: u64, records: Seq<Seq<u8>>)
    requires
        is_progress(m, start),
    ensures
        is_progress(took_records(m, records), start),
    decreases records.len(),
{
    if records.len() > 0 {
        law_direct_read_progresses(m, start, records.drop_last());
        lemma_stream_kept(m, records.drop_last());
        let before = took_records(m, records.drop_last());
        let r = records.last();
        let after = took_record(before, r);
        if !before.ended && !is_skipped(before, r) && rec_base_offset(r) < before.end {
            assert(after.records == before.records.push(r));
            assert forall|i: int| 0 <= i < after.records.len() implies rec_stream_id(
                #[trigger] after.records[i],
            ) == m.stream_id && rec_base_offset(after.records[i]) < after.end && rec_last_offset(
                after.records[i],
            ) > start && rec_last_offset(after.records[i]) <= after.next_start by {
                if i < before.records.len() {
                    assert(after.records[i] == before.records[i]);
                }
            }
            assert forall|i: int, j: int|
                #![trigger after.records[i], after.records[j]]
                0 <= i < j < after.records.len() implies rec_last_offset(after.records[i])
                < rec_last_offset(after.records[j]) by {
                assert(after.records[i] == before.records[i]);
                if j < before.records.len() {
                    assert(after.records[j] == before.records[j]);
                }
            }
        }
    }
}

proof fn lemma_stream_kept(m: DirectModel, records: Seq<Seq<u8>>)
    ensures
        took_records(m, records).stream_id == m.stream_id,
        took_records(m, records).end == m.end,
    decreases records.len(),
{
    if records.len() > 0 {
        lemma_stream_kept(m, records.drop_last());
    }
}

/// A record is taken exactly where the read goes on and it is of the stream, ends beyond what
/// was read, and begins below the end. The read ends with the first record of the stream that
/// begins at or above its end, or that uses up the budget.
pub proof fn law_direct_read_takes_what_comes_next(m: DirectModel, record: Seq<u8>)
    requires
        m.remaining >= 0,
    ensures
        ({
            let r = took_records(m, seq![record]);
            let due = !m.ended && rec_stream_id(record) == m.stream_id && rec_last_offset(record)
                > m.next_start;
            let taken = due && rec_base_offset(record) < m.end;
            &&& taken ==> {
                &&& r.records == m.records.push(record)
                &&& r.next_start == rec_last_offset(record)
                &&& r.remaining == (if m.remaining > rec_size(record) {
                    m.remaining - rec_size(record)
                } else {
                    0
                })
                &&& r.ended <==> m.remaining <= rec_size(record)
            }
            &&& !taken ==> {
                &&& r.records == m.records
                &&& r.next_start == m.next_start
                &&& r.remaining == m.remaining
                &&& r.ended <==> m.ended || due
            }
        }),
{
    assert(seq![record].drop_last() =~= Seq::empty());
    assert(took_records(m, Seq::empty()) == m);
    assert(seq![record].last() == record);
}

/// Blocks are read one after the other: the order in which records are handed over is all that
/// counts.
pub proof fn law_direct_read_of_parts(m: DirectModel, a: Seq<Seq<u8>>, b: Seq<Seq<u8>>)
    ensures
        took_records(m, a + b) == took_records(took_records(m, a), b),
    decreases b.len(),
{
    if b.len() == 0 {
        assert(a + b =~= a);
    } else {
        assert((a + b).drop_last() =~= a + b.drop_last());
        law_direct_read_of_parts(m, a, b.drop_last());
    }
}

/// What a read has taken keeps its budget: all but the last record are below it.
pub proof fn law_direct_read_keeps_budget(
    m: DirectModel,
    records: Seq<Seq<u8>>,
    max_bytes: int,
)
    requires
        max_bytes > 0,
        m.records.len() == 0,
        m.remaining == max_bytes,
        !m.ended,
    ensures
        ({
            let r = took_records(m, records);
            &&& r.remaining == (if max_bytes > payload_bytes(r.records) {
                max_bytes - payload_bytes(r.records)
            } else {
                0
            })
            &&& payload_bytes(r.records) >= 0
            &&& r.records.len() > 0 ==> payload_bytes(r.records.drop_last()) < max_bytes
            &&& payload_bytes(r.records) >= max_bytes ==> r.ended
        }),
    decreases records.len(),
{
    if records.len() == 0 {
        assert(payload_bytes(m.records) == 0);
    } else {
        let front = records.drop_last();
        law_direct_read_keeps_budget(m, front, max_bytes);
        let before = took_records(m, front);
        let record = records.last();
        assert(before.records.push(record).drop_last() =~= before.records);
    }
}

} // verus!

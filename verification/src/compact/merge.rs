//! How a group of stream objects becomes one: by copying their live data and regrouping
//! their index, or by linking them into a composite object.
use vstd::prelude::*;

use crate::compact::plan::CompactOperations;
use crate::compact::stream_compactor::{
    end_offset_of, first_offset, last_offset, start_offset_of, CompactionLevel, StreamView,
    DEFAULT_DATA_BLOCK_GROUP_SIZE_THRESHOLD, MAX_OBJECT_SIZE, MINOR_COMPACTION_SIZE_THRESHOLD,
    MINOR_V1_COMPACTION_SIZE_THRESHOLD,
};
use crate::manager::CompactStreamObjectRequest;
use crate::object::{
    DataBlockIndex, S3ObjectMetadata, NOOP_OBJECT_ID, NOOP_OFFSET, NO_BLOCK_ID,
};

verus! {

/// Settings of per-stream object compaction.
#[derive(Debug, Clone, Copy, PartialEq, Eq, Structural)]
pub struct StreamObjectCompactor {
    pub max_stream_object_size: u64,
    pub data_block_group_size_threshold: u64,
    pub minor_v1_compaction_threshold: u64,
    pub major_v1_skip_small_object: bool,
}

impl StreamObjectCompactor {
    pub fn new(max_stream_object_size: u64) -> (r: Self)
        ensures
            r == (StreamObjectCompactor {
                max_stream_object_size: if max_stream_object_size <= MAX_OBJECT_SIZE {
                    max_stream_object_size
                } else {
                    MAX_OBJECT_SIZE
                },
                data_block_group_size_threshold: DEFAULT_DATA_BLOCK_GROUP_SIZE_THRESHOLD,
                minor_v1_compaction_threshold: MINOR_V1_COMPACTION_SIZE_THRESHOLD,
                major_v1_skip_small_object: false,
            }),
    {
        StreamObjectCompactor {
            max_stream_object_size: if max_stream_object_size <= MAX_OBJECT_SIZE {
                max_stream_object_size
            } else {
                MAX_OBJECT_SIZE
            },
            data_block_group_size_threshold: DEFAULT_DATA_BLOCK_GROUP_SIZE_THRESHOLD,
            minor_v1_compaction_threshold: MINOR_V1_COMPACTION_SIZE_THRESHOLD,
            major_v1_skip_small_object: false,
        }
    }

    pub fn with_major_v1_skip_small_object(self, skip: bool) -> (r: Self)
        ensures
            r == (StreamObjectCompactor { major_v1_skip_small_object: skip, ..self }),
    {
        StreamObjectCompactor { major_v1_skip_small_object: skip, ..self }
    }

    /// Largest group that a level makes.
    pub fn max_group_size(&self, level: CompactionLevel) -> (r: u64)
        requires
            level.merges_groups(),
        ensures
            r == match level {
                CompactionLevel::Minor => MINOR_COMPACTION_SIZE_THRESHOLD,
                CompactionLevel::MinorV1 => self.minor_v1_compaction_threshold,
                _ => self.max_stream_object_size,
            },
    {
        match level {
            CompactionLevel::Minor => MINOR_COMPACTION_SIZE_THRESHOLD,
            CompactionLevel::MinorV1 => self.minor_v1_compaction_threshold,
            _ => self.max_stream_object_size,
        }
    }

    /// Smallest plain object that `MajorV1` takes.
    pub fn min_major_v1_size(&self) -> (r: u64)
        ensures
            r == (if self.major_v1_skip_small_object {
                self.minor_v1_compaction_threshold
            } else {
                0
            }),
    {
        if self.major_v1_skip_small_object {
            self.minor_v1_compaction_threshold
        } else {
            0
        }
    }
}

/// The index of a merged object while it is made: the entries so far, the bytes that they
/// and the open entry cover, the open entry, and where the merged object begins.
#[verifier::ext_equal]
pub struct MergeModel {
    pub indexes: Seq<DataBlockIndex>,
    pub position: int,
    pub open_start: int,
    pub open_position: int,
    pub open_size: int,
    pub open_records: int,
    pub open_end: int,
    pub start_offset: int,
}

/// The open entry.
pub open spec fn open_index(stream_id: u64, m: MergeModel) -> DataBlockIndex {
    DataBlockIndex {
        block_id: NO_BLOCK_ID,
        stream_id,
        start_offset: m.open_start as u64,
        end_offset_delta: (m.open_end - m.open_start) as u32,
        record_count: m.open_records as u32,
        start_position: m.open_position as u64,
        size: (m.open_size % 0x1_0000_0000) as u32,
    }
}

/// The entry cannot be joined by the next block: it holds no bytes yet, or would get too
/// large, hold too many records or span too many offsets.
pub open spec fn entry_is_cut(threshold: u64, m: MergeModel, e: DataBlockIndex) -> bool {
    ||| m.open_size == 0
    ||| m.open_size + e.size > threshold
    ||| m.open_records + e.record_count > i32::MAX
    ||| e.end() - m.open_start > i32::MAX
}

/// A block joins the merged index. A block that ends at or below `trim` is left out, and
/// the merged object begins no earlier than its end.
pub open spec fn merge_step(
    stream_id: u64,
    trim: u64,
    threshold: u64,
    m: MergeModel,
    e: DataBlockIndex,
) -> MergeModel {
    if e.end() <= trim {
        MergeModel { start_offset: e.end(), ..m }
    } else if entry_is_cut(threshold, m, e) {
        MergeModel {
            indexes: if m.open_size != 0 {
                m.indexes.push(open_index(stream_id, m))
            } else {
                m.indexes
            },
            position: m.position + e.size,
            open_start: e.start_offset as int,
            open_position: m.position,
            open_size: e.size as int,
            open_records: e.record_count as int,
            open_end: e.end(),
            start_offset: m.start_offset,
        }
    } else {
        MergeModel {
            indexes: m.indexes,
            position: m.position + e.size,
            open_start: m.open_start,
            open_position: m.open_position,
            open_size: m.open_size + e.size,
            open_records: m.open_records + e.record_count,
            open_end: e.end(),
            start_offset: m.start_offset,
        }
    }
}

/// The blocks of an object join the merged index.
pub open spec fn merge_blocks(
    stream_id: u64,
    trim: u64,
    threshold: u64,
    m: MergeModel,
    entries: Seq<DataBlockIndex>,
) -> MergeModel
    decreases entries.len(),
{
    if entries.len() == 0 {
        m
    } else {
        merge_step(
            stream_id,
            trim,
            threshold,
            merge_blocks(stream_id, trim, threshold, m, entries.drop_last()),
            entries.last(),
        )
    }
}

/// Where the live data of an object begins: after the last block that is left out.
pub open spec fn live_from(trim: u64, entries: Seq<DataBlockIndex>) -> int
    decreases entries.len(),
{
    if entries.len() == 0 {
        0
    } else if entries.last().end() <= trim {
        entries.last().end_pos()
    } else {
        live_from(trim, entries.drop_last())
    }
}

/// Bytes in the live blocks of an object.
pub open spec fn live_bytes(trim: u64, entries: Seq<DataBlockIndex>) -> int
    decreases entries.len(),
{
    if entries.len() == 0 {
        0
    } else {
        live_bytes(trim, entries.drop_last()) + if entries.last().end() <= trim {
            0
        } else {
            entries.last().size as int
        }
    }
}

pub open spec fn fresh_merge(start_offset: u64) -> MergeModel {
    MergeModel {
        indexes: Seq::empty(),
        position: 0,
        open_start: 0,
        open_position: 0,
        open_size: 0,
        open_records: 0,
        open_end: 0,
        start_offset: start_offset as int,
    }
}

/// The entries of an index that is complete: the open one is closed, if it holds bytes.
pub open spec fn merged_index(stream_id: u64, m: MergeModel) -> Seq<DataBlockIndex> {
    if m.open_size != 0 {
        m.indexes.push(open_index(stream_id, m))
    } else {
        m.indexes
    }
}

/// Blocks that can be merged: within 64 bits, inside the data of their object, and of the live
/// ones none that ends below the start of an earlier live one.
pub open spec fn mergeable(
    trim: u64,
    floor: int,
    entries: Seq<DataBlockIndex>,
    data_block_size: u64,
) -> bool {
    &&& forall|i: int|
        0 <= i < entries.len() ==> {
            &&& (#[trigger] entries[i]).valid()
            &&& entries[i].end_pos() <= data_block_size
            &&& entries[i].end() > trim ==> floor <= entries[i].end()
        }
    &&& forall|i: int, j: int|
        #![trigger entries[i], entries[j]]
        0 <= i <= j < entries.len() && entries[i].end() > trim && entries[j].end() > trim
            ==> entries[i].start_offset <= entries[j].end()
}

/// A physical merge of stream objects while it is carried out.
#[derive(Debug)]
pub struct PhysicalMerge {
    stream: StreamView,
    group_size_threshold: u64,
    indexes: Vec<DataBlockIndex>,
    next_block_position: u64,
    group_start_offset: u64,
    group_start_position: u64,
    group_size: u64,
    group_record_count: u64,
    group_end_offset: u64,
    compacted_start_offset: u64,
    compacted_end_offset: u64,
    data_size: u64,
    object_ids: Vec<u64>,
}

/// A physical merge that was carried out: the index to write, where it goes, and what the
/// new object replaces.
#[derive(Debug)]
pub struct PhysicalMergeEnd {
    pub indexes: Vec<DataBlockIndex>,
    pub index_position: u64,
    /// Bytes copied before the index.
    pub data_size: u64,
    pub start_offset: u64,
    pub end_offset: u64,
    pub source_object_ids: Vec<u64>,
}

impl PhysicalMerge {
    pub closed spec fn stream_id(&self) -> u64 {
        self.stream.stream_id
    }

    pub closed spec fn trim(&self) -> u64 {
        self.stream.start_offset
    }

    pub closed spec fn threshold(&self) -> u64 {
        self.group_size_threshold
    }

    pub closed spec fn model(&self) -> MergeModel {
        MergeModel {
            indexes: self.indexes@,
            position: self.next_block_position as int,
            open_start: self.group_start_offset as int,
            open_position: self.group_start_position as int,
            open_size: self.group_size as int,
            open_records: self.group_record_count as int,
            open_end: self.group_end_offset as int,
            start_offset: self.compacted_start_offset as int,
        }
    }

    /// Bytes copied so far.
    pub closed spec fn copied(&self) -> int {
        self.data_size as int
    }

    /// The objects merged so far.
    pub closed spec fn sources(&self) -> Seq<u64> {
        self.object_ids@
    }

    /// Where the merged object ends.
    pub closed spec fn end_offset(&self) -> u64 {
        self.compacted_end_offset
    }

    pub closed spec fn wf(&self) -> bool {
        &&& self.group_size != 0 ==> {
            &&& 0 <= self.group_end_offset - self.group_start_offset <= u32::MAX
        }
        &&& self.group_record_count <= u32::MAX
        &&& self.group_size <= self.next_block_position
    }

    /// Begins a merge of objects, from the first of them to the last.
    pub fn begin(
        stream: &StreamView,
        first: &S3ObjectMetadata,
        last: &S3ObjectMetadata,
        group_size_threshold: u64,
    ) -> (r: Self)
        ensures
            r.wf(),
            r.stream_id() == stream.stream_id,
            r.trim() == stream.start_offset,
            r.threshold() == group_size_threshold,
            r.model() == fresh_merge(first_offset(first@)),
            r.end_offset() == last_offset(last@),
            r.copied() == 0,
            r.sources() == Seq::<u64>::empty(),
    {
        PhysicalMerge {
            stream: *stream,
            group_size_threshold,
            indexes: Vec::new(),
            next_block_position: 0,
            group_start_offset: 0,
            group_start_position: 0,
            group_size: 0,
            group_record_count: 0,
            group_end_offset: 0,
            compacted_start_offset: start_offset_of(first),
            compacted_end_offset: end_offset_of(last),
            data_size: 0,
            object_ids: Vec::new(),
        }
    }

    fn close_entry(&mut self)
        requires
            old(self).wf(),
        ensures
            final(self).wf(),
            final(self).stream_id() == old(self).stream_id(),
            final(self).trim() == old(self).trim(),
            final(self).threshold() == old(self).threshold(),
            final(self).copied() == old(self).copied(),
            final(self).sources() == old(self).sources(),
            final(self).end_offset() == old(self).end_offset(),
            final(self).model() == (MergeModel {
                indexes: merged_index(old(self).stream_id(), old(self).model()),
                ..old(self).model()
            }),
    {
        if self.group_size != 0 {
            self.indexes.push(
                DataBlockIndex {
                    block_id: NO_BLOCK_ID,
                    stream_id: self.stream.stream_id,
                    start_offset: self.group_start_offset,
                    end_offset_delta: (self.group_end_offset - self.group_start_offset) as u32,
                    record_count: self.group_record_count as u32,
                    start_position: self.group_start_position,
                    size: (self.group_size % 0x1_0000_0000) as u32,
                },
            );
        }
    }

    fn add_block(&mut self, e: &DataBlockIndex)
        requires
            old(self).wf(),
            e.valid(),
            e.end() > old(self).trim(),
            e.end() >= old(self).model().open_start,
            old(self).model().position + e.size <= u64::MAX,
        ensures
            final(self).wf(),
            final(self).stream_id() == old(self).stream_id(),
            final(self).trim() == old(self).trim(),
            final(self).threshold() == old(self).threshold(),
            final(self).copied() == old(self).copied(),
            final(self).sources() == old(self).sources(),
            final(self).end_offset() == old(self).end_offset(),
            final(self).model() == merge_step(
                old(self).stream_id(),
                old(self).trim(),
                old(self).threshold(),
                old(self).model(),
                *e,
            ),
    {
        let end: u64 = e.end_offset();
        let size: u64 = e.size as u64;
        let cut: bool = self.group_size == 0 || self.group_size_threshold < size || self.group_size
            > self.group_size_threshold - size || self.group_record_count + e.record_count as u64
            > i32::MAX as u64 || end - self.group_start_offset > i32::MAX as u64;
        assert(cut == entry_is_cut(self.threshold(), self.model(), *e));
        if cut {
            self.close_entry();
            self.group_start_offset = e.start_offset;
            self.group_start_position = self.next_block_position;
            self.group_size = 0;
            self.group_record_count = 0;
        }
        self.group_size = self.group_size + size;
        self.group_record_count = self.group_record_count + e.record_count as u64;
        self.group_end_offset = end;
        self.next_block_position = self.next_block_position + size;
    }

    /// Adds an object with its index entries and the size of its data. Returns the part
    /// of its data to copy, if any of it is live.
    pub fn add_object(
        &mut self,
        object_id: u64,
        entries: &Vec<DataBlockIndex>,
        data_block_size: u64,
    ) -> (r: Option<(u64, u64)>)
        requires
            old(self).wf(),
            mergeable(
                old(self).trim(),
                old(self).model().open_start,
                entries@,
                data_block_size,
            ),
            old(self).model().position + live_bytes(old(self).trim(), entries@) <= u64::MAX,
            old(self).copied() + data_block_size <= u64::MAX,
        ensures
            final(self).wf(),
            final(self).stream_id() == old(self).stream_id(),
            final(self).trim() == old(self).trim(),
            final(self).threshold() == old(self).threshold(),
            final(self).model() == merge_blocks(
                old(self).stream_id(),
                old(self).trim(),
                old(self).threshold(),
                old(self).model(),
                entries@,
            ),
            final(self).sources() == old(self).sources().push(object_id),
            final(self).end_offset() == old(self).end_offset(),
            final(self).copied() == old(self).copied() + data_block_size - live_from(
                old(self).trim(),
                entries@,
            ),
            r == (if live_from(old(self).trim(), entries@) < data_block_size {
                Some((live_from(old(self).trim(), entries@) as u64, data_block_size))
            } else {
                None
            }),
    {
        let ghost m0 = self.model();
        let ghost sid = self.stream_id();
        let ghost trim = self.trim();
        let ghost th = self.threshold();
        let start_offset: u64 = self.stream.start_offset;
        let mut valid_data_start: u64 = 0;
        let mut i: usize = 0;
        assert(entries@.take(0) =~= Seq::empty());
        while i < entries.len()
            invariant
                i <= entries@.len(),
                start_offset == trim,
                self.wf(),
                self.stream_id() == sid,
                self.trim() == trim,
                self.threshold() == th,
                self.copied() == old(self).copied(),
                self.sources() == old(self).sources(),
                self.end_offset() == old(self).end_offset(),
                mergeable(trim, m0.open_start, entries@, data_block_size),
                m0.position + live_bytes(trim, entries@) <= u64::MAX,
                self.model() == merge_blocks(sid, trim, th, m0, entries@.take(i as int)),
                self.model().position == m0.position + live_bytes(trim, entries@.take(i as int)),
                valid_data_start == live_from(trim, entries@.take(i as int)),
                valid_data_start <= data_block_size,
                self.model().open_start == m0.open_start || exists|j: int|
                    0 <= j < i && self.model().open_start == (#[trigger] entries@[j]).start_offset
                        && entries@[j].end() > trim,
            decreases entries@.len() - i,
        {
            let e = entries[i];
            let ghost before = self.model();
            proof {
                assert(entries@.take(i + 1).drop_last() =~= entries@.take(i as int));
                assert(entries@.take(i + 1).last() == e);
                assert(e.valid());
                lemma_live_bytes_prefix(trim, entries@, i + 1);
                if e.end() > trim && before.open_start != m0.open_start {
                    let j = choose|j: int|
                        0 <= j < i && before.open_start == (#[trigger] entries@[j]).start_offset
                            && entries@[j].end() > trim;
                    assert(entries@[j].start_offset <= entries@[i as int].end());
                }
            }
            if e.end_offset() <= start_offset {
                valid_data_start = e.end_position();
                self.compacted_start_offset = e.end_offset();
            } else {
                self.add_block(&e);
                assert(self.model().open_start == before.open_start || self.model().open_start
                    == entries@[i as int].start_offset);
            }
            i += 1;
        }
        assert(entries@.take(i as int) =~= entries@);
        self.data_size = self.data_size + (data_block_size - valid_data_start);
        self.object_ids.push(object_id);
        if valid_data_start < data_block_size {
            Some((valid_data_start, data_block_size))
        } else {
            None
        }
    }

    /// Ends the merge.
    pub fn finish(self) -> (r: PhysicalMergeEnd)
        requires
            self.wf(),
        ensures
            r.indexes@ == merged_index(self.stream_id(), self.model()),
            r.index_position == self.model().position,
            r.data_size == self.copied(),
            r.start_offset == self.model().start_offset,
            r.end_offset == self.end_offset(),
            r.source_object_ids@ == self.sources(),
    {
        let mut merge = self;
        merge.close_entry();
        PhysicalMergeEnd {
            indexes: merge.indexes,
            index_position: merge.next_block_position,
            data_size: merge.data_size,
            start_offset: merge.compacted_start_offset,
            end_offset: merge.compacted_end_offset,
            source_object_ids: merge.object_ids,
        }
    }
}

proof fn lemma_live_bytes_prefix(trim: u64, entries: Seq<DataBlockIndex>, n: int)
    requires
        0 <= n <= entries.len(),
    ensures
        live_bytes(trim, entries.take(n)) <= live_bytes(trim, entries),
    decreases entries.len(),
{
    if n < entries.len() {
        lemma_live_bytes_prefix(trim, entries.drop_last(), n);
        assert(entries.drop_last().take(n) =~= entries.take(n));
    } else {
        assert(entries.take(n) =~= entries);
    }
}

/// A request that replaces objects by one that was made of them, or by none.
pub open spec fn is_replacement(
    req: CompactStreamObjectRequest,
    stream: StreamView,
    ids: Seq<u64>,
    operations: Seq<CompactOperations>,
) -> bool {
    &&& req.stream_id == stream.stream_id
    &&& req.stream_epoch == stream.stream_epoch
    &&& req.source_object_ids@ == ids
    &&& req.operations@ == operations
}

/// The request that commits a physical merge, behind whose data `tail_size` bytes of index and
/// footer were written: the sources are deleted.
pub fn physical_merge_request(
    stream: &StreamView,
    merged: PhysicalMergeEnd,
    object_id: u64,
    tail_size: u64,
    attributes: u32,
) -> (r: CompactStreamObjectRequest)
    requires
        merged.data_size + tail_size <= u64::MAX,
    ensures
        is_replacement(
            r,
            *stream,
            merged.source_object_ids@,
            Seq::new(merged.source_object_ids@.len(), |i: int| CompactOperations::Delete),
        ),
        r.object_id == object_id,
        r.object_size == merged.data_size + tail_size,
        r.start_offset == merged.start_offset,
        r.end_offset == merged.end_offset,
        r.attributes == attributes,
{
    let mut operations: Vec<CompactOperations> = Vec::new();
    let n: usize = merged.source_object_ids.len();
    let mut i: usize = 0;
    while i < n
        invariant
            i <= n,
            operations@ == Seq::new(i as nat, |j: int| CompactOperations::Delete),
        decreases n - i,
    {
        operations.push(CompactOperations::Delete);
        i += 1;
        assert(operations@ =~= Seq::new(i as nat, |j: int| CompactOperations::Delete));
    }
    CompactStreamObjectRequest {
        object_id,
        object_size: merged.data_size + tail_size,
        stream_id: stream.stream_id,
        stream_epoch: stream.stream_epoch,
        start_offset: merged.start_offset,
        end_offset: merged.end_offset,
        source_object_ids: merged.source_object_ids,
        operations,
        attributes,
    }
}

/// The entries cover the data from its start without a gap, in order.
pub open spec fn tiles(indexes: Seq<DataBlockIndex>, end: int) -> bool
    decreases indexes.len(),
{
    if indexes.len() == 0 {
        end == 0
    } else {
        &&& indexes.last().end_pos() == end
        &&& tiles(indexes.drop_last(), indexes.last().start_position as int)
    }
}

/// The index of a merged object covers exactly its data: each entry begins where the one
/// before ends, and the last one ends where the index begins. Entries of 4 GiB or more
/// would not fit the format, so the threshold stays below that.
pub proof fn law_merged_index_tiles_data(
    stream_id: u64,
    trim: u64,
    threshold: u64,
    start_offset: u64,
    entries: Seq<DataBlockIndex>,
)
    requires
        threshold <= u32::MAX,
        live_bytes(trim, entries) <= u64::MAX,
    ensures
        ({
            let m = merge_blocks(stream_id, trim, threshold, fresh_merge(start_offset), entries);
            &&& m.position == live_bytes(trim, entries)
            &&& tiles(merged_index(stream_id, m), m.position)
        }),
{
    lemma_tiles(stream_id, trim, threshold, start_offset, entries);
    let m = merge_blocks(stream_id, trim, threshold, fresh_merge(start_offset), entries);
    if m.open_size != 0 {
        assert(m.indexes.push(open_index(stream_id, m)).drop_last() =~= m.indexes);
    }
}

proof fn lemma_tiles(
    stream_id: u64,
    trim: u64,
    threshold: u64,
    start_offset: u64,
    entries: Seq<DataBlockIndex>,
)
    requires
        threshold <= u32::MAX,
        live_bytes(trim, entries) <= u64::MAX,
    ensures
        ({
            let m = merge_blocks(stream_id, trim, threshold, fresh_merge(start_offset), entries);
            &&& m.position == live_bytes(trim, entries)
            &&& 0 <= m.open_size <= u32::MAX
            &&& 0 <= m.open_position
            &&& m.open_position + m.open_size == m.position
            &&& tiles(m.indexes, m.open_position)
        }),
    decreases entries.len(),
{
    if entries.len() > 0 {
        let rest = entries.drop_last();
        lemma_live_bytes_prefix(trim, entries, rest.len() as int);
        assert(entries.take(rest.len() as int) =~= rest);
        lemma_tiles(stream_id, trim, threshold, start_offset, rest);
        let m = merge_blocks(stream_id, trim, threshold, fresh_merge(start_offset), rest);
        let e = entries.last();
        if e.end() > trim && entry_is_cut(threshold, m, e) && m.open_size != 0 {
            let next = m.indexes.push(open_index(stream_id, m));
            assert(next.drop_last() =~= m.indexes);
            assert(next.last() == open_index(stream_id, m));
        }
    }
}

/// A component of a composite object, with its blocks in the composite's index.
#[derive(Debug, Clone, Copy, PartialEq, Eq, Structural)]
pub struct LinkedObject {
    pub object_id: u64,
    pub bucket_id: i16,
    pub block_start_index: u32,
    pub block_end_index: u32,
}

/// A block of the component reaches above the start offset.
pub open spec fn component_is_live(
    entries: Seq<DataBlockIndex>,
    linked: LinkedObject,
    start_offset: u64,
) -> bool {
    exists|i: int|
        linked.block_start_index <= i < linked.block_end_index && (#[trigger] entries[i]).end()
            > start_offset
}

/// A composite merge of stream objects while it is carried out: what becomes of each
/// source object.
#[derive(Debug)]
pub struct CompositeMerge {
    stream: StreamView,
    object_ids: Vec<u64>,
    operations: Vec<CompactOperations>,
}

/// What was written of the composite object.
#[derive(Debug, Clone, Copy, PartialEq, Eq, Structural)]
pub struct WrittenComposite {
    pub start_offset: u64,
    pub end_offset: u64,
    pub object_size: u64,
    pub attributes: u32,
}

impl CompositeMerge {
    pub closed spec fn view_stream(&self) -> StreamView {
        self.stream
    }

    pub closed spec fn sources(&self) -> Seq<u64> {
        self.object_ids@
    }

    pub closed spec fn disposals(&self) -> Seq<CompactOperations> {
        self.operations@
    }

    pub fn begin(stream: &StreamView) -> (r: Self)
        ensures
            r.view_stream() == *stream,
            r.sources() == Seq::<u64>::empty(),
            r.disposals() == Seq::<CompactOperations>::empty(),
    {
        CompositeMerge { stream: *stream, object_ids: Vec::new(), operations: Vec::new() }
    }

    /// Adds a composite object. Its live components are linked on, the others deleted; the
    /// composite itself is deleted. Says for each component whether it is live.
    pub fn add_composite(
        &mut self,
        object_id: u64,
        linked: &Vec<LinkedObject>,
        entries: &Vec<DataBlockIndex>,
    ) -> (r: Vec<bool>)
        requires
            forall|k: int|
                0 <= k < linked@.len() ==> (#[trigger] linked@[k]).block_start_index
                    <= linked@[k].block_end_index <= entries@.len(),
            forall|i: int| 0 <= i < entries@.len() ==> (#[trigger] entries@[i]).valid(),
        ensures
            final(self).view_stream() == old(self).view_stream(),
            final(self).sources() == old(self).sources().push(object_id),
            final(self).disposals() == old(self).disposals().push(CompactOperations::Delete),
            r@.len() == linked@.len(),
            forall|k: int|
                0 <= k < r@.len() ==> #[trigger] r@[k] == component_is_live(
                    entries@,
                    linked@[k],
                    old(self).view_stream().start_offset,
                ),
    {
        let start_offset: u64 = self.stream.start_offset;
        let mut out: Vec<bool> = Vec::new();
        let mut k: usize = 0;
        while k < linked.len()
            invariant
                k <= linked@.len(),
                forall|k: int|
                    0 <= k < linked@.len() ==> (#[trigger] linked@[k]).block_start_index
                        <= linked@[k].block_end_index <= entries@.len(),
                forall|i: int| 0 <= i < entries@.len() ==> (#[trigger] entries@[i]).valid(),
                out@.len() == k,
                forall|j: int|
                    0 <= j < k ==> #[trigger] out@[j] == component_is_live(
                        entries@,
                        linked@[j],
                        start_offset,
                    ),
            decreases linked@.len() - k,
        {
            let part = linked[k];
            assert(linked@[k as int].block_end_index <= entries@.len());
            let mut live: bool = false;
            let mut i: usize = part.block_start_index as usize;
            while i < part.block_end_index as usize
                invariant
                    part.block_start_index <= i <= part.block_end_index <= entries@.len(),
                    forall|i: int| 0 <= i < entries@.len() ==> (#[trigger] entries@[i]).valid(),
                    live <==> exists|j: int|
                        part.block_start_index <= j < i && (#[trigger] entries@[j]).end()
                            > start_offset,
                decreases part.block_end_index - i,
            {
                assert(entries@[i as int].valid());
                if entries[i].end_offset() > start_offset {
                    live = true;
                }
                i += 1;
            }
            out.push(live);
            k += 1;
        }
        self.object_ids.push(object_id);
        self.operations.push(CompactOperations::Delete);
        out
    }

    /// Adds a plain object: it is linked as a component, so its data is kept.
    pub fn add_plain(&mut self, object_id: u64)
        ensures
            final(self).view_stream() == old(self).view_stream(),
            final(self).sources() == old(self).sources().push(object_id),
            final(self).disposals() == old(self).disposals().push(CompactOperations::KeepData),
    {
        self.object_ids.push(object_id);
        self.operations.push(CompactOperations::KeepData);
    }

    /// Ends the merge. Where no component is live nothing was written, and the object id
    /// that was prepared for the composite is deleted too.
    pub fn finish(self, prepared_object_id: u64, written: Option<WrittenComposite>) -> (r:
        CompactStreamObjectRequest)
        ensures
            match written {
                None => {
                    &&& is_replacement(
                        r,
                        self.view_stream(),
                        self.sources().push(prepared_object_id),
                        self.disposals().push(CompactOperations::Delete),
                    )
                    &&& r.object_id == NOOP_OBJECT_ID
                    &&& r.object_size == 0
                    &&& r.start_offset == NOOP_OFFSET
                    &&& r.end_offset == NOOP_OFFSET
                    &&& r.attributes == 0
                },
                Some(w) => {
                    &&& is_replacement(r, self.view_stream(), self.sources(), self.disposals())
                    &&& r.object_id == prepared_object_id
                    &&& r.object_size == w.object_size
                    &&& r.start_offset == w.start_offset
                    &&& r.end_offset == w.end_offset
                    &&& r.attributes == w.attributes
                },
            },
    {
        let mut source_object_ids = self.object_ids;
        let mut operations = self.operations;
        match written {
            None => {
                source_object_ids.push(prepared_object_id);
                operations.push(CompactOperations::Delete);
                CompactStreamObjectRequest {
                    object_id: NOOP_OBJECT_ID,
                    object_size: 0,
                    stream_id: self.stream.stream_id,
                    stream_epoch: self.stream.stream_epoch,
                    start_offset: NOOP_OFFSET,
                    end_offset: NOOP_OFFSET,
                    source_object_ids,
                    operations,
                    attributes: 0,
                }
            },
            Some(w) => CompactStreamObjectRequest {
                object_id: prepared_object_id,
                object_size: w.object_size,
                stream_id: self.stream.stream_id,
                stream_epoch: self.stream.stream_epoch,
                start_offset: w.start_offset,
                end_offset: w.end_offset,
                source_object_ids,
                operations,
                attributes: w.attributes,
            },
        }
    }
}

} // verus!

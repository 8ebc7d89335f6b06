//! Per-stream object compaction: cleanup of expired objects, and merging a stream's small
//! objects into bigger ones, physically or through composite objects.
//!
//! - `Cleanup` deletes objects fully below the stream start offset.
//! - `Minor`, `Major` and `MinorV1` copy the live data of each group of objects into one
//!   new stream object, regrouping the index.
//! - `MajorV1` and `CleanupV1` link component objects into a composite object.
use vstd::prelude::*;

use crate::compact::plan::CompactOperations;
use crate::manager::CompactStreamObjectRequest;
use crate::object::{ObjectModel, S3ObjectMetadata, NOOP_OBJECT_ID, NOOP_OFFSET};

verus! {

pub const EXPIRED_OBJECTS_CLEAN_UP_STEP: usize = 1000;

pub const MINOR_COMPACTION_SIZE_THRESHOLD: u64 = 128 * 1024 * 1024;

pub const MINOR_V1_COMPACTION_SIZE_THRESHOLD: u64 = 4 * 1024 * 1024;

pub const DEFAULT_DATA_BLOCK_GROUP_SIZE_THRESHOLD: u64 = 1024 * 1024;

/// Expired bytes in a composite object above which it is rewritten.
pub const MAX_DIRTY_BYTES: u64 = 512 * 1024 * 1024;

pub const MAX_PART_COUNT: u64 = 10_000;

/// 5 GiB.
pub const MAX_PART_SIZE: u64 = 5_368_709_120;

/// As many parts as there may be, each as large as it may be.
pub const MAX_OBJECT_SIZE: u64 = 53_687_091_200_000;

/// Half the parts of a multipart upload.
pub const MAX_OBJECT_GROUP_COUNT: usize = 5000;

#[derive(Debug, Clone, Copy, PartialEq, Eq, Structural)]
pub enum CompactionLevel {
    Cleanup,
    Minor,
    Major,
    CleanupV1,
    MinorV1,
    MajorV1,
}

impl CompactionLevel {
    /// The level merges groups, so that a group of one object is left alone.
    pub open spec fn merges_groups(self) -> bool {
        self != CompactionLevel::Cleanup && self != CompactionLevel::CleanupV1
    }

    pub fn skip_single_object_group(self) -> (r: bool)
        ensures
            r <==> self.merges_groups(),
    {
        !matches!(self, CompactionLevel::Cleanup) && !matches!(self, CompactionLevel::CleanupV1)
    }

    /// Merges link components instead of copying data.
    pub fn links_components(self) -> (r: bool)
        ensures
            r <==> self == CompactionLevel::MajorV1 || self == CompactionLevel::CleanupV1,
    {
        matches!(self, CompactionLevel::MajorV1) || matches!(self, CompactionLevel::CleanupV1)
    }
}

/// Snapshot of the stream state the compactor operates against.
#[derive(Debug, Clone, Copy, PartialEq, Eq, Structural)]
pub struct StreamView {
    pub stream_id: u64,
    pub stream_epoch: u64,
    pub start_offset: u64,
    pub confirm_offset: u64,
}

/// A stream object that may be compacted. Whether it is composite is told by its
/// attributes.
#[derive(Debug)]
pub struct CompactionCandidate {
    pub metadata: S3ObjectMetadata,
    pub composite: bool,
}

/// First offset of an object, 0 if it has no range.
pub open spec fn first_offset(o: ObjectModel) -> u64 {
    if o.offset_ranges.len() > 0 {
        o.offset_ranges[0].start_offset
    } else {
        0
    }
}

/// End offset of an object, 0 if it has no range.
pub open spec fn last_offset(o: ObjectModel) -> u64 {
    if o.offset_ranges.len() > 0 {
        o.offset_ranges.last().end_offset
    } else {
        0
    }
}

pub fn start_offset_of(object: &S3ObjectMetadata) -> (r: u64)
    ensures
        r == first_offset(object@),
{
    if object.offset_ranges.len() > 0 {
        object.offset_ranges[0].start_offset
    } else {
        0
    }
}

pub fn end_offset_of(object: &S3ObjectMetadata) -> (r: u64)
    ensures
        r == last_offset(object@),
{
    let n: usize = object.offset_ranges.len();
    if n > 0 {
        object.offset_ranges[n - 1].end_offset
    } else {
        0
    }
}

/// Deep deletion of objects, with no replacement.
pub open spec fn is_cleanup_of(
    req: CompactStreamObjectRequest,
    stream: StreamView,
    ids: Seq<u64>,
) -> bool {
    &&& req.object_id == NOOP_OBJECT_ID
    &&& req.object_size == 0
    &&& req.stream_id == stream.stream_id
    &&& req.stream_epoch == stream.stream_epoch
    &&& req.start_offset == NOOP_OFFSET
    &&& req.end_offset == NOOP_OFFSET
    &&& req.source_object_ids@ == ids
    &&& req.operations@ == Seq::new(ids.len(), |i: int| CompactOperations::DeepDelete)
    &&& req.attributes == 0
}

/// Requests that delete a list of objects in steps.
pub fn cleanup_requests(stream: &StreamView, expired: &Vec<u64>) -> (r: Vec<
    CompactStreamObjectRequest,
>)
    ensures
        r@.len() == (expired@.len() + EXPIRED_OBJECTS_CLEAN_UP_STEP - 1)
            / EXPIRED_OBJECTS_CLEAN_UP_STEP as int,
        forall|k: int|
            0 <= k < r@.len() ==> is_cleanup_of(
                #[trigger] r@[k],
                *stream,
                expired@.subrange(
                    k * EXPIRED_OBJECTS_CLEAN_UP_STEP,
                    if (k + 1) * EXPIRED_OBJECTS_CLEAN_UP_STEP < expired@.len() {
                        (k + 1) * EXPIRED_OBJECTS_CLEAN_UP_STEP
                    } else {
                        expired@.len() as int
                    },
                ),
            ),
{
    let mut out: Vec<CompactStreamObjectRequest> = Vec::new();
    let n: usize = expired.len();
    let mut first: usize = 0;
    while first < n
        invariant
            n == expired@.len(),
            first <= n,
            first == n || first == out@.len() * EXPIRED_OBJECTS_CLEAN_UP_STEP,
            first == n ==> out@.len() == (n + EXPIRED_OBJECTS_CLEAN_UP_STEP - 1)
                / EXPIRED_OBJECTS_CLEAN_UP_STEP as int,
            forall|k: int|
                0 <= k < out@.len() ==> is_cleanup_of(
                    #[trigger] out@[k],
                    *stream,
                    expired@.subrange(
                        k * EXPIRED_OBJECTS_CLEAN_UP_STEP,
                        if (k + 1) * EXPIRED_OBJECTS_CLEAN_UP_STEP < expired@.len() {
                            (k + 1) * EXPIRED_OBJECTS_CLEAN_UP_STEP
                        } else {
                            expired@.len() as int
                        },
                    ),
                ),
        decreases n - first,
    {
        let end: usize = if n - first > EXPIRED_OBJECTS_CLEAN_UP_STEP {
            first + EXPIRED_OBJECTS_CLEAN_UP_STEP
        } else {
            n
        };
        let mut ids: Vec<u64> = Vec::new();
        let mut operations: Vec<CompactOperations> = Vec::new();
        let mut i: usize = first;
        while i < end
            invariant
                first <= i <= end <= n == expired@.len(),
                ids@ == expired@.subrange(first as int, i as int),
                operations@ == Seq::new((i - first) as nat, |j: int| CompactOperations::DeepDelete),
            decreases end - i,
        {
            ids.push(expired[i]);
            operations.push(CompactOperations::DeepDelete);
            i += 1;
            assert(ids@ =~= expired@.subrange(first as int, i as int));
            assert(operations@ =~= Seq::new(
                (i - first) as nat,
                |j: int| CompactOperations::DeepDelete,
            ));
        }
        out.push(
            CompactStreamObjectRequest {
                object_id: NOOP_OBJECT_ID,
                object_size: 0,
                stream_id: stream.stream_id,
                stream_epoch: stream.stream_epoch,
                start_offset: NOOP_OFFSET,
                end_offset: NOOP_OFFSET,
                source_object_ids: ids,
                operations,
                attributes: 0,
            },
        );
        first = end;
    }
    out
}

/// The level, and whether an object is composite, let the object take part.
pub open spec fn is_eligible(level: CompactionLevel, min_major_v1_size: u64, composite: bool, size: u64) -> bool {
    if level == CompactionLevel::MajorV1 {
        composite || size >= min_major_v1_size
    } else {
        !composite
    }
}

pub fn object_filter(
    level: CompactionLevel,
    min_major_v1_size: u64,
    object: &CompactionCandidate,
) -> (r: bool)
    ensures
        r == is_eligible(
            level,
            min_major_v1_size,
            object.composite,
            object.metadata@.object_size,
        ),
{
    if !matches!(level, CompactionLevel::MajorV1) && object.composite {
        return false;
    }
    if matches!(level, CompactionLevel::MajorV1) && !object.composite
        && object.metadata.object_size < min_major_v1_size {
        return false;
    }
    true
}

/// Parts that an object of a size is copied in.
pub open spec fn parts_of(size: int) -> int {
    (size + MAX_PART_SIZE - 1) / MAX_PART_SIZE as int
}

/// Groups closed so far, and the open one: its members by position, their size, where
/// it starts and goes on, and the parts that it takes.
#[verifier::ext_equal]
pub struct GroupDraft {
    pub groups: Seq<Seq<usize>>,
    pub group: Seq<usize>,
    pub size: int,
    pub start: int,
    pub next: Option<int>,
    pub parts: int,
}

pub open spec fn empty_draft() -> GroupDraft {
    GroupDraft {
        groups: Seq::empty(),
        group: Seq::empty(),
        size: 0,
        start: 0,
        next: None,
        parts: 0,
    }
}

/// What a grouping goes by.
pub struct GroupLimits {
    pub max_size: u64,
    pub level: CompactionLevel,
    pub min_major_v1_size: u64,
}

/// The object cannot join the open group: it does not go on where the group ends, or the
/// group would get too large, hold too many objects, take too many parts or span too many
/// offsets.
pub open spec fn group_is_cut(d: GroupDraft, max_size: u64, o: ObjectModel) -> bool {
    let start = if d.next is None {
        first_offset(o) as int
    } else {
        d.start
    };
    ||| d.next is Some && d.next != Some(first_offset(o) as int)
    ||| (d.size + o.object_size > max_size && d.group.len() > 0)
    ||| d.group.len() >= MAX_OBJECT_GROUP_COUNT
    ||| d.parts + parts_of(o.object_size as int) > MAX_PART_COUNT
    ||| last_offset(o) - start > i32::MAX
}

/// The object at position `i` finds its group. Objects that may not take part, or that
/// take as many parts as an upload has, are passed over.
pub open spec fn group_step(
    limits: GroupLimits,
    d: GroupDraft,
    i: int,
    c: CompactionCandidate,
) -> GroupDraft {
    let o = c.metadata@;
    let parts = parts_of(o.object_size as int);
    if !is_eligible(limits.level, limits.min_major_v1_size, c.composite, o.object_size) || parts
        >= MAX_PART_COUNT {
        d
    } else if group_is_cut(d, limits.max_size, o) {
        GroupDraft {
            groups: if d.group.len() > 0 {
                d.groups.push(d.group)
            } else {
                d.groups
            },
            group: seq![i as usize],
            size: o.object_size as int,
            start: first_offset(o) as int,
            next: Some(last_offset(o) as int),
            parts,
        }
    } else {
        GroupDraft {
            groups: d.groups,
            group: d.group.push(i as usize),
            size: d.size + o.object_size,
            start: if d.next is None {
                first_offset(o) as int
            } else {
                d.start
            },
            next: Some(last_offset(o) as int),
            parts: d.parts + parts,
        }
    }
}

/// The draft after a list of objects.
pub open spec fn group_draft(limits: GroupLimits, objects: Seq<CompactionCandidate>) -> GroupDraft
    decreases objects.len(),
{
    if objects.len() == 0 {
        empty_draft()
    } else {
        group_step(
            limits,
            group_draft(limits, objects.drop_last()),
            objects.len() - 1,
            objects.last(),
        )
    }
}

/// The groups of a list of objects, by position.
pub open spec fn object_groups(limits: GroupLimits, objects: Seq<CompactionCandidate>) -> Seq<
    Seq<usize>,
> {
    let d = group_draft(limits, objects);
    if d.group.len() > 0 {
        d.groups.push(d.group)
    } else {
        d.groups
    }
}

/// Every object begins no later than it ends.
pub open spec fn offsets_ordered(objects: Seq<CompactionCandidate>) -> bool {
    forall|i: int|
        0 <= i < objects.len() ==> first_offset((#[trigger] objects[i]).metadata@) <= last_offset(
            objects[i].metadata@,
        )
}

pub open spec fn position_views(groups: Seq<Vec<usize>>) -> Seq<Seq<usize>> {
    groups.map_values(|g: Vec<usize>| g@)
}

/// Group offset-continuous objects under size, count, part and offset limits.
pub fn group0(
    objects: &Vec<CompactionCandidate>,
    max_stream_object_size: u64,
    level: CompactionLevel,
    min_major_v1_size: u64,
) -> (r: Vec<Vec<usize>>)
    requires
        offsets_ordered(objects@),
    ensures
        position_views(r@) == object_groups(
            GroupLimits { max_size: max_stream_object_size, level, min_major_v1_size },
            objects@,
        ),
{
    let ghost limits = GroupLimits { max_size: max_stream_object_size, level, min_major_v1_size };
    let mut groups: Vec<Vec<usize>> = Vec::new();
    let mut group: Vec<usize> = Vec::new();
    let mut group_size: u64 = 0;
    let mut group_start_offset: u64 = 0;
    let mut group_next_offset: Option<u64> = None;
    let mut part_count: u64 = 0;
    let mut i: usize = 0;
    proof {
        assert(objects@.take(0) =~= Seq::empty());
        assert(position_views(groups@) =~= Seq::empty());
    }
    while i < objects.len()
        invariant
            i <= objects@.len(),
            offsets_ordered(objects@),
            limits == (GroupLimits { max_size: max_stream_object_size, level, min_major_v1_size }),
            part_count <= MAX_PART_COUNT,
            group@.len() == 0 ==> group_size == 0,
            group_next_offset matches Some(next) ==> group_start_offset <= next,
            group_draft(limits, objects@.take(i as int)) == (GroupDraft {
                groups: position_views(groups@),
                group: group@,
                size: group_size as int,
                start: group_start_offset as int,
                next: match group_next_offset {
                    Some(n) => Some(n as int),
                    None => None,
                },
                parts: part_count as int,
            }),
        decreases objects@.len() - i,
    {
        let object = &objects[i];
        let ghost d = group_draft(limits, objects@.take(i as int));
        proof {
            assert(objects@.take(i + 1).drop_last() =~= objects@.take(i as int));
            assert(objects@.take(i + 1).last() == objects@[i as int]);
            assert(first_offset(objects@[i as int].metadata@) <= last_offset(
                objects@[i as int].metadata@,
            ));
        }
        let size: u64 = object.metadata.object_size;
        let object_part_count: u64 = size / MAX_PART_SIZE + (if size % MAX_PART_SIZE == 0 {
            0
        } else {
            1
        });
        assert(object_part_count == parts_of(size as int));
        if object_filter(level, min_major_v1_size, object) && object_part_count < MAX_PART_COUNT {
            let start: u64 = start_offset_of(&object.metadata);
            let end: u64 = end_offset_of(&object.metadata);
            let follows: bool = match group_next_offset {
                Some(next) => next == start,
                None => {
                    group_start_offset = start;
                    true
                },
            };
            let cut: bool = !follows || (group.len() > 0 && (size > max_stream_object_size
                || group_size > max_stream_object_size - size)) || group.len()
                >= MAX_OBJECT_GROUP_COUNT || part_count + object_part_count > MAX_PART_COUNT || end
                - group_start_offset > i32::MAX as u64;
            assert(cut == group_is_cut(d, max_stream_object_size, object.metadata@));
            if cut {
                if group.len() > 0 {
                    let ghost before = groups@;
                    groups.push(group);
                    assert(position_views(groups@) =~= position_views(before).push(d.group));
                }
                group = Vec::new();
                group_size = 0;
                group_start_offset = start;
                part_count = 0;
            }
            let ghost members = group@;
            group.push(i);
            group_size = group_size + size;
            group_next_offset = Some(end);
            part_count = part_count + object_part_count;
            proof {
                if cut {
                    assert(group@ =~= seq![i]);
                }
            }
        }
        i += 1;
    }
    assert(objects@.take(i as int) =~= objects@);
    if group.len() > 0 {
        let ghost before = groups@;
        let ghost members = group@;
        groups.push(group);
        assert(position_views(groups@) =~= position_views(before).push(members));
    }
    groups
}

/// The members of a group follow each other without a gap.
pub open spec fn is_continuous(objects: Seq<CompactionCandidate>, group: Seq<usize>) -> bool {
    &&& group.len() > 0
    &&& forall|k: int| 0 <= k < group.len() ==> #[trigger] group[k] < objects.len()
    &&& forall|a: int, b: int|
        #![trigger group[a], group[b]]
        0 <= a && b == a + 1 && b < group.len() ==> first_offset(objects[group[b] as int].metadata@)
            == last_offset(objects[group[a] as int].metadata@)
}

/// Bytes in a group of objects.
pub open spec fn group_bytes(objects: Seq<CompactionCandidate>, group: Seq<usize>) -> int
    decreases group.len(),
{
    if group.len() == 0 {
        0
    } else {
        group_bytes(objects, group.drop_last())
            + objects[group.last() as int].metadata@.object_size
    }
}

/// Within the limits: a group that is no larger than allowed, unless it is one object,
/// holds few enough objects, and spans few enough offsets unless it is one object.
pub open spec fn keeps_limits(
    objects: Seq<CompactionCandidate>,
    max_size: u64,
    group: Seq<usize>,
) -> bool {
    &&& is_continuous(objects, group)
    &&& group.len() <= MAX_OBJECT_GROUP_COUNT
    &&& group.len() == 1 || group_bytes(objects, group) <= max_size
    &&& group.len() == 1 || last_offset(objects[group.last() as int].metadata@) - first_offset(
        objects[group[0] as int].metadata@,
    ) <= i32::MAX
}

/// Every group is a continuous list of objects within the limits.
pub proof fn law_groups_keep_limits(limits: GroupLimits, objects: Seq<CompactionCandidate>)
    requires
        objects.len() <= usize::MAX,
    ensures
        forall|k: int|
            0 <= k < object_groups(limits, objects).len() ==> keeps_limits(
                objects,
                limits.max_size,
                #[trigger] object_groups(limits, objects)[k],
            ),
{
    lemma_groups_keep_limits(limits, objects, objects.len() as int);
    assert(objects.take(objects.len() as int) =~= objects);
}

proof fn lemma_groups_keep_limits(limits: GroupLimits, objects: Seq<CompactionCandidate>, n: int)
    requires
        objects.len() <= usize::MAX,
        0 <= n <= objects.len(),
    ensures
        ({
            let d = group_draft(limits, objects.take(n));
            &&& forall|k: int|
                0 <= k < d.groups.len() ==> keeps_limits(
                    objects,
                    limits.max_size,
                    #[trigger] d.groups[k],
                )
            &&& d.group.len() == 0 ==> d.next is None && d.size == 0
            &&& d.group.len() > 0 ==> {
                &&& keeps_limits(objects, limits.max_size, d.group)
                &&& d.size == group_bytes(objects, d.group)
                &&& d.start == first_offset(objects[d.group[0] as int].metadata@)
                &&& d.next == Some(
                    last_offset(objects[d.group.last() as int].metadata@) as int,
                )
            }
        }),
    decreases n,
{
    if n > 0 {
        lemma_groups_keep_limits(limits, objects, n - 1);
        let d = group_draft(limits, objects.take(n - 1));
        let c = objects[n - 1];
        assert(objects.take(n).drop_last() =~= objects.take(n - 1));
        assert(objects.take(n).last() == c);
        let e = group_draft(limits, objects.take(n));
        lemma_single_keeps_limits(objects, limits.max_size, n - 1);
        let o = c.metadata@;
        let passed = !is_eligible(
            limits.level,
            limits.min_major_v1_size,
            c.composite,
            o.object_size,
        ) || parts_of(o.object_size as int) >= MAX_PART_COUNT;
        if passed {
            assert(e == d);
        } else if group_is_cut(d, limits.max_size, o) {
            assert(e.group == seq![(n - 1) as usize]);
            assert forall|k: int| 0 <= k < e.groups.len() implies keeps_limits(
                objects,
                limits.max_size,
                #[trigger] e.groups[k],
            ) by {
                if k < d.groups.len() {
                    assert(e.groups[k] == d.groups[k]);
                } else {
                    assert(e.groups[k] == d.group);
                }
            }
        } else {
            assert(e.groups == d.groups);
            if d.group.len() > 0 {
                lemma_joined_keeps_limits(objects, limits.max_size, d.group, n - 1);
            } else {
                assert(e.group =~= seq![(n - 1) as usize]);
            }
        }
    } else {
        assert(objects.take(0) =~= Seq::empty());
    }
}

/// Parts that the objects of a group are copied in.
pub open spec fn group_parts(objects: Seq<CompactionCandidate>, group: Seq<usize>) -> int
    decreases group.len(),
{
    if group.len() == 0 {
        0
    } else {
        group_parts(objects, group.drop_last()) + parts_of(
            objects[group.last() as int].metadata@.object_size as int,
        )
    }
}

/// The object takes part in a grouping.
pub open spec fn is_grouped(limits: GroupLimits, c: CompactionCandidate) -> bool {
    let size = c.metadata@.object_size;
    is_eligible(limits.level, limits.min_major_v1_size, c.composite, size) && parts_of(size as int)
        < MAX_PART_COUNT
}

/// The positions of the objects that take part, in order.
pub open spec fn grouped_positions(limits: GroupLimits, objects: Seq<CompactionCandidate>) -> Seq<
    usize,
>
    decreases objects.len(),
{
    if objects.len() == 0 {
        Seq::empty()
    } else {
        let before = grouped_positions(limits, objects.drop_last());
        if is_grouped(limits, objects.last()) {
            before.push((objects.len() - 1) as usize)
        } else {
            before
        }
    }
}

/// The members of a list of groups, one group after the other.
pub open spec fn all_members(groups: Seq<Seq<usize>>) -> Seq<usize>
    decreases groups.len(),
{
    if groups.len() == 0 {
        Seq::empty()
    } else {
        all_members(groups.drop_last()) + groups.last()
    }
}

/// Together the groups are the objects that take part, in order; none is empty; and the
/// objects of each are copied in no more parts than an upload has.
pub proof fn law_groups_cover_objects(limits: GroupLimits, objects: Seq<CompactionCandidate>)
    requires
        objects.len() <= usize::MAX,
    ensures
        all_members(object_groups(limits, objects)) == grouped_positions(limits, objects),
        forall|k: int|
            0 <= k < object_groups(limits, objects).len() ==> (#[trigger] object_groups(
                limits,
                objects,
            )[k]).len() > 0 && group_parts(objects, object_groups(limits, objects)[k])
                <= MAX_PART_COUNT,
{
    let n = objects.len() as int;
    lemma_groups_cover(limits, objects, n);
    assert(objects.take(n) =~= objects);
    let d = group_draft(limits, objects);
    if d.group.len() > 0 {
        assert(d.groups.push(d.group).drop_last() =~= d.groups);
    } else {
        assert(all_members(d.groups) + d.group =~= all_members(d.groups));
    }
}

proof fn lemma_groups_cover(limits: GroupLimits, objects: Seq<CompactionCandidate>, n: int)
    requires
        objects.len() <= usize::MAX,
        0 <= n <= objects.len(),
    ensures
        ({
            let d = group_draft(limits, objects.take(n));
            &&& all_members(d.groups) + d.group == grouped_positions(limits, objects.take(n))
            &&& d.parts == group_parts(objects, d.group)
            &&& d.parts <= MAX_PART_COUNT
            &&& forall|k: int|
                0 <= k < d.groups.len() ==> (#[trigger] d.groups[k]).len() > 0 && group_parts(
                    objects,
                    d.groups[k],
                ) <= MAX_PART_COUNT
        }),
    decreases n,
{
    if n > 0 {
        lemma_groups_cover(limits, objects, n - 1);
        let d = group_draft(limits, objects.take(n - 1));
        let c = objects[n - 1];
        assert(objects.take(n).drop_last() =~= objects.take(n - 1));
        assert(objects.take(n).last() == c);
        let e = group_draft(limits, objects.take(n));
        let i = (n - 1) as usize;
        if is_grouped(limits, c) {
            if group_is_cut(d, limits.max_size, c.metadata@) {
                assert(seq![i].drop_last() =~= Seq::empty());
                assert(group_parts(objects, Seq::<usize>::empty()) == 0);
                if d.group.len() > 0 {
                    assert(d.groups.push(d.group).drop_last() =~= d.groups);
                }
                assert(all_members(e.groups) + e.group =~= (all_members(d.groups) + d.group).push(
                    i,
                ));
                assert forall|k: int| 0 <= k < e.groups.len() implies (
                #[trigger] e.groups[k]).len() > 0 && group_parts(objects, e.groups[k])
                    <= MAX_PART_COUNT by {
                    if k < d.groups.len() {
                        assert(e.groups[k] == d.groups[k]);
                    }
                }
            } else {
                assert(d.group.push(i).drop_last() =~= d.group);
                assert(all_members(e.groups) + e.group =~= (all_members(d.groups) + d.group).push(
                    i,
                ));
            }
        }
    } else {
        assert(objects.take(0) =~= Seq::empty());
        assert(all_members(Seq::<Seq<usize>>::empty()) + Seq::<usize>::empty() =~= Seq::<
            usize,
        >::empty());
    }
}

/// Which objects are grouped: at the level that links, composites of any size and plain objects
/// of at least the minimum size; at every other level the plain objects. An object that takes
/// as many parts as an upload has is never grouped.
pub proof fn law_level_chooses_objects(
    limits: GroupLimits,
    objects: Seq<CompactionCandidate>,
    i: int,
)
    requires
        objects.len() <= usize::MAX,
        0 <= i < objects.len(),
    ensures
        ({
            let size = objects[i].metadata@.object_size;
            let grouped = all_members(object_groups(limits, objects)).contains(i as usize);
            &&& size > (MAX_PART_COUNT - 1) * MAX_PART_SIZE ==> !grouped
            &&& size <= (MAX_PART_COUNT - 1) * MAX_PART_SIZE ==> match limits.level {
                CompactionLevel::MajorV1 => grouped <==> objects[i].composite || limits.min_major_v1_size
                    <= size,
                _ => grouped <==> !objects[i].composite,
            }
        }),
{
    law_groups_cover_objects(limits, objects);
    lemma_grouped_positions(limits, objects, i);
}

proof fn lemma_grouped_positions(limits: GroupLimits, objects: Seq<CompactionCandidate>, i: int)
    requires
        objects.len() <= usize::MAX,
        0 <= i <= usize::MAX,
    ensures
        grouped_positions(limits, objects).contains(i as usize) <==> i < objects.len()
            && is_grouped(limits, objects[i]),
    decreases objects.len(),
{
    if objects.len() > 0 {
        let front = objects.drop_last();
        let before = grouped_positions(limits, front);
        let n = (objects.len() - 1) as usize;
        lemma_grouped_positions(limits, front, i);
        if i < front.len() {
            assert(front[i] == objects[i]);
        }
        vstd::seq_lib::lemma_seq_contains_after_push(before, n, i as usize);
    }
}

/// The object cannot be added to a group: it does not begin where the group ends, or the group
/// would get too large, hold too many objects, take too many parts or span too many offsets.
pub open spec fn cannot_join(
    objects: Seq<CompactionCandidate>,
    max_size: u64,
    group: Seq<usize>,
    i: usize,
) -> bool {
    let o = objects[i as int].metadata@;
    ||| last_offset(objects[group.last() as int].metadata@) != first_offset(o)
    ||| group_bytes(objects, group) + o.object_size > max_size
    ||| group.len() >= MAX_OBJECT_GROUP_COUNT
    ||| group_parts(objects, group.push(i)) > MAX_PART_COUNT
    ||| last_offset(o) - first_offset(objects[group[0] as int].metadata@) > i32::MAX
}

/// Groups are as long as they may be: one ends only where the first object of the next one
/// cannot be added to it.
pub proof fn law_groups_are_maximal(limits: GroupLimits, objects: Seq<CompactionCandidate>)
    requires
        objects.len() <= usize::MAX,
    ensures
        forall|a: int, b: int|
            #![trigger object_groups(limits, objects)[a], object_groups(limits, objects)[b]]
            0 <= a && b == a + 1 && b < object_groups(limits, objects).len() ==> cannot_join(
                objects,
                limits.max_size,
                object_groups(limits, objects)[a],
                object_groups(limits, objects)[b][0],
            ),
{
    let n = objects.len() as int;
    lemma_groups_maximal(limits, objects, n);
    assert(objects.take(n) =~= objects);
    let d = group_draft(limits, objects);
    let all = object_groups(limits, objects);
    assert forall|a: int, b: int|
        #![trigger all[a], all[b]]
        0 <= a && b == a + 1 && b < all.len() implies cannot_join(
        objects,
        limits.max_size,
        all[a],
        all[b][0],
    ) by {
        if b < d.groups.len() {
            assert(all[a] == d.groups[a] && all[b] == d.groups[b]);
        } else {
            assert(all[a] == d.groups.last() && all[b] == d.group);
        }
    }
}

proof fn lemma_groups_maximal(limits: GroupLimits, objects: Seq<CompactionCandidate>, n: int)
    requires
        objects.len() <= usize::MAX,
        0 <= n <= objects.len(),
    ensures
        ({
            let d = group_draft(limits, objects.take(n));
            &&& forall|a: int, b: int|
                #![trigger d.groups[a], d.groups[b]]
                0 <= a && b == a + 1 && b < d.groups.len() ==> cannot_join(
                    objects,
                    limits.max_size,
                    d.groups[a],
                    d.groups[b][0],
                )
            &&& d.groups.len() > 0 ==> d.group.len() > 0 && cannot_join(
                objects,
                limits.max_size,
                d.groups.last(),
                d.group[0],
            )
        }),
    decreases n,
{
    if n > 0 {
        lemma_groups_maximal(limits, objects, n - 1);
        lemma_groups_keep_limits(limits, objects, n - 1);
        lemma_groups_cover(limits, objects, n - 1);
        let d = group_draft(limits, objects.take(n - 1));
        let c = objects[n - 1];
        let i = (n - 1) as usize;
        assert(objects.take(n).drop_last() =~= objects.take(n - 1));
        assert(objects.take(n).last() == c);
        let e = group_draft(limits, objects.take(n));
        if is_grouped(limits, c) {
            if group_is_cut(d, limits.max_size, c.metadata@) {
                if d.group.len() > 0 {
                    assert(d.group.push(i).drop_last() =~= d.group);
                    assert(e.groups == d.groups.push(d.group));
                    assert forall|a: int, b: int|
                        #![trigger e.groups[a], e.groups[b]]
                        0 <= a && b == a + 1 && b < e.groups.len() implies cannot_join(
                        objects,
                        limits.max_size,
                        e.groups[a],
                        e.groups[b][0],
                    ) by {
                        if b < d.groups.len() {
                            assert(e.groups[a] == d.groups[a] && e.groups[b] == d.groups[b]);
                        } else {
                            assert(e.groups[a] == d.groups.last() && e.groups[b] == d.group);
                        }
                    }
                }
            } else if d.group.len() > 0 {
                assert(e.group[0] == d.group[0]);
            }
        }
    } else {
        assert(objects.take(0) =~= Seq::empty());
    }
}

/// Positions from 0 on.
pub open spec fn first_positions(n: int) -> Seq<usize> {
    Seq::new(n as nat, |i: int| i as usize)
}

/// Objects that all take part, follow each other without a gap and keep the limits together
/// are one group.
pub proof fn law_fitting_objects_are_one_group(
    limits: GroupLimits,
    objects: Seq<CompactionCandidate>,
)
    requires
        0 < objects.len() <= MAX_OBJECT_GROUP_COUNT,
        objects.len() <= usize::MAX,
        offsets_ordered(objects),
        forall|i: int|
            0 <= i < objects.len() ==> {
                let size = (#[trigger] objects[i]).metadata@.object_size;
                &&& size <= (MAX_PART_COUNT - 1) * MAX_PART_SIZE
                &&& match limits.level {
                    CompactionLevel::MajorV1 => objects[i].composite || limits.min_major_v1_size
                        <= size,
                    _ => !objects[i].composite,
                }
            },
        forall|a: int, b: int|
            #![trigger objects[a], objects[b]]
            0 <= a && b == a + 1 && b < objects.len() ==> last_offset(objects[a].metadata@)
                == first_offset(objects[b].metadata@),
        group_bytes(objects, first_positions(objects.len() as int)) <= limits.max_size,
        group_parts(objects, first_positions(objects.len() as int)) <= MAX_PART_COUNT,
        last_offset(objects.last().metadata@) - first_offset(objects[0].metadata@) <= i32::MAX,
    ensures
        object_groups(limits, objects) == seq![first_positions(objects.len() as int)],
{
    let n = objects.len() as int;
    lemma_one_group(limits, objects, n);
    assert(objects.take(n) =~= objects);
}

proof fn lemma_one_group(limits: GroupLimits, objects: Seq<CompactionCandidate>, n: int)
    requires
        0 < n <= objects.len() <= MAX_OBJECT_GROUP_COUNT,
        objects.len() <= usize::MAX,
        offsets_ordered(objects),
        forall|i: int| 0 <= i < objects.len() ==> is_grouped(limits, #[trigger] objects[i]),
        forall|a: int, b: int|
            #![trigger objects[a], objects[b]]
            0 <= a && b == a + 1 && b < objects.len() ==> last_offset(objects[a].metadata@)
                == first_offset(objects[b].metadata@),
        group_bytes(objects, first_positions(n)) <= limits.max_size,
        group_parts(objects, first_positions(n)) <= MAX_PART_COUNT,
        last_offset(objects[n - 1].metadata@) - first_offset(objects[0].metadata@) <= i32::MAX,
    ensures
        group_draft(limits, objects.take(n)) == (GroupDraft {
            groups: Seq::empty(),
            group: first_positions(n),
            size: group_bytes(objects, first_positions(n)),
            start: first_offset(objects[0].metadata@) as int,
            next: Some(last_offset(objects[n - 1].metadata@) as int),
            parts: group_parts(objects, first_positions(n)),
        }),
    decreases n,
{
    let c = objects[n - 1];
    let o = c.metadata@;
    let front = first_positions(n - 1);
    let all = first_positions(n);
    assert(objects.take(n).drop_last() =~= objects.take(n - 1));
    assert(objects.take(n).last() == c);
    assert(all.drop_last() =~= front);
    assert(all =~= front.push((n - 1) as usize));
    assert(is_grouped(limits, c));
    assert(parts_of(o.object_size as int) >= 0);
    if n == 1 {
        assert(objects.take(0) =~= Seq::empty());
        assert(front =~= Seq::empty());
    } else {
        let p = objects[n - 2];
        assert(last_offset(p.metadata@) == first_offset(o));
        assert(first_offset(o) <= last_offset(o));
        lemma_one_group(limits, objects, n - 1);
    }
}

proof fn lemma_single_keeps_limits(objects: Seq<CompactionCandidate>, max_size: u64, i: int)
    requires
        0 <= i < objects.len() <= usize::MAX,
    ensures
        keeps_limits(objects, max_size, seq![i as usize]),
        group_bytes(objects, seq![i as usize]) == objects[i].metadata@.object_size,
{
    let one = seq![i as usize];
    assert(one.drop_last() =~= Seq::empty());
    assert(one.last() == i as usize);
    assert(group_bytes(objects, one.drop_last()) == 0);
}

proof fn lemma_joined_keeps_limits(
    objects: Seq<CompactionCandidate>,
    max_size: u64,
    group: Seq<usize>,
    i: int,
)
    requires
        0 <= i < objects.len() <= usize::MAX,
        group.len() > 0,
        keeps_limits(objects, max_size, group),
        group.len() < MAX_OBJECT_GROUP_COUNT,
        group_bytes(objects, group) + objects[i].metadata@.object_size <= max_size,
        first_offset(objects[i].metadata@) == last_offset(objects[group.last() as int].metadata@),
        last_offset(objects[i].metadata@) - first_offset(objects[group[0] as int].metadata@)
            <= i32::MAX,
    ensures
        keeps_limits(objects, max_size, group.push(i as usize)),
        group_bytes(objects, group.push(i as usize)) == group_bytes(objects, group)
            + objects[i].metadata@.object_size,
{
    let joined = group.push(i as usize);
    assert(joined.drop_last() =~= group);
    assert forall|k: int| 0 <= k < joined.len() implies #[trigger] joined[k] < objects.len() by {
        if k < group.len() {
            assert(joined[k] == group[k]);
        }
    }
    assert forall|a: int, b: int|
        #![trigger joined[a], joined[b]]
        0 <= a && b == a + 1 && b < joined.len() implies first_offset(
        objects[joined[b] as int].metadata@,
    ) == last_offset(objects[joined[a] as int].metadata@) by {
        if b < group.len() {
            assert(joined[b] == group[b]);
            assert(joined[a] == group[a]);
        }
    }
}

/// The first living object is composite and holds offsets.
pub open spec fn has_rewrite_candidate(living: Seq<CompactionCandidate>) -> bool {
    living.len() > 0 && living[0].composite && last_offset(living[0].metadata@) > first_offset(
        living[0].metadata@,
    )
}

/// The first living object, where it is composite and holds offsets: how many of them
/// are below the stream start, how many it holds, and its size. The share of it that is
/// expired decides whether it is rewritten.
pub fn cleanup_v1_candidate(living: &Vec<CompactionCandidate>, start_offset: u64) -> (r: Option<
    (u64, u64, u64),
>)
    ensures
        r == (if has_rewrite_candidate(living@) {
            let o = living@[0].metadata@;
            Some(
                (
                    (if start_offset > first_offset(o) {
                        start_offset - first_offset(o)
                    } else {
                        0
                    }) as u64,
                    (last_offset(o) - first_offset(o)) as u64,
                    o.object_size,
                ),
            )
        } else {
            None
        }),
{
    if living.len() == 0 || !living[0].composite {
        return None;
    }
    let first_start: u64 = start_offset_of(&living[0].metadata);
    let first_end: u64 = end_offset_of(&living[0].metadata);
    if first_end <= first_start {
        return None;
    }
    let trimmed: u64 = if start_offset > first_start {
        start_offset - first_start
    } else {
        0
    };
    Some((trimmed, first_end - first_start, living[0].metadata.object_size))
}

/// An object reaches from the start of its first range to the end of its last one, and one
/// without ranges reaches nowhere.
pub proof fn law_object_reaches_over_its_ranges(o: ObjectModel, i: int)
    requires
        forall|a: int, b: int|
            #![trigger o.offset_ranges[a], o.offset_ranges[b]]
            0 <= a <= b < o.offset_ranges.len() ==> o.offset_ranges[a].start_offset
                <= o.offset_ranges[b].end_offset && o.offset_ranges[a].start_offset
                <= o.offset_ranges[b].start_offset && o.offset_ranges[a].end_offset
                <= o.offset_ranges[b].end_offset,
    ensures
        o.offset_ranges.len() == 0 ==> first_offset(o) == 0 && last_offset(o) == 0,
        0 <= i < o.offset_ranges.len() ==> first_offset(o) <= o.offset_ranges[i].start_offset
            && o.offset_ranges[i].end_offset <= last_offset(o),
{
}

} // verus!

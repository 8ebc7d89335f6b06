//! One compaction pass over the objects of a stream: expired objects are deleted, the
//! living ones are grouped, and each group becomes one object.
use vstd::prelude::*;

use crate::compact::merge::StreamObjectCompactor;
use crate::compact::plan::CompactOperations;
use crate::compact::stream_compactor::{
    cleanup_requests, cleanup_v1_candidate, end_offset_of, first_offset, first_positions, group0,
    group_bytes, group_parts, has_rewrite_candidate, is_cleanup_of, keeps_limits, last_offset,
    law_fitting_objects_are_one_group, law_groups_keep_limits, object_groups, offsets_ordered,
    position_views, CompactionCandidate, CompactionLevel, GroupLimits, StreamView,
    EXPIRED_OBJECTS_CLEAN_UP_STEP, MAX_OBJECT_GROUP_COUNT, MAX_PART_COUNT, MAX_PART_SIZE,
    MINOR_COMPACTION_SIZE_THRESHOLD,
};
use crate::manager::CompactStreamObjectRequest;

verus! {

/// Everything in the object is below the stream start.
pub open spec fn is_expired(c: CompactionCandidate, start_offset: u64) -> bool {
    last_offset(c.metadata@) <= start_offset
}

pub open spec fn living_of(objects: Seq<CompactionCandidate>, start_offset: u64) -> Seq<
    CompactionCandidate,
> {
    objects.filter(|c: CompactionCandidate| !is_expired(c, start_offset))
}

pub open spec fn expired_ids(objects: Seq<CompactionCandidate>, start_offset: u64) -> Seq<u64> {
    objects.filter(|c: CompactionCandidate| is_expired(c, start_offset)).map_values(
        |c: CompactionCandidate| c.metadata@.object_id,
    )
}

/// Requests that delete a list of objects in order, in steps.
pub open spec fn are_cleanups_of(
    requests: Seq<CompactStreamObjectRequest>,
    stream: StreamView,
    ids: Seq<u64>,
) -> bool {
    &&& requests.len() == (ids.len() + EXPIRED_OBJECTS_CLEAN_UP_STEP - 1)
        / EXPIRED_OBJECTS_CLEAN_UP_STEP as int
    &&& forall|k: int|
        0 <= k < requests.len() ==> is_cleanup_of(
            #[trigger] requests[k],
            stream,
            ids.subrange(
                k * EXPIRED_OBJECTS_CLEAN_UP_STEP,
                if (k + 1) * EXPIRED_OBJECTS_CLEAN_UP_STEP < ids.len() {
                    (k + 1) * EXPIRED_OBJECTS_CLEAN_UP_STEP
                } else {
                    ids.len() as int
                },
            ),
        )
}

/// Begins a pass: the requests that delete the expired objects, and the living objects.
pub fn retire_expired(stream: &StreamView, objects: Vec<CompactionCandidate>) -> (r: (
    Vec<CompactStreamObjectRequest>,
    Vec<CompactionCandidate>,
))
    ensures
        are_cleanups_of(r.0@, *stream, expired_ids(objects@, stream.start_offset)),
        r.1@ == living_of(objects@, stream.start_offset),
{
    let ghost all = objects@;
    let ghost start = stream.start_offset;
    let ghost dead = |c: CompactionCandidate| is_expired(c, start);
    let ghost alive = |c: CompactionCandidate| !is_expired(c, start);
    let ghost id = |c: CompactionCandidate| c.metadata@.object_id;
    let mut ids: Vec<u64> = Vec::new();
    let mut i: usize = 0;
    proof {
        assert(all.take(0).filter(dead) =~= Seq::empty());
        assert(all.take(0).filter(dead).map_values(id) =~= Seq::empty());
    }
    while i < objects.len()
        invariant
            i <= objects@.len(),
            all == objects@,
            start == stream.start_offset,
            dead == (|c: CompactionCandidate| is_expired(c, start)),
            id == (|c: CompactionCandidate| c.metadata@.object_id),
            ids@ == all.take(i as int).filter(dead).map_values(id),
        decreases objects@.len() - i,
    {
        let ghost before = all.take(i as int).filter(dead);
        proof {
            assert(all.take(i + 1) =~= all.take(i as int).push(all[i as int]));
            all.take(i as int).lemma_filter_push(all[i as int], dead);
        }
        if end_offset_of(&objects[i].metadata) <= stream.start_offset {
            ids.push(objects[i].metadata.object_id);
            assert(ids@ =~= before.push(all[i as int]).map_values(id));
        }
        i += 1;
    }
    assert(all.take(i as int) =~= all);
    let requests = cleanup_requests(stream, &ids);
    let mut rest = objects;
    let mut reversed: Vec<CompactionCandidate> = Vec::new();
    proof {
        assert(all.skip(all.len() as int).filter(alive) =~= Seq::empty());
        assert(rest@ =~= all.take(all.len() as int));
    }
    while rest.len() > 0
        invariant
            rest@.len() <= all.len(),
            rest@ == all.take(rest@.len() as int),
            start == stream.start_offset,
            alive == (|c: CompactionCandidate| !is_expired(c, start)),
            reversed@.reverse() == all.skip(rest@.len() as int).filter(alive),
        ensures
            rest@.len() == 0,
        decreases rest@.len(),
    {
        let ghost n = rest@.len() as int;
        let ghost tail = reversed@;
        let last = match rest.pop() {
            Some(c) => c,
            None => {
                break;
            },
        };
        proof {
            assert(last == all[n - 1]);
            assert(rest@ =~= all.take(n - 1));
            lemma_filter_from(all, n - 1, alive);
        }
        if end_offset_of(&last.metadata) > stream.start_offset {
            reversed.push(last);
            assert(reversed@.reverse() =~= seq![last] + tail.reverse());
        }
    }
    let mut living: Vec<CompactionCandidate> = Vec::new();
    let ghost full = reversed@;
    assert(all.skip(0) =~= all);
    while reversed.len() > 0
        invariant
            reversed@.len() <= full.len(),
            reversed@ == full.take(reversed@.len() as int),
            living@ == full.reverse().take(full.len() - reversed@.len()),
        ensures
            reversed@.len() == 0,
        decreases reversed@.len(),
    {
        let ghost n = reversed@.len() as int;
        match reversed.pop() {
            Some(c) => {
                living.push(c);
            },
            None => {
                break;
            },
        }
        assert(reversed@ =~= full.take(n - 1));
        assert(living@ =~= full.reverse().take(full.len() - (n - 1)));
    }
    assert(living@ =~= full.reverse());
    (requests, living)
}

/// A filter taken from a position on begins with what it makes of that element.
proof fn lemma_filter_from(
    all: Seq<CompactionCandidate>,
    i: int,
    p: spec_fn(CompactionCandidate) -> bool,
)
    requires
        0 <= i < all.len(),
    ensures
        all.skip(i).filter(p) == (if p(all[i]) {
            seq![all[i]]
        } else {
            Seq::<CompactionCandidate>::empty()
        }) + all.skip(i + 1).filter(p),
{
    broadcast use Seq::filter_distributes_over_add;

    let one = seq![all[i]];
    assert(all.skip(i) =~= one + all.skip(i + 1));
    assert(one =~= Seq::<CompactionCandidate>::empty().push(all[i]));
    Seq::<CompactionCandidate>::empty().lemma_filter_push(all[i], p);
    assert(Seq::<CompactionCandidate>::empty().filter(p) =~= Seq::empty());
    assert(one.filter(p) =~= (if p(all[i]) {
        one
    } else {
        Seq::empty()
    }));
}

/// What a level groups objects by.
pub open spec fn limits_of(c: StreamObjectCompactor, level: CompactionLevel) -> GroupLimits {
    GroupLimits {
        max_size: match level {
            CompactionLevel::Minor => MINOR_COMPACTION_SIZE_THRESHOLD,
            CompactionLevel::MinorV1 => c.minor_v1_compaction_threshold,
            _ => c.max_stream_object_size,
        },
        level,
        min_major_v1_size: if c.major_v1_skip_small_object {
            c.minor_v1_compaction_threshold
        } else {
            0
        },
    }
}

/// The groups of living objects that a pass at a level turns into one object each. A
/// cleanup groups nothing; the cleanup of composites rewrites the first living object,
/// where enough of it is expired; every other level leaves groups of one object alone.
pub open spec fn pass_groups(
    c: StreamObjectCompactor,
    living: Seq<CompactionCandidate>,
    level: CompactionLevel,
    rewrite_first: bool,
) -> Seq<Seq<usize>> {
    match level {
        CompactionLevel::Cleanup => Seq::empty(),
        CompactionLevel::CleanupV1 => if rewrite_first && has_rewrite_candidate(living) {
            seq![seq![0usize]]
        } else {
            Seq::empty()
        },
        _ => object_groups(limits_of(c, level), living).filter(|g: Seq<usize>| g.len() != 1),
    }
}

impl StreamObjectCompactor {
    /// Ends the planning of a pass. `rewrite_first` says whether enough of the first living
    /// object is expired.
    pub fn groups(
        &self,
        living: &Vec<CompactionCandidate>,
        level: CompactionLevel,
        rewrite_first: bool,
    ) -> (r: Vec<Vec<usize>>)
        requires
            level.merges_groups() ==> offsets_ordered(living@),
        ensures
            position_views(r@) == pass_groups(*self, living@, level, rewrite_first),
    {
        let mut out: Vec<Vec<usize>> = Vec::new();
        assert(position_views(out@) =~= Seq::empty());
        match level {
            CompactionLevel::Cleanup => {
                return out;
            },
            CompactionLevel::CleanupV1 => {
                if rewrite_first && cleanup_v1_candidate(living, 0).is_some() {
                    let mut first: Vec<usize> = Vec::new();
                    first.push(0);
                    assert(first@ =~= seq![0usize]);
                    out.push(first);
                    assert(position_views(out@) =~= seq![seq![0usize]]);
                }
                return out;
            },
            _ => {},
        }
        let mut found = group0(living, self.max_group_size(level), level, self.min_major_v1_size());
        let ghost all = position_views(found@);
        let ghost p = |g: Seq<usize>| g.len() != 1;
        let n: usize = found.len();
        let mut i: usize = 0;
        assert(all.take(0).filter(p) =~= Seq::empty());
        while i < n
            invariant
                i <= n == found@.len() == all.len(),
                forall|j: int| i <= j < n ==> (#[trigger] found@[j])@ == all[j],
                p == (|g: Seq<usize>| g.len() != 1),
                level.merges_groups(),
                position_views(out@) == all.take(i as int).filter(p),
            decreases n - i,
        {
            proof {
                assert(all.take(i + 1) =~= all.take(i as int).push(all[i as int]));
                all.take(i as int).lemma_filter_push(all[i as int], p);
            }
            let mut group: Vec<usize> = Vec::new();
            std::mem::swap(&mut group, &mut found[i]);
            assert(group@ == all[i as int]);
            if group.len() != 1 || !level.skip_single_object_group() {
                let ghost before = out@;
                out.push(group);
                assert(position_views(out@) =~= position_views(before).push(all[i as int]));
            }
            i += 1;
        }
        assert(all.take(n as int) =~= all);
        out
    }
}

/// A pass deletes or keeps every object, and none of them twice: the expired ones and the
/// living ones together are as many as there were.
pub proof fn law_pass_accounts_for_objects(objects: Seq<CompactionCandidate>, start_offset: u64)
    ensures
        expired_ids(objects, start_offset).len() + living_of(objects, start_offset).len()
            == objects.len(),
        forall|c: CompactionCandidate| #[trigger]
            objects.contains(c) ==> (living_of(objects, start_offset).contains(c) <==> last_offset(
                c.metadata@,
            ) > start_offset),
    decreases objects.len(),
{
    let dead = |c: CompactionCandidate| is_expired(c, start_offset);
    let alive = |c: CompactionCandidate| !is_expired(c, start_offset);
    if objects.len() > 0 {
        let last = objects.last();
        let before = objects.drop_last();
        law_pass_accounts_for_objects(before, start_offset);
        assert(objects =~= before.push(last));
        before.lemma_filter_push(last, dead);
        before.lemma_filter_push(last, alive);
    } else {
        assert(objects.filter(dead) =~= Seq::empty());
        assert(objects.filter(alive) =~= Seq::empty());
    }
    assert forall|c: CompactionCandidate| #[trigger] objects.contains(c) implies (living_of(
        objects,
        start_offset,
    ).contains(c) <==> last_offset(c.metadata@) > start_offset) by {
        broadcast use vstd::seq_lib::group_filter_ensures;

        let i = choose|i: int| 0 <= i < objects.len() && objects[i] == c;
        if alive(c) {
            assert(objects.filter(alive).contains(objects[i]));
        }
        if objects.filter(alive).contains(c) {
            let k = choose|k: int|
                0 <= k < objects.filter(alive).len() && objects.filter(alive)[k] == c;
            assert(alive(objects.filter(alive)[k]));
        }
    }
}

/// Every group that a pass makes of living objects keeps the limits of its level.
pub proof fn law_pass_groups_keep_limits(
    c: StreamObjectCompactor,
    living: Seq<CompactionCandidate>,
    level: CompactionLevel,
    rewrite_first: bool,
)
    requires
        living.len() <= usize::MAX,
        level.merges_groups(),
    ensures
        forall|k: int|
            0 <= k < pass_groups(c, living, level, rewrite_first).len()
                ==> keeps_limits(
                living,
                limits_of(c, level).max_size,
                #[trigger] pass_groups(c, living, level, rewrite_first)[k],
            ),
{
    let p = |g: Seq<usize>| g.len() != 1;
    let all = object_groups(limits_of(c, level), living);
    let kept = pass_groups(c, living, level, rewrite_first);
    law_groups_keep_limits(limits_of(c, level), living);
    assert forall|k: int| 0 <= k < kept.len() implies keeps_limits(
        living,
        limits_of(c, level).max_size,
        #[trigger] kept[k],
    ) by {
        assert(all.filter(p).contains(kept[k]));
        all.lemma_filter_contains_rev(p, kept[k]);
        let j = choose|j: int| 0 <= j < all.len() && all[j] == kept[k];
        assert(keeps_limits(living, limits_of(c, level).max_size, all[j]));
    }
}

/// What a pass merges: every group of at least two objects, and no other. Nothing is grouped by
/// a cleanup, and the cleanup of composites rewrites only the first object.
pub proof fn law_pass_merges_groups_of_two_or_more(
    c: StreamObjectCompactor,
    living: Seq<CompactionCandidate>,
    level: CompactionLevel,
    rewrite_first: bool,
    group: Seq<usize>,
)
    requires
        living.len() <= usize::MAX,
    ensures
        level.merges_groups() ==> (pass_groups(c, living, level, rewrite_first).contains(group)
            <==> group.len() >= 2 && object_groups(limits_of(c, level), living).contains(group)),
        !level.merges_groups() ==> (pass_groups(c, living, level, rewrite_first).contains(group)
            ==> level == CompactionLevel::CleanupV1 && rewrite_first && group == seq![0usize]
            && living.len() > 0 && living[0].composite),
{
    let p = |g: Seq<usize>| g.len() != 1;
    let kept = pass_groups(c, living, level, rewrite_first);
    if level.merges_groups() {
        let all = object_groups(limits_of(c, level), living);
        law_groups_keep_limits(limits_of(c, level), living);
        if kept.contains(group) {
            all.lemma_filter_contains_rev(p, group);
            let j = choose|j: int| 0 <= j < all.len() && all[j] == group;
            assert(keeps_limits(living, limits_of(c, level).max_size, all[j]));
            let k = choose|k: int| 0 <= k < kept.len() && kept[k] == group;
            all.lemma_filter_pred(p, k);
        }
        if group.len() >= 2 && all.contains(group) {
            let j = choose|j: int| 0 <= j < all.len() && all[j] == group;
            all.lemma_filter_contains(p, j);
        }
    }
}

/// The level that links takes plain objects of every size, unless small ones are to be left to
/// the level below it: objects that follow each other without a gap and keep the limits
/// together are merged, all of them.
pub proof fn law_pass_merges_fitting_objects(
    c: StreamObjectCompactor,
    living: Seq<CompactionCandidate>,
    level: CompactionLevel,
    rewrite_first: bool,
)
    requires
        level.merges_groups(),
        2 <= living.len() <= MAX_OBJECT_GROUP_COUNT,
        living.len() <= usize::MAX,
        offsets_ordered(living),
        forall|i: int|
            0 <= i < living.len() ==> !(#[trigger] living[i]).composite
                && living[i].metadata@.object_size <= (MAX_PART_COUNT - 1) * MAX_PART_SIZE && (level
                == CompactionLevel::MajorV1 && c.major_v1_skip_small_object
                ==> living[i].metadata@.object_size >= c.minor_v1_compaction_threshold),
        forall|a: int, b: int|
            #![trigger living[a], living[b]]
            0 <= a && b == a + 1 && b < living.len() ==> last_offset(living[a].metadata@)
                == first_offset(living[b].metadata@),
        group_bytes(living, first_positions(living.len() as int)) <= (match level {
            CompactionLevel::Minor => MINOR_COMPACTION_SIZE_THRESHOLD,
            CompactionLevel::MinorV1 => c.minor_v1_compaction_threshold,
            _ => c.max_stream_object_size,
        }),
        group_parts(living, first_positions(living.len() as int)) <= MAX_PART_COUNT,
        last_offset(living.last().metadata@) - first_offset(living[0].metadata@) <= i32::MAX,
    ensures
        pass_groups(c, living, level, rewrite_first) == seq![
            first_positions(living.len() as int),
        ],
{
    law_fitting_objects_are_one_group(limits_of(c, level), living);
    let one = first_positions(living.len() as int);
    let none = Seq::<Seq<usize>>::empty();
    let p = |g: Seq<usize>| g.len() != 1;
    assert(seq![one] =~= none.push(one));
    none.lemma_filter_push(one, p);
    assert(none.filter(p) =~= none);
    assert(none.push(one).filter(p) =~= seq![one]);
}

/// Every expired object is deleted, by one request, deeply: the requests name them in order, and
/// none names more than one step.
pub proof fn law_every_expired_object_is_deleted(
    requests: Seq<CompactStreamObjectRequest>,
    stream: StreamView,
    ids: Seq<u64>,
    i: int,
)
    requires
        are_cleanups_of(requests, stream, ids),
        0 <= i < ids.len(),
    ensures
        ({
            let k = i / EXPIRED_OBJECTS_CLEAN_UP_STEP as int;
            let j = i % EXPIRED_OBJECTS_CLEAN_UP_STEP as int;
            &&& 0 <= k < requests.len()
            &&& requests[k].source_object_ids@.len() <= EXPIRED_OBJECTS_CLEAN_UP_STEP
            &&& requests[k].source_object_ids@[j] == ids[i]
            &&& requests[k].operations@[j] == CompactOperations::DeepDelete
            &&& requests[k].operations@.len() == requests[k].source_object_ids@.len()
            &&& requests[k].stream_id == stream.stream_id
        }),
{
    let k = i / EXPIRED_OBJECTS_CLEAN_UP_STEP as int;
    let j = i % EXPIRED_OBJECTS_CLEAN_UP_STEP as int;
    assert(k * 1000 + j == i && 0 <= j < 1000);
    assert(k < requests.len());
    assert(is_cleanup_of(
        requests[k],
        stream,
        ids.subrange(
            k * EXPIRED_OBJECTS_CLEAN_UP_STEP,
            if (k + 1) * EXPIRED_OBJECTS_CLEAN_UP_STEP < ids.len() {
                (k + 1) * EXPIRED_OBJECTS_CLEAN_UP_STEP
            } else {
                ids.len() as int
            },
        ),
    ));
}

} // verus!

//! Laws of the metadata plane: what a commit and a compaction register and take out, and what
//! lookups find.
use vstd::prelude::*;

use crate::collections::{lemma_keys_are_listed, sorted_keys};
use crate::manager::{
    CommitStreamSetObjectRequest, CompactStreamObjectRequest, StreamMetadata, StreamObject,
    StreamState,
};
use crate::memory::{
    all_slices, closed_stream, committed, committed_ends, compacted, end_notices, first_of,
    fresh_stream, known_streams, lists_objects, objects_of_stream, open_error, opened,
    opened_streams, owner_error, set_slices, slice_keys, slices_in, stream_slices, trimmed,
    with_ends, with_stream_objects, MetadataModel, Slice,
};
use crate::object::{ObjectModel, S3ObjectType, NOOP_OBJECT_ID};
use crate::order::{arranged, is_stable_order};

verus! {

/// The object holds one range of one stream, as the request says.
pub open spec fn is_stream_object(o: ObjectModel, so: StreamObject) -> bool {
    &&& o.object_id == so.object_id
    &&& o.object_type == S3ObjectType::Stream
    &&& o.object_size == so.object_size
    &&& o.attributes == so.attributes
    &&& o.offset_ranges.len() == 1
    &&& o.offset_ranges[0].stream_id == so.stream_id
    &&& o.offset_ranges[0].start_offset == so.start_offset
    &&& o.offset_ranges[0].end_offset == so.end_offset
}

/// A commit registers its stream set object with the ranges that it names, and takes out the
/// objects that were compacted into it. No other stream set object changes.
pub proof fn law_commit_registers_set_object(
    s: MetadataModel,
    req: CommitStreamSetObjectRequest,
    now_ms: i64,
    id: u64,
)
    ensures
        ({
            let sets = committed(s, req, now_ms).set_objects;
            &&& req.compacted_object_ids@.contains(id) ==> !sets.contains_key(id)
            &&& id != req.object_id && !req.compacted_object_ids@.contains(id) ==> (
            sets.contains_key(id) <==> s.set_objects.contains_key(id)) && (sets.contains_key(id)
                ==> sets[id] == s.set_objects[id])
            &&& id == req.object_id && id != NOOP_OBJECT_ID && !req.compacted_object_ids@.contains(
                id,
            ) ==> {
                &&& sets.contains_key(id)
                &&& sets[id].object_id == id
                &&& sets[id].object_type == S3ObjectType::StreamSet
                &&& sets[id].object_size == req.object_size
                &&& sets[id].attributes == req.attributes
                &&& sets[id].offset_ranges.len() == req.stream_ranges@.len()
                &&& forall|i: int|
                    0 <= i < req.stream_ranges@.len() ==> {
                        let r = #[trigger] sets[id].offset_ranges[i];
                        &&& r.stream_id == req.stream_ranges@[i].stream_id
                        &&& r.start_offset == req.stream_ranges@[i].start_offset
                        &&& r.end_offset == req.stream_ranges@[i].end_offset
                    }
            }
        }),
        committed(s, req, now_ms).next_object_id == s.next_object_id,
        committed(s, req, now_ms).next_stream_id == s.next_stream_id,
{
}

/// A commit registers every stream object that it names under its stream and start offset; of
/// two that start there the later one stays. What stands elsewhere stays as it is.
pub proof fn law_commit_registers_stream_objects(
    s: MetadataModel,
    req: CommitStreamSetObjectRequest,
    now_ms: i64,
    i: int,
    stream_id: u64,
    start: u64,
)
    ensures
        ({
            let own = objects_of_stream(committed(s, req, now_ms).stream_objects, stream_id);
            let before = objects_of_stream(s.stream_objects, stream_id);
            let added = req.stream_objects@;
            &&& 0 <= i < added.len() && added[i].stream_id == stream_id && added[i].start_offset
                == start && (forall|j: int|
                i < j < added.len() ==> (#[trigger] added[j]).stream_id != stream_id
                    || added[j].start_offset != start) ==> own.contains_key(start)
                && is_stream_object(own[start], added[i])
            &&& (forall|j: int|
                0 <= j < added.len() ==> (#[trigger] added[j]).stream_id != stream_id
                    || added[j].start_offset != start) ==> (own.contains_key(start)
                <==> before.contains_key(start)) && (own.contains_key(start) ==> own[start]
                == before[start])
        }),
{
    lemma_stream_objects(s.stream_objects, req.stream_objects@, now_ms, i, stream_id, start);
}

proof fn lemma_stream_objects(
    objects: Map<u64, Map<u64, ObjectModel>>,
    added: Seq<StreamObject>,
    now_ms: i64,
    i: int,
    stream_id: u64,
    start: u64,
)
    ensures
        ({
            let own = objects_of_stream(with_stream_objects(objects, added, now_ms), stream_id);
            let before = objects_of_stream(objects, stream_id);
            &&& 0 <= i < added.len() && added[i].stream_id == stream_id && added[i].start_offset
                == start && (forall|j: int|
                i < j < added.len() ==> (#[trigger] added[j]).stream_id != stream_id
                    || added[j].start_offset != start) ==> own.contains_key(start)
                && is_stream_object(own[start], added[i])
            &&& (forall|j: int|
                0 <= j < added.len() ==> (#[trigger] added[j]).stream_id != stream_id
                    || added[j].start_offset != start) ==> (own.contains_key(start)
                <==> before.contains_key(start)) && (own.contains_key(start) ==> own[start]
                == before[start])
        }),
    decreases added.len(),
{
    if added.len() > 0 {
        let front = added.drop_last();
        let n = added.len() - 1;
        lemma_stream_objects(objects, front, now_ms, i, stream_id, start);
        assert forall|j: int| 0 <= j < n implies #[trigger] front[j] == added[j] by {}
        if 0 <= i < n {
            assert(front[i] == added[i]);
        }
        if forall|j: int|
            0 <= j < added.len() ==> (#[trigger] added[j]).stream_id != stream_id
                || added[j].start_offset != start {
            assert(added[n].stream_id != stream_id || added[n].start_offset != start);
            assert forall|j: int| 0 <= j < front.len() implies (
            #[trigger] front[j]).stream_id != stream_id || front[j].start_offset != start by {
                assert(front[j] == added[j]);
            }
        }
        if 0 <= i < n && forall|j: int|
            i < j < added.len() ==> (#[trigger] added[j]).stream_id != stream_id
                || added[j].start_offset != start {
            assert(added[n].stream_id != stream_id || added[n].start_offset != start);
            assert forall|j: int| i < j < front.len() implies (#[trigger] front[j]).stream_id
                != stream_id || front[j].start_offset != start by {
                assert(front[j] == added[j]);
            }
        }
    }
}

/// The committed end of a stream is the largest of what it was and what the commit names for
/// it. Nothing else of a stream changes, and unknown streams stay unknown.
pub proof fn law_commit_sets_largest_end(
    s: MetadataModel,
    req: CommitStreamSetObjectRequest,
    now_ms: i64,
    stream_id: u64,
)
    ensures
        ({
            let after = committed(s, req, now_ms).streams;
            let ranges = req.stream_ranges@;
            let objects = req.stream_objects@;
            &&& after.contains_key(stream_id) <==> s.streams.contains_key(stream_id)
            &&& after.contains_key(stream_id) ==> {
                let old_end = s.streams[stream_id].end_offset;
                let end = after[stream_id].end_offset;
                &&& after[stream_id] == (StreamMetadata {
                    end_offset: end,
                    ..s.streams[stream_id]
                })
                &&& end >= old_end
                &&& forall|i: int|
                    0 <= i < ranges.len() && (#[trigger] ranges[i]).stream_id == stream_id ==> end
                        >= ranges[i].end_offset
                &&& forall|i: int|
                    0 <= i < objects.len() && (#[trigger] objects[i]).stream_id == stream_id ==> end
                        >= objects[i].end_offset
                &&& end == old_end || (exists|i: int|
                    0 <= i < ranges.len() && (#[trigger] ranges[i]).stream_id == stream_id
                        && ranges[i].end_offset == end) || (exists|i: int|
                    0 <= i < objects.len() && (#[trigger] objects[i]).stream_id == stream_id
                        && objects[i].end_offset == end)
            }
        }),
{
    let ends = committed_ends(req);
    let ranges = req.stream_ranges@;
    let objects = req.stream_objects@;
    lemma_largest_end(s.streams, ends, stream_id);
    if s.streams.contains_key(stream_id) {
        let end = with_ends(s.streams, ends)[stream_id].end_offset;
        assert forall|i: int|
            0 <= i < ranges.len() && (#[trigger] ranges[i]).stream_id == stream_id implies end
            >= ranges[i].end_offset by {
            assert(ends[i] == (ranges[i].stream_id, ranges[i].end_offset));
        }
        assert forall|i: int|
            0 <= i < objects.len() && (#[trigger] objects[i]).stream_id == stream_id implies end
            >= objects[i].end_offset by {
            assert(ends[ranges.len() + i] == (objects[i].stream_id, objects[i].end_offset));
        }
        if end != s.streams[stream_id].end_offset {
            let i = choose|i: int|
                0 <= i < ends.len() && (#[trigger] ends[i]).0 == stream_id && ends[i].1 == end;
            if i < ranges.len() {
                assert(ranges[i].stream_id == stream_id);
            } else {
                assert(objects[i - ranges.len()].stream_id == stream_id);
            }
        }
    }
}

proof fn lemma_largest_end(streams: Map<u64, StreamMetadata>, ends: Seq<(u64, u64)>, id: u64)
    ensures
        with_ends(streams, ends).contains_key(id) <==> streams.contains_key(id),
        streams.contains_key(id) ==> {
            let end = with_ends(streams, ends)[id].end_offset;
            &&& with_ends(streams, ends)[id] == (StreamMetadata { end_offset: end, ..streams[id] })
            &&& end >= streams[id].end_offset
            &&& forall|i: int|
                0 <= i < ends.len() && (#[trigger] ends[i]).0 == id ==> end >= ends[i].1
            &&& end == streams[id].end_offset || exists|i: int|
                0 <= i < ends.len() && (#[trigger] ends[i]).0 == id && ends[i].1 == end
        },
    decreases ends.len(),
{
    if ends.len() > 0 {
        let front = ends.drop_last();
        let n = ends.len() - 1;
        lemma_largest_end(streams, front, id);
        if streams.contains_key(id) {
            let before = with_ends(streams, front)[id].end_offset;
            let end = with_ends(streams, ends)[id].end_offset;
            assert forall|i: int| 0 <= i < ends.len() && (#[trigger] ends[i]).0 == id implies end
                >= ends[i].1 by {
                if i < n {
                    assert(front[i] == ends[i]);
                }
            }
            if end == before && before != streams[id].end_offset {
                let i = choose|i: int|
                    0 <= i < front.len() && (#[trigger] front[i]).0 == id && front[i].1 == before;
                assert(ends[i] == front[i]);
            } else if end != before {
                assert(ends[n].0 == id);
            }
        }
    }
}

/// Listeners are told of every stream whose end a commit names: the last notice of a stream is
/// what the metadata plane then knows of it, and nobody is told of an unknown stream.
pub proof fn law_listeners_learn_committed_end(
    streams: Map<u64, StreamMetadata>,
    ends: Seq<(u64, u64)>,
    stream_id: u64,
)
    requires
        forall|k: u64| #[trigger] streams.contains_key(k) ==> streams[k].stream_id == k,
    ensures
        ({
            let told = end_notices(streams, ends);
            let named = exists|i: int| 0 <= i < ends.len() && (#[trigger] ends[i]).0 == stream_id;
            &&& named && streams.contains_key(stream_id) ==> exists|j: int|
                0 <= j < told.len() && told[j] == with_ends(streams, ends)[stream_id] && (forall|
                    k: int,
                |
                    j < k < told.len() ==> (#[trigger] told[k]).stream_id != stream_id)
            &&& !(named && streams.contains_key(stream_id)) ==> forall|j: int|
                0 <= j < told.len() ==> (#[trigger] told[j]).stream_id != stream_id
        }),
    decreases ends.len(),
{
    if ends.len() > 0 {
        let front = ends.drop_last();
        let n = ends.len() - 1;
        let (id, end) = ends[n];
        law_listeners_learn_committed_end(streams, front, stream_id);
        lemma_largest_end(streams, front, id);
        lemma_largest_end(streams, front, stream_id);
        let before = end_notices(streams, front);
        let told = end_notices(streams, ends);
        assert forall|i: int| 0 <= i < front.len() implies #[trigger] front[i] == ends[i] by {}
        let was_named = exists|i: int| 0 <= i < front.len() && (#[trigger] front[i]).0 == stream_id;
        if was_named {
            let i = choose|i: int| 0 <= i < front.len() && (#[trigger] front[i]).0 == stream_id;
            assert(ends[i].0 == stream_id);
        }
        if !was_named && id != stream_id {
            assert forall|i: int| 0 <= i < ends.len() implies (#[trigger] ends[i]).0
                != stream_id by {
                if i < n {
                    assert(front[i].0 != stream_id);
                }
            }
        }
        if streams.contains_key(id) {
            assert(streams[id].stream_id == id);
            assert(told == before.push(told.last()));
            if id == stream_id {
                assert(ends[n].0 == stream_id);
                assert(told[told.len() - 1] == with_ends(streams, ends)[stream_id]);
            } else if was_named && streams.contains_key(stream_id) {
                let j = choose|j: int|
                    0 <= j < before.len() && before[j] == with_ends(streams, front)[stream_id] && (
                    forall|k: int| j < k < before.len() ==> (#[trigger] before[k]).stream_id
                        != stream_id);
                assert(told[j] == before[j]);
                assert forall|k: int| j < k < told.len() implies (#[trigger] told[k]).stream_id
                    != stream_id by {
                    if k < before.len() {
                        assert(told[k] == before[k]);
                    }
                }
            } else {
                assert forall|k: int| 0 <= k < told.len() implies (#[trigger] told[k]).stream_id
                    != stream_id by {
                    if k < before.len() {
                        assert(told[k] == before[k]);
                    }
                }
            }
        } else {
            assert(told == before);
            if was_named && streams.contains_key(stream_id) {
                let j = choose|j: int|
                    0 <= j < before.len() && before[j] == with_ends(streams, front)[stream_id] && (
                    forall|k: int| j < k < before.len() ==> (#[trigger] before[k]).stream_id
                        != stream_id);
                assert(told[j] == with_ends(streams, ends)[stream_id]);
            }
        }
    }
}

/// A compaction of stream objects takes out its sources and registers the object in their
/// place, if there is one. Every other object of the stream stays, unless it starts where the
/// new one does; other streams are not touched.
pub proof fn law_compaction_replaces_sources(
    objects: Map<u64, Map<u64, ObjectModel>>,
    req: CompactStreamObjectRequest,
    now_ms: i64,
    stream_id: u64,
    start: u64,
)
    ensures
        ({
            let after = objects_of_stream(compacted(objects, req, now_ms), stream_id);
            let before = objects_of_stream(objects, stream_id);
            let replaced = req.object_id != NOOP_OBJECT_ID && start == req.start_offset;
            &&& stream_id != req.stream_id ==> after == before
            &&& stream_id == req.stream_id && replaced ==> after.contains_key(start) && {
                let o = after[start];
                &&& o.object_id == req.object_id
                &&& o.object_size == req.object_size
                &&& o.attributes == req.attributes
                &&& o.object_type == S3ObjectType::Stream
                &&& o.offset_ranges.len() == 1
                &&& o.offset_ranges[0].stream_id == req.stream_id
                &&& o.offset_ranges[0].start_offset == req.start_offset
                &&& o.offset_ranges[0].end_offset == req.end_offset
            }
            &&& stream_id == req.stream_id && !replaced ==> {
                &&& after.contains_key(start) <==> before.contains_key(start)
                    && !req.source_object_ids@.contains(before[start].object_id)
                &&& after.contains_key(start) ==> after[start] == before[start]
            }
        }),
{
}

/// A new stream is closed and empty, and can be opened with any epoch.
pub proof fn law_new_stream_can_be_opened(s: MetadataModel, stream_id: u64, epoch: u64)
    ensures
        ({
            let fresh = fresh_stream(stream_id);
            let t = MetadataModel { streams: s.streams.insert(stream_id, fresh), ..s };
            &&& fresh.stream_id == stream_id
            &&& fresh.state == StreamState::Closed
            &&& fresh.start_offset == 0
            &&& fresh.end_offset == 0
            &&& open_error(t, stream_id, epoch) is None
        }),
{
}

/// Opening, closing and trimming a stream change its epoch and state, its state, and its start;
/// its committed end stays, and so does every other stream.
pub proof fn law_streams_change_one_at_a_time(
    s: MetadataModel,
    stream_id: u64,
    epoch: u64,
    new_start: u64,
    other: u64,
)
    requires
        s.streams.contains_key(stream_id),
        other != stream_id,
    ensures
        ({
            let m = s.streams[stream_id];
            let o = opened(s, stream_id, epoch);
            let c = closed_stream(s, stream_id);
            let t = trimmed(m, new_start);
            &&& o.streams[stream_id].epoch == epoch
            &&& o.streams[stream_id].state == StreamState::Opened
            &&& o.streams[stream_id].start_offset == m.start_offset
            &&& o.streams[stream_id].end_offset == m.end_offset
            &&& c.streams[stream_id].epoch == m.epoch
            &&& c.streams[stream_id].state == StreamState::Closed
            &&& c.streams[stream_id].start_offset == m.start_offset
            &&& c.streams[stream_id].end_offset == m.end_offset
            &&& t.start_offset >= m.start_offset && t.start_offset >= new_start
            &&& t.start_offset == m.start_offset || t.start_offset == new_start
            &&& t.end_offset == m.end_offset && t.epoch == m.epoch && t.state == m.state
            &&& o.streams.contains_key(other) == s.streams.contains_key(other)
            &&& o.streams[other] == s.streams[other]
            &&& c.streams.contains_key(other) == s.streams.contains_key(other)
            &&& c.streams[other] == s.streams[other]
            &&& o.set_objects == s.set_objects && o.stream_objects == s.stream_objects
            &&& c.set_objects == s.set_objects && c.stream_objects == s.stream_objects
        }),
{
}

/// Opening is refused exactly where the stream is unknown, was opened with a newer epoch, or is
/// open with this one; an operation of the owner exactly where the stream is unknown or has
/// another epoch.
pub proof fn law_epochs_decide(s: MetadataModel, stream_id: u64, epoch: u64)
    ensures
        open_error(s, stream_id, epoch) is None <==> s.streams.contains_key(stream_id) && (
        s.streams[stream_id].epoch < epoch || (s.streams[stream_id].epoch == epoch
            && s.streams[stream_id].state != StreamState::Opened)),
        owner_error(s, stream_id, epoch) is None <==> s.streams.contains_key(stream_id)
            && s.streams[stream_id].epoch == epoch,
{
}

/// A lookup of streams finds those that are known, in the order in which they were asked for.
pub proof fn law_known_streams_are_found(streams: Map<u64, StreamMetadata>, ids: Seq<u64>)
    ensures
        known_streams(streams, ids) == ids.filter(|k: u64| streams.contains_key(k)).map_values(
            |k: u64| streams[k],
        ),
    decreases ids.len(),
{
    let p = |k: u64| streams.contains_key(k);
    let f = |k: u64| streams[k];
    if ids.len() == 0 {
        assert(ids.filter(p) =~= Seq::empty());
        assert(ids.filter(p).map_values(f) =~= Seq::empty());
    } else {
        let front = ids.drop_last();
        law_known_streams_are_found(streams, front);
        assert(ids =~= front.push(ids.last()));
        front.lemma_filter_push(ids.last(), p);
        assert(known_streams(streams, ids) =~= ids.filter(p).map_values(f));
    }
}

/// The streams that are open are found, in the order of their ids, and no others.
pub proof fn law_open_streams_are_found(streams: Map<u64, StreamMetadata>, ids: Seq<u64>)
    ensures
        opened_streams(streams, ids) == ids.filter(
            |k: u64| streams[k].state == StreamState::Opened,
        ).map_values(|k: u64| streams[k]),
    decreases ids.len(),
{
    let p = |k: u64| streams[k].state == StreamState::Opened;
    let f = |k: u64| streams[k];
    if ids.len() == 0 {
        assert(ids.filter(p) =~= Seq::empty());
        assert(ids.filter(p).map_values(f) =~= Seq::empty());
    } else {
        let front = ids.drop_last();
        law_open_streams_are_found(streams, front);
        assert(ids =~= front.push(ids.last()));
        front.lemma_filter_push(ids.last(), p);
        assert(opened_streams(streams, ids) =~= ids.filter(p).map_values(f));
    }
}

/// The slice is one of the stream in a stream set object, and overlaps `[start, end)`.
pub open spec fn is_set_slice(
    s: MetadataModel,
    stream_id: u64,
    start: u64,
    end: u64,
    x: Slice,
) -> bool {
    exists|k: u64, i: int|
        #![trigger s.set_objects[k].offset_ranges[i]]
        s.set_objects.contains_key(k) && s.set_objects[k] == x.1 && 0 <= i
            < x.1.offset_ranges.len() && s.set_objects[k].offset_ranges[i].stream_id == stream_id
            && s.set_objects[k].offset_ranges[i].start_offset == x.0
            && s.set_objects[k].offset_ranges[i].start_offset < end
            && s.set_objects[k].offset_ranges[i].end_offset > start
}

/// The slice is a stream object of the stream, and overlaps `[start, end)`.
pub open spec fn is_own_slice(
    s: MetadataModel,
    stream_id: u64,
    start: u64,
    end: u64,
    x: Slice,
) -> bool {
    exists|k: u64| #[trigger]
        objects_of_stream(s.stream_objects, stream_id).contains_key(k) && objects_of_stream(
            s.stream_objects,
            stream_id,
        )[k] == x.1 && x.1.offset_ranges.len() > 0 && x.1.offset_ranges[0].start_offset == x.0
            && x.0 < end && x.1.offset_ranges[0].end_offset > start
}

proof fn lemma_slices_in(o: ObjectModel, n: int, stream_id: u64, start: u64, end: u64, x: Slice)
    requires
        0 <= n <= o.offset_ranges.len(),
    ensures
        slices_in(o, n, stream_id, start, end).contains(x) <==> x.1 == o && exists|i: int|
            0 <= i < n && (#[trigger] o.offset_ranges[i]).stream_id == stream_id
                && o.offset_ranges[i].start_offset == x.0 && o.offset_ranges[i].start_offset < end
                && o.offset_ranges[i].end_offset > start,
    decreases n,
{
    if n > 0 {
        lemma_slices_in(o, n - 1, stream_id, start, end, x);
        let r = o.offset_ranges[n - 1];
        vstd::seq_lib::lemma_seq_contains_after_push(
            slices_in(o, n - 1, stream_id, start, end),
            (r.start_offset, o),
            x,
        );
    }
}

proof fn lemma_set_slices(
    objects: Map<u64, ObjectModel>,
    keys: Seq<u64>,
    stream_id: u64,
    start: u64,
    end: u64,
    x: Slice,
)
    ensures
        set_slices(objects, keys, stream_id, start, end).contains(x) <==> exists|a: int, i: int|
            #![trigger objects[keys[a]].offset_ranges[i]]
            0 <= a < keys.len() && objects[keys[a]] == x.1 && 0 <= i < x.1.offset_ranges.len()
                && objects[keys[a]].offset_ranges[i].stream_id == stream_id
                && objects[keys[a]].offset_ranges[i].start_offset == x.0
                && objects[keys[a]].offset_ranges[i].start_offset < end
                && objects[keys[a]].offset_ranges[i].end_offset > start,
    decreases keys.len(),
{
    if keys.len() > 0 {
        let front = keys.drop_last();
        let n = keys.len() - 1;
        let o = objects[keys.last()];
        lemma_set_slices(objects, front, stream_id, start, end, x);
        lemma_slices_in(o, o.offset_ranges.len() as int, stream_id, start, end, x);
        let before = set_slices(objects, front, stream_id, start, end);
        let more = slices_in(o, o.offset_ranges.len() as int, stream_id, start, end);
        let all = set_slices(objects, keys, stream_id, start, end);
        lemma_contains_parts(before, more, x);
        if before.contains(x) {
            let (a, i) = choose|a: int, i: int|
                #![trigger objects[front[a]].offset_ranges[i]]
                0 <= a < front.len() && objects[front[a]] == x.1 && 0 <= i
                    < x.1.offset_ranges.len() && objects[front[a]].offset_ranges[i].stream_id
                    == stream_id && objects[front[a]].offset_ranges[i].start_offset == x.0
                    && objects[front[a]].offset_ranges[i].start_offset < end
                    && objects[front[a]].offset_ranges[i].end_offset > start;
            assert(objects[keys[a]].offset_ranges[i].stream_id == stream_id);
        }
        if more.contains(x) {
            let i = choose|i: int|
                0 <= i < o.offset_ranges.len() && (#[trigger] o.offset_ranges[i]).stream_id
                    == stream_id && o.offset_ranges[i].start_offset == x.0
                    && o.offset_ranges[i].start_offset < end && o.offset_ranges[i].end_offset
                    > start;
            assert(objects[keys[n]].offset_ranges[i].stream_id == stream_id);
        }
        if exists|a: int, i: int|
            #![trigger objects[keys[a]].offset_ranges[i]]
            0 <= a < keys.len() && objects[keys[a]] == x.1 && 0 <= i < x.1.offset_ranges.len()
                && objects[keys[a]].offset_ranges[i].stream_id == stream_id
                && objects[keys[a]].offset_ranges[i].start_offset == x.0
                && objects[keys[a]].offset_ranges[i].start_offset < end
                && objects[keys[a]].offset_ranges[i].end_offset > start {
            let (a, i) = choose|a: int, i: int|
                #![trigger objects[keys[a]].offset_ranges[i]]
                0 <= a < keys.len() && objects[keys[a]] == x.1 && 0 <= i < x.1.offset_ranges.len()
                    && objects[keys[a]].offset_ranges[i].stream_id == stream_id
                    && objects[keys[a]].offset_ranges[i].start_offset == x.0
                    && objects[keys[a]].offset_ranges[i].start_offset < end
                    && objects[keys[a]].offset_ranges[i].end_offset > start;
            if a < n {
                assert(objects[front[a]].offset_ranges[i].stream_id == stream_id);
            } else {
                assert(o.offset_ranges[i].stream_id == stream_id);
            }
        }
    }
}

proof fn lemma_contains_parts<T>(a: Seq<T>, b: Seq<T>, x: T)
    ensures
        (a + b).contains(x) <==> a.contains(x) || b.contains(x),
{
    let all = a + b;
    if a.contains(x) {
        let i = choose|i: int| 0 <= i < a.len() && a[i] == x;
        assert(all[i] == x);
    }
    if b.contains(x) {
        let i = choose|i: int| 0 <= i < b.len() && b[i] == x;
        assert(all[a.len() + i] == x);
    }
    if all.contains(x) {
        let i = choose|i: int| 0 <= i < all.len() && all[i] == x;
        if i < a.len() {
            assert(a[i] == x);
        } else {
            assert(b[i - a.len()] == x);
        }
    }
}

/// The stream objects that a lookup goes through: those that overlap the range, in the order
/// of their keys.
pub proof fn law_stream_slices_overlap(
    objects: Map<u64, ObjectModel>,
    keys: Seq<u64>,
    start: u64,
    end: u64,
    x: Slice,
)
    ensures
        stream_slices(objects, keys, start, end).contains(x) <==> exists|a: int|
            0 <= a < keys.len() && #[trigger] objects[keys[a]] == x.1 && x.1.offset_ranges.len() > 0
                && x.1.offset_ranges[0].start_offset == x.0 && x.0 < end
                && x.1.offset_ranges[0].end_offset > start,
    decreases keys.len(),
{
    if keys.len() > 0 {
        let front = keys.drop_last();
        let n = keys.len() - 1;
        law_stream_slices_overlap(objects, front, start, end, x);
        let o = objects[keys.last()];
        let before = stream_slices(objects, front, start, end);
        if o.offset_ranges.len() > 0 {
            vstd::seq_lib::lemma_seq_contains_after_push(
                before,
                (o.offset_ranges[0].start_offset, o),
                x,
            );
        }
        if before.contains(x) {
            let a = choose|a: int|
                0 <= a < front.len() && #[trigger] objects[front[a]] == x.1
                    && x.1.offset_ranges.len() > 0 && x.1.offset_ranges[0].start_offset == x.0
                    && x.0 < end && x.1.offset_ranges[0].end_offset > start;
            assert(objects[keys[a]] == x.1);
        }
        if exists|a: int|
            0 <= a < keys.len() && #[trigger] objects[keys[a]] == x.1 && x.1.offset_ranges.len() > 0
                && x.1.offset_ranges[0].start_offset == x.0 && x.0 < end
                && x.1.offset_ranges[0].end_offset > start {
            let a = choose|a: int|
                0 <= a < keys.len() && #[trigger] objects[keys[a]] == x.1
                    && x.1.offset_ranges.len() > 0 && x.1.offset_ranges[0].start_offset == x.0
                    && x.0 < end && x.1.offset_ranges[0].end_offset > start;
            if a < n {
                assert(objects[front[a]] == x.1);
            } else {
                assert(objects[keys[n]] == x.1);
            }
        }
    }
}

/// A lookup finds, of a stream, every slice that overlaps the range, in stream set objects and
/// in stream objects, and nothing else.
pub proof fn law_lookup_finds_overlapping_slices(
    s: MetadataModel,
    stream_id: u64,
    start: u64,
    end: u64,
    x: Slice,
)
    requires
        s.set_objects.dom().finite(),
        objects_of_stream(s.stream_objects, stream_id).dom().finite(),
    ensures
        all_slices(s, stream_id, start, end).contains(x) <==> is_set_slice(
            s,
            stream_id,
            start,
            end,
            x,
        ) || is_own_slice(s, stream_id, start, end, x),
{
    let own = objects_of_stream(s.stream_objects, stream_id);
    let keys = sorted_keys(s.set_objects);
    let own_keys = sorted_keys(own);
    lemma_keys_are_listed(s.set_objects);
    lemma_keys_are_listed(own);
    lemma_set_slices(s.set_objects, keys, stream_id, start, end, x);
    law_stream_slices_overlap(own, own_keys, start, end, x);
    lemma_contains_parts(
        set_slices(s.set_objects, keys, stream_id, start, end),
        stream_slices(own, own_keys, start, end),
        x,
    );
    if is_set_slice(s, stream_id, start, end, x) {
        let (k, i) = choose|k: u64, i: int|
            #![trigger s.set_objects[k].offset_ranges[i]]
            s.set_objects.contains_key(k) && s.set_objects[k] == x.1 && 0 <= i
                < x.1.offset_ranges.len() && s.set_objects[k].offset_ranges[i].stream_id
                == stream_id && s.set_objects[k].offset_ranges[i].start_offset == x.0
                && s.set_objects[k].offset_ranges[i].start_offset < end
                && s.set_objects[k].offset_ranges[i].end_offset > start;
        assert(keys.contains(k));
        let a = choose|a: int| 0 <= a < keys.len() && keys[a] == k;
        assert(s.set_objects[keys[a]].offset_ranges[i].stream_id == stream_id);
    }
    if set_slices(s.set_objects, keys, stream_id, start, end).contains(x) {
        let (a, i) = choose|a: int, i: int|
            #![trigger s.set_objects[keys[a]].offset_ranges[i]]
            0 <= a < keys.len() && s.set_objects[keys[a]] == x.1 && 0 <= i
                < x.1.offset_ranges.len() && s.set_objects[keys[a]].offset_ranges[i].stream_id
                == stream_id && s.set_objects[keys[a]].offset_ranges[i].start_offset == x.0
                && s.set_objects[keys[a]].offset_ranges[i].start_offset < end
                && s.set_objects[keys[a]].offset_ranges[i].end_offset > start;
        assert(keys.contains(keys[a]));
        assert(s.set_objects[keys[a]].offset_ranges[i].stream_id == stream_id);
    }
    if is_own_slice(s, stream_id, start, end, x) {
        let k = choose|k: u64| #[trigger]
            own.contains_key(k) && own[k] == x.1 && x.1.offset_ranges.len() > 0
                && x.1.offset_ranges[0].start_offset == x.0 && x.0 < end
                && x.1.offset_ranges[0].end_offset > start;
        assert(own_keys.contains(k));
        let a = choose|a: int| 0 <= a < own_keys.len() && own_keys[a] == k;
        assert(own[own_keys[a]] == x.1);
    }
    if stream_slices(own, own_keys, start, end).contains(x) {
        let a = choose|a: int|
            0 <= a < own_keys.len() && #[trigger] own[own_keys[a]] == x.1
                && x.1.offset_ranges.len() > 0 && x.1.offset_ranges[0].start_offset == x.0 && x.0
                < end && x.1.offset_ranges[0].end_offset > start;
        assert(own_keys.contains(own_keys[a]));
        assert(own.contains_key(own_keys[a]));
    }
}

/// What a lookup returns: slices in the order of their start offsets, all of them unless the
/// limit cuts them off, and at least one where there is any.
pub proof fn law_lookup_is_ordered_and_complete(
    s: MetadataModel,
    stream_id: u64,
    start: u64,
    end: u64,
    limit: usize,
    r: Seq<ObjectModel>,
)
    requires
        lists_objects(s, stream_id, start, end, limit, r),
    ensures
        ({
            let all = all_slices(s, stream_id, start, end);
            &&& r.len() == all.len() || (r.len() < all.len() && r.len() == (if limit == 0 {
                1
            } else {
                limit as int
            }))
            &&& exists|found: Seq<Slice>|
                {
                    &&& #[trigger] found.len() == r.len()
                    &&& forall|i: int| 0 <= i < r.len() ==> #[trigger] r[i] == found[i].1
                    &&& forall|i: int| 0 <= i < found.len() ==> all.contains(#[trigger] found[i])
                    &&& forall|i: int, j: int|
                        #![trigger found[i], found[j]]
                        0 <= i < j < found.len() ==> found[i].0 <= found[j].0
                }
        }),
{
    let all = all_slices(s, stream_id, start, end);
    let perm = choose|perm: Seq<usize>| #[trigger]
        is_stable_order(slice_keys(all), perm) && r == first_of(arranged(all, perm), limit)
            .map_values(|x: Slice| x.1);
    let keys = slice_keys(all);
    let found = first_of(arranged(all, perm), limit);
    assert(found.len() == r.len());
    assert forall|i: int| 0 <= i < found.len() implies all.contains(#[trigger] found[i]) by {
        assert(found[i] == all[perm[i] as int]);
        assert(perm[i] < keys.len());
    }
    assert forall|i: int, j: int|
        #![trigger found[i], found[j]]
        0 <= i < j < found.len() implies found[i].0 <= found[j].0 by {
        assert(found[i] == all[perm[i] as int] && found[j] == all[perm[j] as int]);
        assert(perm[i] < keys.len() && perm[j] < keys.len());
        assert(keys[perm[i] as int] == (found[i].0, found[i].1.object_id));
        assert(keys[perm[j] as int] == (found[j].0, found[j].1.object_id));
    }
}

/// A limit keeps the front of a list: all of it where the limit is not reached, and at least
/// one item.
pub proof fn law_limit_keeps_front<T>(items: Seq<T>, limit: usize)
    ensures
        first_of(items, limit).len() <= items.len(),
        first_of(items, limit) == items.take(first_of(items, limit).len() as int),
        items.len() > 0 ==> first_of(items, limit).len() > 0,
        items.len() <= limit ==> first_of(items, limit) == items,
        limit > 0 ==> first_of(items, limit).len() <= limit,
        items.len() > limit > 0 ==> first_of(items, limit).len() == limit,
{
    assert(items.take(items.len() as int) =~= items);
    if items.len() > 1 {
        assert(items.take(1).len() == 1);
    }
}

} // verus!

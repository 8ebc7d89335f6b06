//! In-memory metadata plane for tests and single-process emulation.
//!
//! Object ids come from a counter, commits are tracked in maps, and stream epochs are
//! enforced as a control plane does: opening with a stale epoch is fenced.
use std::collections::{BTreeMap, HashMap};
use vstd::prelude::*;

use crate::collections::{hash_keys, sorted_keys, tree_keys};
use crate::error::StreamError;
use crate::manager::{
    CommitStreamSetObjectRequest, CompactStreamObjectRequest, StreamMetadata, StreamObject,
    StreamState,
};
use crate::object::{
    ObjectModel, ObjectStreamRange, S3ObjectMetadata, S3ObjectType, StreamOffsetRange,
    NOOP_OBJECT_ID,
};
use crate::order::{arranged, is_stable_order, stable_order};

verus! {

/// What the metadata plane knows.
#[verifier::ext_equal]
pub struct MetadataModel {
    pub next_object_id: u64,
    /// Stream set objects by id.
    pub set_objects: Map<u64, ObjectModel>,
    /// Stream objects by stream and start offset.
    pub stream_objects: Map<u64, Map<u64, ObjectModel>>,
    pub streams: Map<u64, StreamMetadata>,
    pub next_stream_id: u64,
}

/// The stream set object that a request commits.
pub open spec fn set_object_of(req: CommitStreamSetObjectRequest, now_ms: i64) -> ObjectModel {
    ObjectModel {
        object_id: req.object_id,
        object_type: S3ObjectType::StreamSet,
        offset_ranges: req.stream_ranges@.map_values(
            |r: ObjectStreamRange|
                StreamOffsetRange {
                    stream_id: r.stream_id,
                    start_offset: r.start_offset,
                    end_offset: r.end_offset,
                },
        ),
        object_size: req.object_size,
        attributes: req.attributes,
        committed_timestamp_ms: now_ms,
        data_timestamp_ms: now_ms,
    }
}

/// An object that holds one range of one stream.
pub open spec fn stream_object_model(so: StreamObject, now_ms: i64) -> ObjectModel {
    ObjectModel {
        object_id: so.object_id,
        object_type: S3ObjectType::Stream,
        offset_ranges: seq![
            StreamOffsetRange {
                stream_id: so.stream_id,
                start_offset: so.start_offset,
                end_offset: so.end_offset,
            },
        ],
        object_size: so.object_size,
        attributes: so.attributes,
        committed_timestamp_ms: now_ms,
        data_timestamp_ms: now_ms,
    }
}

/// The objects of a stream, none if it has none.
pub open spec fn objects_of_stream(
    objects: Map<u64, Map<u64, ObjectModel>>,
    stream_id: u64,
) -> Map<u64, ObjectModel> {
    if objects.contains_key(stream_id) {
        objects[stream_id]
    } else {
        Map::empty()
    }
}

/// Stream objects are registered under their start offset, later ones replacing earlier
/// ones that start there.
pub open spec fn with_stream_objects(
    objects: Map<u64, Map<u64, ObjectModel>>,
    added: Seq<StreamObject>,
    now_ms: i64,
) -> Map<u64, Map<u64, ObjectModel>>
    decreases added.len(),
{
    if added.len() == 0 {
        objects
    } else {
        let before = with_stream_objects(objects, added.drop_last(), now_ms);
        let so = added.last();
        before.insert(
            so.stream_id,
            objects_of_stream(before, so.stream_id).insert(
                so.start_offset,
                stream_object_model(so, now_ms),
            ),
        )
    }
}

/// The ends that a request commits: of its ranges, then of its stream objects.
pub open spec fn committed_ends(req: CommitStreamSetObjectRequest) -> Seq<(u64, u64)> {
    req.stream_ranges@.map_values(|r: ObjectStreamRange| (r.stream_id, r.end_offset))
        + req.stream_objects@.map_values(|s: StreamObject| (s.stream_id, s.end_offset))
}

/// A stream whose committed end is at least `end`.
pub open spec fn advanced(stream: StreamMetadata, end: u64) -> StreamMetadata {
    StreamMetadata {
        end_offset: if stream.end_offset >= end {
            stream.end_offset
        } else {
            end
        },
        ..stream
    }
}

/// Streams after their ends were committed. Unknown streams stay unknown.
pub open spec fn with_ends(
    streams: Map<u64, StreamMetadata>,
    ends: Seq<(u64, u64)>,
) -> Map<u64, StreamMetadata>
    decreases ends.len(),
{
    if ends.len() == 0 {
        streams
    } else {
        let before = with_ends(streams, ends.drop_last());
        let (id, end) = ends.last();
        if before.contains_key(id) {
            before.insert(id, advanced(before[id], end))
        } else {
            before
        }
    }
}

/// What listeners are told: the metadata of a stream after each end committed for it.
pub open spec fn end_notices(
    streams: Map<u64, StreamMetadata>,
    ends: Seq<(u64, u64)>,
) -> Seq<StreamMetadata>
    decreases ends.len(),
{
    if ends.len() == 0 {
        Seq::empty()
    } else {
        let (id, end) = ends.last();
        let before = with_ends(streams, ends.drop_last());
        if before.contains_key(id) {
            end_notices(streams, ends.drop_last()).push(advanced(before[id], end))
        } else {
            end_notices(streams, ends.drop_last())
        }
    }
}

/// The metadata after a commit: its stream set object is registered, if it has one, its
/// stream objects are, the compacted objects are gone, and the ends are committed.
pub open spec fn committed(
    s: MetadataModel,
    req: CommitStreamSetObjectRequest,
    now_ms: i64,
) -> MetadataModel {
    let registered = if req.object_id != NOOP_OBJECT_ID {
        s.set_objects.insert(req.object_id, set_object_of(req, now_ms))
    } else {
        s.set_objects
    };
    MetadataModel {
        set_objects: registered.remove_keys(req.compacted_object_ids@.to_set()),
        stream_objects: with_stream_objects(s.stream_objects, req.stream_objects@, now_ms),
        streams: with_ends(s.streams, committed_ends(req)),
        ..s
    }
}

/// Stream objects that are not among `ids`.
pub open spec fn without_objects(
    objects: Map<u64, ObjectModel>,
    ids: Seq<u64>,
) -> Map<u64, ObjectModel> {
    objects.restrict(objects.dom().filter(|k: u64| !ids.contains(objects[k].object_id)))
}

/// The stream objects after a compaction: the sources are gone, and the replacement is
/// registered, if there is one.
pub open spec fn compacted(
    objects: Map<u64, Map<u64, ObjectModel>>,
    req: CompactStreamObjectRequest,
    now_ms: i64,
) -> Map<u64, Map<u64, ObjectModel>> {
    let rest = without_objects(
        objects_of_stream(objects, req.stream_id),
        req.source_object_ids@,
    );
    let replacement = StreamObject {
        object_id: req.object_id,
        object_size: req.object_size,
        stream_id: req.stream_id,
        start_offset: req.start_offset,
        end_offset: req.end_offset,
        attributes: req.attributes,
    };
    objects.insert(
        req.stream_id,
        if req.object_id != NOOP_OBJECT_ID {
            rest.insert(req.start_offset, stream_object_model(replacement, now_ms))
        } else {
            rest
        },
    )
}

pub open spec fn model_of(m: S3ObjectMetadata) -> ObjectModel {
    m@
}

pub open spec fn tree_model(t: BTreeMap<u64, S3ObjectMetadata>) -> Map<u64, ObjectModel> {
    t@.map_values(|m: S3ObjectMetadata| model_of(m))
}

/// In-memory `ObjectManager` and `StreamManager` state.
#[derive(Debug)]
pub struct MemoryMetadataManager {
    object_id_alloc: u64,
    stream_set_objects: BTreeMap<u64, S3ObjectMetadata>,
    stream_objects: HashMap<u64, BTreeMap<u64, S3ObjectMetadata>>,
    streams: BTreeMap<u64, StreamMetadata>,
    next_stream_id: u64,
}

impl View for MemoryMetadataManager {
    type V = MetadataModel;

    closed spec fn view(&self) -> MetadataModel {
        MetadataModel {
            next_object_id: self.object_id_alloc,
            set_objects: tree_model(self.stream_set_objects),
            stream_objects: self.stream_objects@.map_values(
                |t: BTreeMap<u64, S3ObjectMetadata>| tree_model(t),
            ),
            streams: self.streams@,
            next_stream_id: self.next_stream_id,
        }
    }
}

/// An object that holds one range of one stream.
fn stream_object_metadata(so: &StreamObject, now_ms: i64) -> (r: S3ObjectMetadata)
    ensures
        r@ == stream_object_model(*so, now_ms),
{
    let mut offset_ranges: Vec<StreamOffsetRange> = Vec::new();
    offset_ranges.push(
        StreamOffsetRange {
            stream_id: so.stream_id,
            start_offset: so.start_offset,
            end_offset: so.end_offset,
        },
    );
    let r = S3ObjectMetadata {
        object_id: so.object_id,
        object_type: S3ObjectType::Stream,
        offset_ranges,
        object_size: so.object_size,
        attributes: so.attributes,
        committed_timestamp_ms: now_ms,
        data_timestamp_ms: now_ms,
    };
    assert(r@ =~= stream_object_model(*so, now_ms));
    r
}

/// The stream set object of a commit.
fn set_object_metadata(req: &CommitStreamSetObjectRequest, now_ms: i64) -> (r: S3ObjectMetadata)
    ensures
        r@ == set_object_of(*req, now_ms),
{
    let mut offset_ranges: Vec<StreamOffsetRange> = Vec::new();
    let mut i: usize = 0;
    while i < req.stream_ranges.len()
        invariant
            i <= req.stream_ranges@.len(),
            offset_ranges@ =~= set_object_of(*req, now_ms).offset_ranges.take(i as int),
        decreases req.stream_ranges@.len() - i,
    {
        let range = req.stream_ranges[i];
        offset_ranges.push(
            StreamOffsetRange {
                stream_id: range.stream_id,
                start_offset: range.start_offset,
                end_offset: range.end_offset,
            },
        );
        i += 1;
    }
    let r = S3ObjectMetadata {
        object_id: req.object_id,
        object_type: S3ObjectType::StreamSet,
        offset_ranges,
        object_size: req.object_size,
        attributes: req.attributes,
        committed_timestamp_ms: now_ms,
        data_timestamp_ms: now_ms,
    };
    assert(r@ =~= set_object_of(*req, now_ms));
    r
}

impl MemoryMetadataManager {
    pub fn new() -> (r: Self)
        ensures
            r@ == (MetadataModel {
                next_object_id: 1,
                set_objects: Map::empty(),
                stream_objects: Map::empty(),
                streams: Map::empty(),
                next_stream_id: 0,
            }),
    {
        let r = MemoryMetadataManager {
            object_id_alloc: 1,
            stream_set_objects: BTreeMap::new(),
            stream_objects: HashMap::new(),
            streams: BTreeMap::new(),
            next_stream_id: 0,
        };
        assert(r@.set_objects =~= Map::empty());
        assert(r@.stream_objects =~= Map::empty());
        r
    }

    /// Set the owner node of a stream. Unknown streams stay unknown.
    pub fn set_node_id(&mut self, stream_id: u64, node_id: i32)
        ensures
            final(self)@ == (MetadataModel {
                streams: if old(self)@.streams.contains_key(stream_id) {
                    old(self)@.streams.insert(
                        stream_id,
                        StreamMetadata { node_id, ..old(self)@.streams[stream_id] },
                    )
                } else {
                    old(self)@.streams
                },
                ..old(self)@
            }),
    {
        broadcast use vstd::std_specs::btree::group_btree_axioms;

        let found: Option<StreamMetadata> = match self.streams.get(&stream_id) {
            Some(s) => Some(*s),
            None => None,
        };
        match found {
            Some(s) => {
                self.streams.insert(stream_id, StreamMetadata { node_id, ..s });
            },
            None => {},
        }
    }

    /// Lease `count` consecutive object ids.
    pub fn prepare_object(&mut self, count: usize) -> (r: u64)
        requires
            old(self)@.next_object_id + count <= u64::MAX,
        ensures
            r == old(self)@.next_object_id,
            final(self)@ == (MetadataModel {
                next_object_id: (old(self)@.next_object_id + count) as u64,
                ..old(self)@
            }),
    {
        let first: u64 = self.object_id_alloc;
        self.object_id_alloc = first + count as u64;
        first
    }

    fn add_stream_object(&mut self, so: &StreamObject, now_ms: i64)
        ensures
            final(self)@ == (MetadataModel {
                stream_objects: old(self)@.stream_objects.insert(
                    so.stream_id,
                    objects_of_stream(old(self)@.stream_objects, so.stream_id).insert(
                        so.start_offset,
                        stream_object_model(*so, now_ms),
                    ),
                ),
                ..old(self)@
            }),
    {
        broadcast use vstd::std_specs::btree::group_btree_axioms;
        broadcast use vstd::std_specs::hash::group_hash_axioms;

        let ghost before = self@;
        let mut tree = match self.stream_objects.remove(&so.stream_id) {
            Some(t) => t,
            None => BTreeMap::new(),
        };
        assert(tree_model(tree) =~= objects_of_stream(before.stream_objects, so.stream_id));
        let ghost tree0 = tree;
        let object = stream_object_metadata(so, now_ms);
        tree.insert(so.start_offset, object);
        assert(tree_model(tree) =~= tree_model(tree0).insert(
            so.start_offset,
            stream_object_model(*so, now_ms),
        ));
        self.stream_objects.insert(so.stream_id, tree);
        assert(self@.stream_objects =~= before.stream_objects.insert(
            so.stream_id,
            objects_of_stream(before.stream_objects, so.stream_id).insert(
                so.start_offset,
                stream_object_model(*so, now_ms),
            ),
        ));
    }

    /// Atomic commit: registers the stream set object and its split stream objects
    /// together, takes out the compacted objects, and advances each affected stream's
    /// committed end offset. Returns the metadata that listeners of the affected streams
    /// are to be told, in order.
    pub fn commit_stream_set_object(
        &mut self,
        request: &CommitStreamSetObjectRequest,
        now_ms: i64,
    ) -> (r: Vec<StreamMetadata>)
        ensures
            final(self)@ == committed(old(self)@, *request, now_ms),
            r@ == end_notices(old(self)@.streams, committed_ends(*request)),
    {
        broadcast use vstd::std_specs::btree::group_btree_axioms;

        let ghost s0 = self@;
        if request.object_id != NOOP_OBJECT_ID {
            let object = set_object_metadata(request, now_ms);
            let ghost t0 = self.stream_set_objects;
            self.stream_set_objects.insert(request.object_id, object);
            assert(tree_model(self.stream_set_objects) =~= tree_model(t0).insert(
                request.object_id,
                set_object_of(*request, now_ms),
            ));
        }
        let ghost registered = self@.set_objects;
        let mut i: usize = 0;
        let ghost added = request.stream_objects@;
        assert(added.take(0) =~= Seq::empty());
        while i < request.stream_objects.len()
            invariant
                i <= added.len(),
                added == request.stream_objects@,
                self@ == (MetadataModel {
                    set_objects: registered,
                    stream_objects: with_stream_objects(
                        s0.stream_objects,
                        added.take(i as int),
                        now_ms,
                    ),
                    ..s0
                }),
            decreases added.len() - i,
        {
            proof {
                assert(added.take(i + 1).drop_last() =~= added.take(i as int));
            }
            self.add_stream_object(&request.stream_objects[i], now_ms);
            i += 1;
        }
        assert(added.take(i as int) =~= added);
        let mut j: usize = 0;
        let ghost ids = request.compacted_object_ids@;
        let ghost s1 = self@;
        proof {
            assert(ids.take(0).to_set() =~= Set::empty());
            assert(registered.remove_keys(Set::empty()) =~= registered);
        }
        while j < request.compacted_object_ids.len()
            invariant
                j <= ids.len(),
                ids == request.compacted_object_ids@,
                self@ == (MetadataModel {
                    set_objects: registered.remove_keys(ids.take(j as int).to_set()),
                    ..s1
                }),
            decreases ids.len() - j,
        {
            let ghost t0 = self.stream_set_objects;
            self.stream_set_objects.remove(&request.compacted_object_ids[j]);
            proof {
                let id = ids[j as int];
                assert(ids.take(j + 1) =~= ids.take(j as int).push(id));
                ids.take(j as int).lemma_push_to_set_commute(id);
                assert(tree_model(self.stream_set_objects) =~= tree_model(t0).remove(id));
                assert(self@.set_objects =~= registered.remove_keys(ids.take(j + 1).to_set()));
            }
            j += 1;
        }
        assert(ids.take(j as int) =~= ids);
        let ghost s2 = self@;
        let ghost ends = committed_ends(*request);
        let mut notices: Vec<StreamMetadata> = Vec::new();
        let mut a: usize = 0;
        let ghost n = request.stream_ranges@.len() as int;
        assert(ends.take(0) =~= Seq::empty());
        while a < request.stream_ranges.len()
            invariant
                a <= n,
                n == request.stream_ranges@.len(),
                ends == committed_ends(*request),
                self@ == (MetadataModel { streams: with_ends(s0.streams, ends.take(a as int)), ..s2
                }),
                notices@ == end_notices(s0.streams, ends.take(a as int)),
            decreases n - a,
        {
            let range = request.stream_ranges[a];
            proof {
                assert(ends[a as int] == (range.stream_id, range.end_offset));
                assert(ends.take(a + 1).drop_last() =~= ends.take(a as int));
            }
            self.advance_end(range.stream_id, range.end_offset, &mut notices);
            a += 1;
        }
        let mut b: usize = 0;
        while b < request.stream_objects.len()
            invariant
                b <= request.stream_objects@.len(),
                n == request.stream_ranges@.len(),
                ends == committed_ends(*request),
                self@ == (MetadataModel { streams: with_ends(s0.streams, ends.take(n + b)), ..s2 }),
                notices@ == end_notices(s0.streams, ends.take(n + b)),
            decreases request.stream_objects@.len() - b,
        {
            let object = request.stream_objects[b];
            proof {
                assert(ends[n + b] == (object.stream_id, object.end_offset));
                assert(ends.take(n + b + 1).drop_last() =~= ends.take(n + b));
            }
            self.advance_end(object.stream_id, object.end_offset, &mut notices);
            b += 1;
        }
        assert(ends.take(n + b) =~= ends);
        notices
    }

    /// Advances the committed end of a stream, if it is known.
    fn advance_end(&mut self, stream_id: u64, end: u64, notices: &mut Vec<StreamMetadata>)
        ensures
            old(self)@.streams.contains_key(stream_id) ==> {
                &&& final(self)@ == (MetadataModel {
                    streams: old(self)@.streams.insert(
                        stream_id,
                        advanced(old(self)@.streams[stream_id], end),
                    ),
                    ..old(self)@
                })
                &&& final(notices)@ == old(notices)@.push(
                    advanced(old(self)@.streams[stream_id], end),
                )
            },
            !old(self)@.streams.contains_key(stream_id) ==> {
                &&& final(self)@ == old(self)@
                &&& final(notices)@ == old(notices)@
            },
    {
        broadcast use vstd::std_specs::btree::group_btree_axioms;

        let found: Option<StreamMetadata> = match self.streams.get(&stream_id) {
            Some(s) => Some(*s),
            None => None,
        };
        match found {
            Some(s) => {
                let new_end: u64 = if s.end_offset >= end {
                    s.end_offset
                } else {
                    end
                };
                let updated = StreamMetadata { end_offset: new_end, ..s };
                self.streams.insert(stream_id, updated);
                notices.push(updated);
            },
            None => {},
        }
    }

    /// Replaces the sources of a stream-object compaction by its result.
    pub fn compact_stream_object(&mut self, request: &CompactStreamObjectRequest, now_ms: i64)
        ensures
            final(self)@ == (MetadataModel {
                stream_objects: compacted(old(self)@.stream_objects, *request, now_ms),
                ..old(self)@
            }),
    {
        broadcast use vstd::std_specs::btree::group_btree_axioms;
        broadcast use vstd::std_specs::hash::group_hash_axioms;

        let ghost before = self@;
        let mut tree = match self.stream_objects.remove(&request.stream_id) {
            Some(t) => t,
            None => BTreeMap::new(),
        };
        let ghost old_objects = objects_of_stream(before.stream_objects, request.stream_id);
        let ghost tree0 = tree;
        assert(tree_model(tree) =~= old_objects);
        let keys = tree_keys(&tree);
        let mut i: usize = 0;
        while i < keys.len()
            invariant
                i <= keys@.len(),
                crate::collections::lists_keys(tree0@, keys@),
                tree_model(tree0) == old_objects,
                forall|k: u64| #[trigger]
                    tree@.contains_key(k) <==> tree0@.contains_key(k) && !(keys@.take(
                        i as int,
                    ).contains(k) && request.source_object_ids@.contains(tree0@[k].object_id)),
                forall|k: u64| #[trigger] tree@.contains_key(k) ==> tree@[k] == tree0@[k],
            decreases keys@.len() - i,
        {
            let key: u64 = keys[i];
            let ghost before_t = tree@;
            proof {
                assert(keys@.contains(keys@[i as int]));
                assert(!keys@.take(i as int).contains(key)) by {
                    if keys@.take(i as int).contains(key) {
                        let k = choose|k: int| 0 <= k < i && keys@.take(i as int)[k] == key;
                        assert(keys@[k] == keys@[i as int]);
                    }
                }
                assert(keys@.take(i + 1) =~= keys@.take(i as int).push(key));
            }
            let gone: bool = match tree.get(&key) {
                Some(m) => has_id(&request.source_object_ids, m.object_id),
                None => false,
            };
            if gone {
                tree.remove(&key);
            }
            proof {
                assert forall|k: u64| #[trigger]
                    tree@.contains_key(k) <==> tree0@.contains_key(k) && !(keys@.take(
                    i + 1,
                ).contains(k) && request.source_object_ids@.contains(tree0@[k].object_id)) by {
                    vstd::seq_lib::lemma_seq_contains_after_push(keys@.take(i as int), key, k);
                    assert(before_t.contains_key(k) <==> tree0@.contains_key(k) && !(keys@.take(
                        i as int,
                    ).contains(k) && request.source_object_ids@.contains(tree0@[k].object_id)));
                }
            }
            i += 1;
        }
        proof {
            assert(keys@.take(i as int) =~= keys@);
            assert forall|k: u64| #[trigger] tree@.contains_key(k) <==> without_objects(
                old_objects,
                request.source_object_ids@,
            ).contains_key(k) by {
                assert(keys@.contains(k) <==> tree0@.dom().contains(k));
            }
            assert(tree_model(tree) =~= without_objects(old_objects, request.source_object_ids@));
        }
        if request.object_id != NOOP_OBJECT_ID {
            let replacement = StreamObject {
                object_id: request.object_id,
                object_size: request.object_size,
                stream_id: request.stream_id,
                start_offset: request.start_offset,
                end_offset: request.end_offset,
                attributes: request.attributes,
            };
            let ghost t1 = tree;
            let object = stream_object_metadata(&replacement, now_ms);
            tree.insert(request.start_offset, object);
            assert(tree_model(tree) =~= tree_model(t1).insert(
                request.start_offset,
                stream_object_model(replacement, now_ms),
            ));
        }
        self.stream_objects.insert(request.stream_id, tree);
        assert(self@.stream_objects =~= compacted(before.stream_objects, *request, now_ms));
    }
}

fn has_id(ids: &Vec<u64>, id: u64) -> (r: bool)
    ensures
        r <==> ids@.contains(id),
{
    let mut i: usize = 0;
    while i < ids.len()
        invariant
            i <= ids@.len(),
            forall|j: int| 0 <= j < i ==> ids@[j] != id,
        decreases ids@.len() - i,
    {
        if ids[i] == id {
            return true;
        }
        i += 1;
    }
    false
}


/// A slice of a stream: where it starts, and the object that holds it.
pub type Slice = (u64, ObjectModel);

/// The range overlaps `[start, end)`.
pub open spec fn overlaps(r: StreamOffsetRange, start: u64, end: u64) -> bool {
    r.start_offset < end && r.end_offset > start
}

/// The slices of a stream among the first `n` ranges of a stream set object.
pub open spec fn slices_in(o: ObjectModel, n: int, stream_id: u64, start: u64, end: u64) -> Seq<
    Slice,
>
    decreases n,
{
    if n <= 0 {
        Seq::empty()
    } else {
        let r = o.offset_ranges[n - 1];
        let before = slices_in(o, n - 1, stream_id, start, end);
        if r.stream_id == stream_id && overlaps(r, start, end) {
            before.push((r.start_offset, o))
        } else {
            before
        }
    }
}

/// The slices of a stream in the stream set objects of a list.
pub open spec fn set_slices(
    objects: Map<u64, ObjectModel>,
    keys: Seq<u64>,
    stream_id: u64,
    start: u64,
    end: u64,
) -> Seq<Slice>
    decreases keys.len(),
{
    if keys.len() == 0 {
        Seq::empty()
    } else {
        let o = objects[keys.last()];
        set_slices(objects, keys.drop_last(), stream_id, start, end) + slices_in(
            o,
            o.offset_ranges.len() as int,
            stream_id,
            start,
            end,
        )
    }
}

/// A stream object overlaps `[start, end)`.
pub open spec fn object_overlaps(o: ObjectModel, start: u64, end: u64) -> bool {
    o.offset_ranges.len() > 0 && overlaps(o.offset_ranges[0], start, end)
}

/// The stream objects of a list that overlap `[start, end)`.
pub open spec fn stream_slices(
    objects: Map<u64, ObjectModel>,
    keys: Seq<u64>,
    start: u64,
    end: u64,
) -> Seq<Slice>
    decreases keys.len(),
{
    if keys.len() == 0 {
        Seq::empty()
    } else {
        let o = objects[keys.last()];
        let before = stream_slices(objects, keys.drop_last(), start, end);
        if object_overlaps(o, start, end) {
            before.push((o.offset_ranges[0].start_offset, o))
        } else {
            before
        }
    }
}

/// The slices of a stream in `[start, end)`: those in stream set objects by object id,
/// then the stream objects by start offset.
pub open spec fn all_slices(s: MetadataModel, stream_id: u64, start: u64, end: u64) -> Seq<Slice> {
    let own = objects_of_stream(s.stream_objects, stream_id);
    set_slices(s.set_objects, sorted_keys(s.set_objects), stream_id, start, end) + stream_slices(
        own,
        sorted_keys(own),
        start,
        end,
    )
}

/// Slices are ordered by start offset, then by object id.
pub open spec fn slice_keys(slices: Seq<Slice>) -> Seq<(u64, u64)> {
    slices.map_values(|s: Slice| (s.0, s.1.object_id))
}

pub open spec fn object_models(v: Seq<S3ObjectMetadata>) -> Seq<ObjectModel> {
    v.map_values(|m: S3ObjectMetadata| model_of(m))
}

/// The first `limit` of a list, at least one.
pub open spec fn first_of<T>(s: Seq<T>, limit: usize) -> Seq<T> {
    let n = if limit == 0 {
        1
    } else {
        limit as int
    };
    if s.len() <= n {
        s
    } else {
        s.take(n)
    }
}

/// `r` lists the objects of a stream in `[start, end)`, in order, up to the limit.
pub open spec fn lists_objects(
    s: MetadataModel,
    stream_id: u64,
    start: u64,
    end: u64,
    limit: usize,
    r: Seq<ObjectModel>,
) -> bool {
    let slices = all_slices(s, stream_id, start, end);
    exists|perm: Seq<usize>| #[trigger]
        is_stable_order(slice_keys(slices), perm) && r == first_of(
            arranged(slices, perm),
            limit,
        ).map_values(|x: Slice| x.1)
}

/// The streams of a list of ids, unknown ones left out.
pub open spec fn known_streams(streams: Map<u64, StreamMetadata>, ids: Seq<u64>) -> Seq<
    StreamMetadata,
>
    decreases ids.len(),
{
    if ids.len() == 0 {
        Seq::empty()
    } else if streams.contains_key(ids.last()) {
        known_streams(streams, ids.drop_last()).push(streams[ids.last()])
    } else {
        known_streams(streams, ids.drop_last())
    }
}

/// The open streams of a list of ids.
pub open spec fn opened_streams(streams: Map<u64, StreamMetadata>, ids: Seq<u64>) -> Seq<
    StreamMetadata,
>
    decreases ids.len(),
{
    if ids.len() == 0 {
        Seq::empty()
    } else if streams[ids.last()].state == StreamState::Opened {
        opened_streams(streams, ids.drop_last()).push(streams[ids.last()])
    } else {
        opened_streams(streams, ids.drop_last())
    }
}

/// A new stream: closed, empty, with no owner.
pub open spec fn fresh_stream(stream_id: u64) -> StreamMetadata {
    StreamMetadata {
        stream_id,
        epoch: 0,
        start_offset: 0,
        end_offset: 0,
        state: StreamState::Closed,
        node_id: NO_NODE,
    }
}

/// Owner of a stream that no node owns.
pub const NO_NODE: i32 = -1;

/// What opening a stream with an epoch is refused for, if it is.
pub open spec fn open_error(s: MetadataModel, stream_id: u64, epoch: u64) -> Option<StreamError> {
    if !s.streams.contains_key(stream_id) {
        Some(StreamError::NotExist { stream_id })
    } else {
        let stream = s.streams[stream_id];
        if stream.epoch > epoch || (stream.epoch == epoch && stream.state == StreamState::Opened) {
            Some(StreamError::Fenced { stream_id, epoch })
        } else {
            None
        }
    }
}

/// What an operation of the owner with an epoch is refused for, if it is.
pub open spec fn owner_error(s: MetadataModel, stream_id: u64, epoch: u64) -> Option<StreamError> {
    if !s.streams.contains_key(stream_id) {
        Some(StreamError::NotExist { stream_id })
    } else if s.streams[stream_id].epoch != epoch {
        Some(StreamError::Fenced { stream_id, epoch })
    } else {
        None
    }
}

/// The metadata after opening a stream.
pub open spec fn opened(s: MetadataModel, stream_id: u64, epoch: u64) -> MetadataModel {
    MetadataModel {
        streams: s.streams.insert(
            stream_id,
            StreamMetadata { epoch, state: StreamState::Opened, ..s.streams[stream_id] },
        ),
        ..s
    }
}

/// The metadata after closing a stream.
pub open spec fn closed_stream(s: MetadataModel, stream_id: u64) -> MetadataModel {
    MetadataModel {
        streams: s.streams.insert(
            stream_id,
            StreamMetadata { state: StreamState::Closed, ..s.streams[stream_id] },
        ),
        ..s
    }
}

/// The stream after trimming it: its start never moves back.
pub open spec fn trimmed(stream: StreamMetadata, new_start: u64) -> StreamMetadata {
    StreamMetadata {
        start_offset: if stream.start_offset >= new_start {
            stream.start_offset
        } else {
            new_start
        },
        ..stream
    }
}

impl MemoryMetadataManager {
    /// Logical slices covering `[start_offset, end_offset)`, in order. A physical object
    /// appears once for each of its slices.
    pub fn get_objects(
        &self,
        stream_id: u64,
        start_offset: u64,
        end_offset: u64,
        limit: usize,
    ) -> (r: Vec<S3ObjectMetadata>)
        ensures
            lists_objects(self@, stream_id, start_offset, end_offset, limit, object_models(r@)),
    {
        broadcast use vstd::std_specs::btree::group_btree_axioms;
        broadcast use vstd::std_specs::hash::group_hash_axioms;

        let ghost slices = all_slices(self@, stream_id, start_offset, end_offset);
        let mut keys: Vec<(u64, u64)> = Vec::new();
        let mut found: Vec<S3ObjectMetadata> = Vec::new();
        let set_ids = tree_keys(&self.stream_set_objects);
        let ghost set_objects = self@.set_objects;
        proof {
            crate::collections::lemma_sorted_keys(set_objects, set_ids@);
        }
        let mut i: usize = 0;
        assert(set_ids@.take(0) =~= Seq::empty());
        while i < set_ids.len()
            invariant
                i <= set_ids@.len(),
                set_objects == tree_model(self.stream_set_objects),
                crate::collections::lists_keys(self.stream_set_objects@, set_ids@),
                holds_slices(
                    keys@,
                    found@,
                    set_slices(
                        set_objects,
                        set_ids@.take(i as int),
                        stream_id,
                        start_offset,
                        end_offset,
                    ),
                ),
            decreases set_ids@.len() - i,
        {
            proof {
                assert(set_ids@.contains(set_ids@[i as int]));
                assert(set_ids@.take(i + 1).drop_last() =~= set_ids@.take(i as int));
            }
            let ghost before = set_slices(
                set_objects,
                set_ids@.take(i as int),
                stream_id,
                start_offset,
                end_offset,
            );
            match self.stream_set_objects.get(&set_ids[i]) {
                Some(object) => {
                    let mut j: usize = 0;
                    assert(before + slices_in(object@, 0, stream_id, start_offset, end_offset)
                        =~= before);
                    while j < object.offset_ranges.len()
                        invariant
                            j <= object.offset_ranges@.len(),
                            holds_slices(
                                keys@,
                                found@,
                                before + slices_in(
                                    object@,
                                    j as int,
                                    stream_id,
                                    start_offset,
                                    end_offset,
                                ),
                            ),
                        decreases object.offset_ranges@.len() - j,
                    {
                        let range = object.offset_ranges[j];
                        if range.stream_id == stream_id && range.start_offset < end_offset
                            && range.end_offset > start_offset {
                            let ghost have = before + slices_in(
                                object@,
                                j as int,
                                stream_id,
                                start_offset,
                                end_offset,
                            );
                            push_slice(
                                &mut keys,
                                &mut found,
                                range.start_offset,
                                object,
                                Ghost(have),
                            );
                            assert(have.push((range.start_offset, object@)) =~= before + slices_in(
                                object@,
                                j + 1,
                                stream_id,
                                start_offset,
                                end_offset,
                            ));
                        }
                        j += 1;
                    }
                },
                None => {
                    assert(false);
                },
            }
            i += 1;
        }
        assert(set_ids@.take(i as int) =~= set_ids@);
        let ghost from_sets = set_slices(
            set_objects,
            sorted_keys(set_objects),
            stream_id,
            start_offset,
            end_offset,
        );
        let ghost own = objects_of_stream(self@.stream_objects, stream_id);
        match self.stream_objects.get(&stream_id) {
            Some(tree) => {
                let starts = tree_keys(tree);
                proof {
                    assert(own == tree_model(*tree));
                    crate::collections::lemma_sorted_keys(own, starts@);
                }
                let mut k: usize = 0;
                proof {
                    assert(starts@.take(0) =~= Seq::empty());
                    assert(from_sets + Seq::<Slice>::empty() =~= from_sets);
                }
                while k < starts.len()
                    invariant
                        k <= starts@.len(),
                        own == tree_model(*tree),
                        crate::collections::lists_keys(tree@, starts@),
                        holds_slices(
                            keys@,
                            found@,
                            from_sets + stream_slices(
                                own,
                                starts@.take(k as int),
                                start_offset,
                                end_offset,
                            ),
                        ),
                    decreases starts@.len() - k,
                {
                    proof {
                        assert(starts@.contains(starts@[k as int]));
                        assert(starts@.take(k + 1).drop_last() =~= starts@.take(k as int));
                    }
                    match tree.get(&starts[k]) {
                        Some(object) => {
                            if object.offset_ranges.len() > 0
                                && object.offset_ranges[0].start_offset < end_offset
                                && object.offset_ranges[0].end_offset > start_offset {
                                let ghost have = from_sets + stream_slices(
                                    own,
                                    starts@.take(k as int),
                                    start_offset,
                                    end_offset,
                                );
                                push_slice(
                                    &mut keys,
                                    &mut found,
                                    object.offset_ranges[0].start_offset,
                                    object,
                                    Ghost(have),
                                );
                                assert(have.push((object@.offset_ranges[0].start_offset, object@))
                                    =~= from_sets + stream_slices(
                                    own,
                                    starts@.take(k + 1),
                                    start_offset,
                                    end_offset,
                                ));
                            }
                        },
                        None => {
                            assert(false);
                        },
                    }
                    k += 1;
                }
                assert(starts@.take(k as int) =~= starts@);
            },
            None => {
                proof {
                    assert(own =~= Map::empty());
                    let none = Seq::<u64>::empty();
                    crate::collections::lemma_sorted_keys(own, none);
                    assert(from_sets + stream_slices(own, none, start_offset, end_offset)
                        =~= from_sets);
                }
            },
        }
        assert(holds_slices(keys@, found@, slices));
        let perm = stable_order(&keys);
        let mut out: Vec<S3ObjectMetadata> = Vec::new();
        let max: usize = if limit == 0 {
            1
        } else {
            limit
        };
        let mut n: usize = 0;
        while n < perm.len() && n < max
            invariant
                n <= perm@.len(),
                n <= max,
                holds_slices(keys@, found@, slices),
                is_stable_order(keys@, perm@),
                out@.len() == n,
                forall|j: int| 0 <= j < n ==> (#[trigger] out@[j])@ == slices[perm@[j] as int].1,
            decreases perm@.len() - n,
        {
            assert(perm@[n as int] < keys@.len());
            out.push(found[perm[n]].clone());
            n += 1;
        }
        proof {
            assert(keys@ =~= slice_keys(slices));
            assert(object_models(out@) =~= first_of(arranged(slices, perm@), limit).map_values(
                |x: Slice| x.1,
            ));
        }
        out
    }

    /// The stream set objects of this node, by object id.
    pub fn get_server_objects(&self) -> (r: Vec<S3ObjectMetadata>)
        ensures
            object_models(r@) == sorted_keys(self@.set_objects).map_values(
                |k: u64| self@.set_objects[k],
            ),
    {
        broadcast use vstd::std_specs::btree::group_btree_axioms;

        let ids = tree_keys(&self.stream_set_objects);
        proof {
            crate::collections::lemma_sorted_keys(self@.set_objects, ids@);
        }
        let mut out: Vec<S3ObjectMetadata> = Vec::new();
        let mut i: usize = 0;
        while i < ids.len()
            invariant
                i <= ids@.len(),
                crate::collections::lists_keys(self.stream_set_objects@, ids@),
                out@.len() == i,
                forall|j: int|
                    0 <= j < i ==> (#[trigger] out@[j])@ == self@.set_objects[ids@[j]],
            decreases ids@.len() - i,
        {
            assert(ids@.contains(ids@[i as int]));
            match self.stream_set_objects.get(&ids[i]) {
                Some(object) => {
                    out.push(object.clone());
                },
                None => {
                    assert(false);
                },
            }
            i += 1;
        }
        assert(object_models(out@) =~= sorted_keys(self@.set_objects).map_values(
            |k: u64| self@.set_objects[k],
        ));
        out
    }

    /// Stream objects only, ascending, possibly discontinuous.
    pub fn get_stream_objects(
        &self,
        stream_id: u64,
        start_offset: u64,
        end_offset: u64,
        limit: usize,
    ) -> (r: Vec<S3ObjectMetadata>)
        ensures
            ({
                let own = objects_of_stream(self@.stream_objects, stream_id);
                object_models(r@) == first_of(
                    stream_slices(own, sorted_keys(own), start_offset, end_offset),
                    limit,
                ).map_values(|x: Slice| x.1)
            }),
    {
        broadcast use vstd::std_specs::btree::group_btree_axioms;
        broadcast use vstd::std_specs::hash::group_hash_axioms;

        let ghost own = objects_of_stream(self@.stream_objects, stream_id);
        let max: usize = if limit == 0 {
            1
        } else {
            limit
        };
        let mut out: Vec<S3ObjectMetadata> = Vec::new();
        match self.stream_objects.get(&stream_id) {
            Some(tree) => {
                let starts = tree_keys(tree);
                proof {
                    assert(own == tree_model(*tree));
                    crate::collections::lemma_sorted_keys(own, starts@);
                    assert(starts@.take(0) =~= Seq::empty());
                }
                let ghost all = stream_slices(own, starts@, start_offset, end_offset);
                let mut k: usize = 0;
                while k < starts.len()
                    invariant
                        k <= starts@.len(),
                        max >= 1,
                        max == (if limit == 0 { 1 } else { limit }),
                        own == tree_model(*tree),
                        crate::collections::lists_keys(tree@, starts@),
                        all == stream_slices(own, starts@, start_offset, end_offset),
                        out@.len() <= max,
                        object_models(out@) == first_of(
                            stream_slices(own, starts@.take(k as int), start_offset, end_offset),
                            limit,
                        ).map_values(|x: Slice| x.1),
                    decreases starts@.len() - k,
                {
                    proof {
                        assert(starts@.contains(starts@[k as int]));
                        assert(starts@.take(k + 1).drop_last() =~= starts@.take(k as int));
                    }
                    let ghost have = stream_slices(
                        own,
                        starts@.take(k as int),
                        start_offset,
                        end_offset,
                    );
                    match tree.get(&starts[k]) {
                        Some(object) => {
                            if out.len() < max && object.offset_ranges.len() > 0
                                && object.offset_ranges[0].start_offset < end_offset
                                && object.offset_ranges[0].end_offset > start_offset {
                                let ghost before = out@;
                                let copy = object.clone();
                                out.push(copy);
                                assert(object_models(out@) =~= object_models(before).push(object@));
                            }
                        },
                        None => {
                            assert(false);
                        },
                    }
                    proof {
                        let now = stream_slices(
                            own,
                            starts@.take(k + 1),
                            start_offset,
                            end_offset,
                        );
                        assert(object_models(out@) =~= first_of(now, limit).map_values(
                            |x: Slice| x.1,
                        ));
                    }
                    k += 1;
                }
                assert(starts@.take(k as int) =~= starts@);
            },
            None => {
                proof {
                    assert(own =~= Map::empty());
                    let none = Seq::<u64>::empty();
                    crate::collections::lemma_sorted_keys(own, none);
                    assert(object_models(out@) =~= first_of(
                        stream_slices(own, none, start_offset, end_offset),
                        limit,
                    ).map_values(|x: Slice| x.1));
                }
            },
        }
        out
    }

    /// Is the object registered, as a stream set object or as a stream object?
    pub fn is_object_exist(&self, object_id: u64) -> (r: bool)
        ensures
            r <==> self@.set_objects.contains_key(object_id) || exists|s: u64, k: u64|
                #![trigger self@.stream_objects[s][k]]
                self@.stream_objects.contains_key(s) && self@.stream_objects[s].contains_key(k)
                    && self@.stream_objects[s][k].object_id == object_id,
    {
        broadcast use vstd::std_specs::btree::group_btree_axioms;
        broadcast use vstd::std_specs::hash::group_hash_axioms;

        if self.stream_set_objects.contains_key(&object_id) {
            return true;
        }
        let streams = hash_keys(&self.stream_objects);
        let mut i: usize = 0;
        while i < streams.len()
            invariant
                i <= streams@.len(),
                crate::collections::lists_keys(self.stream_objects@, streams@),
                forall|j: int, k: u64|
                    #![trigger self@.stream_objects[streams@[j]][k]]
                    0 <= j < i && self@.stream_objects[streams@[j]].contains_key(k)
                        ==> self@.stream_objects[streams@[j]][k].object_id != object_id,
            decreases streams@.len() - i,
        {
            assert(streams@.contains(streams@[i as int]));
            match self.stream_objects.get(&streams[i]) {
                Some(tree) => {
                    let starts = tree_keys(tree);
                    let ghost own = tree_model(*tree);
                    assert(own == self@.stream_objects[streams@[i as int]]);
                    let mut n: usize = 0;
                    while n < starts.len()
                        invariant
                            n <= starts@.len(),
                            i < streams@.len(),
                            own == tree_model(*tree),
                            own == self@.stream_objects[streams@[i as int]],
                            self@.stream_objects.contains_key(streams@[i as int]),
                            crate::collections::lists_keys(tree@, starts@),
                            forall|j: int|
                                0 <= j < n ==> own[#[trigger] starts@[j]].object_id != object_id,
                        decreases starts@.len() - n,
                    {
                        assert(starts@.contains(starts@[n as int]));
                        match tree.get(&starts[n]) {
                            Some(object) => {
                                if object.object_id == object_id {
                                    assert(self@.stream_objects[streams@[i as int]][starts@[n as int]].object_id
                                        == object_id);
                                    return true;
                                }
                            },
                            None => {
                                assert(false);
                            },
                        }
                        n += 1;
                    }
                    assert forall|k: u64|
                        #![trigger self@.stream_objects[streams@[i as int]][k]]
                        own.contains_key(k) implies own[k].object_id != object_id by {
                        assert(tree@.dom().contains(k));
                        assert(starts@.contains(k));
                        let j = choose|j: int| 0 <= j < starts@.len() && starts@[j] == k;
                        assert(own[starts@[j]].object_id != object_id);
                    }
                },
                None => {
                    assert(false);
                },
            }
            i += 1;
        }
        proof {
            assert forall|s: u64, k: u64|
                #![trigger self@.stream_objects[s][k]]
                self@.stream_objects.contains_key(s) && self@.stream_objects[s].contains_key(
                    k,
                ) implies self@.stream_objects[s][k].object_id != object_id by {
                assert(self.stream_objects@.dom().contains(s));
                assert(streams@.contains(s));
                let j = choose|j: int| 0 <= j < streams@.len() && streams@[j] == s;
                assert(self@.stream_objects[streams@[j]][k].object_id != object_id);
            }
        }
        false
    }

    /// Streams open on this node, by stream id.
    pub fn get_opening_streams(&self) -> (r: Vec<StreamMetadata>)
        ensures
            r@ == opened_streams(self@.streams, sorted_keys(self@.streams)),
    {
        broadcast use vstd::std_specs::btree::group_btree_axioms;

        let ids = tree_keys(&self.streams);
        let mut out: Vec<StreamMetadata> = Vec::new();
        let mut i: usize = 0;
        assert(ids@.take(0) =~= Seq::empty());
        while i < ids.len()
            invariant
                i <= ids@.len(),
                crate::collections::lists_keys(self.streams@, ids@),
                out@ == opened_streams(self@.streams, ids@.take(i as int)),
            decreases ids@.len() - i,
        {
            proof {
                assert(ids@.contains(ids@[i as int]));
                assert(ids@.take(i + 1).drop_last() =~= ids@.take(i as int));
            }
            match self.streams.get(&ids[i]) {
                Some(stream) => {
                    if matches!(stream.state, StreamState::Opened) {
                        out.push(*stream);
                    }
                },
                None => {
                    assert(false);
                },
            }
            i += 1;
        }
        assert(ids@.take(i as int) =~= ids@);
        out
    }

    /// The known streams among `stream_ids`, in that order.
    pub fn get_streams(&self, stream_ids: &Vec<u64>) -> (r: Vec<StreamMetadata>)
        ensures
            r@ == known_streams(self@.streams, stream_ids@),
    {
        broadcast use vstd::std_specs::btree::group_btree_axioms;

        let mut out: Vec<StreamMetadata> = Vec::new();
        let mut i: usize = 0;
        assert(stream_ids@.take(0) =~= Seq::empty());
        while i < stream_ids.len()
            invariant
                i <= stream_ids@.len(),
                out@ == known_streams(self@.streams, stream_ids@.take(i as int)),
            decreases stream_ids@.len() - i,
        {
            assert(stream_ids@.take(i + 1).drop_last() =~= stream_ids@.take(i as int));
            match self.streams.get(&stream_ids[i]) {
                Some(stream) => {
                    out.push(*stream);
                },
                None => {},
            }
            i += 1;
        }
        assert(stream_ids@.take(i as int) =~= stream_ids@);
        out
    }

    /// Create a closed, empty stream with a new id.
    pub fn create_stream(&mut self) -> (r: u64)
        requires
            old(self)@.next_stream_id < u64::MAX,
        ensures
            r == old(self)@.next_stream_id,
            final(self)@ == (MetadataModel {
                streams: old(self)@.streams.insert(r, fresh_stream(r)),
                next_stream_id: (r + 1) as u64,
                ..old(self)@
            }),
    {
        broadcast use vstd::std_specs::btree::group_btree_axioms;

        let stream_id: u64 = self.next_stream_id;
        self.next_stream_id = stream_id + 1;
        self.streams.insert(
            stream_id,
            StreamMetadata {
                stream_id,
                epoch: 0,
                start_offset: 0,
                end_offset: 0,
                state: StreamState::Closed,
                node_id: NO_NODE,
            },
        );
        stream_id
    }

    fn find_stream(&self, stream_id: u64) -> (r: Option<StreamMetadata>)
        ensures
            r == (if self@.streams.contains_key(stream_id) {
                Some(self@.streams[stream_id])
            } else {
                None
            }),
    {
        broadcast use vstd::std_specs::btree::group_btree_axioms;

        match self.streams.get(&stream_id) {
            Some(s) => Some(*s),
            None => None,
        }
    }

    /// Open a stream, fencing older epochs.
    pub fn open_stream(&mut self, stream_id: u64, epoch: u64) -> (r: Result<
        StreamMetadata,
        StreamError,
    >)
        ensures
            match open_error(old(self)@, stream_id, epoch) {
                Some(e) => r == Err::<StreamMetadata, StreamError>(e) && final(self)@
                    == old(self)@,
                None => {
                    &&& final(self)@ == opened(old(self)@, stream_id, epoch)
                    &&& r == Ok::<StreamMetadata, StreamError>(final(self)@.streams[stream_id])
                },
            },
    {
        broadcast use vstd::std_specs::btree::group_btree_axioms;

        match self.find_stream(stream_id) {
            None => Err(StreamError::NotExist { stream_id }),
            Some(stream) => {
                if stream.epoch > epoch || (stream.epoch == epoch && matches!(stream.state, StreamState::Opened)) {
                    return Err(StreamError::Fenced { stream_id, epoch });
                }
                let updated = StreamMetadata { epoch, state: StreamState::Opened, ..stream };
                self.streams.insert(stream_id, updated);
                Ok(updated)
            },
        }
    }

    /// Advance the start offset of a stream. Returns the metadata that listeners of the
    /// stream are to be told.
    pub fn trim_stream(&mut self, stream_id: u64, epoch: u64, new_start_offset: u64) -> (r: Result<
        StreamMetadata,
        StreamError,
    >)
        ensures
            match owner_error(old(self)@, stream_id, epoch) {
                Some(e) => r == Err::<StreamMetadata, StreamError>(e) && final(self)@
                    == old(self)@,
                None => {
                    let updated = trimmed(old(self)@.streams[stream_id], new_start_offset);
                    &&& final(self)@ == (MetadataModel {
                        streams: old(self)@.streams.insert(stream_id, updated),
                        ..old(self)@
                    })
                    &&& r == Ok::<StreamMetadata, StreamError>(updated)
                },
            },
    {
        broadcast use vstd::std_specs::btree::group_btree_axioms;

        match self.find_stream(stream_id) {
            None => Err(StreamError::NotExist { stream_id }),
            Some(stream) => {
                if stream.epoch != epoch {
                    return Err(StreamError::Fenced { stream_id, epoch });
                }
                let start_offset: u64 = if stream.start_offset >= new_start_offset {
                    stream.start_offset
                } else {
                    new_start_offset
                };
                let updated = StreamMetadata { start_offset, ..stream };
                self.streams.insert(stream_id, updated);
                Ok(updated)
            },
        }
    }

    /// Release ownership of a stream.
    pub fn close_stream(&mut self, stream_id: u64, epoch: u64) -> (r: Result<(), StreamError>)
        ensures
            match owner_error(old(self)@, stream_id, epoch) {
                Some(e) => r == Err::<(), StreamError>(e) && final(self)@ == old(self)@,
                None => r is Ok && final(self)@ == closed_stream(old(self)@, stream_id),
            },
    {
        broadcast use vstd::std_specs::btree::group_btree_axioms;

        match self.find_stream(stream_id) {
            None => Err(StreamError::NotExist { stream_id }),
            Some(stream) => {
                if stream.epoch != epoch {
                    return Err(StreamError::Fenced { stream_id, epoch });
                }
                self.streams.insert(
                    stream_id,
                    StreamMetadata { state: StreamState::Closed, ..stream },
                );
                Ok(())
            },
        }
    }

    /// Forget a stream and its stream objects.
    pub fn delete_stream(&mut self, stream_id: u64, epoch: u64) -> (r: Result<(), StreamError>)
        ensures
            match owner_error(old(self)@, stream_id, epoch) {
                Some(e) => r == Err::<(), StreamError>(e) && final(self)@ == old(self)@,
                None => r is Ok && final(self)@ == (MetadataModel {
                    streams: old(self)@.streams.remove(stream_id),
                    stream_objects: old(self)@.stream_objects.remove(stream_id),
                    ..old(self)@
                }),
            },
    {
        broadcast use vstd::std_specs::btree::group_btree_axioms;
        broadcast use vstd::std_specs::hash::group_hash_axioms;

        match self.find_stream(stream_id) {
            None => Err(StreamError::NotExist { stream_id }),
            Some(stream) => {
                if stream.epoch != epoch {
                    return Err(StreamError::Fenced { stream_id, epoch });
                }
                let ghost before = self@;
                self.streams.remove(&stream_id);
                self.stream_objects.remove(&stream_id);
                assert(self@.streams =~= before.streams.remove(stream_id));
                assert(self@.stream_objects =~= before.stream_objects.remove(stream_id));
                Ok(())
            },
        }
    }
}

/// The collected slices, with their keys.
spec fn holds_slices(
    keys: Seq<(u64, u64)>,
    found: Seq<S3ObjectMetadata>,
    slices: Seq<Slice>,
) -> bool {
    &&& keys.len() == slices.len()
    &&& found.len() == slices.len()
    &&& forall|i: int|
        0 <= i < slices.len() ==> #[trigger] keys[i] == (slices[i].0, slices[i].1.object_id)
    &&& forall|i: int| 0 <= i < slices.len() ==> (#[trigger] found[i])@ == slices[i].1
}

fn push_slice(
    keys: &mut Vec<(u64, u64)>,
    found: &mut Vec<S3ObjectMetadata>,
    start: u64,
    object: &S3ObjectMetadata,
    Ghost(slices): Ghost<Seq<Slice>>,
)
    requires
        holds_slices(old(keys)@, old(found)@, slices),
    ensures
        holds_slices(final(keys)@, final(found)@, slices.push((start, object@))),
{
    keys.push((start, object.object_id));
    let copy = object.clone();
    found.push(copy);
}

/// Fencing: once a stream is open with an epoch, it cannot be opened again with that
/// epoch or an older one, and a newer epoch opens it.
pub proof fn law_open_fences_older_epochs(s: MetadataModel, stream_id: u64, epoch: u64, later: u64)
    requires
        open_error(s, stream_id, epoch) is None,
    ensures
        open_error(opened(s, stream_id, epoch), stream_id, later) == (if later <= epoch {
            Some(StreamError::Fenced { stream_id, epoch: later })
        } else {
            None
        }),
{
}

/// A newer epoch fences the older owner out of trimming, closing and deleting.
pub proof fn law_newer_epoch_fences_owner(s: MetadataModel, stream_id: u64, old_epoch: u64, epoch: u64)
    requires
        open_error(s, stream_id, epoch) is None,
        old_epoch != epoch,
    ensures
        owner_error(opened(s, stream_id, epoch), stream_id, old_epoch) == Some(
            StreamError::Fenced { stream_id, epoch: old_epoch },
        ),
{
}

/// A stream that its owner closed can be opened again with the same epoch.
pub proof fn law_reopen_after_close(s: MetadataModel, stream_id: u64, epoch: u64)
    requires
        owner_error(s, stream_id, epoch) is None,
    ensures
        open_error(closed_stream(s, stream_id), stream_id, epoch) is None,
{
}

/// Commits never move a committed end back, and forget no stream.
pub proof fn law_commit_advances_ends(s: MetadataModel, req: CommitStreamSetObjectRequest, now_ms: i64, stream_id: u64)
    requires
        s.streams.contains_key(stream_id),
    ensures
        committed(s, req, now_ms).streams.contains_key(stream_id),
        committed(s, req, now_ms).streams[stream_id].end_offset >= s.streams[stream_id].end_offset,
        forall|i: int|
            0 <= i < committed_ends(req).len() && (#[trigger] committed_ends(req)[i]).0 == stream_id
                ==> committed(s, req, now_ms).streams[stream_id].end_offset
                >= committed_ends(req)[i].1,
{
    lemma_ends_advance(s.streams, committed_ends(req), stream_id);
}

proof fn lemma_ends_advance(streams: Map<u64, StreamMetadata>, ends: Seq<(u64, u64)>, id: u64)
    requires
        streams.contains_key(id),
    ensures
        with_ends(streams, ends).contains_key(id),
        with_ends(streams, ends)[id].end_offset >= streams[id].end_offset,
        forall|i: int|
            0 <= i < ends.len() && (#[trigger] ends[i]).0 == id ==> with_ends(
                streams,
                ends,
            )[id].end_offset >= ends[i].1,
    decreases ends.len(),
{
    if ends.len() > 0 {
        let rest = ends.drop_last();
        lemma_ends_advance(streams, rest, id);
        assert forall|i: int| 0 <= i < ends.len() && (#[trigger] ends[i]).0 == id implies with_ends(
            streams,
            ends,
        )[id].end_offset >= ends[i].1 by {
            if i < rest.len() {
                assert(rest[i].0 == id);
            }
        }
    }
}

} // verus!

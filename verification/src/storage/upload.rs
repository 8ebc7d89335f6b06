//! The delta-WAL upload task: a sealed block becomes objects and one atomic commit.
//!
//! - A block that holds exactly one stream goes into one stream object.
//! - Otherwise streams of at least `stream_split_size` bytes get their own stream objects,
//!   and the rest goes into one stream set object.
//! - Object ids are consecutive: the stream set object, if there is one, takes the first,
//!   then the split streams in ascending order of their ids.
use std::collections::BTreeMap;
use vstd::prelude::*;

use crate::cache::log_cache::is_gapless;
use crate::cache::stream_cache::record_views;
use crate::codec::record::{
    is_batch, rec_base_offset, rec_last_offset, rec_size, StreamRecordBatch,
};
use crate::collections::{lists_keys, sorted_keys, tree_keys};
use crate::manager::{CommitStreamSetObjectRequest, StreamObject};
use crate::object::{ObjectStreamRange, NOOP_OBJECT_ID, UNKNOWN_EPOCH};

verus! {

/// Payload bytes of a list of records.
pub open spec fn payload_bytes(records: Seq<Seq<u8>>) -> int
    decreases records.len(),
{
    if records.len() == 0 {
        0
    } else {
        payload_bytes(records.drop_last()) + rec_size(records.last())
    }
}

pub proof fn lemma_payload_prefix(records: Seq<Seq<u8>>, n: int)
    requires
        0 <= n <= records.len(),
    ensures
        0 <= payload_bytes(records.take(n)) <= payload_bytes(records),
    decreases records.len(),
{
    if n < records.len() {
        lemma_payload_prefix(records.drop_last(), n);
        assert(records.drop_last().take(n) =~= records.take(n));
    } else {
        assert(records.take(n) =~= records);
        if n > 0 {
            lemma_payload_prefix(records.drop_last(), n - 1);
            assert(records.drop_last().take(n - 1) =~= records.drop_last());
        }
    }
}

/// Records that an upload can write: not empty, batches, and within 64 bits of bytes.
pub open spec fn uploadable(records: Seq<StreamRecordBatch>) -> bool {
    &&& records.len() > 0
    &&& forall|i: int| 0 <= i < records.len() ==> is_batch((#[trigger] records[i])@)
    &&& payload_bytes(record_views(records)) <= u64::MAX
}

/// Payload bytes of a list of records.
pub fn stream_size(records: &Vec<StreamRecordBatch>) -> (r: u64)
    requires
        uploadable(records@),
    ensures
        r == payload_bytes(record_views(records@)),
{
    let ghost views = record_views(records@);
    let mut total: u64 = 0;
    let mut i: usize = 0;
    assert(views.take(0) =~= Seq::empty());
    while i < records.len()
        invariant
            i <= records@.len(),
            uploadable(records@),
            views == record_views(records@),
            total == payload_bytes(views.take(i as int)),
        decreases records@.len() - i,
    {
        proof {
            assert(is_batch(records@[i as int]@));
            assert(views.take(i + 1).drop_last() =~= views.take(i as int));
            assert(views.take(i + 1).last() == records@[i as int]@);
            lemma_payload_prefix(views, i + 1);
        }
        total = total + records[i].size() as u64;
        i += 1;
    }
    assert(views.take(i as int) =~= views);
    total
}

/// The stream range that a list of records makes up.
pub open spec fn range_of_records(stream_id: u64, records: Seq<Seq<u8>>) -> ObjectStreamRange {
    ObjectStreamRange {
        stream_id,
        epoch: UNKNOWN_EPOCH,
        start_offset: rec_base_offset(records[0]),
        end_offset: rec_last_offset(records.last()),
        size: payload_bytes(records) as u64,
    }
}

/// The stream ranges of the streams of a list of ids.
pub open spec fn ranges_of_streams(m: Map<u64, Vec<StreamRecordBatch>>, ids: Seq<u64>) -> Seq<
    ObjectStreamRange,
> {
    ids.map_values(|id: u64| range_of_records(id, record_views(m[id]@)))
}

/// What was written of one stream object.
#[derive(Debug, Clone, Copy, PartialEq, Eq, Structural)]
pub struct WrittenObject {
    pub object_size: u64,
    pub attributes: u32,
}

/// A stream object of an upload, its records being written under `object_id`.
pub open spec fn stream_object_of_records(
    stream_id: u64,
    records: Seq<Seq<u8>>,
    object_id: u64,
    written: WrittenObject,
) -> StreamObject {
    StreamObject {
        object_id,
        object_size: written.object_size,
        stream_id,
        start_offset: rec_base_offset(records[0]),
        end_offset: rec_last_offset(records.last()),
        attributes: written.attributes,
    }
}

/// One upload of a sealed block.
#[derive(Debug)]
pub struct UploadWalTask {
    stream_set_object_map: BTreeMap<u64, Vec<StreamRecordBatch>>,
    stream_object_map: BTreeMap<u64, Vec<StreamRecordBatch>>,
    prepared_object_id: Option<u64>,
}

/// The map holds records that can be uploaded.
pub open spec fn map_uploadable(m: Map<u64, Vec<StreamRecordBatch>>) -> bool {
    forall|k: u64| #[trigger] m.contains_key(k) ==> uploadable(m[k]@)
}

/// The stream goes into an object of its own.
pub open spec fn is_split(m: Map<u64, Vec<StreamRecordBatch>>, split_size: u64, k: u64) -> bool {
    m.dom().len() == 1 || payload_bytes(record_views(m[k]@)) >= split_size
}

impl UploadWalTask {
    /// Streams that go into the stream set object.
    pub closed spec fn set_streams(&self) -> Map<u64, Vec<StreamRecordBatch>> {
        self.stream_set_object_map@
    }

    /// Streams that go into objects of their own.
    pub closed spec fn split_streams(&self) -> Map<u64, Vec<StreamRecordBatch>> {
        self.stream_object_map@
    }

    /// The first of the object ids that were prepared.
    pub closed spec fn prepared(&self) -> Option<u64> {
        self.prepared_object_id
    }

    pub open spec fn wf(&self) -> bool {
        map_uploadable(self.set_streams()) && map_uploadable(self.split_streams())
    }

    /// The number of objects that the upload writes.
    pub open spec fn objects(&self) -> int {
        self.split_streams().dom().len() + if self.set_streams().dom().len() > 0 {
            1int
        } else {
            0
        }
    }

    /// Plan the upload from a sealed block's records.
    pub fn plan(records: BTreeMap<u64, Vec<StreamRecordBatch>>, stream_split_size: u64) -> (r: Self)
        requires
            map_uploadable(records@),
        ensures
            r.wf(),
            r.prepared() is None,
            forall|k: u64| #[trigger]
                r.split_streams().contains_key(k) <==> records@.contains_key(k) && is_split(
                    records@,
                    stream_split_size,
                    k,
                ),
            forall|k: u64| #[trigger]
                r.set_streams().contains_key(k) <==> records@.contains_key(k) && !is_split(
                    records@,
                    stream_split_size,
                    k,
                ),
            forall|k: u64| #[trigger]
                r.split_streams().contains_key(k) ==> r.split_streams()[k] == records@[k],
            forall|k: u64| #[trigger]
                r.set_streams().contains_key(k) ==> r.set_streams()[k] == records@[k],
            forall|k: u64| #[trigger]
                records@.contains_key(k) ==> (r.split_streams().contains_key(k)
                    != r.set_streams().contains_key(k)),
            records@.dom().len() == 1 ==> r.set_streams().dom().len() == 0,
            records@.dom().len() != 1 ==> forall|k: u64| #[trigger]
                records@.contains_key(k) ==> (r.split_streams().contains_key(k) <==> payload_bytes(
                    record_views(records@[k]@),
                ) >= stream_split_size),
    {
        broadcast use vstd::std_specs::btree::group_btree_axioms;

        let ghost all = records@;
        let single: bool = records.len() == 1;
        let keys = tree_keys(&records);
        let mut rest = records;
        let mut split: BTreeMap<u64, Vec<StreamRecordBatch>> = BTreeMap::new();
        let mut set: BTreeMap<u64, Vec<StreamRecordBatch>> = BTreeMap::new();
        let mut i: usize = 0;
        while i < keys.len()
            invariant
                i <= keys@.len(),
                map_uploadable(all),
                single <==> all.dom().len() == 1,
                lists_keys(all, keys@),
                forall|k: u64| #[trigger]
                    rest@.contains_key(k) <==> all.contains_key(k) && !keys@.take(
                        i as int,
                    ).contains(k),
                forall|k: u64| #[trigger] rest@.contains_key(k) ==> rest@[k] == all[k],
                forall|k: u64| #[trigger]
                    split@.contains_key(k) <==> keys@.take(i as int).contains(k) && is_split(
                        all,
                        stream_split_size,
                        k,
                    ),
                forall|k: u64| #[trigger]
                    set@.contains_key(k) <==> keys@.take(i as int).contains(k) && !is_split(
                        all,
                        stream_split_size,
                        k,
                    ),
                forall|k: u64| #[trigger]
                    split@.contains_key(k) ==> split@[k] == all[k] && uploadable(all[k]@),
                forall|k: u64| #[trigger]
                    set@.contains_key(k) ==> set@[k] == all[k] && uploadable(all[k]@),
            decreases keys@.len() - i,
        {
            let key: u64 = keys[i];
            let ghost rest0 = rest@;
            let ghost split0 = split@;
            let ghost set0 = set@;
            proof {
                assert(keys@.contains(keys@[i as int]));
                assert(keys@.take(i + 1) =~= keys@.take(i as int).push(key));
                assert(!keys@.take(i as int).contains(key)) by {
                    if keys@.take(i as int).contains(key) {
                        let k = choose|k: int| 0 <= k < i && keys@.take(i as int)[k] == key;
                        assert(keys@[k] == keys@[i as int]);
                    }
                }
                assert forall|k: u64| #[trigger] keys@.take(i + 1).contains(k) <==> keys@.take(
                    i as int,
                ).contains(k) || k == key by {
                    vstd::seq_lib::lemma_seq_contains_after_push(keys@.take(i as int), key, k);
                }
                assert(rest@.contains_key(key));
            }
            match rest.remove(&key) {
                Some(list) => {
                    assert(uploadable(all[key]@));
                    if single || stream_size(&list) >= stream_split_size {
                        split.insert(key, list);
                    } else {
                        set.insert(key, list);
                    }
                },
                None => {
                    assert(false);
                },
            }
            proof {
                assert forall|k: u64| #[trigger] split@.contains_key(k) <==> keys@.take(
                    i + 1,
                ).contains(k) && is_split(all, stream_split_size, k) by {
                    assert(split0.contains_key(k) <==> keys@.take(i as int).contains(k)
                        && is_split(all, stream_split_size, k));
                    assert(keys@.take(i + 1).contains(k) <==> keys@.take(i as int).contains(k)
                        || k == key);
                }
                assert forall|k: u64| #[trigger] set@.contains_key(k) <==> keys@.take(
                    i + 1,
                ).contains(k) && !is_split(all, stream_split_size, k) by {
                    assert(set0.contains_key(k) <==> keys@.take(i as int).contains(k)
                        && !is_split(all, stream_split_size, k));
                    assert(keys@.take(i + 1).contains(k) <==> keys@.take(i as int).contains(k)
                        || k == key);
                }
                assert forall|k: u64| #[trigger] split@.contains_key(k) implies split@[k] == all[k]
                    && uploadable(all[k]@) by {
                    if k != key {
                        assert(split0.contains_key(k));
                    }
                }
                assert forall|k: u64| #[trigger] set@.contains_key(k) implies set@[k] == all[k]
                    && uploadable(all[k]@) by {
                    if k != key {
                        assert(set0.contains_key(k));
                    }
                }
                assert forall|k: u64| #[trigger] rest@.contains_key(k) <==> all.contains_key(k)
                    && !keys@.take(i + 1).contains(k) by {
                    assert(rest0.contains_key(k) <==> all.contains_key(k) && !keys@.take(
                        i as int,
                    ).contains(k));
                    assert(keys@.take(i + 1).contains(k) <==> keys@.take(i as int).contains(k)
                        || k == key);
                }
                assert forall|k: u64| #[trigger] rest@.contains_key(k) implies rest@[k] == all[k] by {
                    assert(rest0.contains_key(k));
                }
            }
            i += 1;
        }
        proof {
            assert(keys@.take(i as int) =~= keys@);
            assert forall|k: u64| #[trigger] keys@.contains(k) <==> all.contains_key(k) by {
                assert(keys@.contains(k) <==> all.dom().contains(k));
            }
        }
        proof {
            if all.dom().len() == 1 {
                assert forall|k: u64| !set@.dom().contains(k) by {
                    assert(!set@.contains_key(k));
                }
                assert(set@.dom() =~= Set::empty());
            }
        }
        UploadWalTask {
            stream_set_object_map: set,
            stream_object_map: split,
            prepared_object_id: None,
        }
    }

    /// The number of object ids to prepare.
    pub fn object_count(&self) -> (r: usize)
        requires
            self.objects() <= usize::MAX,
        ensures
            r == self.objects(),
            self.set_streams().dom().len() == 0 ==> r == self.split_streams().dom().len(),
            self.set_streams().dom().len() != 0 ==> r == self.split_streams().dom().len() + 1,
    {
        broadcast use vstd::std_specs::btree::group_btree_axioms;

        self.stream_object_map.len() + if self.stream_set_object_map.len() > 0 {
            1
        } else {
            0
        }
    }

    /// The ids from `object_id` on were prepared for this upload.
    pub fn set_prepared(&mut self, object_id: u64)
        ensures
            final(self).prepared() == Some(object_id),
            final(self).set_streams() == old(self).set_streams(),
            final(self).split_streams() == old(self).split_streams(),
    {
        self.prepared_object_id = Some(object_id);
    }

    /// The id of the stream set object.
    pub open spec fn set_id(&self) -> u64 {
        if self.set_streams().dom().len() > 0 {
            self.prepared()->0
        } else {
            NOOP_OBJECT_ID
        }
    }

    /// The id of the first stream object.
    pub open spec fn first_split_id(&self) -> int {
        self.prepared()->0 + if self.set_streams().dom().len() > 0 {
            1int
        } else {
            0
        }
    }

    /// The id of the stream set object, none if there is no such object.
    pub fn stream_set_object_id(&self) -> (r: u64)
        requires
            self.prepared() is Some,
        ensures
            r == self.set_id(),
    {
        broadcast use vstd::std_specs::btree::group_btree_axioms;

        match self.prepared_object_id {
            Some(id) => {
                if self.stream_set_object_map.len() > 0 {
                    id
                } else {
                    NOOP_OBJECT_ID
                }
            },
            None => NOOP_OBJECT_ID,
        }
    }

    /// The split streams with their object ids, by stream id.
    pub fn stream_object_ids(&self) -> (r: Vec<(u64, u64)>)
        requires
            self.prepared() is Some,
            self.first_split_id() + self.split_streams().dom().len() <= u64::MAX,
        ensures
            r@.len() == sorted_keys(self.split_streams()).len(),
            forall|i: int|
                0 <= i < r@.len() ==> #[trigger] r@[i] == (
                    sorted_keys(self.split_streams())[i],
                    (self.first_split_id() + i) as u64,
                ),
    {
        broadcast use vstd::std_specs::btree::group_btree_axioms;

        let keys = tree_keys(&self.stream_object_map);
        let n: usize = self.stream_object_map.len();
        proof {
            lemma_key_count(self.stream_object_map@, keys@);
        }
        let first: u64 = match self.prepared_object_id {
            Some(id) => id,
            None => 0,
        };
        let offset: u64 = if self.stream_set_object_map.len() > 0 {
            1
        } else {
            0
        };
        let mut out: Vec<(u64, u64)> = Vec::new();
        let mut i: usize = 0;
        while i < keys.len()
            invariant
                i <= keys@.len(),
                keys@.len() == self.split_streams().dom().len(),
                first + offset == self.first_split_id(),
                self.first_split_id() + self.split_streams().dom().len() <= u64::MAX,
                out@.len() == i,
                forall|j: int|
                    0 <= j < i ==> #[trigger] out@[j] == (
                        keys@[j],
                        (self.first_split_id() + j) as u64,
                    ),
            decreases keys@.len() - i,
        {
            out.push((keys[i], first + offset + i as u64));
            i += 1;
        }
        out
    }

    /// Records of a stream that goes into an object of its own.
    pub fn split_records(&self, stream_id: u64) -> (r: Option<&Vec<StreamRecordBatch>>)
        ensures
            match r {
                Some(v) => self.split_streams().contains_key(stream_id) && *v
                    == self.split_streams()[stream_id],
                None => !self.split_streams().contains_key(stream_id),
            },
    {
        broadcast use vstd::std_specs::btree::group_btree_axioms;

        self.stream_object_map.get(&stream_id)
    }

    /// Streams of the stream set object, by stream id.
    pub fn set_stream_ids(&self) -> (r: Vec<u64>)
        ensures
            r@ == sorted_keys(self.set_streams()),
    {
        tree_keys(&self.stream_set_object_map)
    }

    /// Records of a stream that goes into the stream set object.
    pub fn set_records(&self, stream_id: u64) -> (r: Option<&Vec<StreamRecordBatch>>)
        ensures
            match r {
                Some(v) => self.set_streams().contains_key(stream_id) && *v
                    == self.set_streams()[stream_id],
                None => !self.set_streams().contains_key(stream_id),
            },
    {
        broadcast use vstd::std_specs::btree::group_btree_axioms;

        self.stream_set_object_map.get(&stream_id)
    }

    /// The request that commits the upload, once all objects were written: `set_object`
    /// tells of the stream set object, `split_objects` of the stream objects in order.
    pub fn commit_request(
        &self,
        set_object: Option<WrittenObject>,
        split_objects: &Vec<WrittenObject>,
    ) -> (r: CommitStreamSetObjectRequest)
        requires
            self.wf(),
            self.prepared() is Some,
            self.first_split_id() + self.split_streams().dom().len() <= u64::MAX,
            set_object is Some <==> self.set_streams().dom().len() > 0,
            split_objects@.len() == self.split_streams().dom().len(),
        ensures
            r.object_id == self.set_id(),
            r.object_size == (match set_object {
                Some(w) => w.object_size,
                None => 0,
            }),
            r.attributes == (match set_object {
                Some(w) => w.attributes,
                None => 0,
            }),
            r.stream_ranges@ == ranges_of_streams(
                self.set_streams(),
                sorted_keys(self.set_streams()),
            ),
            r.stream_objects@.len() == sorted_keys(self.split_streams()).len(),
            forall|i: int|
                0 <= i < r.stream_objects@.len() ==> #[trigger] r.stream_objects@[i]
                    == stream_object_of_records(
                    sorted_keys(self.split_streams())[i],
                    record_views(
                        self.split_streams()[sorted_keys(self.split_streams())[i]]@,
                    ),
                    (self.first_split_id() + i) as u64,
                    split_objects@[i],
                ),
            r.compacted_object_ids@ == Seq::<u64>::empty(),
            forall|k: u64| #[trigger]
                self.split_streams().contains_key(k) ==> is_committed(
                    r,
                    k,
                    record_views(self.split_streams()[k]@),
                ),
            forall|k: u64| #[trigger]
                self.set_streams().contains_key(k) ==> is_committed(
                    r,
                    k,
                    record_views(self.set_streams()[k]@),
                ),
    {
        broadcast use vstd::std_specs::btree::group_btree_axioms;

        let mut request = CommitStreamSetObjectRequest::empty(self.stream_set_object_id());
        match set_object {
            Some(w) => {
                request.object_size = w.object_size;
                request.attributes = w.attributes;
            },
            None => {},
        }
        let set_ids = tree_keys(&self.stream_set_object_map);
        let mut i: usize = 0;
        while i < set_ids.len()
            invariant
                i <= set_ids@.len(),
                self.wf(),
                lists_keys(self.set_streams(), set_ids@),
                request.stream_ranges@ == ranges_of_streams(
                    self.set_streams(),
                    set_ids@.take(i as int),
                ),
                request.object_id == self.set_id(),
                request.object_size == (match set_object {
                    Some(w) => w.object_size,
                    None => 0,
                }),
                request.attributes == (match set_object {
                    Some(w) => w.attributes,
                    None => 0,
                }),
                request.stream_objects@ == Seq::<StreamObject>::empty(),
                request.compacted_object_ids@ == Seq::<u64>::empty(),
            decreases set_ids@.len() - i,
        {
            let id: u64 = set_ids[i];
            assert(set_ids@.contains(set_ids@[i as int]));
            match self.stream_set_object_map.get(&id) {
                Some(list) => {
                    assert(self.set_streams().contains_key(id));
                    let n: usize = list.len();
                    assert(is_batch(list@[0]@) && is_batch(list@[n - 1]@));
                    let range = ObjectStreamRange {
                        stream_id: id,
                        epoch: UNKNOWN_EPOCH,
                        start_offset: list[0].base_offset(),
                        end_offset: list[n - 1].last_offset(),
                        size: stream_size(list),
                    };
                    assert(range == range_of_records(id, record_views(list@)));
                    request.stream_ranges.push(range);
                },
                None => {
                    assert(false);
                },
            }
            i += 1;
            assert(request.stream_ranges@ =~= ranges_of_streams(
                self.set_streams(),
                set_ids@.take(i as int),
            ));
        }
        assert(set_ids@.take(i as int) =~= set_ids@);
        assert(lists_keys(self.set_streams(), sorted_keys(self.set_streams())));
        let split_ids = self.stream_object_ids();
        let split_keys = tree_keys(&self.stream_object_map);
        proof {
            lemma_key_count(self.stream_object_map@, split_keys@);
        }
        let mut k: usize = 0;
        let ghost sorted = sorted_keys(self.split_streams());
        while k < split_ids.len()
            invariant
                k <= split_ids@.len() == sorted.len(),
                split_ids@.len() == split_objects@.len(),
                self.wf(),
                sorted == sorted_keys(self.split_streams()),
                lists_keys(self.split_streams(), sorted),
                forall|j: int|
                    0 <= j < split_ids@.len() ==> #[trigger] split_ids@[j] == (
                        sorted[j],
                        (self.first_split_id() + j) as u64,
                    ),
                request.stream_objects@.len() == k,
                forall|j: int|
                    0 <= j < k ==> #[trigger] request.stream_objects@[j]
                        == stream_object_of_records(
                        sorted[j],
                        record_views(self.split_streams()[sorted[j]]@),
                        (self.first_split_id() + j) as u64,
                        split_objects@[j],
                    ),
                request.object_id == self.set_id(),
                request.object_size == (match set_object {
                    Some(w) => w.object_size,
                    None => 0,
                }),
                request.attributes == (match set_object {
                    Some(w) => w.attributes,
                    None => 0,
                }),
                request.stream_ranges@ == ranges_of_streams(
                    self.set_streams(),
                    sorted_keys(self.set_streams()),
                ),
                request.compacted_object_ids@ == Seq::<u64>::empty(),
            decreases split_ids@.len() - k,
        {
            let (stream_id, object_id) = split_ids[k];
            assert(sorted.contains(sorted[k as int]));
            match self.stream_object_map.get(&stream_id) {
                Some(list) => {
                    assert(self.split_streams().contains_key(stream_id));
                    let n: usize = list.len();
                    assert(is_batch(list@[0]@) && is_batch(list@[n - 1]@));
                    request.stream_objects.push(
                        StreamObject {
                            object_id,
                            object_size: split_objects[k].object_size,
                            stream_id,
                            start_offset: list[0].base_offset(),
                            end_offset: list[n - 1].last_offset(),
                            attributes: split_objects[k].attributes,
                        },
                    );
                },
                None => {
                    assert(false);
                },
            }
            k += 1;
        }
        proof {
            assert forall|k: u64| #[trigger] self.split_streams().contains_key(
                k,
            ) implies is_committed(request, k, record_views(self.split_streams()[k]@)) by {
                lemma_all_committed(*self, request, split_objects@, k);
            }
            assert forall|k: u64| #[trigger] self.set_streams().contains_key(
                k,
            ) implies is_committed(request, k, record_views(self.set_streams()[k]@)) by {
                lemma_all_committed(*self, request, split_objects@, k);
            }
        }
        request
    }
}

proof fn lemma_key_count(m: Map<u64, Vec<StreamRecordBatch>>, keys: Seq<u64>)
    requires
        lists_keys(m, keys),
    ensures
        keys.len() == m.dom().len(),
{
    assert(keys.to_set() =~= m.dom()) by {
        assert forall|k: u64| #[trigger] keys.to_set().contains(k) <==> m.dom().contains(k) by {
            assert(keys.contains(k) <==> m.dom().contains(k));
        }
    }
    keys.unique_seq_to_set();
}

/// The records follow each other without a gap, and none ends below where it begins.
pub open spec fn is_run_of_records(records: Seq<Seq<u8>>) -> bool {
    &&& is_gapless(records)
    &&& forall|i: int|
        0 <= i < records.len() ==> rec_base_offset(#[trigger] records[i]) <= rec_last_offset(
            records[i],
        )
}

/// Every record of a run lies between the start of the first and the end of the last.
proof fn lemma_run_bounds(records: Seq<Seq<u8>>, i: int)
    requires
        is_run_of_records(records),
        0 <= i < records.len(),
    ensures
        rec_base_offset(records[0]) <= rec_base_offset(records[i]),
        rec_last_offset(records[i]) <= rec_last_offset(records.last()),
    decreases records.len(),
{
    let n = records.len() - 1;
    if i > 0 {
        let front = records.take(i);
        assert forall|a: int| 0 <= a < front.len() implies rec_base_offset(#[trigger] front[a])
            <= rec_last_offset(front[a]) by {
            assert(front[a] == records[a]);
        }
        assert forall|a: int, b: int|
            #![trigger front[a], front[b]]
            0 <= a && b == a + 1 && b < front.len() implies rec_base_offset(front[b])
            == rec_last_offset(front[a]) by {
            assert(front[a] == records[a] && front[b] == records[b]);
        }
        lemma_run_bounds(front, i - 1);
        assert(front[0] == records[0]);
        assert(front[i - 1] == records[i - 1]);
        assert(rec_base_offset(records[i]) == rec_last_offset(records[i - 1]));
        assert(rec_base_offset(records[i - 1]) <= rec_last_offset(records[i - 1]));
    }
    lemma_run_ascends(records, i, n);
}

proof fn lemma_run_ascends(records: Seq<Seq<u8>>, i: int, j: int)
    requires
        is_run_of_records(records),
        0 <= i <= j < records.len(),
    ensures
        rec_last_offset(records[i]) <= rec_last_offset(records[j]),
    decreases j - i,
{
    if i < j {
        lemma_run_ascends(records, i, j - 1);
        assert(rec_base_offset(records[j]) == rec_last_offset(records[j - 1]));
        assert(rec_base_offset(records[j]) <= rec_last_offset(records[j]));
    }
}

/// A stream object commits all that was written of its stream: from the base offset of the
/// first record to the last offset of the last one, with every record in between inside.
pub proof fn law_stream_object_covers_records(
    stream_id: u64,
    records: Seq<Seq<u8>>,
    object_id: u64,
    written: WrittenObject,
    i: int,
)
    requires
        records.len() > 0,
        0 <= i < records.len(),
    ensures
        ({
            let o = stream_object_of_records(stream_id, records, object_id, written);
            &&& o.stream_id == stream_id
            &&& o.object_id == object_id
            &&& o.object_size == written.object_size
            &&& o.attributes == written.attributes
            &&& o.start_offset == rec_base_offset(records[0])
            &&& o.end_offset == rec_last_offset(records[records.len() - 1])
            &&& is_run_of_records(records) ==> o.start_offset <= rec_base_offset(records[i])
                && rec_last_offset(records[i]) <= o.end_offset
        }),
{
    if is_run_of_records(records) {
        lemma_run_bounds(records, i);
    }
}

/// A range of the stream set object covers all that was written of its stream, and counts
/// every byte of it.
pub proof fn law_stream_range_covers_records(stream_id: u64, records: Seq<Seq<u8>>, i: int)
    requires
        records.len() > 0,
        0 <= i < records.len(),
        payload_bytes(records) <= u64::MAX,
    ensures
        ({
            let o = range_of_records(stream_id, records);
            &&& o.stream_id == stream_id
            &&& o.start_offset == rec_base_offset(records[0])
            &&& o.end_offset == rec_last_offset(records[records.len() - 1])
            &&& o.size == payload_bytes(records.take(i)) + payload_bytes(records.skip(i))
            &&& is_run_of_records(records) ==> o.start_offset <= rec_base_offset(records[i])
                && rec_last_offset(records[i]) <= o.end_offset
        }),
{
    if is_run_of_records(records) {
        lemma_run_bounds(records, i);
    }
    lemma_payload_prefix(records, records.len() as int);
    assert(records.take(records.len() as int) =~= records);
    lemma_payload_of_parts(records.take(i), records.skip(i));
    assert(records.take(i) + records.skip(i) =~= records);
}

proof fn lemma_payload_of_parts(a: Seq<Seq<u8>>, b: Seq<Seq<u8>>)
    ensures
        payload_bytes(a + b) == payload_bytes(a) + payload_bytes(b),
    decreases b.len(),
{
    if b.len() == 0 {
        assert(a + b =~= a);
    } else {
        assert((a + b).drop_last() =~= a + b.drop_last());
        lemma_payload_of_parts(a, b.drop_last());
    }
}

/// The bytes of a list are those of each of its records.
pub proof fn law_payload_counts_every_record(records: Seq<Seq<u8>>, record: Seq<u8>)
    ensures
        payload_bytes(Seq::<Seq<u8>>::empty()) == 0,
        payload_bytes(records.push(record)) == payload_bytes(records) + rec_size(record),
{
    assert(records.push(record).drop_last() =~= records);
}

/// The stream is committed by the request with all of its records: in a range of the stream
/// set object, or in a stream object of its own.
pub open spec fn is_committed(
    req: CommitStreamSetObjectRequest,
    stream_id: u64,
    records: Seq<Seq<u8>>,
) -> bool {
    let start = rec_base_offset(records[0]);
    let end = rec_last_offset(records[records.len() - 1]);
    ||| exists|i: int|
        0 <= i < req.stream_ranges@.len() && (#[trigger] req.stream_ranges@[i]).stream_id
            == stream_id && req.stream_ranges@[i].start_offset == start
            && req.stream_ranges@[i].end_offset == end
    ||| exists|i: int|
        0 <= i < req.stream_objects@.len() && (#[trigger] req.stream_objects@[i]).stream_id
            == stream_id && req.stream_objects@[i].start_offset == start
            && req.stream_objects@[i].end_offset == end
}

/// A request that names the ranges of the streams of the set object and the objects of the
/// split streams commits every stream of the upload, from its first record to its last.
proof fn lemma_all_committed(
    task: UploadWalTask,
    req: CommitStreamSetObjectRequest,
    split_objects: Seq<WrittenObject>,
    stream_id: u64,
)
    requires
        task.wf(),
        req.stream_ranges@ == ranges_of_streams(
            task.set_streams(),
            sorted_keys(task.set_streams()),
        ),
        lists_keys(task.set_streams(), sorted_keys(task.set_streams())),
        lists_keys(task.split_streams(), sorted_keys(task.split_streams())),
        req.stream_objects@.len() == sorted_keys(task.split_streams()).len(),
        forall|i: int|
            0 <= i < req.stream_objects@.len() ==> #[trigger] req.stream_objects@[i]
                == stream_object_of_records(
                sorted_keys(task.split_streams())[i],
                record_views(task.split_streams()[sorted_keys(task.split_streams())[i]]@),
                (task.first_split_id() + i) as u64,
                split_objects[i],
            ),
    ensures
        task.split_streams().contains_key(stream_id) ==> is_committed(
            req,
            stream_id,
            record_views(task.split_streams()[stream_id]@),
        ),
        task.set_streams().contains_key(stream_id) ==> is_committed(
            req,
            stream_id,
            record_views(task.set_streams()[stream_id]@),
        ),
{
    if task.split_streams().contains_key(stream_id) {
        let keys = sorted_keys(task.split_streams());
        assert(keys.contains(stream_id));
        let i = choose|i: int| 0 <= i < keys.len() && keys[i] == stream_id;
        assert(req.stream_objects@[i].stream_id == stream_id);
    }
    if task.set_streams().contains_key(stream_id) {
        let keys = sorted_keys(task.set_streams());
        assert(keys.contains(stream_id));
        let i = choose|i: int| 0 <= i < keys.len() && keys[i] == stream_id;
        assert(req.stream_ranges@[i].stream_id == stream_id);
    }
}

/// The objects of an upload have ids of their own among those that were prepared.
pub proof fn law_object_ids_are_distinct(task: UploadWalTask, i: int, j: int)
    requires
        task.prepared() is Some,
        0 <= i < j < task.split_streams().dom().len(),
    ensures
        task.prepared()->0 <= task.first_split_id() + i < task.first_split_id() + j
            < task.prepared()->0 + task.objects(),
        task.set_streams().dom().len() > 0 ==> task.set_id() == task.prepared()->0
            && task.set_id() < task.first_split_id() + i,
{
}

/// An upload whose streams are all split out writes no stream set object: it names none, and the
/// first id that was prepared goes to the first stream object.
pub proof fn law_upload_of_split_streams_has_no_set_object(task: UploadWalTask)
    requires
        task.prepared() is Some,
        task.set_streams().dom().len() == 0,
    ensures
        task.set_id() == NOOP_OBJECT_ID,
        task.first_split_id() == task.prepared()->0,
        task.objects() == task.split_streams().dom().len(),
{
}

} // verus!

//! The persisted form of the stream range index.
//!
//! Big endian: version (2 bytes), number of streams (4), then for each stream its id (8),
//! its number of ranges (4), and for each range start offset, end offset and object id
//! (8 each). Streams are in ascending order; those without ranges are left out.
use bytes::Bytes;
use std::collections::BTreeMap;
use vstd::prelude::*;

use crate::buffer::{bytes_as_slice, bytes_from_vec, bytes_seq};
use crate::codec::be::{
    as_i32, be_seq, field, get_be, get_i32, get_u64, law_be_read_of_write, lemma_be_seq_len,
    lemma_pow256_values, put_be,
};
use crate::collections::{ascending, lists_keys, sorted_keys, tree_keys};
use crate::error::{StreamError, Unexpected};
use crate::index::range_cache::{sparse_models, LocalStreamRangeIndexCache};
use crate::index::sparse::{RangeIndex, SparseModel, SparseRangeIndex};

verus! {

/// Version of the persisted form.
pub const INDEX_VERSION: i16 = 0;

/// One range, persisted.
pub open spec fn range_bytes(r: RangeIndex) -> Seq<u8> {
    be_seq(r.start_offset as nat, 8) + be_seq(r.end_offset as nat, 8) + be_seq(
        r.object_id as nat,
        8,
    )
}

/// Ranges, persisted one after the other.
pub open spec fn ranges_bytes(ranges: Seq<RangeIndex>) -> Seq<u8>
    decreases ranges.len(),
{
    if ranges.len() == 0 {
        Seq::empty()
    } else {
        range_bytes(ranges[0]) + ranges_bytes(ranges.skip(1))
    }
}

/// The ranges of one stream, persisted.
pub open spec fn stream_bytes(stream_id: u64, ranges: Seq<RangeIndex>) -> Seq<u8> {
    be_seq(stream_id as nat, 8) + be_seq(ranges.len(), 4) + ranges_bytes(ranges)
}

/// Streams, persisted in the order of `keys`.
pub open spec fn streams_bytes(m: Map<u64, Seq<RangeIndex>>, keys: Seq<u64>) -> Seq<u8>
    decreases keys.len(),
{
    if keys.len() == 0 {
        Seq::empty()
    } else {
        let rest = streams_bytes(m, keys.skip(1));
        if m[keys[0]].len() == 0 {
            rest
        } else {
            stream_bytes(keys[0], m[keys[0]]) + rest
        }
    }
}

/// How many streams have ranges.
pub open spec fn stream_count(m: Map<u64, Seq<RangeIndex>>, keys: Seq<u64>) -> nat
    decreases keys.len(),
{
    if keys.len() == 0 {
        0
    } else {
        stream_count(m, keys.skip(1)) + (if m[keys[0]].len() == 0 {
            0nat
        } else {
            1
        })
    }
}

/// The index, persisted.
pub open spec fn index_file(m: Map<u64, Seq<RangeIndex>>) -> Seq<u8> {
    let keys = sorted_keys(m);
    be_seq(0, 2) + be_seq(stream_count(m, keys), 4) + streams_bytes(m, keys)
}

/// Ranges read back from the front of a buffer.
pub open spec fn read_ranges(b: Seq<u8>, count: int) -> Seq<RangeIndex> {
    Seq::new(
        count as nat,
        |i: int|
            RangeIndex {
                start_offset: field(b, 24 * i, 8) as u64,
                end_offset: field(b, 24 * i + 8, 8) as u64,
                object_id: field(b, 24 * i + 16, 8) as u64,
            },
    )
}

/// The ranges of a stream so far.
pub open spec fn known_ranges(acc: Map<u64, Seq<RangeIndex>>, stream_id: u64) -> Seq<RangeIndex> {
    if acc.contains_key(stream_id) {
        acc[stream_id]
    } else {
        Seq::empty()
    }
}

/// Streams read back from the front of a buffer; `None` where it ends too early.
pub open spec fn read_streams(b: Seq<u8>, n: int, acc: Map<u64, Seq<RangeIndex>>) -> Option<
    Map<u64, Seq<RangeIndex>>,
>
    decreases n,
{
    if n <= 0 {
        Some(acc)
    } else if b.len() < 12 {
        None
    } else {
        let id = field(b, 0, 8) as u64;
        let count = as_i32(field(b, 8, 4));
        if count < 0 || b.len() - 12 < count * 24 {
            None
        } else {
            read_streams(
                b.skip(12 + count * 24),
                n - 1,
                acc.insert(id, known_ranges(acc, id) + read_ranges(b.skip(12), count)),
            )
        }
    }
}

/// A 2-byte number as a signed one.
pub open spec fn as_i16(x: nat) -> int {
    if x < 0x8000 {
        x as int
    } else {
        x - 0x1_0000
    }
}

/// The index read back.
pub open spec fn read_index(b: Seq<u8>) -> Result<Map<u64, Seq<RangeIndex>>, StreamError> {
    if b.len() < 6 {
        Err(StreamError::Unexpected(Unexpected::IndexTruncated))
    } else if as_i16(field(b, 0, 2)) != INDEX_VERSION {
        Err(
            StreamError::Unexpected(
                Unexpected::IndexVersion { version: as_i16(field(b, 0, 2)) as i16 },
            ),
        )
    } else {
        match read_streams(b.skip(6), as_i32(field(b, 2, 4)), Map::empty()) {
            Some(m) => Ok(m),
            None => Err(StreamError::Unexpected(Unexpected::IndexTruncated)),
        }
    }
}

/// The ranges of each stream.
pub open spec fn ranges_of(m: Map<u64, SparseModel>) -> Map<u64, Seq<RangeIndex>> {
    m.map_values(|s: SparseModel| s.ranges)
}

/// The ranges of each stream, as read back.
pub open spec fn range_views(m: Map<u64, Vec<RangeIndex>>) -> Map<u64, Seq<RangeIndex>> {
    m.map_values(|v: Vec<RangeIndex>| v@)
}

/// The persisted form can count the streams and their ranges.
pub open spec fn can_persist(m: Map<u64, Seq<RangeIndex>>) -> bool {
    &&& stream_count(m, sorted_keys(m)) <= i32::MAX
    &&& forall|k: u64| #[trigger] m.contains_key(k) ==> m[k].len() <= i32::MAX
}

/// The same ranges, the same keys.
proof fn lemma_same_keys(a: Map<u64, SparseRangeIndex>)
    requires
        lists_keys(a, sorted_keys(a)),
        ascending(sorted_keys(a)),
    ensures
        sorted_keys(ranges_of(sparse_models(a))) == sorted_keys(a),
{
    let keys = sorted_keys(a);
    let m = ranges_of(sparse_models(a));
    assert forall|x: u64| #[trigger] keys.contains(x) <==> m.dom().contains(x) by {
        assert(keys.contains(x) <==> a.dom().contains(x));
    }
    assert(lists_keys(m, keys));
    crate::collections::lemma_sorted_keys(m, keys);
}

fn put_range(buf: &mut Vec<u8>, r: RangeIndex)
    ensures
        final(buf)@ == old(buf)@ + range_bytes(r),
{
    put_be(buf, r.start_offset, 8);
    put_be(buf, r.end_offset, 8);
    put_be(buf, r.object_id, 8);
    assert(buf@ =~= old(buf)@ + range_bytes(r));
}

fn put_stream(buf: &mut Vec<u8>, stream_id: u64, ranges: &[RangeIndex])
    requires
        ranges@.len() <= i32::MAX,
    ensures
        final(buf)@ == old(buf)@ + stream_bytes(stream_id, ranges@),
{
    let ghost before = buf@;
    put_be(buf, stream_id, 8);
    put_be(buf, ranges.len() as u64, 4);
    let ghost head = before + be_seq(stream_id as nat, 8) + be_seq(ranges@.len(), 4);
    let mut i: usize = 0;
    proof {
        assert(ranges@.skip(0) =~= ranges@);
        assert(buf@ + ranges_bytes(ranges@) =~= head + ranges_bytes(ranges@));
    }
    while i < ranges.len()
        invariant
            i <= ranges@.len(),
            buf@ + ranges_bytes(ranges@.skip(i as int)) == head + ranges_bytes(ranges@),
        decreases ranges@.len() - i,
    {
        let ghost b = buf@;
        proof {
            assert(ranges@.skip(i as int)[0] == ranges@[i as int]);
            assert(ranges@.skip(i as int).skip(1) =~= ranges@.skip(i + 1));
        }
        put_range(buf, ranges[i]);
        assert(b + (range_bytes(ranges@[i as int]) + ranges_bytes(ranges@.skip(i + 1))) =~= buf@
            + ranges_bytes(ranges@.skip(i + 1)));
        i += 1;
    }
    assert(buf@ + ranges_bytes(ranges@.skip(i as int)) =~= buf@);
    assert(head + ranges_bytes(ranges@) =~= before + stream_bytes(stream_id, ranges@));
}

impl LocalStreamRangeIndexCache {
    pub fn to_buffer(streams: &BTreeMap<u64, SparseRangeIndex>) -> (r: Bytes)
        requires
            can_persist(ranges_of(sparse_models(streams@))),
        ensures
            bytes_seq(r) == index_file(ranges_of(sparse_models(streams@))),
    {
        broadcast use vstd::std_specs::btree::group_btree_axioms;

        let ghost m = ranges_of(sparse_models(streams@));
        let keys = tree_keys(streams);
        proof {
            lemma_same_keys(streams@);
            assert forall|j: int| 0 <= j < keys@.len() implies streams@.contains_key(
                #[trigger] keys@[j],
            ) by {
                assert(keys@.contains(keys@[j]));
            }
        }
        let mut count: u64 = 0;
        let mut i: usize = 0;
        assert(keys@.skip(0) =~= keys@);
        while i < keys.len()
            invariant
                i <= keys@.len(),
                m == ranges_of(sparse_models(streams@)),
                keys@ == sorted_keys(m),
                can_persist(m),
                forall|j: int| 0 <= j < keys@.len() ==> streams@.contains_key(#[trigger] keys@[j]),
                count + stream_count(m, keys@.skip(i as int)) == stream_count(m, keys@),
            decreases keys@.len() - i,
        {
            broadcast use vstd::std_specs::btree::group_btree_axioms;

            proof {
                assert(keys@.skip(i as int)[0] == keys@[i as int]);
                assert(keys@.skip(i as int).skip(1) =~= keys@.skip(i + 1));
                assert(streams@.contains_key(keys@[i as int]));
            }
            match streams.get(&keys[i]) {
                Some(s) => {
                    assert(m[keys@[i as int]] == s@.ranges);
                    if !s.is_empty() {
                        count += 1;
                    }
                },
                None => {
                    assert(false);
                },
            }
            i += 1;
        }
        assert(stream_count(m, keys@.skip(i as int)) == 0);
        let mut buf: Vec<u8> = Vec::new();
        put_be(&mut buf, 0, 2);
        put_be(&mut buf, count, 4);
        let ghost head = be_seq(0, 2) + be_seq(stream_count(m, keys@), 4);
        assert(buf@ =~= head);
        let mut k: usize = 0;
        assert(keys@.skip(0) =~= keys@);
        while k < keys.len()
            invariant
                k <= keys@.len(),
                m == ranges_of(sparse_models(streams@)),
                keys@ == sorted_keys(m),
                can_persist(m),
                forall|j: int| 0 <= j < keys@.len() ==> streams@.contains_key(#[trigger] keys@[j]),
                buf@ + streams_bytes(m, keys@.skip(k as int)) == head + streams_bytes(m, keys@),
            decreases keys@.len() - k,
        {
            broadcast use vstd::std_specs::btree::group_btree_axioms;

            let id: u64 = keys[k];
            let ghost b = buf@;
            proof {
                assert(keys@.skip(k as int)[0] == keys@[k as int]);
                assert(keys@.skip(k as int).skip(1) =~= keys@.skip(k + 1));
                assert(streams@.contains_key(keys@[k as int]));
            }
            match streams.get(&id) {
                Some(s) => {
                    proof {
                        assert(m[id] == s@.ranges);
                        assert(m.contains_key(id));
                    }
                    if !s.is_empty() {
                        put_stream(&mut buf, id, s.ranges());
                        assert(b + (stream_bytes(id, m[id]) + streams_bytes(m, keys@.skip(k + 1)))
                            =~= buf@ + streams_bytes(m, keys@.skip(k + 1)));
                    }
                },
                None => {
                    assert(false);
                },
            }
            k += 1;
        }
        assert(buf@ + streams_bytes(m, keys@.skip(k as int)) =~= buf@);
        bytes_from_vec(buf)
    }

    pub fn from_buffer(data: &Bytes) -> (r: Result<BTreeMap<u64, Vec<RangeIndex>>, StreamError>)
        ensures
            match read_index(bytes_seq(*data)) {
                Ok(m) => r matches Ok(streams) && range_views(streams@) == m,
                Err(e) => r == Err::<BTreeMap<u64, Vec<RangeIndex>>, StreamError>(e),
            },
    {
        broadcast use vstd::std_specs::btree::group_btree_axioms;

        let b = bytes_as_slice(data);
        let ghost all = b@;
        let len: usize = b.len();
        if len < 6 {
            return Err(StreamError::Unexpected(Unexpected::IndexTruncated));
        }
        proof {
            lemma_pow256_values();
        }
        let raw: u64 = get_be(b, 0, 2);
        let version: i16 = if raw < 0x8000 {
            raw as i16
        } else {
            (raw as i64 - 0x1_0000) as i16
        };
        if version != INDEX_VERSION {
            return Err(StreamError::Unexpected(Unexpected::IndexVersion { version }));
        }
        let stream_total: i32 = get_i32(b, 2);
        let mut streams: BTreeMap<u64, Vec<RangeIndex>> = BTreeMap::new();
        let mut pos: usize = 6;
        let mut left: i32 = stream_total;
        let ghost goal = read_streams(all.skip(6), stream_total as int, Map::empty());
        assert(range_views(streams@) =~= Map::empty());
        while left > 0
            invariant
                6 <= pos <= len == all.len(),
                all == b@,
                all == bytes_seq(*data),
                as_i16(field(all, 0, 2)) == INDEX_VERSION,
                goal == read_streams(all.skip(6), as_i32(field(all, 2, 4)), Map::empty()),
                goal == read_streams(
                    all.skip(pos as int),
                    left as int,
                    range_views(streams@),
                ),
            decreases left,
        {
            broadcast use vstd::std_specs::btree::group_btree_axioms;

            let ghost rest = all.skip(pos as int);
            if len - pos < 12 {
                return Err(StreamError::Unexpected(Unexpected::IndexTruncated));
            }
            proof {
                assert(rest.subrange(0, 8) =~= all.subrange(pos as int, pos + 8));
                assert(rest.subrange(8, 12) =~= all.subrange(pos + 8, pos + 12));
            }
            let stream_id: u64 = get_u64(b, pos);
            let range_count: i32 = get_i32(b, pos + 8);
            if range_count < 0 || ((len - pos - 12) as u64) < range_count as u64 * 24 {
                return Err(StreamError::Unexpected(Unexpected::IndexTruncated));
            }
            pos = pos + 12;
            let ghost body = all.skip(pos as int);
            assert(rest.skip(12) =~= body);
            let ghost before = range_views(streams@);
            let mut entry: Vec<RangeIndex> = match streams.remove(&stream_id) {
                Some(v) => v,
                None => Vec::new(),
            };
            let ghost known = entry@;
            assert(known == known_ranges(before, stream_id)) by {
                if !before.contains_key(stream_id) {
                    assert(known =~= Seq::empty());
                }
            }
            let n: usize = range_count as usize;
            let mut i: usize = 0;
            assert(known + read_ranges(body, 0) =~= known);
            while i < n
                invariant
                    i <= n,
                    n == range_count,
                    all == b@,
                    body == all.skip(pos as int),
                    pos + n * 24 <= len == all.len(),
                    entry@ == known + read_ranges(body, i as int),
                decreases n - i,
            {
                let at: usize = pos + i * 24;
                proof {
                    assert(body.subrange(24 * i, 24 * i + 8) =~= all.subrange(at as int, at + 8));
                    assert(body.subrange(24 * i + 8, 24 * i + 16) =~= all.subrange(
                        at + 8,
                        at + 16,
                    ));
                    assert(body.subrange(24 * i + 16, 24 * i + 24) =~= all.subrange(
                        at + 16,
                        at + 24,
                    ));
                }
                entry.push(
                    RangeIndex {
                        start_offset: get_u64(b, at),
                        end_offset: get_u64(b, at + 8),
                        object_id: get_u64(b, at + 16),
                    },
                );
                assert(entry@ =~= known + read_ranges(body, i + 1));
                i += 1;
            }
            let ghost full = entry@;
            streams.insert(stream_id, entry);
            pos = pos + n * 24;
            proof {
                assert(range_views(streams@) =~= before.insert(stream_id, full));
                assert(rest.skip(12 + range_count * 24) =~= all.skip(pos as int));
            }
            left = left - 1;
        }
        Ok(streams)
    }
}

proof fn lemma_range_fields(r: RangeIndex, rest: Seq<u8>)
    ensures
        range_bytes(r).len() == 24,
        field(range_bytes(r) + rest, 0, 8) == r.start_offset,
        field(range_bytes(r) + rest, 8, 8) == r.end_offset,
        field(range_bytes(r) + rest, 16, 8) == r.object_id,
{
    lemma_pow256_values();
    let a = be_seq(r.start_offset as nat, 8);
    let b = be_seq(r.end_offset as nat, 8);
    let c = be_seq(r.object_id as nat, 8);
    lemma_be_seq_len(r.start_offset as nat, 8);
    lemma_be_seq_len(r.end_offset as nat, 8);
    lemma_be_seq_len(r.object_id as nat, 8);
    let s = range_bytes(r) + rest;
    assert(s.subrange(0, 8) =~= a);
    assert(s.subrange(8, 16) =~= b);
    assert(s.subrange(16, 24) =~= c);
    law_be_read_of_write(r.start_offset as nat, 8);
    law_be_read_of_write(r.end_offset as nat, 8);
    law_be_read_of_write(r.object_id as nat, 8);
}

proof fn lemma_ranges_back(ranges: Seq<RangeIndex>, rest: Seq<u8>)
    ensures
        ranges_bytes(ranges).len() == ranges.len() * 24,
        read_ranges(ranges_bytes(ranges) + rest, ranges.len() as int) == ranges,
    decreases ranges.len(),
{
    let b = ranges_bytes(ranges) + rest;
    if ranges.len() == 0 {
        assert(read_ranges(b, 0) =~= ranges);
    } else {
        let tail = ranges.skip(1);
        lemma_ranges_back(tail, rest);
        lemma_range_fields(ranges[0], ranges_bytes(tail) + rest);
        assert(b =~= range_bytes(ranges[0]) + (ranges_bytes(tail) + rest));
        let inner = ranges_bytes(tail) + rest;
        let got = read_ranges(b, ranges.len() as int);
        assert forall|i: int| 0 <= i < ranges.len() implies got[i] == ranges[i] by {
            if i > 0 {
                assert(read_ranges(inner, tail.len() as int)[i - 1] == tail[i - 1]);
                let p = 24 * (i - 1);
                assert(24 * i == p + 24);
                lemma_ranges_len(tail, i - 1);
                assert(b.subrange(24 * i, 24 * i + 8) =~= inner.subrange(p, p + 8));
                assert(b.subrange(24 * i + 8, 24 * i + 16) =~= inner.subrange(p + 8, p + 16));
                assert(b.subrange(24 * i + 16, 24 * i + 24) =~= inner.subrange(p + 16, p + 24));
            }
        }
        assert(got =~= ranges);
    }
}

proof fn lemma_ranges_len(ranges: Seq<RangeIndex>, i: int)
    requires
        0 <= i < ranges.len(),
    ensures
        24 * i + 24 <= ranges_bytes(ranges).len(),
    decreases ranges.len(),
{
    lemma_range_fields(ranges[0], Seq::empty());
    if i > 0 {
        lemma_ranges_len(ranges.skip(1), i - 1);
    }
}

/// The streams of `keys` that have ranges.
pub open spec fn with_streams(
    acc: Map<u64, Seq<RangeIndex>>,
    m: Map<u64, Seq<RangeIndex>>,
    keys: Seq<u64>,
) -> Map<u64, Seq<RangeIndex>>
    decreases keys.len(),
{
    if keys.len() == 0 {
        acc
    } else if m[keys[0]].len() == 0 {
        with_streams(acc, m, keys.skip(1))
    } else {
        with_streams(acc.insert(keys[0], m[keys[0]]), m, keys.skip(1))
    }
}

proof fn lemma_streams_back(
    m: Map<u64, Seq<RangeIndex>>,
    keys: Seq<u64>,
    acc: Map<u64, Seq<RangeIndex>>,
)
    requires
        ascending(keys),
        forall|i: int| 0 <= i < keys.len() ==> m[#[trigger] keys[i]].len() <= i32::MAX,
        forall|i: int| 0 <= i < keys.len() ==> !acc.contains_key(#[trigger] keys[i]),
    ensures
        read_streams(streams_bytes(m, keys), stream_count(m, keys) as int, acc) == Some(
            with_streams(acc, m, keys),
        ),
    decreases keys.len(),
{
    if keys.len() > 0 {
        let k = keys[0];
        let tail = keys.skip(1);
        assert forall|i: int| 0 <= i < tail.len() implies m[#[trigger] tail[i]].len()
            <= i32::MAX by {
            assert(m[keys[i + 1]].len() <= i32::MAX);
        }
        assert(ascending(tail));
        if m[k].len() == 0 {
            assert forall|i: int| 0 <= i < tail.len() implies !acc.contains_key(
                #[trigger] tail[i],
            ) by {
                assert(!acc.contains_key(keys[i + 1]));
            }
            lemma_streams_back(m, tail, acc);
        } else {
            let ranges = m[k];
            let next = acc.insert(k, ranges);
            assert forall|i: int| 0 <= i < tail.len() implies !next.contains_key(
                #[trigger] tail[i],
            ) by {
                assert(!acc.contains_key(keys[i + 1]));
                assert(keys[0] < keys[i + 1]);
            }
            lemma_streams_back(m, tail, next);
            let rest = streams_bytes(m, tail);
            let b = stream_bytes(k, ranges) + rest;
            lemma_pow256_values();
            lemma_be_seq_len(k as nat, 8);
            lemma_be_seq_len(ranges.len(), 4);
            law_be_read_of_write(k as nat, 8);
            law_be_read_of_write(ranges.len(), 4);
            lemma_ranges_back(ranges, rest);
            assert(b.subrange(0, 8) =~= be_seq(k as nat, 8));
            assert(b.subrange(8, 12) =~= be_seq(ranges.len(), 4));
            assert(b.skip(12) =~= ranges_bytes(ranges) + rest);
            assert(b.skip(12 + ranges.len() as int * 24) =~= rest);
            assert(!acc.contains_key(keys[0]));
            assert(known_ranges(acc, k) + ranges =~= ranges);
        }
    } else {
        assert(stream_count(m, keys) == 0);
    }
}

/// The streams that have ranges.
pub open spec fn with_ranges(m: Map<u64, Seq<RangeIndex>>) -> Map<u64, Seq<RangeIndex>> {
    Map::new(|k: u64| m.contains_key(k) && m[k].len() > 0, |k: u64| m[k])
}

proof fn lemma_with_streams(
    acc: Map<u64, Seq<RangeIndex>>,
    m: Map<u64, Seq<RangeIndex>>,
    keys: Seq<u64>,
    k: u64,
)
    requires
        ascending(keys),
    ensures
        with_streams(acc, m, keys).contains_key(k) <==> acc.contains_key(k) || (keys.contains(k)
            && m[k].len() > 0),
        keys.contains(k) && m[k].len() > 0 ==> with_streams(acc, m, keys)[k] == m[k],
        !(keys.contains(k) && m[k].len() > 0) && acc.contains_key(k) ==> with_streams(
            acc,
            m,
            keys,
        )[k] == acc[k],
    decreases keys.len(),
{
    if keys.len() > 0 {
        let tail = keys.skip(1);
        assert(ascending(tail));
        let next = if m[keys[0]].len() == 0 {
            acc
        } else {
            acc.insert(keys[0], m[keys[0]])
        };
        lemma_with_streams(next, m, tail, k);
        assert(keys.contains(k) <==> k == keys[0] || tail.contains(k)) by {
            if keys.contains(k) {
                let i = choose|i: int| 0 <= i < keys.len() && keys[i] == k;
                if i > 0 {
                    assert(tail[i - 1] == k);
                }
            }
            if tail.contains(k) {
                let i = choose|i: int| 0 <= i < tail.len() && tail[i] == k;
                assert(keys[i + 1] == k);
            }
        }
    }
}

/// An index that is persisted and read back is the same, but for streams without ranges.
pub proof fn law_index_round_trip(m: Map<u64, Seq<RangeIndex>>)
    requires
        lists_keys(m, sorted_keys(m)),
        ascending(sorted_keys(m)),
        can_persist(m),
    ensures
        read_index(index_file(m)) == Ok::<Map<u64, Seq<RangeIndex>>, StreamError>(with_ranges(m)),
{
    let keys = sorted_keys(m);
    let count = stream_count(m, keys);
    let b = index_file(m);
    lemma_pow256_values();
    lemma_be_seq_len(0, 2);
    lemma_be_seq_len(count, 4);
    law_be_read_of_write(0, 2);
    law_be_read_of_write(count, 4);
    assert(b.subrange(0, 2) =~= be_seq(0, 2));
    assert(b.subrange(2, 6) =~= be_seq(count, 4));
    assert(b.skip(6) =~= streams_bytes(m, keys));
    assert forall|i: int| 0 <= i < keys.len() implies m[#[trigger] keys[i]].len() <= i32::MAX by {
        assert(keys.contains(keys[i]));
        assert(m.contains_key(keys[i]));
    }
    lemma_streams_back(m, keys, Map::empty());
    let got = with_streams(Map::empty(), m, keys);
    assert forall|k: u64|
        #![trigger got.dom().contains(k)]
        #![trigger with_ranges(m).dom().contains(k)]
        got.dom().contains(k) == with_ranges(m).dom().contains(k) && (got.dom().contains(k)
            ==> got[k] == with_ranges(m)[k]) by {
        lemma_with_streams(Map::empty(), m, keys, k);
        assert(keys.contains(k) <==> m.dom().contains(k));
    }
    assert(got =~= with_ranges(m));
}

proof fn lemma_cut_streams(
    m: Map<u64, Seq<RangeIndex>>,
    keys: Seq<u64>,
    acc: Map<u64, Seq<RangeIndex>>,
    n: int,
)
    requires
        forall|i: int| 0 <= i < keys.len() ==> m[#[trigger] keys[i]].len() <= i32::MAX,
        0 <= n < streams_bytes(m, keys).len(),
    ensures
        read_streams(streams_bytes(m, keys).take(n), stream_count(m, keys) as int, acc) is None,
    decreases keys.len(),
{
    if keys.len() > 0 {
        let k = keys[0];
        let tail = keys.skip(1);
        assert forall|i: int| 0 <= i < tail.len() implies m[#[trigger] tail[i]].len()
            <= i32::MAX by {
            assert(m[keys[i + 1]].len() <= i32::MAX);
        }
        if m[k].len() == 0 {
            lemma_cut_streams(m, tail, acc, n);
        } else {
            let ranges = m[k];
            let rest = streams_bytes(m, tail);
            let b = (stream_bytes(k, ranges) + rest).take(n);
            lemma_pow256_values();
            lemma_be_seq_len(k as nat, 8);
            lemma_be_seq_len(ranges.len(), 4);
            law_be_read_of_write(ranges.len(), 4);
            lemma_ranges_back(ranges, rest);
            let size = 12 + ranges.len() as int * 24;
            assert(stream_bytes(k, ranges).len() == size);
            if n >= 12 {
                assert(b.subrange(8, 12) =~= be_seq(ranges.len(), 4));
                if n >= size {
                    assert(b.skip(size) =~= rest.take(n - size));
                    let id = field(b, 0, 8) as u64;
                    let next = acc.insert(
                        id,
                        known_ranges(acc, id) + read_ranges(b.skip(12), ranges.len() as int),
                    );
                    lemma_cut_streams(m, tail, next, n - size);
                }
            }
        }
    }
}

/// A persisted index that is cut short is refused, wherever it is cut.
pub proof fn law_cut_index_is_refused(m: Map<u64, Seq<RangeIndex>>, n: int)
    requires
        lists_keys(m, sorted_keys(m)),
        can_persist(m),
        0 <= n < index_file(m).len(),
    ensures
        read_index(index_file(m).take(n)) == Err::<Map<u64, Seq<RangeIndex>>, StreamError>(
            StreamError::Unexpected(Unexpected::IndexTruncated),
        ),
{
    if n >= 6 {
        let keys = sorted_keys(m);
        let count = stream_count(m, keys);
        let b = index_file(m).take(n);
        lemma_pow256_values();
        lemma_be_seq_len(0, 2);
        lemma_be_seq_len(count, 4);
        law_be_read_of_write(0, 2);
        law_be_read_of_write(count, 4);
        assert(b.subrange(0, 2) =~= be_seq(0, 2));
        assert(b.subrange(2, 6) =~= be_seq(count, 4));
        assert(b.skip(6) =~= streams_bytes(m, keys).take(n - 6));
        assert forall|i: int| 0 <= i < keys.len() implies m[#[trigger] keys[i]].len()
            <= i32::MAX by {
            assert(keys.contains(keys[i]));
            assert(m.contains_key(keys[i]));
        }
        lemma_cut_streams(m, keys, Map::empty(), n - 6);
    }
}

/// A persisted index of another version is refused.
pub proof fn law_other_versions_are_refused(b: Seq<u8>)
    requires
        b.len() >= 6,
        as_i16(field(b, 0, 2)) != INDEX_VERSION,
    ensures
        read_index(b) is Err,
{
}

} // verus!

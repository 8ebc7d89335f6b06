//! The unit of append: an encoded stream record batch.
//!
//! A batch is kept in encoded form everywhere (WAL body, log cache, object data
//! blocks), so that encoding happens exactly once, at append time.
use bytes::Bytes;
use vstd::prelude::*;

use crate::buffer::{bytes_as_slice, bytes_clone, bytes_from_vec, bytes_seq, bytes_slice, bytes_split_to};
use crate::codec::be::{
    as_i32, be_seq, field, get_i32, get_u64, i32_pattern, law_be_read_of_write,
    law_i32_read_of_write, lemma_be_seq_len, lemma_pow256_values, put_be, put_i32, put_slice,
};
use crate::codec::error::CodecError;
use crate::codec::layout::{
    BASE_OFFSET_POS, EPOCH_POS, HEADER_SIZE, LAST_OFFSET_DELTA_POS, MAGIC_POS, MAGIC_V0,
    PAYLOAD_LENGTH_POS, PAYLOAD_POS, STREAM_ID_POS,
};

verus! {

/// Approximate per-batch struct overhead for cache accounting. Not wire format.
pub const OBJECT_OVERHEAD: usize = 48;

/// The stream that an encoded batch belongs to.
pub open spec fn rec_stream_id(b: Seq<u8>) -> u64 {
    field(b, STREAM_ID_POS as int, 8) as u64
}

pub open spec fn rec_epoch(b: Seq<u8>) -> u64 {
    field(b, EPOCH_POS as int, 8) as u64
}

pub open spec fn rec_base_offset(b: Seq<u8>) -> u64 {
    field(b, BASE_OFFSET_POS as int, 8) as u64
}

/// Number of logical records; negative marks a link record.
pub open spec fn rec_count(b: Seq<u8>) -> i32 {
    as_i32(field(b, LAST_OFFSET_DELTA_POS as int, 4)) as i32
}

/// Exclusive last offset: as many offsets as the count says, whatever its sign, above
/// the base offset, in 64-bit wrapping arithmetic.
pub open spec fn rec_last_offset(b: Seq<u8>) -> u64 {
    let n = if rec_count(b) >= 0 {
        rec_count(b) as int
    } else {
        -rec_count(b)
    };
    ((rec_base_offset(b) + n) % 0x1_0000_0000_0000_0000) as u64
}

/// The payload length that the header states.
pub open spec fn rec_payload_len(b: Seq<u8>) -> i32 {
    as_i32(field(b, PAYLOAD_LENGTH_POS as int, 4)) as i32
}

/// A 32-bit length widened to the machine's word, sign extended.
pub open spec fn widen(x: i32) -> usize {
    if x >= 0 {
        x as usize
    } else {
        (usize::MAX + 1 + x) as usize
    }
}

/// Payload length in bytes as the caches count it.
pub open spec fn rec_size(b: Seq<u8>) -> usize {
    widen(rec_payload_len(b))
}

/// The encoded form of a batch.
pub open spec fn encode_record(
    stream_id: u64,
    epoch: u64,
    base_offset: u64,
    count: i32,
    payload: Seq<u8>,
) -> Seq<u8> {
    seq![MAGIC_V0] + be_seq(stream_id as nat, 8) + be_seq(epoch as nat, 8) + be_seq(
        base_offset as nat,
        8,
    ) + be_seq(i32_pattern(count), 4) + be_seq(payload.len() as nat, 4) + payload
}

/// Bytes that hold a header and a payload of a length that is not negative.
pub open spec fn is_batch(b: Seq<u8>) -> bool {
    &&& b.len() >= HEADER_SIZE
    &&& rec_payload_len(b) >= 0
}

/// What parsing refuses the front of `b` for, if it does.
pub open spec fn parse_error(b: Seq<u8>) -> Option<CodecError> {
    if b.len() < HEADER_SIZE {
        Some(CodecError::BufferTooShort { need: HEADER_SIZE, have: b.len() as usize })
    } else if b[MAGIC_POS as int] != MAGIC_V0 {
        Some(
            CodecError::InvalidMagic {
                expected: MAGIC_V0 as u64,
                actual: b[MAGIC_POS as int] as u64,
            },
        )
    } else if rec_payload_len(b) < 0 {
        Some(CodecError::BufferTooShort { need: HEADER_SIZE, have: b.len() as usize })
    } else if b.len() < parsed_len(b) {
        Some(CodecError::BufferTooShort { need: parsed_len(b) as usize, have: b.len() as usize })
    } else {
        None
    }
}

/// The length of the batch at the front of `b`, header included.
pub open spec fn parsed_len(b: Seq<u8>) -> int {
    HEADER_SIZE + rec_payload_len(b)
}

/// An immutable, encoded stream record batch: header, then payload.
#[derive(Debug, PartialEq, Eq)]
pub struct StreamRecordBatch {
    encoded: Bytes,
}

impl View for StreamRecordBatch {
    type V = Seq<u8>;

    /// The encoded bytes.
    closed spec fn view(&self) -> Seq<u8> {
        bytes_seq(self.encoded)
    }
}

impl Clone for StreamRecordBatch {
    fn clone(&self) -> (r: Self)
        ensures
            r@ == self@,
    {
        StreamRecordBatch { encoded: bytes_clone(&self.encoded) }
    }
}

impl StreamRecordBatch {
    /// Encode a new record batch from parts. A payload of more than `i32::MAX` bytes
    /// leaves a length in the header that parsing refuses.
    pub fn new(stream_id: u64, epoch: u64, base_offset: u64, count: i32, payload: Bytes) -> (r:
        Self)
        ensures
            r@ == encode_record(stream_id, epoch, base_offset, count, bytes_seq(payload)),
    {
        let body = bytes_as_slice(&payload);
        let mut buf: Vec<u8> = Vec::new();
        buf.push(MAGIC_V0);
        put_be(&mut buf, stream_id, 8);
        put_be(&mut buf, epoch, 8);
        put_be(&mut buf, base_offset, 8);
        put_i32(&mut buf, count);
        put_be(&mut buf, body.len() as u64, 4);
        put_slice(&mut buf, body);
        assert(buf@ =~= encode_record(stream_id, epoch, base_offset, count, body@));
        StreamRecordBatch { encoded: bytes_from_vec(buf) }
    }

    /// Parse an encoded batch from the front of `buf`, advancing past it. A refused
    /// buffer is left as it was.
    pub fn parse(buf: &mut Bytes) -> (r: Result<Self, CodecError>)
        ensures
            match parse_error(bytes_seq(*old(buf))) {
                Some(e) => r == Err::<Self, CodecError>(e) && bytes_seq(*final(buf)) == bytes_seq(
                    *old(buf),
                ),
                None => {
                    let b = bytes_seq(*old(buf));
                    &&& r is Ok
                    &&& r->Ok_0@ == b.subrange(0, parsed_len(b))
                    &&& bytes_seq(*final(buf)) == b.subrange(parsed_len(b), b.len() as int)
                },
            },
    {
        let s = bytes_as_slice(buf);
        let have: usize = s.len();
        if have < HEADER_SIZE {
            return Err(CodecError::BufferTooShort { need: HEADER_SIZE, have });
        }
        let magic: u8 = s[MAGIC_POS];
        if magic != MAGIC_V0 {
            return Err(
                CodecError::InvalidMagic { expected: MAGIC_V0 as u64, actual: magic as u64 },
            );
        }
        let payload_len: i32 = get_i32(s, PAYLOAD_LENGTH_POS);
        if payload_len < 0 {
            return Err(CodecError::BufferTooShort { need: HEADER_SIZE, have });
        }
        let encoded_size: usize = PAYLOAD_POS + payload_len as usize;
        if have < encoded_size {
            return Err(CodecError::BufferTooShort { need: encoded_size, have });
        }
        let encoded = bytes_split_to(buf, encoded_size);
        Ok(StreamRecordBatch { encoded })
    }

    /// Wrap already-validated encoded bytes without copying.
    pub fn from_encoded_unchecked(encoded: Bytes) -> (r: Self)
        ensures
            r@ == bytes_seq(encoded),
    {
        StreamRecordBatch { encoded }
    }

    /// The full encoded form (header + payload), zero-copy.
    pub fn encoded(&self) -> (r: Bytes)
        ensures
            bytes_seq(r) == self@,
    {
        bytes_clone(&self.encoded)
    }

    pub fn stream_id(&self) -> (r: u64)
        requires
            self@.len() >= HEADER_SIZE,
        ensures
            r == rec_stream_id(self@),
    {
        get_u64(bytes_as_slice(&self.encoded), STREAM_ID_POS)
    }

    pub fn epoch(&self) -> (r: u64)
        requires
            self@.len() >= HEADER_SIZE,
        ensures
            r == rec_epoch(self@),
    {
        get_u64(bytes_as_slice(&self.encoded), EPOCH_POS)
    }

    pub fn base_offset(&self) -> (r: u64)
        requires
            self@.len() >= HEADER_SIZE,
        ensures
            r == rec_base_offset(self@),
    {
        get_u64(bytes_as_slice(&self.encoded), BASE_OFFSET_POS)
    }

    /// Number of logical records in the batch. Negative marks a link record.
    pub fn count(&self) -> (r: i32)
        requires
            self@.len() >= HEADER_SIZE,
        ensures
            r == rec_count(self@),
    {
        get_i32(bytes_as_slice(&self.encoded), LAST_OFFSET_DELTA_POS)
    }

    /// Exclusive last offset: base offset plus the count, or minus it for a link record.
    pub fn last_offset(&self) -> (r: u64)
        requires
            self@.len() >= HEADER_SIZE,
        ensures
            r == rec_last_offset(self@),
    {
        let count: i64 = self.count() as i64;
        let base: u64 = self.base_offset();
        if count > 0 {
            base.wrapping_add(count as u64)
        } else {
            base.wrapping_add((0 - count) as u64)
        }
    }

    /// The opaque payload, zero-copy.
    pub fn payload(&self) -> (r: Bytes)
        requires
            self@.len() >= HEADER_SIZE,
        ensures
            bytes_seq(r) == self@.subrange(PAYLOAD_POS as int, self@.len() as int),
    {
        let n: usize = bytes_as_slice(&self.encoded).len();
        bytes_slice(&self.encoded, PAYLOAD_POS, n)
    }

    /// Payload length in bytes (not the encoded length). Cache accounting depends on
    /// this.
    pub fn size(&self) -> (r: usize)
        requires
            self@.len() >= HEADER_SIZE,
        ensures
            r == rec_size(self@),
    {
        let n: i32 = get_i32(bytes_as_slice(&self.encoded), PAYLOAD_LENGTH_POS);
        if n >= 0 {
            n as usize
        } else {
            usize::MAX - (-(n + 1)) as usize
        }
    }

    /// Approximate in-memory footprint used for cache accounting.
    pub fn occupied_size(&self) -> (r: usize)
        requires
            is_batch(self@),
        ensures
            r == rec_size(self@) + OBJECT_OVERHEAD,
    {
        self.size() + OBJECT_OVERHEAD
    }
}

/// The fields of an encoded batch are the parts that it was made of.
pub proof fn law_fields_of_encoded(
    stream_id: u64,
    epoch: u64,
    base_offset: u64,
    count: i32,
    payload: Seq<u8>,
)
    requires
        payload.len() <= i32::MAX,
    ensures
        ({
            let b = encode_record(stream_id, epoch, base_offset, count, payload);
            &&& is_batch(b)
            &&& b.len() == HEADER_SIZE + payload.len()
            &&& b[MAGIC_POS as int] == MAGIC_V0
            &&& rec_stream_id(b) == stream_id
            &&& rec_epoch(b) == epoch
            &&& rec_base_offset(b) == base_offset
            &&& rec_count(b) == count
            &&& rec_payload_len(b) == payload.len()
            &&& rec_size(b) == payload.len()
            &&& b.subrange(PAYLOAD_POS as int, b.len() as int) == payload
        }),
{
    let b = encode_record(stream_id, epoch, base_offset, count, payload);
    lemma_pow256_values();
    lemma_be_seq_len(stream_id as nat, 8);
    lemma_be_seq_len(epoch as nat, 8);
    lemma_be_seq_len(base_offset as nat, 8);
    lemma_be_seq_len(i32_pattern(count), 4);
    lemma_be_seq_len(payload.len() as nat, 4);
    law_be_read_of_write(stream_id as nat, 8);
    law_be_read_of_write(epoch as nat, 8);
    law_be_read_of_write(base_offset as nat, 8);
    law_i32_read_of_write(count);
    law_be_read_of_write(i32_pattern(count), 4);
    law_be_read_of_write(payload.len() as nat, 4);
    assert(b.subrange(1, 9) =~= be_seq(stream_id as nat, 8));
    assert(b.subrange(9, 17) =~= be_seq(epoch as nat, 8));
    assert(b.subrange(17, 25) =~= be_seq(base_offset as nat, 8));
    assert(b.subrange(25, 29) =~= be_seq(i32_pattern(count), 4));
    assert(b.subrange(29, 33) =~= be_seq(payload.len() as nat, 4));
    assert(b.subrange(33, b.len() as int) =~= payload);
}

/// Round trip: parsing an encoded batch at the front of a buffer accepts exactly its
/// bytes and leaves what follows.
pub proof fn law_parse_of_encoded(
    stream_id: u64,
    epoch: u64,
    base_offset: u64,
    count: i32,
    payload: Seq<u8>,
    rest: Seq<u8>,
)
    requires
        payload.len() <= i32::MAX,
    ensures
        ({
            let b = encode_record(stream_id, epoch, base_offset, count, payload);
            &&& parse_error(b + rest) is None
            &&& (b + rest).subrange(0, parsed_len(b + rest)) == b
            &&& (b + rest).subrange(parsed_len(b + rest), (b + rest).len() as int) == rest
        }),
{
    let b = encode_record(stream_id, epoch, base_offset, count, payload);
    law_fields_of_encoded(stream_id, epoch, base_offset, count, payload);
    assert((b + rest).subrange(29, 33) =~= b.subrange(29, 33));
    assert((b + rest).subrange(0, b.len() as int) =~= b);
    assert((b + rest).subrange(b.len() as int, (b + rest).len() as int) =~= rest);
}

/// Any proper prefix of an encoded batch is refused.
pub proof fn law_truncated_batch_is_refused(
    stream_id: u64,
    epoch: u64,
    base_offset: u64,
    count: i32,
    payload: Seq<u8>,
    cut: int,
)
    requires
        payload.len() <= i32::MAX,
        0 <= cut < HEADER_SIZE + payload.len(),
    ensures
        parse_error(
            encode_record(stream_id, epoch, base_offset, count, payload).subrange(0, cut),
        ) is Some,
{
    let b = encode_record(stream_id, epoch, base_offset, count, payload);
    law_fields_of_encoded(stream_id, epoch, base_offset, count, payload);
    if cut >= HEADER_SIZE {
        assert(b.subrange(0, cut).subrange(29, 33) =~= b.subrange(29, 33));
    }
}

/// What parsing accepts is a batch with the same fields.
pub proof fn lemma_parsed_is_batch(b: Seq<u8>)
    requires
        parse_error(b) is None,
    ensures
        is_batch(b.subrange(0, parsed_len(b))),
        parsed_len(b.subrange(0, parsed_len(b))) == parsed_len(b),
{
    let p = b.subrange(0, parsed_len(b));
    assert(p.subrange(29, 33) =~= b.subrange(29, 33));
}

/// The last offset of a batch that holds a plain or a link record, where nothing
/// overflows: the base offset plus the number of records.
pub proof fn law_last_offset(b: Seq<u8>)
    requires
        rec_base_offset(b) + (if rec_count(b) >= 0 { rec_count(b) as int } else { -rec_count(b) })
            <= u64::MAX,
    ensures
        rec_count(b) >= 0 ==> rec_last_offset(b) == rec_base_offset(b) + rec_count(b),
        rec_count(b) < 0 ==> rec_last_offset(b) == rec_base_offset(b) - rec_count(b),
{
}

} // verus!

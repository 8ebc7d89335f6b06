//! WAL record framing: the 24-byte header before each record body in the WAL.
use bytes::Bytes;
use vstd::prelude::*;
use vstd::slice::slice_subrange;

use crate::buffer::{bytes_as_slice, bytes_seq, bytes_slice, bytes_split_to};
use crate::codec::be::{
    be_seq, field, get_u32, get_u64, law_be_read_of_write, lemma_be_seq_len, lemma_pow256_values,
    put_be, put_slice,
};
use crate::codec::crc::{law_changed_byte_changes_crc, wal_crc, wal_crc32};
use crate::codec::error::CodecError;
use crate::codec::record::{
    encode_record, law_fields_of_encoded, law_parse_of_encoded, lemma_parsed_is_batch, parse_error,
    parsed_len, StreamRecordBatch,
};

verus! {

/// Header size: magic(4) + bodyLength(4) + bodyOffset(8) + bodyCRC(4) + headerCRC(4).
pub const WAL_RECORD_HEADER_SIZE: usize = 24;

/// Header bytes covered by the trailing header CRC.
pub const WAL_RECORD_HEADER_WITHOUT_CRC_SIZE: usize = WAL_RECORD_HEADER_SIZE - 4;

/// Magic for a data record.
pub const RECORD_DATA_MAGIC: u32 = 0x8765_4321;

/// Magic for an empty/padding record (body is filler, skip it).
pub const RECORD_EMPTY_MAGIC: u32 = 0x7654_3210;

/// The frame header preceding every WAL record body. Field order on the wire: magic,
/// body length, body offset, body CRC, header CRC.
#[derive(Debug, Clone, Copy, PartialEq, Eq, Structural)]
pub struct WalRecordHeader {
    pub magic: u32,
    /// Byte length of the record body following this header.
    pub body_length: u32,
    /// Logical WAL offset of the body: the header's logical offset plus 24.
    pub body_offset: u64,
    /// CRC of the body.
    pub body_crc: u32,
    /// CRC of the preceding 20 header bytes (computed on marshal).
    pub header_crc: u32,
}

/// The header bytes that the header CRC covers.
pub open spec fn header_prefix(h: WalRecordHeader) -> Seq<u8> {
    be_seq(h.magic as nat, 4) + be_seq(h.body_length as nat, 4) + be_seq(h.body_offset as nat, 8)
        + be_seq(h.body_crc as nat, 4)
}

/// The header on the wire: the covered bytes, then their CRC.
pub open spec fn header_bytes(h: WalRecordHeader) -> Seq<u8> {
    header_prefix(h) + be_seq(wal_crc(header_prefix(h)) as nat, 4)
}

/// The header that the first 24 bytes of `b` write.
pub open spec fn header_of(b: Seq<u8>) -> WalRecordHeader {
    WalRecordHeader {
        magic: field(b, 0, 4) as u32,
        body_length: field(b, 4, 4) as u32,
        body_offset: field(b, 8, 8) as u64,
        body_crc: field(b, 16, 4) as u32,
        header_crc: field(b, 20, 4) as u32,
    }
}

/// What a header is refused for, if it is.
pub open spec fn header_error(b: Seq<u8>) -> Option<CodecError> {
    if b.len() < WAL_RECORD_HEADER_SIZE {
        Some(CodecError::BufferTooShort { need: WAL_RECORD_HEADER_SIZE, have: b.len() as usize })
    } else if header_of(b).header_crc != wal_crc(b.subrange(0, 20)) {
        Some(
            CodecError::CrcMismatch {
                expected: header_of(b).header_crc,
                computed: wal_crc(b.subrange(0, 20)),
            },
        )
    } else if header_of(b).magic != RECORD_DATA_MAGIC && header_of(b).magic != RECORD_EMPTY_MAGIC {
        Some(
            CodecError::InvalidMagic {
                expected: RECORD_DATA_MAGIC as u64,
                actual: header_of(b).magic as u64,
            },
        )
    } else {
        None
    }
}

impl WalRecordHeader {
    /// Build a data-record header for a body at logical WAL offset `offset`.
    pub fn data(offset: u64, body_length: u32, body_crc: u32) -> (r: Self)
        requires
            offset + WAL_RECORD_HEADER_SIZE <= u64::MAX,
        ensures
            r == (WalRecordHeader {
                magic: RECORD_DATA_MAGIC,
                body_length,
                body_offset: (offset + WAL_RECORD_HEADER_SIZE) as u64,
                body_crc,
                header_crc: 0,
            }),
    {
        WalRecordHeader {
            magic: RECORD_DATA_MAGIC,
            body_length,
            body_offset: offset + WAL_RECORD_HEADER_SIZE as u64,
            body_crc,
            header_crc: 0,
        }
    }

    /// Build a padding-record header (a body of `body_length` filler bytes).
    pub fn padding(offset: u64, body_length: u32) -> (r: Self)
        requires
            offset + WAL_RECORD_HEADER_SIZE <= u64::MAX,
        ensures
            r == (WalRecordHeader {
                magic: RECORD_EMPTY_MAGIC,
                body_length,
                body_offset: (offset + WAL_RECORD_HEADER_SIZE) as u64,
                body_crc: 0,
                header_crc: 0,
            }),
    {
        WalRecordHeader {
            magic: RECORD_EMPTY_MAGIC,
            body_length,
            body_offset: offset + WAL_RECORD_HEADER_SIZE as u64,
            body_crc: 0,
            header_crc: 0,
        }
    }

    /// Serialize to 24 bytes, computing and appending the header CRC over the first 20.
    pub fn marshal(&self) -> (r: [u8; 24])
        ensures
            r@ == header_bytes(*self),
    {
        let mut head: Vec<u8> = Vec::new();
        put_be(&mut head, self.magic as u64, 4);
        put_be(&mut head, self.body_length as u64, 4);
        put_be(&mut head, self.body_offset, 8);
        put_be(&mut head, self.body_crc as u64, 4);
        assert(head@ =~= header_prefix(*self));
        let header_crc: u32 = wal_crc32(head.as_slice());
        put_be(&mut head, header_crc as u64, 4);
        proof {
            lemma_header_len(*self);
        }
        let mut out = [0u8;24];
        let mut i: usize = 0;
        while i < 24
            invariant
                i <= 24,
                head@.len() == 24,
                head@ == header_bytes(*self),
                forall|j: int| 0 <= j < i ==> out@[j] == head@[j],
            decreases 24 - i,
        {
            out[i] = head[i];
            i += 1;
        }
        assert(out@ =~= header_bytes(*self));
        out
    }

    /// Parse and validate 24 header bytes. Validating the body against its CRC is for
    /// the caller, who has the body.
    pub fn unmarshal(buf: &[u8]) -> (r: Result<Self, CodecError>)
        ensures
            match header_error(buf@) {
                Some(e) => r == Err::<Self, CodecError>(e),
                None => r == Ok::<Self, CodecError>(header_of(buf@)),
            },
    {
        let have: usize = buf.len();
        if have < WAL_RECORD_HEADER_SIZE {
            return Err(CodecError::BufferTooShort { need: WAL_RECORD_HEADER_SIZE, have });
        }
        let stored: u32 = get_u32(buf, 20);
        let computed: u32 = wal_crc32(
            slice_subrange(buf, 0, WAL_RECORD_HEADER_WITHOUT_CRC_SIZE),
        );
        if stored != computed {
            return Err(CodecError::CrcMismatch { expected: stored, computed });
        }
        let magic: u32 = get_u32(buf, 0);
        if magic != RECORD_DATA_MAGIC && magic != RECORD_EMPTY_MAGIC {
            return Err(
                CodecError::InvalidMagic {
                    expected: RECORD_DATA_MAGIC as u64,
                    actual: magic as u64,
                },
            );
        }
        Ok(
            WalRecordHeader {
                magic,
                body_length: get_u32(buf, 4),
                body_offset: get_u64(buf, 8),
                body_crc: get_u32(buf, 16),
                header_crc: stored,
            },
        )
    }

    /// True if this frames a padding record whose body should be skipped.
    pub fn is_padding(&self) -> (r: bool)
        ensures
            r <==> self.magic == RECORD_EMPTY_MAGIC,
    {
        self.magic == RECORD_EMPTY_MAGIC
    }
}

proof fn lemma_header_len(h: WalRecordHeader)
    ensures
        header_prefix(h).len() == 20,
        header_bytes(h).len() == 24,
{
    lemma_be_seq_len(h.magic as nat, 4);
    lemma_be_seq_len(h.body_length as nat, 4);
    lemma_be_seq_len(h.body_offset as nat, 8);
    lemma_be_seq_len(h.body_crc as nat, 4);
    lemma_be_seq_len(wal_crc(header_prefix(h)) as nat, 4);
}

/// The data header of a body at `offset`.
pub open spec fn data_header(offset: u64, body: Seq<u8>) -> WalRecordHeader {
    WalRecordHeader {
        magic: RECORD_DATA_MAGIC,
        body_length: (body.len() % 0x1_0000_0000) as u32,
        body_offset: (offset + WAL_RECORD_HEADER_SIZE) as u64,
        body_crc: wal_crc(body),
        header_crc: 0,
    }
}

/// A framed record: data header, then body.
pub open spec fn framed(offset: u64, body: Seq<u8>) -> Seq<u8> {
    header_bytes(data_header(offset, body)) + body
}

/// The low 32 bits of a length.
fn low32(n: usize) -> (r: u32)
    ensures
        r == (n as int) % 0x1_0000_0000,
{
    ((n as u64) % 0x1_0000_0000) as u32
}

/// Frame a record body: header + body concatenated, ready to append to a WAL object.
pub fn frame_record(offset: u64, body: &Bytes) -> (r: Vec<u8>)
    requires
        offset + WAL_RECORD_HEADER_SIZE <= u64::MAX,
    ensures
        r@ == framed(offset, bytes_seq(*body)),
{
    let s = bytes_as_slice(body);
    let header = WalRecordHeader::data(offset, low32(s.len()), wal_crc32(s));
    let mut out: Vec<u8> = Vec::new();
    let head = header.marshal();
    put_slice(&mut out, &head);
    put_slice(&mut out, s);
    assert(out@ =~= framed(offset, s@));
    out
}

/// Frame a padding record of `total_length` bytes (header + zero body).
pub fn frame_padding_record(offset: u64, total_length: usize) -> (r: Vec<u8>)
    requires
        total_length >= WAL_RECORD_HEADER_SIZE,
        offset + WAL_RECORD_HEADER_SIZE <= u64::MAX,
    ensures
        r@.len() == total_length,
        r@.subrange(0, 24) == header_bytes(
            WalRecordHeader {
                magic: RECORD_EMPTY_MAGIC,
                body_length: ((total_length - WAL_RECORD_HEADER_SIZE) % 0x1_0000_0000) as u32,
                body_offset: (offset + WAL_RECORD_HEADER_SIZE) as u64,
                body_crc: 0,
                header_crc: 0,
            },
        ),
        forall|i: int| 24 <= i < total_length ==> r@[i] == 0,
{
    let header = WalRecordHeader::padding(offset, low32(total_length - WAL_RECORD_HEADER_SIZE));
    let head = header.marshal();
    let mut out: Vec<u8> = Vec::new();
    put_slice(&mut out, &head);
    assert(out@ =~= head@);
    while out.len() < total_length
        invariant
            24 <= out@.len() <= total_length,
            out@.subrange(0, 24) == head@,
            forall|i: int| 24 <= i < out@.len() ==> out@[i] == 0,
        decreases total_length - out@.len(),
    {
        let ghost before = out@;
        out.push(0);
        assert(out@.subrange(0, 24) =~= before.subrange(0, 24));
    }
    out
}

/// The body that the frame at the front of `b` holds.
pub open spec fn frame_body(b: Seq<u8>) -> Seq<u8> {
    b.subrange(WAL_RECORD_HEADER_SIZE as int, frame_len(b))
}

/// The length of the frame at the front of `b`, header included.
pub open spec fn frame_len(b: Seq<u8>) -> int {
    WAL_RECORD_HEADER_SIZE + header_of(b).body_length
}

/// A length, at most what the machine can address.
pub open spec fn in_usize(n: int) -> usize {
    if n <= usize::MAX {
        n as usize
    } else {
        usize::MAX
    }
}

/// What decoding a frame is refused for, if it is.
pub open spec fn decode_error(b: Seq<u8>) -> Option<CodecError> {
    let h = header_of(b);
    if header_error(b) is Some {
        header_error(b)
    } else if h.magic != RECORD_DATA_MAGIC {
        Some(
            CodecError::InvalidMagic {
                expected: RECORD_DATA_MAGIC as u64,
                actual: h.magic as u64,
            },
        )
    } else if b.len() < frame_len(b) {
        Some(CodecError::BufferTooShort { need: in_usize(frame_len(b)), have: b.len() as usize })
    } else if wal_crc(frame_body(b)) != h.body_crc {
        Some(CodecError::CrcMismatch { expected: h.body_crc, computed: wal_crc(frame_body(b)) })
    } else if parse_error(frame_body(b)) is Some {
        parse_error(frame_body(b))
    } else if parsed_len(frame_body(b)) != frame_body(b).len() {
        Some(
            CodecError::BufferTooShort {
                need: h.body_length as usize,
                have: parsed_len(frame_body(b)) as usize,
            },
        )
    } else {
        None
    }
}

/// Decode the record at the front of `buf`, advancing `buf` past header and body. Fails
/// on padding records, which callers skip first. A refused buffer is left as it was.
pub fn decode_record(buf: &mut Bytes) -> (r: Result<StreamRecordBatch, CodecError>)
    ensures
        match decode_error(bytes_seq(*old(buf))) {
            Some(e) => r == Err::<StreamRecordBatch, CodecError>(e) && bytes_seq(*final(buf))
                == bytes_seq(*old(buf)),
            None => {
                let b = bytes_seq(*old(buf));
                &&& r is Ok
                &&& r->Ok_0@ == frame_body(b)
                &&& bytes_seq(*final(buf)) == b.subrange(frame_len(b), b.len() as int)
            },
        },
{
    let s = bytes_as_slice(buf);
    let have: usize = s.len();
    let header = match WalRecordHeader::unmarshal(s) {
        Ok(h) => h,
        Err(e) => {
            return Err(e);
        },
    };
    if header.magic != RECORD_DATA_MAGIC {
        return Err(
            CodecError::InvalidMagic {
                expected: RECORD_DATA_MAGIC as u64,
                actual: header.magic as u64,
            },
        );
    }
    let body_length: usize = header.body_length as usize;
    let total: usize = WAL_RECORD_HEADER_SIZE.saturating_add(body_length);
    if have < total || body_length > usize::MAX - WAL_RECORD_HEADER_SIZE {
        return Err(CodecError::BufferTooShort { need: total, have });
    }
    let mut body = bytes_slice(buf, WAL_RECORD_HEADER_SIZE, total);
    let ghost b = bytes_seq(body);
    let computed: u32 = wal_crc32(bytes_as_slice(&body));
    if computed != header.body_crc {
        return Err(CodecError::CrcMismatch { expected: header.body_crc, computed });
    }
    let record = match StreamRecordBatch::parse(&mut body) {
        Ok(record) => record,
        Err(e) => {
            return Err(e);
        },
    };
    let left: usize = bytes_as_slice(&body).len();
    if left != 0 {
        return Err(CodecError::BufferTooShort { need: body_length, have: body_length - left });
    }
    assert(b.subrange(0, parsed_len(b)) =~= b);
    let _taken = bytes_split_to(buf, total);
    Ok(record)
}

/// Round trip: the header read back is the one written, with its CRC filled in.
pub proof fn law_header_round_trip(h: WalRecordHeader)
    requires
        h.magic == RECORD_DATA_MAGIC || h.magic == RECORD_EMPTY_MAGIC,
    ensures
        header_error(header_bytes(h)) is None,
        header_of(header_bytes(h)) == (WalRecordHeader {
            header_crc: wal_crc(header_prefix(h)),
            ..h
        }),
{
    lemma_header_fields(h, Seq::empty());
    assert(header_bytes(h) + Seq::<u8>::empty() =~= header_bytes(h));
}

proof fn lemma_header_fields(h: WalRecordHeader, rest: Seq<u8>)
    ensures
        header_of(header_bytes(h) + rest) == (WalRecordHeader {
            header_crc: wal_crc(header_prefix(h)),
            ..h
        }),
        (header_bytes(h) + rest).subrange(0, 20) == header_prefix(h),
        (header_bytes(h) + rest).len() == 24 + rest.len(),
{
    let b = header_bytes(h) + rest;
    let c = wal_crc(header_prefix(h));
    lemma_pow256_values();
    lemma_header_len(h);
    lemma_be_seq_len(h.magic as nat, 4);
    lemma_be_seq_len(h.body_length as nat, 4);
    lemma_be_seq_len(h.body_offset as nat, 8);
    lemma_be_seq_len(h.body_crc as nat, 4);
    law_be_read_of_write(h.magic as nat, 4);
    law_be_read_of_write(h.body_length as nat, 4);
    law_be_read_of_write(h.body_offset as nat, 8);
    law_be_read_of_write(h.body_crc as nat, 4);
    law_be_read_of_write(c as nat, 4);
    assert(b.subrange(0, 4) =~= be_seq(h.magic as nat, 4));
    assert(b.subrange(4, 8) =~= be_seq(h.body_length as nat, 4));
    assert(b.subrange(8, 16) =~= be_seq(h.body_offset as nat, 8));
    assert(b.subrange(16, 20) =~= be_seq(h.body_crc as nat, 4));
    assert(b.subrange(20, 24) =~= be_seq(c as nat, 4));
    assert(b.subrange(0, 20) =~= header_prefix(h));
}

/// A header whose stored CRC was changed, and nothing else, is refused.
pub proof fn law_corrupt_header_crc_is_refused(h: WalRecordHeader, crc: Seq<u8>)
    requires
        crc.len() == 4,
        crc != be_seq(wal_crc(header_prefix(h)) as nat, 4),
    ensures
        header_error(header_prefix(h) + crc) matches Some(CodecError::CrcMismatch { .. }),
{
    lemma_header_len(h);
    let b = header_prefix(h) + crc;
    assert(b.subrange(0, 20) =~= header_prefix(h));
    assert(b.subrange(20, 24) =~= crc);
    crate::codec::be::law_be_write_of_read(crc);
    crate::codec::be::lemma_be_nat_bound(crc);
    lemma_pow256_values();
}

/// A header with any one byte changed is refused.
pub proof fn law_corrupt_header_is_refused(h: WalRecordHeader, pos: int, value: u8)
    requires
        0 <= pos < WAL_RECORD_HEADER_SIZE,
        value != header_bytes(h)[pos],
    ensures
        header_error(header_bytes(h).update(pos, value)) matches Some(
            CodecError::CrcMismatch { .. },
        ),
{
    lemma_header_fields(h, Seq::empty());
    let a = header_bytes(h);
    assert(a + Seq::<u8>::empty() =~= a);
    let b = a.update(pos, value);
    let prefix = header_prefix(h);
    if pos < 20 {
        let changed = b.subrange(0, 20);
        assert(changed[pos] == value && prefix[pos] == a[pos]);
        assert forall|i: int| 0 <= i < 20 && i != pos implies #[trigger] prefix[i]
            == changed[i] by {
            assert(a[i] == b[i]);
        }
        law_changed_byte_changes_crc(prefix, changed, pos);
        assert(b.subrange(20, 24) =~= a.subrange(20, 24));
    } else {
        let crc = b.subrange(20, 24);
        assert(b.subrange(0, 20) =~= prefix);
        assert(b =~= prefix + crc);
        let stored = be_seq(wal_crc(prefix) as nat, 4);
        assert(a.subrange(20, 24) =~= stored) by {
            lemma_header_len(h);
        }
        assert(crc[pos - 20] == value && stored[pos - 20] == a[pos]);
        law_corrupt_header_crc_is_refused(h, crc);
    }
}

/// Round trip: decoding a framed batch gives the batch and leaves what follows.
pub proof fn law_frame_round_trip(
    offset: u64,
    stream_id: u64,
    epoch: u64,
    base_offset: u64,
    count: i32,
    payload: Seq<u8>,
    rest: Seq<u8>,
)
    requires
        payload.len() <= i32::MAX,
        offset + WAL_RECORD_HEADER_SIZE <= u64::MAX,
    ensures
        ({
            let body = encode_record(stream_id, epoch, base_offset, count, payload);
            let b = framed(offset, body) + rest;
            &&& decode_error(b) is None
            &&& frame_body(b) == body
            &&& b.subrange(frame_len(b), b.len() as int) == rest
        }),
{
    let body = encode_record(stream_id, epoch, base_offset, count, payload);
    let b = framed(offset, body) + rest;
    let h = data_header(offset, body);
    law_fields_of_encoded(stream_id, epoch, base_offset, count, payload);
    law_parse_of_encoded(stream_id, epoch, base_offset, count, payload, Seq::empty());
    assert(body + Seq::<u8>::empty() =~= body);
    lemma_header_fields(h, body + rest);
    assert(b =~= header_bytes(h) + (body + rest));
    assert(frame_body(b) =~= body);
    assert(b.subrange(frame_len(b), b.len() as int) =~= rest);
}

/// A padding record is never decoded as data.
pub proof fn law_padding_is_not_decoded(b: Seq<u8>)
    requires
        b.len() >= WAL_RECORD_HEADER_SIZE,
        header_of(b).magic == RECORD_EMPTY_MAGIC,
    ensures
        decode_error(b) is Some,
{
}

/// What decoding accepts is a whole batch.
pub proof fn law_decoded_is_batch(b: Seq<u8>)
    requires
        decode_error(b) is None,
    ensures
        crate::codec::record::is_batch(frame_body(b)),
        frame_body(b).len() == parsed_len(frame_body(b)),
{
    lemma_parsed_is_batch(frame_body(b));
    assert(frame_body(b).subrange(0, parsed_len(frame_body(b))) =~= frame_body(b));
}

} // verus!

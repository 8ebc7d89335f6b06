//! The wire formats: record batches, WAL frames, and the CRC.
use bytes::Bytes;
use s3stream::codec::{
    decode_record, frame_padding_record, frame_record, wal_crc32, CodecError, StreamRecordBatch,
    WalRecordHeader, BASE_OFFSET_POS, EPOCH_POS, HEADER_SIZE, LAST_OFFSET_DELTA_POS,
    PAYLOAD_LENGTH_POS, PAYLOAD_POS, RECORD_DATA_MAGIC, RECORD_EMPTY_MAGIC, STREAM_ID_POS,
    WAL_RECORD_HEADER_SIZE, WAL_RECORD_HEADER_WITHOUT_CRC_SIZE,
};

#[test]
fn header_layout_matches_java() {
    assert_eq!(HEADER_SIZE, 33);
    assert_eq!(STREAM_ID_POS, 1);
    assert_eq!(EPOCH_POS, 9);
    assert_eq!(BASE_OFFSET_POS, 17);
    assert_eq!(LAST_OFFSET_DELTA_POS, 25);
    assert_eq!(PAYLOAD_LENGTH_POS, 29);
    assert_eq!(PAYLOAD_POS, 33);
}

/// The 31-bit mask is part of the wire format: the raw check value has the top bit
/// set, the masked one must not.
#[test]
fn mask_applied() {
    assert_eq!(crc32fast::hash(b"123456789"), 0xCBF4_3926);
    assert_eq!(wal_crc32(b"123456789"), 0x4BF4_3926);
}

#[test]
fn crc_of_nothing_is_zero() {
    assert_eq!(wal_crc32(&[]), 0);
}

/// Round trip: build, read back, parse the encoding.
#[test]
fn round_trip() {
    let payload = Bytes::from_static(b"hello stream");
    let batch = StreamRecordBatch::new(42, 7, 1000, 3, payload.clone());
    assert_eq!(batch.stream_id(), 42);
    assert_eq!(batch.epoch(), 7);
    assert_eq!(batch.base_offset(), 1000);
    assert_eq!(batch.count(), 3);
    assert_eq!(batch.last_offset(), 1003);
    assert_eq!(batch.payload(), payload);

    let mut buf = batch.encoded();
    let reparsed = StreamRecordBatch::parse(&mut buf).unwrap();
    assert_eq!(reparsed, batch);
    assert!(buf.is_empty());
}

/// Link records: negative count, last offset is base offset minus count.
#[test]
fn link_record_last_offset() {
    let batch = StreamRecordBatch::new(1, 1, 500, -5, Bytes::new());
    assert_eq!(batch.last_offset(), 505);
}

#[test]
fn parse_rejects_bad_magic() {
    let mut buf = Bytes::from_static(&[0xFFu8; 64]);
    assert!(StreamRecordBatch::parse(&mut buf).is_err());
}

#[test]
fn bad_magic_names_both_bytes() {
    let mut buf = Bytes::from_static(&[0xFFu8; 64]);
    assert_eq!(
        StreamRecordBatch::parse(&mut buf),
        Err(CodecError::InvalidMagic { expected: 0x22, actual: 0xFF })
    );
}

/// Parse of a truncated buffer must fail, not panic.
#[test]
fn parse_rejects_truncated() {
    let batch = StreamRecordBatch::new(1, 1, 0, 1, Bytes::from_static(b"0123456789"));
    let encoded = batch.encoded();
    for cut in [0, 1, HEADER_SIZE - 1, HEADER_SIZE, encoded.len() - 1] {
        let mut buf = encoded.slice(..cut);
        assert!(StreamRecordBatch::parse(&mut buf).is_err(), "cut at {cut}");
    }
}

#[test]
fn truncation_names_what_is_missing() {
    let batch = StreamRecordBatch::new(1, 1, 0, 1, Bytes::from_static(b"0123456789"));
    let mut buf = batch.encoded().slice(..40);
    assert_eq!(
        StreamRecordBatch::parse(&mut buf),
        Err(CodecError::BufferTooShort { need: 43, have: 40 })
    );
}

/// Parsing is zero-copy: the payload slice points into the input buffer.
#[test]
fn parse_is_zero_copy() {
    let batch = StreamRecordBatch::new(9, 9, 9, 1, Bytes::from(vec![7u8; 256]));
    let original = batch.encoded();
    let range = original.as_ptr() as usize..original.as_ptr() as usize + original.len();
    let mut buf = original.clone();
    let parsed = StreamRecordBatch::parse(&mut buf).unwrap();
    let payload = parsed.payload();
    assert!(
        range.contains(&(payload.as_ptr() as usize)),
        "payload was copied"
    );
}

/// The exact bytes of a small batch, and what follows it in the buffer.
#[test]
fn batch_bytes_are_exact() {
    let batch = StreamRecordBatch::new(1, 2, 3, 4, Bytes::from_static(b"ab"));
    let expected: Vec<u8> = vec![
        0x22, 0, 0, 0, 0, 0, 0, 0, 1, 0, 0, 0, 0, 0, 0, 0, 2, 0, 0, 0, 0, 0, 0, 0, 3, 0, 0, 0, 4, 0,
        0, 0, 2, b'a', b'b',
    ];
    assert_eq!(batch.encoded(), Bytes::from(expected.clone()));
    assert_eq!(batch.size(), 2);
    assert_eq!(batch.occupied_size(), 2 + 48);

    let mut two = expected;
    two.push(9);
    let mut buf = Bytes::from(two);
    assert_eq!(StreamRecordBatch::parse(&mut buf).unwrap(), batch);
    assert_eq!(buf, Bytes::from_static(&[9]));
}

/// The extremes of each field survive the wire.
#[test]
fn extreme_fields_round_trip() {
    for count in [i32::MIN, -1, 0, 1, i32::MAX] {
        let batch = StreamRecordBatch::new(
            u64::MAX,
            u64::MAX,
            i64::MAX as u64,
            count,
            Bytes::from(vec![1u8; 1023]),
        );
        let mut buf = batch.encoded();
        let parsed = StreamRecordBatch::parse(&mut buf).unwrap();
        assert!(buf.is_empty());
        assert_eq!(parsed.stream_id(), u64::MAX);
        assert_eq!(parsed.epoch(), u64::MAX);
        assert_eq!(parsed.base_offset(), i64::MAX as u64);
        assert_eq!(parsed.count(), count);
        assert_eq!(parsed.payload(), Bytes::from(vec![1u8; 1023]));
    }
}

#[test]
fn header_size_matches_java() {
    assert_eq!(WAL_RECORD_HEADER_SIZE, 24);
    assert_eq!(WAL_RECORD_HEADER_WITHOUT_CRC_SIZE, 20);
}

#[test]
fn header_round_trip() {
    let h = WalRecordHeader::data(4096, 128, 0x5EAD_BEEF);
    let bytes = h.marshal();
    let parsed = WalRecordHeader::unmarshal(&bytes).unwrap();
    assert_eq!(parsed.body_offset, 4096 + WAL_RECORD_HEADER_SIZE as u64);
    assert_eq!(parsed.body_length, 128);
    assert_eq!(parsed.body_crc, 0x5EAD_BEEF);
    assert!(!parsed.is_padding());
}

/// A flipped bit in the header must fail the header CRC.
#[test]
fn corrupt_header_fails_crc() {
    let h = WalRecordHeader::data(0, 10, 0);
    let mut bytes = h.marshal();
    bytes[5] ^= 0x01;
    assert!(WalRecordHeader::unmarshal(&bytes).is_err());
}

/// Every single-byte change of the header is noticed.
#[test]
fn header_corruption_is_rejected_everywhere() {
    let bytes = WalRecordHeader::data(77, 4096, 0x1234_5678).marshal();
    for pos in 0..WAL_RECORD_HEADER_SIZE {
        for flip in [1u8, 0x10, 0x80, 0xFF] {
            let mut corrupted = bytes;
            corrupted[pos] ^= flip;
            assert!(WalRecordHeader::unmarshal(&corrupted).is_err(), "{pos} {flip}");
        }
    }
}

#[test]
fn header_errors_are_told_apart() {
    let bytes = WalRecordHeader::data(0, 10, 0).marshal();
    assert_eq!(
        WalRecordHeader::unmarshal(&bytes[..23]),
        Err(CodecError::BufferTooShort { need: 24, have: 23 })
    );
    // A header of another kind, sound in itself.
    let mut other = WalRecordHeader::data(0, 10, 0);
    other.magic = 7;
    let mut other = other.marshal();
    let crc = wal_crc32(&other[..20]);
    other[20..].copy_from_slice(&crc.to_be_bytes());
    assert_eq!(
        WalRecordHeader::unmarshal(&other),
        Err(CodecError::InvalidMagic {
            expected: RECORD_DATA_MAGIC as u64,
            actual: 7
        })
    );
    let mut flipped = bytes;
    flipped[8] ^= 1;
    assert!(matches!(
        WalRecordHeader::unmarshal(&flipped),
        Err(CodecError::CrcMismatch { .. })
    ));
}

#[test]
fn frame_decode_round_trip() {
    let record = StreamRecordBatch::new(3, 1, 77, 2, Bytes::from_static(b"body"));
    let framed = frame_record(512, &record.encoded());
    let mut buf = Bytes::from(framed);
    let decoded = decode_record(&mut buf).unwrap();
    assert!(buf.is_empty());
    assert_eq!(decoded, record);
}

#[test]
fn frame_carries_the_crc_of_its_body() {
    let body = Bytes::from_static(b"123456789");
    let framed = frame_record(100, &body);
    assert_eq!(framed.len(), 24 + 9);
    let header = WalRecordHeader::unmarshal(&framed).unwrap();
    assert_eq!(header.magic, RECORD_DATA_MAGIC);
    assert_eq!(header.body_length, 9);
    assert_eq!(header.body_offset, 124);
    assert_eq!(header.body_crc, 0x4BF4_3926);
    assert_eq!(&framed[24..], b"123456789");
}

#[test]
fn corrupt_body_is_refused() {
    let record = StreamRecordBatch::new(3, 1, 77, 2, Bytes::from_static(b"body"));
    let mut framed = frame_record(512, &record.encoded());
    let last = framed.len() - 1;
    framed[last] ^= 1;
    let mut buf = Bytes::from(framed);
    assert!(matches!(
        decode_record(&mut buf),
        Err(CodecError::CrcMismatch { .. })
    ));
}

#[test]
fn padding_frame_is_not_decoded() {
    let framed = frame_padding_record(64, 40);
    assert_eq!(framed.len(), 40);
    let header = WalRecordHeader::unmarshal(&framed).unwrap();
    assert!(header.is_padding());
    assert_eq!(header.magic, RECORD_EMPTY_MAGIC);
    assert_eq!(header.body_length, 16);
    assert!(framed[24..].iter().all(|b| *b == 0));
    assert!(decode_record(&mut Bytes::from(framed)).is_err());
}

/// Any one changed byte of a header is noticed, whatever it is changed to.
#[test]
fn every_changed_header_byte_is_refused() {
    let header = WalRecordHeader::data(7, 123, 0x1234_5678).marshal();
    assert!(WalRecordHeader::unmarshal(&header).is_ok());
    for pos in 0..header.len() {
        for flip in 1..=255u8 {
            let mut changed = header.to_vec();
            changed[pos] ^= flip;
            assert!(WalRecordHeader::unmarshal(&changed).is_err());
        }
    }
}

/// Known checksums, with the top bit cleared.
#[test]
fn known_checksums() {
    assert_eq!(wal_crc32(b""), 0);
    assert_eq!(wal_crc32(b"a"), 0x68b7_be43);
    assert_eq!(wal_crc32(b"abc"), 0x3524_41c2);
}

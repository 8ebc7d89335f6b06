//! The two innermost wire formats, the stream record batch and the WAL record frame,
//! and the CRC that the frame uses. Integers are big-endian throughout.
pub mod be;
pub mod crc;
pub mod error;
pub mod layout;
pub mod record;
pub mod wal_record;

pub use crc::wal_crc32;
pub use error::CodecError;
pub use layout::{
    BASE_OFFSET_POS, EPOCH_POS, HEADER_SIZE, LAST_OFFSET_DELTA_POS, MAGIC_POS, MAGIC_V0,
    PAYLOAD_LENGTH_POS, PAYLOAD_POS, STREAM_ID_POS,
};
pub use record::StreamRecordBatch;
pub use wal_record::{
    decode_record, frame_padding_record, frame_record, WalRecordHeader, RECORD_DATA_MAGIC,
    RECORD_EMPTY_MAGIC, WAL_RECORD_HEADER_SIZE, WAL_RECORD_HEADER_WITHOUT_CRC_SIZE,
};

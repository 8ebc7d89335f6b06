//! Byte layout of the encoded `StreamRecordBatch`.
use vstd::prelude::*;

verus! {

/// Magic byte for the v0 record batch encoding.
pub const MAGIC_V0: u8 = 0x22;

/// Position of each header field within the encoded buffer.
pub const MAGIC_POS: usize = 0;
pub const STREAM_ID_POS: usize = 1;
pub const EPOCH_POS: usize = STREAM_ID_POS + 8;
pub const BASE_OFFSET_POS: usize = EPOCH_POS + 8;
pub const LAST_OFFSET_DELTA_POS: usize = BASE_OFFSET_POS + 8;
pub const PAYLOAD_LENGTH_POS: usize = LAST_OFFSET_DELTA_POS + 4;
pub const PAYLOAD_POS: usize = PAYLOAD_LENGTH_POS + 4;

/// Total header size: magic(1) + streamId(8) + epoch(8) + baseOffset(8)
/// + lastOffsetDelta(4) + payloadLength(4).
pub const HEADER_SIZE: usize = PAYLOAD_POS;

} // verus!

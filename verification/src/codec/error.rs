//! Errors of the wire formats.
use vstd::prelude::*;

verus! {

/// Errors produced while decoding wire formats.
#[derive(Debug, Clone, Copy, PartialEq, Eq, Structural)]
#[allow(inconsistent_fields)]
pub enum CodecError {
    /// The magic number is not the one of the format.
    InvalidMagic { expected: u64, actual: u64 },
    /// Fewer bytes than the format needs.
    BufferTooShort { need: usize, have: usize },
    /// The stored CRC is not the CRC of the bytes.
    CrcMismatch { expected: u32, computed: u32 },
}

} // verus!

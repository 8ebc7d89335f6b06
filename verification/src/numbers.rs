//! Numbers read as signed ones.
use vstd::prelude::*;

verus! {

/// A 64-bit number as a signed one, in two's complement.
pub open spec fn signed(n: u64) -> int {
    if n <= i64::MAX {
        n as int
    } else {
        n - 0x1_0000_0000_0000_0000
    }
}

pub fn as_signed(n: u64) -> (r: i64)
    ensures
        r == signed(n),
{
    if n <= i64::MAX as u64 {
        n as i64
    } else {
        -1 - ((u64::MAX - n) as i64)
    }
}

/// A 32-bit number as a signed one, in two's complement.
pub open spec fn signed32(n: u32) -> int {
    if n <= i32::MAX {
        n as int
    } else {
        n - 0x1_0000_0000
    }
}

pub fn as_signed32(n: u32) -> (r: i32)
    ensures
        r == signed32(n),
{
    if n <= i32::MAX as u32 {
        n as i32
    } else {
        -1 - ((u32::MAX - n) as i32)
    }
}

/// A number read as a signed one differs from it by a multiple of 2^64, or of 2^32, and half of
/// the numbers are negative.
pub proof fn law_signed_numbers_wrap(n: u64, k: u32)
    ensures
        i64::MIN <= signed(n) <= i64::MAX,
        signed(n) == n || signed(n) + 0x1_0000_0000_0000_0000 == n,
        i32::MIN <= signed32(k) <= i32::MAX,
        signed32(k) == k || signed32(k) + 0x1_0000_0000 == k,
{
}

} // verus!

//! CRC used by the WAL record framing.
//!
//! CRC-32/ISO-HDLC with the result masked to 31 bits. The check value for `"123456789"`
//! is `0x4BF43926`: the standard `0xCBF43926` with the top bit cleared.
use vstd::prelude::*;

verus! {

/// One bit of the division by the reflected CRC-32 polynomial.
pub open spec fn crc_bit(x: u32) -> u32 {
    if x & 1 == 1 {
        (x >> 1) ^ 0xedb8_8320
    } else {
        x >> 1
    }
}

/// Eight bits of the division.
pub open spec fn crc_eight(x: u32) -> u32 {
    crc_bit(crc_bit(crc_bit(crc_bit(crc_bit(crc_bit(crc_bit(crc_bit(x))))))))
}

/// The remainder after a byte string.
pub open spec fn crc_state(data: Seq<u8>) -> u32
    decreases data.len(),
{
    if data.len() == 0 {
        0xffff_ffff
    } else {
        crc_eight(crc_state(data.drop_last()) ^ (data.last() as u32))
    }
}

/// The CRC-32/ISO-HDLC of a byte string.
pub open spec fn crc32_of(data: Seq<u8>) -> u32 {
    crc_state(data) ^ 0xffff_ffff
}

/// `crc32fast::hash`: the CRC-32 (IEEE) checksum of the bytes, which is CRC-32/ISO-HDLC.
#[verifier::external_body]
fn crc32_hash(data: &[u8]) -> (r: u32)
    ensures
        r == crc32_of(data@),
{
    crc32fast::hash(data)
}

/// The WAL CRC of a byte string: the low 31 bits of its CRC-32.
pub open spec fn wal_crc(data: Seq<u8>) -> u32 {
    mask31(crc32_of(data))
}

/// The low 31 bits of a number.
pub open spec fn mask31(x: u32) -> u32 {
    (x % 0x8000_0000) as u32
}

/// Clears the top bit.
pub fn clear_top_bit(x: u32) -> (r: u32)
    ensures
        r == mask31(x),
{
    assert(x & 0x7FFF_FFFF == x % 0x8000_0000) by (bit_vector);
    x & 0x7FFF_FFFF
}

/// Compute the WAL CRC over `data` (CRC-32/ISO-HDLC masked to 31 bits).
pub fn wal_crc32(data: &[u8]) -> (r: u32)
    ensures
        r == wal_crc(data@),
        r < 0x8000_0000,
{
    clear_top_bit(crc32_hash(data))
}

proof fn lemma_bit(x: u32, y: u32)
    ensures
        crc_bit(x ^ y) == crc_bit(x) ^ crc_bit(y),
        crc_bit(x) == crc_bit(y) ==> x == y,
{
    assert(crc_bit(x ^ y) == crc_bit(x) ^ crc_bit(y)) by (bit_vector);
    assert(crc_bit(x) == crc_bit(y) ==> x == y) by (bit_vector);
}

/// Division is linear, and loses nothing.
proof fn lemma_eight(x: u32, y: u32)
    ensures
        crc_eight(x ^ y) == crc_eight(x) ^ crc_eight(y),
        crc_eight(x) == crc_eight(y) ==> x == y,
{
    let (x1, y1) = (crc_bit(x), crc_bit(y));
    let (x2, y2) = (crc_bit(x1), crc_bit(y1));
    let (x3, y3) = (crc_bit(x2), crc_bit(y2));
    let (x4, y4) = (crc_bit(x3), crc_bit(y3));
    let (x5, y5) = (crc_bit(x4), crc_bit(y4));
    let (x6, y6) = (crc_bit(x5), crc_bit(y5));
    let (x7, y7) = (crc_bit(x6), crc_bit(y6));
    lemma_bit(x, y);
    lemma_bit(x1, y1);
    lemma_bit(x2, y2);
    lemma_bit(x3, y3);
    lemma_bit(x4, y4);
    lemma_bit(x5, y5);
    lemma_bit(x6, y6);
    lemma_bit(x7, y7);
}

/// What a difference between two remainders becomes after some more bytes.
spec fn carried(e: u32, k: nat) -> u32
    decreases k,
{
    if k == 0 {
        e
    } else {
        crc_eight(carried(e, (k - 1) as nat))
    }
}

proof fn lemma_carried(e: u32, f: u32, k: nat)
    ensures
        carried(e, k) == carried(f, k) ==> e == f,
        k > 0 ==> carried(e, k) == carried(crc_eight(e), (k - 1) as nat),
    decreases k,
{
    if k > 0 {
        lemma_carried(e, f, (k - 1) as nat);
        lemma_eight(carried(e, (k - 1) as nat), carried(f, (k - 1) as nat));
    }
}

/// Byte strings that differ in one byte alone.
pub open spec fn differ_at(a: Seq<u8>, b: Seq<u8>, p: int) -> bool {
    &&& a.len() == b.len()
    &&& 0 <= p < a.len()
    &&& a[p] != b[p]
    &&& forall|i: int| 0 <= i < a.len() && i != p ==> #[trigger] a[i] == b[i]
}

proof fn lemma_state_difference(a: Seq<u8>, b: Seq<u8>, p: int)
    requires
        differ_at(a, b, p),
    ensures
        crc_state(a) ^ crc_state(b) == carried((a[p] as u32) ^ (b[p] as u32), (a.len() - p) as nat),
    decreases a.len(),
{
    let n = a.len() - 1;
    let (fa, fb) = (a.drop_last(), b.drop_last());
    let (sa, sb) = (crc_state(fa), crc_state(fb));
    let (la, lb) = (a.last() as u32, b.last() as u32);
    lemma_eight(sa ^ la, sb ^ lb);
    assert((sa ^ la) ^ (sb ^ lb) == (sa ^ sb) ^ (la ^ lb)) by (bit_vector);
    if p == n {
        assert forall|i: int| 0 <= i < fa.len() implies fa[i] == fb[i] by {
            assert(a[i] == b[i]);
        }
        assert(fa =~= fb);
        assert((sa ^ sa) ^ (la ^ lb) == la ^ lb) by (bit_vector);
        assert(carried(la ^ lb, 1) == crc_eight(carried(la ^ lb, 0)));
    } else {
        assert(a[n] == b[n]);
        assert forall|i: int| 0 <= i < fa.len() && i != p implies #[trigger] fa[i] == fb[i] by {
            assert(a[i] == b[i]);
        }
        assert(fa[p] == a[p] && fb[p] == b[p]);
        lemma_state_difference(fa, fb, p);
        assert((sa ^ sb) ^ (la ^ la) == sa ^ sb) by (bit_vector);
    }
}

/// The remainder difference that some more bytes turn into the top bit alone.
spec fn origin(k: int) -> u32 {
    if k <= 0 {
        0x8000_0000
    } else if k == 1 {
        0x6567_cb95
    } else if k == 2 {
        0xd712_5358
    } else if k == 3 {
        0x1f81_b6e1
    } else if k == 4 {
        0x5b35_8fd3
    } else if k == 5 {
        0xeb21_cebf
    } else if k == 6 {
        0x2ff8_80c5
    } else if k == 7 {
        0x97fc_423c
    } else if k == 8 {
        0x2e9b_b40b
    } else if k == 9 {
        0x2fb9_8a7d
    } else if k == 10 {
        0xd6f6_fa3c
    } else if k == 11 {
        0x2059_d4a0
    } else if k == 12 {
        0x3651_1375
    } else if k == 13 {
        0x5259_83aa
    } else if k == 14 {
        0x3161_9cb3
    } else if k == 15 {
        0x0f12_5cae
    } else if k == 16 {
        0x12a5_9a49
    } else if k == 17 {
        0x1273_1959
    } else if k == 18 {
        0xc4f0_0959
    } else if k == 19 {
        0x9143_e1f9
    } else {
        0x278d_6e4e
    }
}

proof fn lemma_origins()
    by (bit_vector)
    ensures
        crc_eight(0x6567_cb95u32) == 0x8000_0000u32,
        crc_eight(0xd712_5358u32) == 0x6567_cb95u32,
        crc_eight(0x1f81_b6e1u32) == 0xd712_5358u32,
        crc_eight(0x5b35_8fd3u32) == 0x1f81_b6e1u32,
        crc_eight(0xeb21_cebfu32) == 0x5b35_8fd3u32,
        crc_eight(0x2ff8_80c5u32) == 0xeb21_cebfu32,
        crc_eight(0x97fc_423cu32) == 0x2ff8_80c5u32,
        crc_eight(0x2e9b_b40bu32) == 0x97fc_423cu32,
        crc_eight(0x2fb9_8a7du32) == 0x2e9b_b40bu32,
        crc_eight(0xd6f6_fa3cu32) == 0x2fb9_8a7du32,
        crc_eight(0x2059_d4a0u32) == 0xd6f6_fa3cu32,
        crc_eight(0x3651_1375u32) == 0x2059_d4a0u32,
        crc_eight(0x5259_83aau32) == 0x3651_1375u32,
        crc_eight(0x3161_9cb3u32) == 0x5259_83aau32,
        crc_eight(0x0f12_5caeu32) == 0x3161_9cb3u32,
        crc_eight(0x12a5_9a49u32) == 0x0f12_5caeu32,
        crc_eight(0x1273_1959u32) == 0x12a5_9a49u32,
        crc_eight(0xc4f0_0959u32) == 0x1273_1959u32,
        crc_eight(0x9143_e1f9u32) == 0xc4f0_0959u32,
        crc_eight(0x278d_6e4eu32) == 0x9143_e1f9u32,
{
}

proof fn lemma_origin(k: nat)
    requires
        k <= 20,
    ensures
        carried(origin(k as int), k) == 0x8000_0000,
        origin(k as int) > 0xff,
    decreases k,
{
    if k > 0 {
        lemma_origins();
        lemma_origin((k - 1) as nat);
        lemma_carried(origin(k as int), 0, k);
        assert(crc_eight(origin(k as int)) == origin(k - 1));
    }
}

/// A change of one byte changes the WAL CRC of a byte string that is no longer than a header.
pub proof fn law_changed_byte_changes_crc(a: Seq<u8>, b: Seq<u8>, p: int)
    requires
        differ_at(a, b, p),
        a.len() <= 20,
    ensures
        wal_crc(a) != wal_crc(b),
{
    let k = (a.len() - p) as nat;
    let (x, y) = (a[p], b[p]);
    let e = (x as u32) ^ (y as u32);
    assert(x != y ==> 1 <= ((x as u32) ^ (y as u32)) <= 0xff) by (bit_vector);
    lemma_state_difference(a, b, p);
    lemma_origin(k);
    lemma_carried(e, origin(k as int), k);
    lemma_carried(e, 0, k);
    lemma_carried_zero(k);
    let (s, t) = (crc_state(a), crc_state(b));
    assert((s ^ 0xffff_ffff) % 0x8000_0000 == (t ^ 0xffff_ffff) % 0x8000_0000 ==> s ^ t == 0 || s ^ t
        == 0x8000_0000) by (bit_vector);
}

proof fn lemma_carried_zero(k: nat)
    ensures
        carried(0, k) == 0,
    decreases k,
{
    assert(crc_eight(0u32) == 0u32) by (bit_vector);
    if k > 0 {
        lemma_carried_zero((k - 1) as nat);
    }
}

} // verus!

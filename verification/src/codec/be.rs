//! Big-endian integers.
use vstd::prelude::*;

verus! {

/// The number that a big-endian byte string writes.
pub open spec fn be_nat(s: Seq<u8>) -> nat
    decreases s.len(),
{
    if s.len() == 0 {
        0
    } else {
        be_nat(s.drop_last()) * 256 + s.last() as nat
    }
}

/// The last `n` big-endian digits of `x`, as `n` bytes.
pub open spec fn be_seq(x: nat, n: nat) -> Seq<u8>
    decreases n,
{
    if n == 0 {
        Seq::empty()
    } else {
        be_seq(x / 256, (n - 1) as nat).push((x % 256) as u8)
    }
}

/// 256 to the power `n`.
pub open spec fn pow256(n: nat) -> nat
    decreases n,
{
    if n == 0 {
        1
    } else {
        256 * pow256((n - 1) as nat)
    }
}

/// The number that the `n` bytes of `s` at `pos` write.
pub open spec fn field(s: Seq<u8>, pos: int, n: int) -> nat {
    be_nat(s.subrange(pos, pos + n))
}

/// A 32-bit pattern read as a signed number.
pub open spec fn as_i32(x: nat) -> int {
    if x < 0x8000_0000 {
        x as int
    } else {
        x - 0x1_0000_0000
    }
}

/// The 32-bit pattern of a signed number.
pub open spec fn i32_pattern(x: i32) -> nat {
    if x >= 0 {
        x as nat
    } else {
        (x + 0x1_0000_0000) as nat
    }
}

pub proof fn lemma_pow256_values()
    ensures
        pow256(0) == 1,
        pow256(1) == 0x100,
        pow256(2) == 0x1_0000,
        pow256(4) == 0x1_0000_0000,
        pow256(8) == 0x1_0000_0000_0000_0000,
{
    reveal_with_fuel(pow256, 9);
}

pub proof fn lemma_be_seq_len(x: nat, n: nat)
    ensures
        be_seq(x, n).len() == n,
    decreases n,
{
    if n > 0 {
        lemma_be_seq_len(x / 256, (n - 1) as nat);
    }
}

pub proof fn lemma_be_nat_bound(s: Seq<u8>)
    ensures
        be_nat(s) < pow256(s.len()),
    decreases s.len(),
{
    if s.len() > 0 {
        lemma_be_nat_bound(s.drop_last());
    }
}

/// Reading what was written gives back the number.
pub proof fn law_be_read_of_write(x: nat, n: nat)
    requires
        x < pow256(n),
    ensures
        be_nat(be_seq(x, n)) == x,
    decreases n,
{
    lemma_be_seq_len(x, n);
    if n > 0 {
        assert(x / 256 < pow256((n - 1) as nat)) by (nonlinear_arith)
            requires
                x < 256 * pow256((n - 1) as nat),
        ;
        law_be_read_of_write(x / 256, (n - 1) as nat);
        lemma_be_seq_len(x / 256, (n - 1) as nat);
        assert(be_seq(x, n).drop_last() =~= be_seq(x / 256, (n - 1) as nat));
    }
}

/// Writing what was read gives back the bytes.
pub proof fn law_be_write_of_read(s: Seq<u8>)
    ensures
        be_seq(be_nat(s), s.len()) == s,
    decreases s.len(),
{
    if s.len() > 0 {
        law_be_write_of_read(s.drop_last());
        let hi = be_nat(s.drop_last());
        assert((hi * 256 + s.last() as nat) / 256 == hi);
        assert(be_seq(be_nat(s), s.len()) =~= s);
    } else {
        assert(be_seq(be_nat(s), s.len()) =~= s);
    }
}

/// Appends the last `n` big-endian digits of `x`.
pub fn put_be(buf: &mut Vec<u8>, x: u64, n: usize)
    ensures
        final(buf)@ == old(buf)@ + be_seq(x as nat, n as nat),
    decreases n,
{
    if n > 0 {
        put_be(buf, x / 256, n - 1);
        buf.push((x % 256) as u8);
    }
}

/// Appends the bytes of a slice.
pub fn put_slice(buf: &mut Vec<u8>, s: &[u8])
    ensures
        final(buf)@ == old(buf)@ + s@,
{
    buf.extend_from_slice(s);
    assert(buf@ =~= old(buf)@ + s@);
}

/// Reads `n` bytes at `pos` as an unsigned number.
pub fn get_be(s: &[u8], pos: usize, n: usize) -> (r: u64)
    requires
        n <= 8,
        pos + n <= s@.len(),
    ensures
        r == field(s@, pos as int, n as int),
        r < pow256(n as nat),
{
    let total: usize = s.len();
    let mut acc: u64 = 0;
    let mut i: usize = 0;
    while i < n
        invariant
            i <= n <= 8,
            pos + n <= total,
            total == s@.len(),
            acc == field(s@, pos as int, i as int),
        decreases n - i,
    {
        proof {
            let cur = s@.subrange(pos as int, pos + i + 1);
            assert(cur.drop_last() =~= s@.subrange(pos as int, pos + i));
            lemma_be_nat_bound(cur);
            reveal_with_fuel(pow256, 9);
        }
        acc = acc * 256 + s[pos + i] as u64;
        i += 1;
    }
    proof {
        lemma_be_nat_bound(s@.subrange(pos as int, pos + n));
    }
    acc
}

/// Reads a `u32` at `pos`.
pub fn get_u32(s: &[u8], pos: usize) -> (r: u32)
    requires
        pos + 4 <= s@.len(),
    ensures
        r == field(s@, pos as int, 4),
{
    proof {
        lemma_pow256_values();
    }
    get_be(s, pos, 4) as u32
}

/// Reads a `u64` at `pos`.
pub fn get_u64(s: &[u8], pos: usize) -> (r: u64)
    requires
        pos + 8 <= s@.len(),
    ensures
        r == field(s@, pos as int, 8),
{
    get_be(s, pos, 8)
}

/// Reads an `i32` at `pos`.
pub fn get_i32(s: &[u8], pos: usize) -> (r: i32)
    requires
        pos + 4 <= s@.len(),
    ensures
        r == as_i32(field(s@, pos as int, 4)),
{
    let x: u32 = get_u32(s, pos);
    if x < 0x8000_0000 {
        x as i32
    } else {
        (x as i64 - 0x1_0000_0000) as i32
    }
}

/// Appends the pattern of an `i32`.
pub fn put_i32(buf: &mut Vec<u8>, x: i32)
    ensures
        final(buf)@ == old(buf)@ + be_seq(i32_pattern(x), 4),
{
    let pattern: u64 = if x >= 0 {
        x as u64
    } else {
        (x as i64 + 0x1_0000_0000) as u64
    };
    put_be(buf, pattern, 4);
}

/// A signed number is read back from its pattern.
pub proof fn law_i32_read_of_write(x: i32)
    ensures
        as_i32(i32_pattern(x)) == x,
        i32_pattern(x) < pow256(4),
{
    lemma_pow256_values();
}

} // verus!

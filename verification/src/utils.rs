//! Big-endian field access over byte buffers.
//!
//! CHD stores every multi-byte field big-endian.  The readers take a buffer
//! and an offset and return the value of the 2-, 3-, 4-, 6- or 8-byte field
//! there; the writers store a value back the same way.  Each is specified
//! against the arithmetic meaning of the bytes.

use vstd::arithmetic::power2::{lemma2_to64, lemma_pow2_strictly_increases, lemma_pow2_unfold, pow2};
use vstd::prelude::*;

use crate::ChdError;

verus! {

broadcast use vstd::group_vstd_default;

/// Value of the big-endian 16-bit field at `i`.
pub open spec fn be16(s: Seq<u8>, i: int) -> nat {
    (s[i] as nat) * 0x100 + (s[i + 1] as nat)
}

/// Value of the little-endian 16-bit field at `i`.
pub open spec fn le16(s: Seq<u8>, i: int) -> nat {
    (s[i] as nat) + (s[i + 1] as nat) * 0x100
}

/// Value of the big-endian 24-bit field at `i`.
pub open spec fn be24(s: Seq<u8>, i: int) -> nat {
    (s[i] as nat) * 0x1_0000 + (s[i + 1] as nat) * 0x100 + (s[i + 2] as nat)
}

/// Value of the big-endian 32-bit field at `i`.
pub open spec fn be32(s: Seq<u8>, i: int) -> nat {
    (s[i] as nat) * 0x100_0000 + (s[i + 1] as nat) * 0x1_0000 + (s[i + 2] as nat) * 0x100 + (s[
        i + 3
    ] as nat)
}

/// Value of the big-endian 48-bit field at `i`.
pub open spec fn be48(s: Seq<u8>, i: int) -> nat {
    be24(s, i) * 0x100_0000 + be24(s, i + 3)
}

/// Value of the big-endian 64-bit field at `i`.
pub open spec fn be64(s: Seq<u8>, i: int) -> nat {
    be32(s, i) * 0x1_0000_0000 + be32(s, i + 4)
}

/// Reads the big-endian 16-bit field at `offs`.
pub fn read_be16(data: &[u8], offs: usize) -> (r: u16)
    requires
        offs + 2 <= data.len(),
    ensures
        r == be16(data@, offs as int),
{
    (data[offs] as u16) * 0x100 + (data[offs + 1] as u16)
}

/// Reads the big-endian 24-bit field at `offs`.
pub fn read_be24(data: &[u8], offs: usize) -> (r: u32)
    requires
        offs + 3 <= data.len(),
    ensures
        r == be24(data@, offs as int),
        r < 0x100_0000,
{
    (data[offs] as u32) * 0x1_0000 + (data[offs + 1] as u32) * 0x100 + (data[offs + 2] as u32)
}

/// Reads the big-endian 32-bit field at `offs`.
pub fn read_be32(data: &[u8], offs: usize) -> (r: u32)
    requires
        offs + 4 <= data.len(),
    ensures
        r == be32(data@, offs as int),
{
    (data[offs] as u32) * 0x100_0000 + (data[offs + 1] as u32) * 0x1_0000 + (data[offs
        + 2] as u32) * 0x100 + (data[offs + 3] as u32)
}

/// Reads the big-endian 48-bit field at `offs`.
pub fn read_be48(data: &[u8], offs: usize) -> (r: u64)
    requires
        offs + 6 <= data.len(),
    ensures
        r == be48(data@, offs as int),
        r < 0x1_0000_0000_0000,
{
    let hi = read_be24(data, offs);
    let lo = read_be24(data, offs + 3);
    (hi as u64) * 0x100_0000 + (lo as u64)
}

/// Reads the big-endian 64-bit field at `offs`.
pub fn read_be64(data: &[u8], offs: usize) -> (r: u64)
    requires
        offs + 8 <= data.len(),
    ensures
        r == be64(data@, offs as int),
{
    let hi = read_be32(data, offs);
    let lo = read_be32(data, offs + 4);
    (hi as u64) * 0x1_0000_0000 + (lo as u64)
}

/// Computes `2^e` for the small exponents that table sizes and code widths
/// need.
pub fn exp2(e: u8) -> (r: u64)
    requires
        e <= 32,
    ensures
        r == pow2(e as nat),
        1 <= r <= 0x1_0000_0000,
{
    let mut r: u64 = 1;
    let mut i: u8 = 0;
    proof {
        lemma2_to64();
    }
    while i < e
        invariant
            i <= e,
            e <= 32,
            r == pow2(i as nat),
        decreases e - i,
    {
        proof {
            if (i as nat) < 32 {
                lemma_pow2_strictly_increases(i as nat, 32);
            }
            lemma2_to64();
            lemma_pow2_unfold((i + 1) as nat);
        }
        r = r * 2;
        i = i + 1;
    }
    proof {
        if (e as nat) < 32 {
            lemma_pow2_strictly_increases(e as nat, 32);
        }
        lemma2_to64();
    }
    r
}

/// The two bytes of a big-endian 16-bit value.
pub open spec fn be16_bytes(v: u16) -> Seq<u8> {
    seq![(v / 0x100) as u8, (v % 0x100) as u8]
}

/// The two bytes of a little-endian 16-bit value.
pub open spec fn le16_bytes(v: u16) -> Seq<u8> {
    seq![(v % 0x100) as u8, (v / 0x100) as u8]
}

/// The three bytes of a big-endian 24-bit value.
pub open spec fn be24_bytes(v: u32) -> Seq<u8> {
    seq![(v / 0x1_0000) as u8, ((v / 0x100) % 0x100) as u8, (v % 0x100) as u8]
}

/// The six bytes of a big-endian 48-bit value.
pub open spec fn be48_bytes(v: u64) -> Seq<u8> {
    be24_bytes((v / 0x100_0000) as u32) + be24_bytes((v % 0x100_0000) as u32)
}

/// Reads a bit-width descriptor byte; widths of 32 or more are refused.
pub fn read_bit_length(data: &[u8], offs: usize) -> (r: Result<u8, ChdError>)
    requires
        offs < data.len(),
    ensures
        data@[offs as int] < 32 ==> r == Ok::<u8, ChdError>(data@[offs as int]),
        data@[offs as int] >= 32 ==> r == Err::<u8, ChdError>(ChdError::BadMap),
{
    let val = data[offs];
    if val >= 32 {
        Err(ChdError::BadMap)
    } else {
        Ok(val)
    }
}

/// Stores `val` as a big-endian 16-bit field at `offs`, leaving every other
/// byte of the buffer unchanged.
pub fn write_be16(data: &mut Vec<u8>, offs: usize, val: u16)
    requires
        offs + 2 <= old(data).len(),
    ensures
        final(data)@.len() == old(data)@.len(),
        be16(final(data)@, offs as int) == val,
        final(data)@.subrange(offs as int, offs + 2) == be16_bytes(val),
        forall|i: int|
            0 <= i < old(data)@.len() && !(offs <= i < offs + 2) ==> final(data)@[i] == old(
                data,
            )@[i],
{
    data.set(offs, (val / 0x100) as u8);
    data.set(offs + 1, (val % 0x100) as u8);
    proof {
        assert(data@.subrange(offs as int, offs + 2) =~= be16_bytes(val));
    }
}

/// Stores `val` as a little-endian 16-bit field at `offs`, leaving every
/// other byte of the buffer unchanged.
pub fn write_le16(data: &mut Vec<u8>, offs: usize, val: u16)
    requires
        offs + 2 <= old(data).len(),
    ensures
        final(data)@.len() == old(data)@.len(),
        le16(final(data)@, offs as int) == val,
        final(data)@.subrange(offs as int, offs + 2) == le16_bytes(val),
        forall|i: int|
            0 <= i < old(data)@.len() && !(offs <= i < offs + 2) ==> final(data)@[i] == old(
                data,
            )@[i],
{
    data.set(offs, (val % 0x100) as u8);
    data.set(offs + 1, (val / 0x100) as u8);
    proof {
        assert(data@.subrange(offs as int, offs + 2) =~= le16_bytes(val));
    }
}

/// Stores `val` as a big-endian 24-bit field at `offs`, leaving every other
/// byte of the buffer unchanged.
pub fn write_be24(data: &mut Vec<u8>, offs: usize, val: u32)
    requires
        offs + 3 <= old(data).len(),
        val < 0x100_0000,
    ensures
        final(data)@.len() == old(data)@.len(),
        be24(final(data)@, offs as int) == val,
        final(data)@.subrange(offs as int, offs + 3) == be24_bytes(val),
        forall|i: int|
            0 <= i < old(data)@.len() && !(offs <= i < offs + 3) ==> final(data)@[i] == old(
                data,
            )@[i],
{
    data.set(offs, (val / 0x1_0000) as u8);
    data.set(offs + 1, ((val / 0x100) % 0x100) as u8);
    data.set(offs + 2, (val % 0x100) as u8);
    proof {
        assert(data@.subrange(offs as int, offs + 3) =~= be24_bytes(val));
    }
}

/// Stores `val` as a big-endian 48-bit field at `offs`, leaving every other
/// byte of the buffer unchanged.
pub fn write_be48(data: &mut Vec<u8>, offs: usize, val: u64)
    requires
        offs + 6 <= old(data).len(),
        val < 0x1_0000_0000_0000,
    ensures
        final(data)@.len() == old(data)@.len(),
        be48(final(data)@, offs as int) == val,
        final(data)@.subrange(offs as int, offs + 6) == be48_bytes(val),
        forall|i: int|
            0 <= i < old(data)@.len() && !(offs <= i < offs + 6) ==> final(data)@[i] == old(
                data,
            )@[i],
{
    let hi = (val / 0x100_0000) as u32;
    let lo = (val % 0x100_0000) as u32;
    assert(hi < 0x100_0000) by (nonlinear_arith)
        requires
            val < 0x1_0000_0000_0000,
            hi == val / 0x100_0000,
    ;
    write_be24(data, offs, hi);
    write_be24(data, offs + 3, lo);
    assert(hi * 0x100_0000 + lo == val) by (nonlinear_arith)
        requires
            hi == val / 0x100_0000,
            lo == val % 0x100_0000,
    ;
    proof {
        assert(data@.subrange(offs as int, offs + 6) =~= be48_bytes(val));
    }
}

/// Equal big-endian 16-bit fields stand on equal bytes.
pub proof fn lemma_be16_unique(x: Seq<u8>, y: Seq<u8>, i: int, j: int)
    requires
        be16(x, i) == be16(y, j),
    ensures
        x[i] == y[j],
        x[i + 1] == y[j + 1],
{
}

/// Equal big-endian 24-bit fields stand on equal bytes.
pub proof fn lemma_be24_unique(x: Seq<u8>, y: Seq<u8>, i: int, j: int)
    requires
        be24(x, i) == be24(y, j),
    ensures
        x[i] == y[j],
        x[i + 1] == y[j + 1],
        x[i + 2] == y[j + 2],
{
}

/// Equal big-endian 48-bit fields stand on equal bytes.
pub proof fn lemma_be48_unique(x: Seq<u8>, y: Seq<u8>, i: int, j: int)
    requires
        be48(x, i) == be48(y, j),
    ensures
        x[i] == y[j],
        x[i + 1] == y[j + 1],
        x[i + 2] == y[j + 2],
        x[i + 3] == y[j + 3],
        x[i + 4] == y[j + 4],
        x[i + 5] == y[j + 5],
{
    assert(be24(x, i) < 0x100_0000 && be24(y, j) < 0x100_0000 && be24(x, i + 3) < 0x100_0000
        && be24(y, j + 3) < 0x100_0000);
    assert(be24(x, i) == be24(y, j) && be24(x, i + 3) == be24(y, j + 3)) by (nonlinear_arith)
        requires
            be24(x, i) * 0x100_0000 + be24(x, i + 3) == be24(y, j) * 0x100_0000 + be24(y, j + 3),
            be24(x, i) < 0x100_0000,
            be24(y, j) < 0x100_0000,
            be24(x, i + 3) < 0x100_0000,
            be24(y, j + 3) < 0x100_0000,
    ;
    lemma_be24_unique(x, y, i, j);
    lemma_be24_unique(x, y, i + 3, j + 3);
}

} // verus!

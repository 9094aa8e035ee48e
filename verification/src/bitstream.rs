//! Big-endian, most-significant-bit-first extraction of bit fields from a
//! byte slice.
//!
//! The reader keeps a cursor of consumed bits.  Bits past the end of the
//! source read as zero; consuming any such bit puts the reader permanently
//! into overflow, which `overflow` reports.

use vstd::arithmetic::power2::{lemma2_to64, lemma_pow2_strictly_increases, lemma_pow2_unfold, pow2};
use vstd::prelude::*;

verus! {

broadcast use vstd::group_vstd_default;

/// Largest source length the reader accepts, so that bit positions fit
/// comfortably in a 64-bit cursor.
pub const MAX_STREAM_BYTES: u64 = 0x0800_0000_0000_0000;

/// Bit `i` of the stream: bit positions run most-significant-first within
/// each byte, and positions past the end of the source read as zero.
pub open spec fn stream_bit(data: Seq<u8>, i: int) -> nat {
    if 0 <= i && i < data.len() * 8 {
        (((data[i / 8] as u32) >> ((7 - (i % 8)) as u32)) & 1) as nat
    } else {
        0
    }
}

/// The value of the `n` bits of the stream starting at position `pos`,
/// most significant first.
pub open spec fn stream_value(data: Seq<u8>, pos: int, n: int) -> nat
    decreases n,
{
    if n <= 0 {
        0
    } else {
        stream_value(data, pos, n - 1) * 2 + stream_bit(data, pos + n - 1)
    }
}

/// A single stream bit is zero or one.
pub proof fn lemma_stream_bit_bound(data: Seq<u8>, i: int)
    ensures
        stream_bit(data, i) <= 1,
{
    if 0 <= i && i < data.len() * 8 {
        let b = data[i / 8] as u32;
        let sh = (7 - (i % 8)) as u32;
        assert((b >> sh) & 1 <= 1) by (bit_vector);
    }
}

/// A bit field of `n` bits is below `2^n`.
pub proof fn lemma_stream_value_bound(data: Seq<u8>, pos: int, n: int)
    requires
        0 <= n,
    ensures
        stream_value(data, pos, n) < pow2(n as nat),
    decreases n,
{
    if n == 0 {
        assert(pow2(0) == 1) by {
            lemma2_to64();
        }
    } else {
        lemma_stream_value_bound(data, pos, n - 1);
        lemma_pow2_unfold(n as nat);
        lemma_stream_bit_bound(data, pos + n - 1);
    }
}

/// Reading `a + b` bits is reading `a` bits and then `b` bits.
pub proof fn lemma_stream_value_split(data: Seq<u8>, pos: int, a: int, b: int)
    requires
        0 <= a,
        0 <= b,
    ensures
        stream_value(data, pos, a + b) == stream_value(data, pos, a) * pow2(b as nat)
            + stream_value(data, pos + a, b),
    decreases b,
{
    if b == 0 {
        assert(pow2(0) == 1) by {
            lemma2_to64();
        }
        assert(stream_value(data, pos + a, 0) == 0);
        assert(stream_value(data, pos, a + 0) == stream_value(data, pos, a));
        assert(stream_value(data, pos, a) * 1 == stream_value(data, pos, a));
    } else {
        lemma_stream_value_split(data, pos, a, b - 1);
        lemma_pow2_unfold(b as nat);
        let va = stream_value(data, pos, a);
        let vr = stream_value(data, pos + a, b - 1);
        let bit = stream_bit(data, pos + a + b - 1);
        assert(stream_value(data, pos, a + b) == stream_value(data, pos, a + b - 1) * 2 + bit);
        assert(stream_value(data, pos + a, b) == vr * 2 + bit);
        assert((va * pow2((b - 1) as nat) + vr) * 2 == va * (2 * pow2((b - 1) as nat)) + vr * 2)
            by (nonlinear_arith);
        assert(stream_value(data, pos, a + b) == va * pow2(b as nat) + stream_value(
            data,
            pos + a,
            b,
        ));
    }
}

/// The cursor after consuming `n` more bits; it saturates at the top of the
/// 64-bit range, far past any source the reader accepts.
pub open spec fn spec_advance(pos: u64, n: nat) -> u64 {
    if pos + n > u64::MAX {
        u64::MAX
    } else {
        (pos + n) as u64
    }
}

/// Streams bit fields out of a byte slice, most significant bit first.
pub struct BitReader<'a> {
    data: &'a [u8],
    pos: u64,
}

impl<'a> BitReader<'a> {
    /// The source bytes.
    pub closed spec fn stream(&self) -> Seq<u8> {
        self.data@
    }

    /// How many bits have been consumed.
    pub closed spec fn consumed(&self) -> u64 {
        self.pos
    }

    /// The source is small enough for every bit position to fit the cursor.
    pub open spec fn wf(&self) -> bool {
        self.stream().len() < MAX_STREAM_BYTES
    }

    /// A reader over `data` with no bits consumed yet.
    pub fn new(data: &'a [u8]) -> (r: BitReader<'a>)
        requires
            data@.len() < MAX_STREAM_BYTES,
        ensures
            r.stream() == data@,
            r.consumed() == 0,
            r.wf(),
    {
        BitReader { data, pos: 0 }
    }

    /// Whether more bits have been consumed than the source provides.
    pub fn overflow(&self) -> (r: bool)
        requires
            self.wf(),
        ensures
            r == (self.consumed() > 8 * self.stream().len()),
    {
        self.pos > 8 * (self.data.len() as u64)
    }

    /// Returns the next `numbits` bits without consuming them.
    pub fn peek(&mut self, numbits: usize) -> (r: u32)
        requires
            old(self).wf(),
            numbits < 32,
        ensures
            *final(self) == *old(self),
            r == stream_value(old(self).stream(), old(self).consumed() as int, numbits as int),
    {
        let ghost s = self.data@;
        let ghost p = self.pos as int;
        let mut result: u32 = 0;
        let mut i: usize = 0;
        while i < numbits
            invariant
                self == old(self),
                s == self.data@,
                p == self.pos as int,
                self.wf(),
                i <= numbits,
                numbits < 32,
                result == stream_value(s, p, i as int),
            decreases numbits - i,
        {
            proof {
                lemma_stream_value_bound(s, p, i as int);
                lemma_pow2_strictly_increases(i as nat, 31);
                lemma2_to64();
            }
            let bit: u32;
            if self.pos <= u64::MAX - (i as u64) {
                let idx: u64 = self.pos + (i as u64);
                if idx < 8 * (self.data.len() as u64) {
                    let byte: u8 = self.data[(idx / 8) as usize];
                    let sh: u32 = (7 - (idx % 8)) as u32;
                    bit = ((byte as u32) >> sh) & 1;
                    proof {
                        assert(bit == stream_bit(s, p + i));
                    }
                } else {
                    bit = 0;
                }
            } else {
                bit = 0;
            }
            proof {
                lemma_stream_bit_bound(s, p + i);
                assert(bit == stream_bit(s, p + i));
            }
            result = result * 2 + bit;
            i = i + 1;
        }
        result
    }

    /// Consumes `numbits` bits.
    pub fn seek(&mut self, numbits: usize)
        requires
            old(self).wf(),
            numbits < 32,
        ensures
            final(self).stream() == old(self).stream(),
            final(self).wf(),
            final(self).consumed() == spec_advance(old(self).consumed(), numbits as nat),
            final(self).consumed() >= old(self).consumed(),
    {
        if self.pos <= u64::MAX - (numbits as u64) {
            self.pos = self.pos + (numbits as u64);
        } else {
            self.pos = u64::MAX;
        }
    }

    /// Returns the next `numbits` bits and consumes them: exactly a `peek`
    /// followed by a `seek` of the same width.
    pub fn read(&mut self, numbits: usize) -> (r: u32)
        requires
            old(self).wf(),
            numbits < 32,
        ensures
            final(self).stream() == old(self).stream(),
            final(self).wf(),
            r == stream_value(old(self).stream(), old(self).consumed() as int, numbits as int),
            final(self).consumed() == spec_advance(old(self).consumed(), numbits as nat),
            final(self).consumed() >= old(self).consumed(),
    {
        let val = self.peek(numbits);
        self.seek(numbits);
        val
    }
}

/// Overflow is permanent: once the cursor has passed the end of the source,
/// no later consume brings it back, and until then the reader is not in
/// overflow.
pub proof fn lemma_overflow_is_permanent(len: nat, pos: u64, n: nat)
    ensures
        spec_advance(pos, n) >= pos,
        pos > 8 * len ==> spec_advance(pos, n) > 8 * len,
        pos + n <= 8 * len ==> spec_advance(pos, n) <= 8 * len,
{
}

} // verus!

//! Canonical Huffman decoding.
//!
//! A table is parameterized by a symbol count and a maximum code length.
//! Symbols are decoded by a single table lookup of `max_bits` peeked bits;
//! each table entry packs a symbol and the length of its code.  Tables are
//! built from two descriptor forms carried in CHD streams: a run-length
//! coded list of code lengths, and a second form in which a small Huffman
//! table itself describes the lengths of the main one.

use vstd::arithmetic::power2::{
    lemma2_to64, lemma_pow2_adds, lemma_pow2_pos, lemma_pow2_strictly_increases, lemma_pow2_unfold,
    pow2,
};
use vstd::prelude::*;

use crate::bitstream::{
    lemma_stream_value_bound, lemma_stream_value_split, spec_advance, stream_value, BitReader,
};
use crate::ChdError;

verus! {

broadcast use vstd::group_vstd_default;

/// Most symbols a table can name: a packed entry keeps the symbol in the
/// bits above the five length bits of a 16-bit word.
pub const MAX_HUFFMAN_CODES: u32 = 2047;

/// The symbol packed into a lookup entry.
pub open spec fn entry_symbol(e: u16) -> u16 {
    e / 32
}

/// The code length packed into a lookup entry.
pub open spec fn entry_length(e: u16) -> u16 {
    e % 32
}

/// A canonical Huffman decoding table.
pub struct Huffman {
    numcodes: u32,
    maxbits: u8,
    lookup: Vec<u16>,
}

impl Huffman {
    /// How many symbols the table names.
    pub closed spec fn num_codes(&self) -> u32 {
        self.numcodes
    }

    /// The longest code length the table accepts.
    pub closed spec fn max_bits(&self) -> u8 {
        self.maxbits
    }

    /// The lookup table: entry `i` decides the symbol for any bit window
    /// whose `max_bits` peeked bits equal `i`.
    pub closed spec fn table(&self) -> Seq<u16> {
        self.lookup@
    }

    /// The table is sized to its maximum code length and every entry names
    /// a symbol in range with a plausible code length.
    pub open spec fn wf(&self) -> bool {
        &&& 1 <= self.max_bits() <= 16
        &&& 1 <= self.num_codes() <= MAX_HUFFMAN_CODES
        &&& self.table().len() == pow2(self.max_bits() as nat)
        &&& forall|i: int|
            0 <= i < self.table().len() ==> entry_symbol(#[trigger] self.table()[i])
                < self.num_codes() && entry_length(self.table()[i]) <= self.max_bits()
    }

    /// An empty table for `numcodes` symbols with codes of at most
    /// `maxbits` bits.
    pub fn new(numcodes: u32, maxbits: u8) -> (r: Huffman)
        requires
            1 <= numcodes <= MAX_HUFFMAN_CODES,
            1 <= maxbits <= 16,
        ensures
            r.wf(),
            r.num_codes() == numcodes,
            r.max_bits() == maxbits,
            forall|j: int| 0 <= j < r.table().len() ==> r.table()[j] == 0,
    {
        let size = crate::utils::exp2(maxbits);
        let mut lookup: Vec<u16> = Vec::new();
        proof {
            lemma_pow2_strictly_increases(maxbits as nat, 32);
            lemma2_to64();
        }
        while lookup.len() < size as usize
            invariant
                size == pow2(maxbits as nat),
                size <= 0x1_0000,
                lookup@.len() <= size,
                forall|i: int| 0 <= i < lookup@.len() ==> lookup@[i] == 0,
            decreases size - lookup.len(),
        {
            lookup.push(0);
        }
        Huffman { numcodes, maxbits, lookup }
    }

    /// Clears every lookup entry, so that a rebuilt table owes nothing to
    /// an earlier description.
    fn reset(&mut self)
        requires
            old(self).wf(),
        ensures
            final(self).wf(),
            final(self).num_codes() == old(self).num_codes(),
            final(self).max_bits() == old(self).max_bits(),
            forall|j: int| 0 <= j < final(self).table().len() ==> final(self).table()[j] == 0,
    {
        let n = self.lookup.len();
        let mut i: usize = 0;
        while i < n
            invariant
                i <= n,
                self.lookup@.len() == n,
                self.wf(),
                self.num_codes() == old(self).num_codes(),
                self.max_bits() == old(self).max_bits(),
                forall|j: int| 0 <= j < i ==> self.lookup@[j] == 0,
            decreases n - i,
        {
            self.lookup.set(i, 0);
            i = i + 1;
        }
    }

    /// Decodes one symbol: peeks `max_bits` bits, and consumes as many bits
    /// as the selected entry's code length.
    pub fn decode_one(&self, stream: &mut BitReader) -> (r: u16)
        requires
            self.wf(),
            old(stream).wf(),
        ensures
            final(stream).stream() == old(stream).stream(),
            final(stream).wf(),
            ({
                let e = self.table()[stream_value(
                    old(stream).stream(),
                    old(stream).consumed() as int,
                    self.max_bits() as int,
                ) as int];
                r == entry_symbol(e) && final(stream).consumed() == spec_advance(
                    old(stream).consumed(),
                    entry_length(e) as nat,
                )
            }),
            r < self.num_codes(),
            final(stream).consumed() >= old(stream).consumed(),
    {
        let bits = stream.peek(self.maxbits as usize);
        proof {
            lemma_stream_value_bound(
                stream.stream(),
                stream.consumed() as int,
                self.maxbits as int,
            );
        }
        let entry = self.lookup[bits as usize];
        stream.seek((entry % 32) as usize);
        entry / 32
    }

    /// The per-slot width of the run-length coded descriptor form for a
    /// table with this maximum code length.
    pub open spec fn spec_rle_width(&self) -> int {
        if self.max_bits() <= 7 {
            3
        } else if self.max_bits() <= 15 {
            4
        } else {
            5
        }
    }

    /// Reads the run-length coded list of code lengths: a raw width-sized
    /// value is a length, a one escapes either a literal one or a repeated
    /// length.
    fn read_numbits_rle(&self, stream: &mut BitReader) -> (r: Result<Vec<u8>, ChdError>)
        requires
            self.wf(),
            old(stream).wf(),
            old(stream).consumed() <= 8 * old(stream).stream().len(),
        ensures
            final(stream).stream() == old(stream).stream(),
            final(stream).wf(),
            match r {
                Ok(lengths) => {
                    &&& lengths@.len() == self.num_codes()
                    &&& forall|i: int| 0 <= i < lengths@.len() ==> (#[trigger] lengths@[i]) < 32
                    &&& final(stream).consumed() <= 8 * final(stream).stream().len()
                    &&& spec_rle_lengths(
                        old(stream).stream(),
                        old(stream).consumed() as int,
                        self.spec_rle_width(),
                        self.num_codes() as int,
                        Seq::empty(),
                    ) == Some((lengths@, final(stream).consumed() as int))
                },
                Err(e) => e == ChdError::BadHuffman && ({
                    let d = spec_rle_lengths(
                        old(stream).stream(),
                        old(stream).consumed() as int,
                        self.spec_rle_width(),
                        self.num_codes() as int,
                        Seq::empty(),
                    );
                    d is None || d.unwrap().1 > 8 * old(stream).stream().len()
                }),
            },
    {
        let numbits: usize = if self.maxbits <= 7 {
            3
        } else if self.maxbits <= 15 {
            4
        } else {
            5
        };
        let numcodes = self.numcodes as usize;
        let ghost data = old(stream).stream();
        let ghost pos0 = old(stream).consumed() as int;
        let ghost w = self.spec_rle_width();
        let mut lengths: Vec<u8> = Vec::new();
        while lengths.len() < numcodes
            invariant
                numbits == 3 || numbits == 4 || numbits == 5,
                numbits == self.spec_rle_width(),
                w == self.spec_rle_width(),
                numcodes == self.num_codes(),
                self.wf(),
                stream.wf(),
                stream.stream() == old(stream).stream(),
                data == old(stream).stream(),
                pos0 == old(stream).consumed() as int,
                lengths@.len() <= numcodes,
                stream.consumed() <= 8 * data.len() + 15 * lengths@.len(),
                forall|i: int| 0 <= i < lengths@.len() ==> (#[trigger] lengths@[i]) < 32,
                spec_rle_lengths(data, pos0, w, numcodes as int, Seq::empty())
                    == spec_rle_lengths(
                    data,
                    stream.consumed() as int,
                    w,
                    numcodes as int,
                    lengths@,
                ),
            decreases numcodes - lengths.len(),
        {
            proof {
                assert(8 * data.len() + 15 * numcodes + 15 < u64::MAX);
            }
            let ghost pos = stream.consumed() as int;
            let ghost acc = lengths@;
            let nodebits = self.read_width(stream, numbits);
            if nodebits != 1 {
                lengths.push(nodebits as u8);
                proof {
                    assert(spec_rle_lengths(data, pos, w, numcodes as int, acc)
                        == spec_rle_lengths(
                        data,
                        pos + w,
                        w,
                        numcodes as int,
                        acc.push(nodebits as u8),
                    ));
                }
            } else {
                let escaped = self.read_width(stream, numbits);
                if escaped == 1 {
                    lengths.push(1);
                    proof {
                        assert(spec_rle_lengths(data, pos, w, numcodes as int, acc)
                            == spec_rle_lengths(
                            data,
                            pos + 2 * w,
                            w,
                            numcodes as int,
                            acc.push(1),
                        ));
                    }
                } else {
                    let raw = self.read_width(stream, numbits);
                    let repcount = raw + 3;
                    if repcount as usize > numcodes - lengths.len() {
                        proof {
                            assert(acc.len() + (raw + 3) > numcodes);
                            assert(spec_rle_lengths(data, pos, w, numcodes as int, acc) is None);
                        }
                        return Err(ChdError::BadHuffman);
                    }
                    let ghost len0 = lengths@.len();
                    let mut j: u32 = 0;
                    while j < repcount
                        invariant
                            j <= repcount,
                            repcount < 40,
                            repcount == raw + 3,
                            escaped < 32,
                            escaped != 1,
                            numcodes == self.num_codes(),
                            len0 + repcount <= numcodes,
                            lengths@.len() == len0 + j,
                            forall|i: int| 0 <= i < len0 ==> lengths@[i] == acc[i],
                            len0 == acc.len(),
                            forall|i: int|
                                len0 <= i < lengths@.len() ==> (#[trigger] lengths@[i])
                                    == escaped as u8,
                            forall|i: int| 0 <= i < lengths@.len() ==> (#[trigger] lengths@[i]) < 32,
                        decreases repcount - j,
                    {
                        lengths.push(escaped as u8);
                        j = j + 1;
                    }
                    proof {
                        assert(acc.len() + (raw + 3) <= numcodes);
                        assert(lengths@ =~= acc + Seq::new((raw + 3) as nat, |i: int| escaped as u8));
                        assert(spec_rle_lengths(data, pos, w, numcodes as int, acc)
                            == spec_rle_lengths(
                            data,
                            pos + 3 * w,
                            w,
                            numcodes as int,
                            acc + Seq::new((raw + 3) as nat, |i: int| escaped as u8),
                        ));
                    }
                }
            }
        }
        proof {
            assert(spec_rle_lengths(data, stream.consumed() as int, w, numcodes as int, lengths@)
                == Some((lengths@, stream.consumed() as int)));
        }
        if stream.overflow() {
            return Err(ChdError::BadHuffman);
        }
        Ok(lengths)
    }

    /// Reads one descriptor value of `numbits` bits (3, 4 or 5).
    fn read_width(&self, stream: &mut BitReader, numbits: usize) -> (r: u32)
        requires
            old(stream).wf(),
            numbits == 3 || numbits == 4 || numbits == 5,
        ensures
            final(stream).stream() == old(stream).stream(),
            final(stream).wf(),
            r < 32,
            r == stream_value(
                old(stream).stream(),
                old(stream).consumed() as int,
                numbits as int,
            ),
            final(stream).consumed() == spec_advance(old(stream).consumed(), numbits as nat),
    {
        let v = stream.read(numbits);
        proof {
            lemma_stream_value_bound(
                old(stream).stream(),
                old(stream).consumed() as int,
                numbits as int,
            );
            if numbits < 5 {
                lemma_pow2_strictly_increases(numbits as nat, 5);
            }
            lemma2_to64();
        }
        v
    }

    /// Assigns canonical codes to the symbols: for each length, from the
    /// longest down, the starting code halves the count above it, and the
    /// parity of every partial sum must work out (else the lengths do not
    /// describe a prefix code).
    fn assign_canonical_codes(&self, lengths: &Vec<u8>) -> (r: Result<Vec<u32>, ChdError>)
        requires
            self.wf(),
            lengths@.len() == self.num_codes(),
            forall|i: int| 0 <= i < lengths@.len() ==> (#[trigger] lengths@[i]) < 32,
        ensures
            match r {
                Ok(codes) => {
                    &&& codes@.len() == self.num_codes()
                    &&& forall|i: int| 0 <= i < codes@.len() ==> (#[trigger] codes@[i]) < 0x2_0000
                    &&& forall|i: int|
                        0 <= i < lengths@.len() ==> (#[trigger] lengths@[i]) <= self.max_bits()
                    &&& spec_parity_ok(lengths@)
                    &&& codes@ == spec_canonical_codes(lengths@)
                },
                Err(e) => e == ChdError::BadHuffman && ((exists|s: int|
                    0 <= s < lengths@.len() && (#[trigger] lengths@[s]) > self.max_bits())
                    || !spec_parity_ok(lengths@)),
            },
    {
        let numcodes = self.numcodes as usize;
        // histogram of code lengths
        let mut bithisto: Vec<u32> = Vec::new();
        while bithisto.len() < 33
            invariant
                bithisto@.len() <= 33,
                forall|i: int| 0 <= i < bithisto@.len() ==> (#[trigger] bithisto@[i]) == 0,
            decreases 33 - bithisto.len(),
        {
            bithisto.push(0);
        }
        let mut sym: usize = 0;
        while sym < numcodes
            invariant
                numcodes == self.num_codes(),
                self.wf(),
                lengths@.len() == numcodes,
                forall|i: int| 0 <= i < lengths@.len() ==> (#[trigger] lengths@[i]) < 32,
                forall|i: int| 0 <= i < sym ==> (#[trigger] lengths@[i]) <= self.max_bits(),
                sym <= numcodes,
                bithisto@.len() == 33,
                forall|i: int| 0 <= i < 33 ==> (#[trigger] bithisto@[i]) <= sym,
                forall|b: int|
                    0 <= b < 33 ==> (#[trigger] bithisto@[b]) == len_count(
                        lengths@,
                        b,
                        sym as int,
                    ),
            decreases numcodes - sym,
        {
            let numbits = lengths[sym];
            if numbits > self.maxbits {
                return Err(ChdError::BadHuffman);
            }
            let h = bithisto[numbits as usize];
            bithisto.set(numbits as usize, h + 1);
            sym = sym + 1;
        }
        // starting code for each length, longest first
        let mut curstart: u32 = 0;
        let mut codelen: usize = 31;
        while codelen >= 1
            invariant
                codelen <= 31,
                bithisto@.len() == 33,
                curstart < 0x1_0000,
                numcodes <= MAX_HUFFMAN_CODES,
                lengths@.len() == numcodes,
                forall|i: int| 0 <= i < 33 ==> (#[trigger] bithisto@[i]) < 0x1_0000,
                curstart == spec_curstart(lengths@, codelen as int),
                forall|c: int|
                    codelen < c <= 31 ==> (#[trigger] bithisto@[c]) == spec_curstart(lengths@, c),
                forall|c: int|
                    0 <= c <= codelen ==> (#[trigger] bithisto@[c]) == len_count(
                        lengths@,
                        c,
                        numcodes as int,
                    ),
                forall|c: int|
                    codelen < c <= 31 && c >= 2 ==> ((#[trigger] spec_curstart(lengths@, c))
                        + len_count(lengths@, c, numcodes as int)) % 2 == 0,
            decreases codelen,
        {
            let nextstart = (curstart + bithisto[codelen]) / 2;
            if codelen != 1 && nextstart * 2 != curstart + bithisto[codelen] {
                proof {
                    assert((spec_curstart(lengths@, codelen as int) + len_count(
                        lengths@,
                        codelen as int,
                        numcodes as int,
                    )) % 2 != 0);
                    assert(!spec_parity_ok(lengths@));
                }
                return Err(ChdError::BadHuffman);
            }
            proof {
                assert(spec_curstart(lengths@, codelen - 1) == (spec_curstart(
                    lengths@,
                    codelen as int,
                ) + len_count(lengths@, codelen as int, numcodes as int)) / 2);
            }
            bithisto.set(codelen, curstart);
            curstart = nextstart;
            codelen = codelen - 1;
        }
        proof {
            assert(spec_parity_ok(lengths@));
        }
        // hand each symbol the next code of its length
        let mut codes: Vec<u32> = Vec::new();
        let mut sym: usize = 0;
        while sym < numcodes
            invariant
                numcodes == self.num_codes(),
                self.wf(),
                lengths@.len() == numcodes,
                forall|i: int| 0 <= i < lengths@.len() ==> (#[trigger] lengths@[i]) <= self.max_bits(),
                sym <= numcodes,
                codes@.len() == sym,
                bithisto@.len() == 33,
                forall|i: int| 0 <= i < 33 ==> (#[trigger] bithisto@[i]) < 0x1_0000 + sym,
                forall|i: int| 0 <= i < codes@.len() ==> (#[trigger] codes@[i]) < 0x2_0000,
                forall|b: int|
                    1 <= b <= 31 ==> (#[trigger] bithisto@[b]) == spec_curstart(lengths@, b)
                        + len_count(lengths@, b, sym as int),
                forall|s: int|
                    0 <= s < sym ==> (#[trigger] codes@[s]) == spec_canonical_codes(lengths@)[s],
            decreases numcodes - sym,
        {
            let numbits = lengths[sym];
            if numbits > 0 {
                let code = bithisto[numbits as usize];
                codes.push(code);
                bithisto.set(numbits as usize, code + 1);
            } else {
                codes.push(0);
            }
            sym = sym + 1;
        }
        proof {
            assert(codes@ =~= spec_canonical_codes(lengths@));
        }
        Ok(codes)
    }

    /// Fills the lookup range of every coded symbol: a symbol whose code
    /// has length `L` owns the `2^(max_bits - L)` windows that begin with
    /// its code bits.  A range that falls outside the table, or that
    /// another symbol already claimed, means the description was not a
    /// prefix code.
    fn build_lookup_table(&mut self, lengths: &Vec<u8>, codes: &Vec<u32>) -> (r: Result<
        (),
        ChdError,
    >)
        requires
            old(self).wf(),
            lengths@.len() == old(self).num_codes(),
            codes@.len() == old(self).num_codes(),
            forall|i: int| 0 <= i < lengths@.len() ==> (#[trigger] lengths@[i]) <= old(self).max_bits(),
            forall|i: int| 0 <= i < codes@.len() ==> (#[trigger] codes@[i]) < 0x2_0000,
        ensures
            final(self).wf(),
            final(self).num_codes() == old(self).num_codes(),
            final(self).max_bits() == old(self).max_bits(),
            r.is_err() ==> r == Err::<(), ChdError>(ChdError::BadHuffman),
            r.is_ok() ==> table_covered(*final(self), lengths@, codes@),
            forall|j: int|
                0 <= j < old(self).table().len() && (#[trigger] old(self).table()[j]) != 0
                    ==> final(self).table()[j] == old(self).table()[j],
            forall|j: int|
                0 <= j < old(self).table().len() && (#[trigger] final(self).table()[j]) != old(
                    self,
                ).table()[j] ==> exists|s: int|
                    0 <= s < lengths@.len() && lengths@[s] != 0 && in_fill_range(
                        *old(self),
                        lengths@,
                        codes@,
                        s,
                        j,
                    ),
            ((forall|j: int| 0 <= j < old(self).table().len() ==> old(self).table()[j] == 0)
                && spec_ranges_ok(old(self).max_bits(), lengths@, codes@)) ==> r.is_ok(),
    {
        let numcodes = self.numcodes as usize;
        let mut curcode: usize = 0;
        while curcode < numcodes
            invariant
                numcodes == self.num_codes(),
                self.wf(),
                self.num_codes() == old(self).num_codes(),
                self.max_bits() == old(self).max_bits(),
                lengths@.len() == numcodes,
                codes@.len() == numcodes,
                forall|i: int|
                    0 <= i < lengths@.len() ==> (#[trigger] lengths@[i]) <= self.max_bits(),
                forall|i: int| 0 <= i < codes@.len() ==> (#[trigger] codes@[i]) < 0x2_0000,
                curcode <= numcodes,
                forall|s: int|
                    0 <= s < curcode && (#[trigger] lengths@[s]) != 0 ==> codes@[s] < pow2(
                        lengths@[s] as nat,
                    ) && covers(*self, s as u16, codes@[s] as nat, lengths@[s]),
                self.table().len() == old(self).table().len(),
                forall|j: int|
                    0 <= j < old(self).table().len() && (#[trigger] old(self).table()[j]) != 0
                        ==> self.table()[j] == old(self).table()[j],
                forall|j: int|
                    0 <= j < old(self).table().len() && (#[trigger] self.table()[j]) != old(
                        self,
                    ).table()[j] ==> exists|s: int|
                        0 <= s < curcode && lengths@[s] != 0 && in_fill_range(
                            *old(self),
                            lengths@,
                            codes@,
                            s,
                            j,
                        ),
            decreases numcodes - curcode,
        {
            let numbits = lengths[curcode];
            if numbits != 0 {
                let range = crate::utils::exp2(self.maxbits - numbits);
                proof {
                    vstd::arithmetic::mul::lemma_mul_upper_bound(
                        codes@[curcode as int] as int,
                        0x2_0000,
                        range as int,
                        0x1_0000_0000,
                    );
                }
                let begin = (codes[curcode] as u64) * range;
                let end = begin + range;
                proof {
                    lemma_pow2_adds(numbits as nat, (self.max_bits() - numbits) as nat);
                    assert((codes@[curcode as int] + 1) * (range as int) == begin + range)
                        by (nonlinear_arith)
                        requires
                            begin == codes@[curcode as int] * (range as int),
                    ;
                }
                if end > self.lookup.len() as u64 {
                    proof {
                        if spec_ranges_ok(old(self).max_bits(), lengths@, codes@) {
                            assert((codes@[curcode as int] + 1) * pow2(
                                (old(self).max_bits() - lengths@[curcode as int]) as nat,
                            ) <= pow2(old(self).max_bits() as nat));
                            assert(false);
                        }
                    }
                    return Err(ChdError::BadHuffman);
                }
                let value: u16 = ((curcode as u32) * 32 + (numbits as u32)) as u16;
                assert(entry_symbol(value as u16) == curcode && entry_length(value as u16)
                    == numbits);
                let ghost selfpre = *self;
                let ghost pre = self.lookup@;
                let mut e: u64 = begin;
                while e < end
                    invariant
                        begin <= e <= end,
                        end <= self.lookup@.len(),
                        end <= usize::MAX,
                        numcodes == self.num_codes(),
                        self.wf(),
                        self.num_codes() == old(self).num_codes(),
                        self.max_bits() == old(self).max_bits(),
                        curcode < numcodes,
                        entry_symbol(value) == curcode,
                        entry_length(value) == numbits,
                        value != 0,
                        numbits <= self.max_bits(),
                        self.lookup@.len() == pre.len(),
                        pre == selfpre.table(),
                        pre.len() == old(self).table().len(),
                        curcode < lengths@.len(),
                        lengths@.len() == numcodes,
                        codes@.len() == numcodes,
                        lengths@[curcode as int] == numbits,
                        numbits != 0,
                        begin == codes@[curcode as int] * pow2(
                            (old(self).max_bits() - numbits) as nat,
                        ),
                        end == (codes@[curcode as int] + 1) * pow2(
                            (old(self).max_bits() - numbits) as nat,
                        ),
                        forall|j: int|
                            0 <= j < old(self).table().len() && (#[trigger] old(self).table()[j])
                                != 0 ==> selfpre.table()[j] == old(self).table()[j],
                        forall|j: int|
                            0 <= j < old(self).table().len() && (#[trigger] selfpre.table()[j])
                                != old(self).table()[j] ==> exists|s: int|
                                0 <= s < curcode && lengths@[s] != 0 && in_fill_range(
                                    *old(self),
                                    lengths@,
                                    codes@,
                                    s,
                                    j,
                                ),
                        forall|j: int|
                            0 <= j < pre.len() && pre[j] != 0 ==> self.lookup@[j] == #[trigger] pre[j],
                        forall|j: int| begin <= j < e ==> #[trigger] self.lookup@[j] == value,
                        forall|j: int|
                            0 <= j < pre.len() && !(begin <= j < e) ==> #[trigger] self.lookup@[j]
                                == pre[j],
                        forall|j: int| begin <= j < e ==> #[trigger] pre[j] == 0,
                    decreases end - e,
                {
                    if self.lookup[e as usize] != 0 {
                        proof {
                            lemma_build_frames(
                                *old(self),
                                selfpre,
                                *self,
                                lengths@,
                                codes@,
                                curcode as int,
                                begin as int,
                                e as int,
                            );
                            if (forall|j: int|
                                0 <= j < old(self).table().len() ==> old(self).table()[j] == 0)
                                && spec_ranges_ok(old(self).max_bits(), lengths@, codes@) {
                                // this window already belongs to an earlier
                                // symbol, clashing with this one's range
                                assert(self.table()[e as int] != old(self).table()[e as int]);
                                let s = choose|s: int|
                                    0 <= s < curcode && lengths@[s] != 0 && in_fill_range(
                                        *old(self),
                                        lengths@,
                                        codes@,
                                        s,
                                        e as int,
                                    );
                                assert(in_fill_range(
                                    *old(self),
                                    lengths@,
                                    codes@,
                                    curcode as int,
                                    e as int,
                                ));
                                assert(false);
                            }
                        }
                        return Err(ChdError::BadHuffman);
                    }
                    self.lookup.set(e as usize, value);
                    e = e + 1;
                }
                proof {
                    lemma_build_frames(
                        *old(self),
                        selfpre,
                        *self,
                        lengths@,
                        codes@,
                        curcode as int,
                        begin as int,
                        end as int,
                    );
                    // the claimed range is within the table, so the code
                    // fits its length
                    assert((codes@[curcode as int] + 1) * (range as int) <= pow2(
                        numbits as nat,
                    ) * (range as int) ==> codes@[curcode as int] + 1 <= pow2(numbits as nat))
                        by (nonlinear_arith)
                        requires
                            range > 0,
                    ;
                    assert(pow2(numbits as nat) * (range as int) == self.lookup@.len());
                    assert(covers(*self, curcode as u16, codes@[curcode as int] as nat, numbits));
                    // symbols filled earlier kept their ranges: those
                    // entries are non-zero, and only zero entries were
                    // written
                    assert forall|s: int|
                        0 <= s < curcode && (#[trigger] lengths@[s]) != 0 implies codes@[s] < pow2(
                        lengths@[s] as nat,
                    ) && covers(*self, s as u16, codes@[s] as nat, lengths@[s]) by {
                        assert(covers(selfpre, s as u16, codes@[s] as nat, lengths@[s]));
                        assert(self.table().len() == selfpre.table().len());
                        let p = pow2((self.max_bits() - lengths@[s]) as nat);
                        assert forall|i: int|
                            codes@[s] * p <= i < (codes@[s] + 1) * p implies self.table()[i] == (
                        s as u16) * 32 + lengths@[s] by {
                            assert(selfpre.table()[i] == (s as u16) * 32 + lengths@[s]);
                            assert(pre[i] == selfpre.table()[i]);
                            assert(pre[i] != 0);
                            assert(self.table()[i] == pre[i]);
                        }
                    }
                }
            }
            curcode = curcode + 1;
        }
        Ok(())
    }

    /// Builds the table from the run-length coded descriptor form.
    pub fn import_tree_rle(&mut self, stream: &mut BitReader) -> (r: Result<(), ChdError>)
        requires
            old(self).wf(),
            old(stream).wf(),
            old(stream).consumed() <= 8 * old(stream).stream().len(),
        ensures
            final(self).wf(),
            final(self).num_codes() == old(self).num_codes(),
            final(self).max_bits() == old(self).max_bits(),
            final(stream).stream() == old(stream).stream(),
            final(stream).wf(),
            r.is_ok() ==> final(stream).consumed() <= 8 * final(stream).stream().len(),
            r.is_ok() <==> spec_rle_import_ok(
                old(stream).stream(),
                old(stream).consumed() as int,
                old(self).spec_rle_width(),
                old(self).num_codes() as int,
                old(self).max_bits(),
            ),
            r.is_ok() ==> ({
                let d = spec_rle_lengths(
                    old(stream).stream(),
                    old(stream).consumed() as int,
                    old(self).spec_rle_width(),
                    old(self).num_codes() as int,
                    Seq::empty(),
                );
                &&& d matches Some(p)
                &&& final(stream).consumed() == p.1
                &&& spec_parity_ok(p.0)
                &&& forall|i: int| 0 <= i < p.0.len() ==> (#[trigger] p.0[i]) <= old(self).max_bits()
                &&& table_covered(*final(self), p.0, spec_canonical_codes(p.0))
                &&& forall|j: int|
                    0 <= j < final(self).table().len() && (#[trigger] final(self).table()[j]) != 0
                        ==> exists|s: int|
                        0 <= s < p.0.len() && p.0[s] != 0 && in_fill_range(
                            *final(self),
                            p.0,
                            spec_canonical_codes(p.0),
                            s,
                            j,
                        )
            }),
            r.is_err() ==> r == Err::<(), ChdError>(ChdError::BadHuffman),
    {
        let ghost ok = spec_rle_import_ok(
            old(stream).stream(),
            old(stream).consumed() as int,
            self.spec_rle_width(),
            self.num_codes() as int,
            self.max_bits(),
        );
        let lengths = match self.read_numbits_rle(stream) {
            Ok(l) => l,
            Err(e) => {
                proof {
                    assert(!ok);
                }
                return Err(e);
            },
        };
        let codes = match self.assign_canonical_codes(&lengths) {
            Ok(c) => c,
            Err(e) => {
                proof {
                    assert(!ok);
                }
                return Err(e);
            },
        };
        self.reset();
        let ghost cleared = *self;
        match self.build_lookup_table(&lengths, &codes) {
            Ok(()) => {
                proof {
                    assert(table_covered(*self, lengths@, codes@));
                    lemma_covered_disjoint(*self, lengths@, codes@);
                    assert(ok);
                    assert forall|j: int|
                        0 <= j < self.table().len() && (#[trigger] self.table()[j]) != 0 implies exists|
                        s: int,
                    |
                        0 <= s < lengths@.len() && lengths@[s] != 0 && in_fill_range(
                            *self,
                            lengths@,
                            codes@,
                            s,
                            j,
                        ) by {
                        assert(self.table()[j] != cleared.table()[j]);
                        let s = choose|s: int|
                            0 <= s < lengths@.len() && lengths@[s] != 0 && in_fill_range(
                                cleared,
                                lengths@,
                                codes@,
                                s,
                                j,
                            );
                        assert(in_fill_range(*self, lengths@, codes@, s, j));
                    }
                }
                Ok(())
            },
            Err(e) => {
                proof {
                    assert(!ok);
                }
                Err(e)
            },
        }
    }

    /// Reads the compact block of code lengths for the small table used by
    /// the full-Huffman descriptor form.
    fn read_numbits_small(&self, stream: &mut BitReader) -> (r: Vec<u8>)
        requires
            self.wf(),
            self.num_codes() == 24,
            old(stream).wf(),
            old(stream).consumed() <= 8 * old(stream).stream().len(),
        ensures
            final(stream).stream() == old(stream).stream(),
            final(stream).wf(),
            r@.len() == self.num_codes(),
            forall|i: int| 0 <= i < r@.len() ==> (#[trigger] r@[i]) < 32,
            final(stream).consumed() <= old(stream).consumed() + 78,
            ({
                let sl = spec_small_lengths(old(stream).stream(), old(stream).consumed() as int);
                r@ == sl.0 && final(stream).consumed() == sl.1
            }),
    {
        let numcodes = self.numcodes as usize;
        let ghost data = old(stream).stream();
        let ghost pos0 = old(stream).consumed() as int;
        let mut lengths: Vec<u8> = Vec::new();
        let first = self.read_width(stream, 3);
        lengths.push(first as u8);
        let mut count: u32 = 0;
        let start = self.read_width(stream, 3) as usize + 1;
        let mut index: usize = 1;
        while index < numcodes
            invariant
                numcodes == 24,
                numcodes == self.num_codes(),
                self.wf(),
                stream.wf(),
                stream.stream() == old(stream).stream(),
                data == old(stream).stream(),
                data.len() < crate::bitstream::MAX_STREAM_BYTES,
                1 <= index <= numcodes,
                lengths@.len() == index,
                count < 32,
                pos0 <= 8 * data.len(),
                stream.consumed() <= pos0 + 6 + 3 * index,
                forall|i: int| 0 <= i < lengths@.len() ==> (#[trigger] lengths@[i]) < 32,
                spec_small_lengths(data, pos0) == spec_small_loop(
                    data,
                    stream.consumed() as int,
                    start as int,
                    count as int,
                    index as int,
                    lengths@,
                ),
            decreases numcodes - index,
        {
            proof {
                assert(8 * data.len() + 128 < u64::MAX);
            }
            if index < start || count == 7 {
                lengths.push(0);
            } else {
                count = self.read_width(stream, 3);
                if count == 7 {
                    lengths.push(0);
                } else {
                    lengths.push(count as u8);
                }
            }
            index = index + 1;
        }
        lengths
    }

    /// Decodes the main table's code lengths through the small table: a
    /// non-zero symbol is one more than the next length, a zero repeats the
    /// previous length with an explicit count.
    fn read_numbits_huffman(
        &self,
        smallhuff: &Huffman,
        stream: &mut BitReader,
        smalllens: Ghost<Seq<u8>>,
    ) -> (r: Result<Vec<u8>, ChdError>)
        requires
            self.wf(),
            self.num_codes() > 9,
            smallhuff.wf(),
            smallhuff.num_codes() <= 32,
            smallhuff.max_bits() == 6,
            smallhuff.table().len() == 64,
            forall|j: int|
                0 <= j < 64 ==> (#[trigger] smallhuff.table()[j]) == spec_tbl(6, smalllens@, j),
            old(stream).wf(),
            old(stream).consumed() <= 8 * old(stream).stream().len() + 128,
        ensures
            final(stream).stream() == old(stream).stream(),
            final(stream).wf(),
            r.is_ok(),
            match r {
                Ok(lengths) => {
                    &&& lengths@.len() == self.num_codes()
                    &&& forall|i: int| 0 <= i < lengths@.len() ==> (#[trigger] lengths@[i]) < 32
                    &&& ({
                        let ml = spec_main_lengths(
                            old(stream).stream(),
                            smalllens@,
                            old(stream).consumed() as int,
                            self.num_codes() as int,
                            spec_bits_of(self.num_codes() - 9),
                            0,
                            Seq::empty(),
                        );
                        lengths@ == ml.0 && final(stream).consumed() == ml.1
                    })
                    &&& final(stream).consumed() <= old(stream).consumed() + 20 + 20
                        * self.num_codes()
                },
                Err(e) => e == ChdError::BadHuffman,
            },
    {
        // how many bits an extended repeat count carries: enough for any
        // count up to the symbol count
        proof {
            lemma2_to64();
        }
        let mut rlefullbits: u8 = 0;
        let mut temp: u32 = self.numcodes - 9;
        while temp > 0
            invariant
                rlefullbits <= 11,
                temp < pow2((11 - rlefullbits) as nat),
                spec_bits_of(self.num_codes() - 9) == rlefullbits + spec_bits_of(temp as int),
            decreases temp,
        {
            proof {
                lemma2_to64();
                lemma_pow2_unfold((11 - rlefullbits) as nat);
                assert(spec_bits_of(temp as int) == 1 + spec_bits_of(temp as int / 2));
            }
            temp = temp / 2;
            rlefullbits = rlefullbits + 1;
        }
        proof {
            assert(spec_bits_of(0) == 0);
            assert(rlefullbits == spec_bits_of(self.num_codes() - 9));
        }
        let numcodes = self.numcodes as usize;
        let ghost data = old(stream).stream();
        let ghost pos0 = old(stream).consumed() as int;
        let ghost rb = rlefullbits as int;
        let mut lengths: Vec<u8> = Vec::new();
        let mut last: u8 = 0;
        while lengths.len() < numcodes
            invariant
                numcodes == self.num_codes(),
                numcodes > 9,
                self.wf(),
                smallhuff.wf(),
                smallhuff.num_codes() <= 32,
                smallhuff.max_bits() == 6,
                smallhuff.table().len() == 64,
                forall|j: int|
                    0 <= j < 64 ==> (#[trigger] smallhuff.table()[j]) == spec_tbl(6, smalllens@, j),
                stream.wf(),
                stream.stream() == old(stream).stream(),
                data == old(stream).stream(),
                data.len() < crate::bitstream::MAX_STREAM_BYTES,
                lengths@.len() <= numcodes,
                last < 32,
                rlefullbits <= 11,
                rb == rlefullbits as int,
                rb == spec_bits_of(numcodes - 9),
                pos0 <= 8 * data.len() + 128,
                stream.consumed() <= pos0 + 20 + 20 * lengths@.len(),
                forall|i: int| 0 <= i < lengths@.len() ==> (#[trigger] lengths@[i]) < 32,
                spec_main_lengths(data, smalllens@, pos0, numcodes as int, rb, 0, Seq::empty())
                    == spec_main_lengths(
                    data,
                    smalllens@,
                    stream.consumed() as int,
                    numcodes as int,
                    rb,
                    last,
                    lengths@,
                ),
            decreases numcodes - lengths.len(),
        {
            proof {
                assert(8 * data.len() + 256 + 20 * numcodes + 64 < u64::MAX);
            }
            let ghost posa = stream.consumed() as int;
            let ghost acc0 = lengths@;
            let ghost pres = *stream;
            let nodebits = smallhuff.decode_one(stream);
            proof {
                lemma_stream_value_bound(data, posa, 6);
                lemma2_to64();
            }
            if nodebits != 0 {
                last = (nodebits - 1) as u8;
                lengths.push(last);
            } else {
                let ghost pre3 = *stream;
                let raw = stream.read(3);
                proof {
                    lemma_stream_value_bound(pre3.stream(), pre3.consumed() as int, 3);
                    lemma2_to64();
                }
                let mut count: u32 = raw + 2;
                if count == 7 + 2 {
                    let ghost pre = *stream;
                    let extra = stream.read(rlefullbits as usize);
                    proof {
                        lemma_stream_value_bound(
                            pre.stream(),
                            pre.consumed() as int,
                            rlefullbits as int,
                        );
                        lemma_pow2_strictly_increases(rlefullbits as nat, 12);
                        lemma2_to64();
                    }
                    count = count + extra;
                }
                let ghost len0 = lengths@.len();
                let mut j: u32 = 0;
                while j < count && lengths.len() < numcodes
                    invariant
                        j <= count,
                        numcodes == self.num_codes(),
                        lengths@.len() <= numcodes,
                        lengths@.len() == len0 + j,
                        len0 == acc0.len(),
                        len0 < numcodes,
                        forall|i: int| 0 <= i < len0 ==> lengths@[i] == acc0[i],
                        forall|i: int|
                            len0 <= i < lengths@.len() ==> (#[trigger] lengths@[i]) == last,
                        last < 32,
                        forall|i: int| 0 <= i < lengths@.len() ==> (#[trigger] lengths@[i]) < 32,
                    decreases count - j,
                {
                    lengths.push(last);
                    j = j + 1;
                }
                proof {
                    let emit = if count as int <= numcodes - acc0.len() {
                        count as int
                    } else {
                        numcodes - acc0.len()
                    };
                    assert(j == emit);
                    assert(lengths@ =~= acc0 + Seq::new(emit as nat, |i: int| last));
                }
            }
        }
        Ok(lengths)
    }

    /// Builds the table from the full-Huffman descriptor form: first a
    /// 24-symbol, 6-bit small table, then the main lengths decoded through
    /// it.
    pub fn import_tree_huffman(&mut self, stream: &mut BitReader) -> (r: Result<(), ChdError>)
        requires
            old(self).wf(),
            old(self).num_codes() > 9,
            old(stream).wf(),
            old(stream).consumed() <= 8 * old(stream).stream().len(),
        ensures
            final(self).wf(),
            final(self).num_codes() == old(self).num_codes(),
            final(self).max_bits() == old(self).max_bits(),
            final(stream).stream() == old(stream).stream(),
            final(stream).wf(),
            r.is_ok() <==> spec_full_import_ok(
                old(stream).stream(),
                old(stream).consumed() as int,
                old(self).num_codes() as int,
                old(self).max_bits(),
            ),
            r.is_ok() ==> ({
                let sl = spec_small_lengths(old(stream).stream(), old(stream).consumed() as int);
                let ml = spec_main_lengths(
                    old(stream).stream(),
                    sl.0,
                    sl.1,
                    old(self).num_codes() as int,
                    spec_bits_of(old(self).num_codes() - 9),
                    0,
                    Seq::empty(),
                );
                &&& spec_parity_ok(sl.0)
                &&& spec_parity_ok(ml.0)
                &&& forall|i: int| 0 <= i < ml.0.len() ==> (#[trigger] ml.0[i]) <= old(self).max_bits()
                &&& final(stream).consumed() == ml.1
                &&& final(stream).consumed() <= old(stream).consumed() + 98 + 20 * old(
                    self,
                ).num_codes()
                &&& table_covered(*final(self), ml.0, spec_canonical_codes(ml.0))
                &&& forall|j: int|
                    0 <= j < final(self).table().len() && (#[trigger] final(self).table()[j]) != 0
                        ==> exists|s: int|
                        0 <= s < ml.0.len() && ml.0[s] != 0 && in_fill_range(
                            *final(self),
                            ml.0,
                            spec_canonical_codes(ml.0),
                            s,
                            j,
                        )
            }),
            r.is_err() ==> r == Err::<(), ChdError>(ChdError::BadHuffman),
    {
        let ghost ok = spec_full_import_ok(
            old(stream).stream(),
            old(stream).consumed() as int,
            self.num_codes() as int,
            self.max_bits(),
        );
        let mut smallhuff = Huffman::new(24, 6);
        let ghost smallcleared = smallhuff;
        let smalllengths = smallhuff.read_numbits_small(stream);
        let smallcodes = match smallhuff.assign_canonical_codes(&smalllengths) {
            Ok(c) => c,
            Err(e) => {
                proof {
                    assert(!ok);
                }
                return Err(e);
            },
        };
        match smallhuff.build_lookup_table(&smalllengths, &smallcodes) {
            Ok(()) => (),
            Err(e) => {
                proof {
                    assert(!ok);
                }
                return Err(e);
            },
        };
        proof {
            lemma_covered_disjoint(smallhuff, smalllengths@, smallcodes@);
        }
        proof {
            assert forall|j: int|
                0 <= j < smallhuff.table().len() && (#[trigger] smallhuff.table()[j]) != 0 implies exists|
                s: int,
            |
                0 <= s < smalllengths@.len() && smalllengths@[s] != 0 && in_fill_range(
                    smallhuff,
                    smalllengths@,
                    smallcodes@,
                    s,
                    j,
                ) by {
                assert(smallhuff.table()[j] != smallcleared.table()[j]);
                let s = choose|s: int|
                    0 <= s < smalllengths@.len() && smalllengths@[s] != 0 && in_fill_range(
                        smallcleared,
                        smalllengths@,
                        smallcodes@,
                        s,
                        j,
                    );
                assert(in_fill_range(smallhuff, smalllengths@, smallcodes@, s, j));
            }
            lemma_table_matches_fill(smallhuff, smalllengths@);
            lemma2_to64();
            assert(smallhuff.table().len() == 64);
        }
        let lengths = match self.read_numbits_huffman(&smallhuff, stream, Ghost(smalllengths@)) {
            Ok(l) => l,
            Err(e) => {
                proof {
                    assert(false);
                }
                return Err(e);
            },
        };
        let codes = match self.assign_canonical_codes(&lengths) {
            Ok(c) => c,
            Err(e) => {
                proof {
                    assert(!ok);
                }
                return Err(e);
            },
        };
        self.reset();
        let ghost cleared = *self;
        match self.build_lookup_table(&lengths, &codes) {
            Ok(()) => {
                proof {
                    assert(table_covered(*self, lengths@, codes@));
                    lemma_covered_disjoint(*self, lengths@, codes@);
                    assert(ok);
                    assert forall|j: int|
                        0 <= j < self.table().len() && (#[trigger] self.table()[j]) != 0 implies exists|
                        s: int,
                    |
                        0 <= s < lengths@.len() && lengths@[s] != 0 && in_fill_range(
                            *self,
                            lengths@,
                            codes@,
                            s,
                            j,
                        ) by {
                        assert(self.table()[j] != cleared.table()[j]);
                        let s = choose|s: int|
                            0 <= s < lengths@.len() && lengths@[s] != 0 && in_fill_range(
                                cleared,
                                lengths@,
                                codes@,
                                s,
                                j,
                            );
                        assert(in_fill_range(*self, lengths@, codes@, s, j));
                    }
                }
                Ok(())
            },
            Err(e) => {
                proof {
                    assert(!ok);
                }
                Err(e)
            },
        }
    }
}

/// The table hands the `2^(max_bits - len)` windows beginning with `code`
/// to `sym` with code length `len`; the whole range lies inside the
/// table.
pub open spec fn covers(h: Huffman, sym: u16, code: nat, len: u8) -> bool {
    &&& (code + 1) * pow2((h.max_bits() - len) as nat) <= h.table().len()
    &&& forall|i: int|
        code * pow2((h.max_bits() - len) as nat) <= i < (code + 1) * pow2(
            (h.max_bits() - len) as nat,
        ) ==> h.table()[i] == sym * 32 + len
}

/// How many of the first `n` slots of `lens` hold length `b`.
pub open spec fn len_count(lens: Seq<u8>, b: int, n: int) -> int
    decreases n,
{
    if n <= 0 {
        0
    } else {
        len_count(lens, b, n - 1) + if lens[n - 1] == b {
            1int
        } else {
            0int
        }
    }
}

/// The starting code for length `level`, built from the longest length
/// down: each step halves the count of codes one level longer.
pub open spec fn spec_curstart(lens: Seq<u8>, level: int) -> int
    decreases 31 - level,
{
    if level >= 31 {
        0
    } else {
        (spec_curstart(lens, level + 1) + len_count(lens, level + 1, lens.len() as int)) / 2
    }
}

/// The parity constraint of canonicalization: for every length above one,
/// the count of codes at that length added to its starting code is even,
/// so the halving loses nothing.
pub open spec fn spec_parity_ok(lens: Seq<u8>) -> bool {
    forall|c: int|
        2 <= c <= 31 ==> ((#[trigger] spec_curstart(lens, c)) + len_count(
            lens,
            c,
            lens.len() as int,
        )) % 2 == 0
}

/// The canonical code of symbol `s`: its length's starting code advanced
/// once for each earlier symbol of the same length.
pub open spec fn spec_canonical_code(lens: Seq<u8>, s: int) -> int {
    spec_curstart(lens, lens[s] as int) + len_count(lens, lens[s] as int, s)
}

/// The whole canonical assignment: one code per symbol, zero for symbols
/// without a code.
pub open spec fn spec_canonical_codes(lens: Seq<u8>) -> Seq<u32> {
    Seq::new(
        lens.len(),
        |s: int|
            if lens[s] != 0 {
                spec_canonical_code(lens, s) as u32
            } else {
                0u32
            },
    )
}

/// How many bits are needed to write `n`: the width of an extended
/// repeat count.
pub open spec fn spec_bits_of(n: int) -> int
    decreases n,
{
    if n <= 0 {
        0
    } else {
        1 + spec_bits_of(n / 2)
    }
}

/// Decodes the compact block that carries the small table's code lengths
/// from slot `idx` on: slots before `start` are zero, a raw seven is
/// zero and zeroes every further slot, and any other raw value is the
/// length itself.
pub open spec fn spec_small_loop(
    data: Seq<u8>,
    pos: int,
    start: int,
    count: int,
    idx: int,
    acc: Seq<u8>,
) -> (Seq<u8>, int)
    decreases 24 - idx,
{
    if idx >= 24 {
        (acc, pos)
    } else if idx < start || count == 7 {
        spec_small_loop(data, pos, start, count, idx + 1, acc.push(0))
    } else {
        let c2 = stream_value(data, pos, 3) as int;
        spec_small_loop(
            data,
            pos + 3,
            start,
            c2,
            idx + 1,
            acc.push(
                if c2 == 7 {
                    0u8
                } else {
                    c2 as u8
                },
            ),
        )
    }
}

/// The whole compact block: slot zero's length is raw, then a start
/// index, then the remaining slots.
pub open spec fn spec_small_lengths(data: Seq<u8>, pos: int) -> (Seq<u8>, int) {
    let l0 = stream_value(data, pos, 3);
    let start = stream_value(data, pos + 3, 3) + 1;
    spec_small_loop(data, pos + 6, start as int, 0, 1, seq![l0 as u8])
}

/// Decodes the main table's code lengths through the small table of
/// `smalllens`: a non-zero symbol is one more than the next length, a
/// zero repeats the previous length with an explicit count, extended by
/// `rlebits` more bits when the short count is at its maximum, and
/// clamped to the remaining slots.
pub open spec fn spec_main_lengths(
    data: Seq<u8>,
    smalllens: Seq<u8>,
    pos: int,
    numcodes: int,
    rlebits: int,
    last: u8,
    acc: Seq<u8>,
) -> (Seq<u8>, int)
    decreases numcodes - acc.len(),
{
    if acc.len() >= numcodes {
        (acc, pos)
    } else {
        let e = spec_tbl(6, smalllens, stream_value(data, pos, 6) as int);
        let sym = entry_symbol(e);
        let p1 = pos + entry_length(e);
        if sym != 0 {
            spec_main_lengths(
                data,
                smalllens,
                p1,
                numcodes,
                rlebits,
                (sym - 1) as u8,
                acc.push((sym - 1) as u8),
            )
        } else {
            let count0 = stream_value(data, p1, 3) + 2;
            let count = if count0 == 9 {
                count0 + stream_value(data, p1 + 3, rlebits)
            } else {
                count0
            };
            let p2 = if count0 == 9 {
                p1 + 3 + rlebits
            } else {
                p1 + 3
            };
            let emit = if count <= numcodes - acc.len() {
                count as int
            } else {
                numcodes - acc.len()
            };
            spec_main_lengths(
                data,
                smalllens,
                p2,
                numcodes,
                rlebits,
                last,
                acc + Seq::new(emit as nat, |i: int| last),
            )
        }
    }
}

/// Every entry of `h`'s table is the canonical fill of `lens`.
pub open spec fn spec_tbl_table(h: Huffman, lens: Seq<u8>) -> bool {
    forall|j: int|
        0 <= j < h.table().len() ==> (#[trigger] h.table()[j]) == spec_tbl(h.max_bits(), lens, j)
}

/// Decodes `n` eight-bit symbols, one table lookup of sixteen peeked
/// bits each, through the canonical table of `lens`.
pub open spec fn spec_decode_bytes(
    data: Seq<u8>,
    lens: Seq<u8>,
    pos: int,
    n: int,
    acc: Seq<u8>,
) -> (Seq<u8>, int)
    decreases n,
{
    if n <= 0 {
        (acc, pos)
    } else {
        let e = spec_tbl(16, lens, stream_value(data, pos, 16) as int);
        spec_decode_bytes(
            data,
            lens,
            pos + entry_length(e),
            n - 1,
            acc.push(entry_symbol(e) as u8),
        )
    }
}

/// Decodes the run-length coded length descriptor: starting at bit `pos`
/// with `acc` slots already filled, the completed slot list and the bit
/// position after it, or `None` when a repeat run overruns the slot
/// count.  Each value is `w` bits; a raw value other than one is a
/// length, a one escapes either a literal one or a repeated length.
pub open spec fn spec_rle_lengths(
    data: Seq<u8>,
    pos: int,
    w: int,
    numcodes: int,
    acc: Seq<u8>,
) -> Option<(Seq<u8>, int)>
    decreases numcodes - acc.len(),
{
    if acc.len() >= numcodes {
        Some((acc, pos))
    } else {
        let v = stream_value(data, pos, w);
        if v != 1 {
            spec_rle_lengths(data, pos + w, w, numcodes, acc.push(v as u8))
        } else {
            let v2 = stream_value(data, pos + w, w);
            if v2 == 1 {
                spec_rle_lengths(data, pos + 2 * w, w, numcodes, acc.push(1))
            } else {
                let rep = stream_value(data, pos + 2 * w, w) + 3;
                if acc.len() + rep > numcodes {
                    None
                } else {
                    spec_rle_lengths(
                        data,
                        pos + 3 * w,
                        w,
                        numcodes,
                        acc + Seq::new(rep, |i: int| v2 as u8),
                    )
                }
            }
        }
    }
}

/// The lookup entry at window `j` of the table that the canonical fill
/// of `lens` produces: the packed symbol and length of the owner of `j`,
/// or zero where no symbol's range reaches it.
pub open spec fn spec_tbl(maxbits: u8, lens: Seq<u8>, j: int) -> u16 {
    let codes = spec_canonical_codes(lens);
    if exists|s: int|
        0 <= s < lens.len() && lens[s] != 0 && codes[s] * pow2((maxbits - lens[s]) as nat) <= j
            < (codes[s] + 1) * pow2((maxbits - lens[s]) as nat) {
        let s = choose|s: int|
            0 <= s < lens.len() && lens[s] != 0 && codes[s] * pow2((maxbits - lens[s]) as nat)
                <= j < (codes[s] + 1) * pow2((maxbits - lens[s]) as nat);
        ((s as u16) * 32 + lens[s]) as u16
    } else {
        0
    }
}

/// A table that is covered by the canonical assignment of `lens` and
/// holds nothing else is exactly the canonical fill.
pub proof fn lemma_table_matches_fill(h: Huffman, lens: Seq<u8>)
    requires
        h.wf(),
        lens.len() == h.num_codes(),
        table_covered(h, lens, spec_canonical_codes(lens)),
        forall|j: int|
            0 <= j < h.table().len() && (#[trigger] h.table()[j]) != 0 ==> exists|s: int|
                0 <= s < lens.len() && lens[s] != 0 && in_fill_range(
                    h,
                    lens,
                    spec_canonical_codes(lens),
                    s,
                    j,
                ),
    ensures
        forall|j: int|
            0 <= j < h.table().len() ==> (#[trigger] h.table()[j]) == spec_tbl(
                h.max_bits(),
                lens,
                j,
            ),
{
    let codes = spec_canonical_codes(lens);
    assert forall|j: int| 0 <= j < h.table().len() implies (#[trigger] h.table()[j]) == spec_tbl(
        h.max_bits(),
        lens,
        j,
    ) by {
        if exists|s: int|
            0 <= s < lens.len() && lens[s] != 0 && codes[s] * pow2((h.max_bits() - lens[s]) as nat)
                <= j < (codes[s] + 1) * pow2((h.max_bits() - lens[s]) as nat) {
            let s = choose|s: int|
                0 <= s < lens.len() && lens[s] != 0 && codes[s] * pow2(
                    (h.max_bits() - lens[s]) as nat,
                ) <= j < (codes[s] + 1) * pow2((h.max_bits() - lens[s]) as nat);
            assert(covers(h, s as u16, codes[s] as nat, lens[s]));
            assert(h.table()[j] == (s as u16) * 32 + lens[s]);
        } else {
            if h.table()[j] != 0 {
                let s = choose|s: int|
                    0 <= s < lens.len() && lens[s] != 0 && in_fill_range(h, lens, codes, s, j);
                assert(in_fill_range(h, lens, codes, s, j));
                assert(codes[s] * pow2((h.max_bits() - lens[s]) as nat) <= j < (codes[s] + 1)
                    * pow2((h.max_bits() - lens[s]) as nat));
                assert(false);
            }
        }
    }
}

/// Composes the table frames across one symbol's fill: from the function
/// entry state `h0` through the iteration entry state `hp` to the current
/// state `hc`, non-zero entries of `h0` survive, and every changed entry
/// lies in the fill range of a symbol processed so far.
proof fn lemma_build_frames(
    h0: Huffman,
    hp: Huffman,
    hc: Huffman,
    lens: Seq<u8>,
    codes: Seq<u32>,
    c: int,
    begin: int,
    e: int,
)
    requires
        hp.table().len() == h0.table().len(),
        hc.table().len() == h0.table().len(),
        0 <= c < lens.len(),
        lens[c] != 0,
        begin == codes[c] * pow2((h0.max_bits() - lens[c]) as nat),
        e <= (codes[c] + 1) * pow2((h0.max_bits() - lens[c]) as nat),
        forall|j: int|
            0 <= j < h0.table().len() && (#[trigger] h0.table()[j]) != 0 ==> hp.table()[j]
                == h0.table()[j],
        forall|j: int|
            0 <= j < h0.table().len() && (#[trigger] hp.table()[j]) != h0.table()[j]
                ==> exists|s: int|
                0 <= s < c && lens[s] != 0 && in_fill_range(h0, lens, codes, s, j),
        forall|j: int|
            0 <= j < hp.table().len() && !(begin <= j < e) ==> (#[trigger] hc.table()[j])
                == hp.table()[j],
        forall|j: int| begin <= j < e ==> (#[trigger] hp.table()[j]) == 0,
    ensures
        forall|j: int|
            0 <= j < h0.table().len() && (#[trigger] h0.table()[j]) != 0 ==> hc.table()[j]
                == h0.table()[j],
        forall|j: int|
            0 <= j < h0.table().len() && (#[trigger] hc.table()[j]) != h0.table()[j]
                ==> exists|s: int|
                0 <= s <= c && lens[s] != 0 && in_fill_range(h0, lens, codes, s, j),
{
    assert forall|j: int|
        0 <= j < h0.table().len() && (#[trigger] h0.table()[j]) != 0 implies hc.table()[j]
        == h0.table()[j] by {
        if begin <= j < e {
            assert(hp.table()[j] == 0);
            assert(hp.table()[j] == h0.table()[j]);
        } else {
            assert(hc.table()[j] == hp.table()[j]);
            assert(hp.table()[j] == h0.table()[j]);
        }
    }
    assert forall|j: int|
        0 <= j < h0.table().len() && (#[trigger] hc.table()[j]) != h0.table()[j] implies exists|
        s: int,
    |
        0 <= s <= c && lens[s] != 0 && in_fill_range(h0, lens, codes, s, j) by {
        if begin <= j < e {
            assert(in_fill_range(h0, lens, codes, c, j));
        } else {
            assert(hc.table()[j] == hp.table()[j]);
            assert(hp.table()[j] != h0.table()[j]);
            let s = choose|s: int|
                0 <= s < c && lens[s] != 0 && in_fill_range(h0, lens, codes, s, j);
            assert(0 <= s <= c && lens[s] != 0 && in_fill_range(h0, lens, codes, s, j));
        }
    }
}

/// Window `j` lies in the fill range of symbol `s` under the assignment
/// `(lens, codes)`.
pub open spec fn in_fill_range(h: Huffman, lens: Seq<u8>, codes: Seq<u32>, s: int, j: int) -> bool {
    codes[s] * pow2((h.max_bits() - lens[s]) as nat) <= j < (codes[s] + 1) * pow2(
        (h.max_bits() - lens[s]) as nat,
    )
}

/// Every symbol with a non-zero length owns its window range: the table
/// is exactly described by the code assignment `(lens, codes)`.
pub open spec fn table_covered(h: Huffman, lens: Seq<u8>, codes: Seq<u32>) -> bool {
    &&& lens.len() == h.num_codes()
    &&& codes.len() == h.num_codes()
    &&& forall|s: int|
        0 <= s < lens.len() && (#[trigger] lens[s]) != 0 ==> 1 <= lens[s] <= h.max_bits()
            && codes[s] < pow2(lens[s] as nat) && covers(h, s as u16, codes[s] as nat, lens[s])
}

/// The assignment's fill ranges fit the table and do not clash: every
/// coded symbol's range lies within `2^maxbits` windows, and no two
/// coded symbols' ranges intersect.
pub open spec fn spec_ranges_ok(maxbits: u8, lens: Seq<u8>, codes: Seq<u32>) -> bool {
    &&& forall|s: int|
        0 <= s < lens.len() && (#[trigger] lens[s]) != 0 ==> lens[s] <= maxbits && (codes[s] + 1)
            * pow2((maxbits - lens[s]) as nat) <= pow2(maxbits as nat)
    &&& forall|s1: int, s2: int|
        0 <= s1 < lens.len() && 0 <= s2 < lens.len() && s1 != s2 && (#[trigger] lens[s1]) != 0 && (
        #[trigger] lens[s2]) != 0 ==> ((codes[s1] + 1) * pow2((maxbits - lens[s1]) as nat)
            <= codes[s2] * pow2((maxbits - lens[s2]) as nat) || (codes[s2] + 1) * pow2(
            (maxbits - lens[s2]) as nat,
        ) <= codes[s1] * pow2((maxbits - lens[s1]) as nat))
}

/// The canonical assignment's fill ranges fit and do not clash.
pub open spec fn spec_fill_ok(maxbits: u8, lens: Seq<u8>) -> bool {
    spec_ranges_ok(maxbits, lens, spec_canonical_codes(lens))
}

/// The run-length coded descriptor at `pos` imports cleanly: it parses
/// to a full slot list ending inside the stream, every length fits the
/// table's maximum, the parity constraint holds, and the canonical fill
/// ranges fit without clashing.
pub open spec fn spec_rle_import_ok(
    data: Seq<u8>,
    pos: int,
    w: int,
    numcodes: int,
    maxbits: u8,
) -> bool {
    let d = spec_rle_lengths(data, pos, w, numcodes, Seq::empty());
    &&& d matches Some(p)
    &&& p.1 <= 8 * data.len()
    &&& (forall|i: int| 0 <= i < p.0.len() ==> (#[trigger] p.0[i]) <= maxbits)
    &&& spec_parity_ok(p.0)
    &&& spec_fill_ok(maxbits, p.0)
}

/// The full-Huffman descriptor at `pos` imports cleanly: the small
/// table's lengths fit six bits with parity and clash-free canonical
/// ranges, and the main lengths decoded through it fit `maxbits` with
/// parity and clash-free canonical ranges.
pub open spec fn spec_full_import_ok(data: Seq<u8>, pos: int, numcodes: int, maxbits: u8) -> bool {
    let sl = spec_small_lengths(data, pos);
    let ml = spec_main_lengths(
        data,
        sl.0,
        sl.1,
        numcodes,
        spec_bits_of(numcodes - 9),
        0,
        Seq::empty(),
    );
    &&& (forall|i: int| 0 <= i < sl.0.len() ==> (#[trigger] sl.0[i]) <= 6)
    &&& spec_parity_ok(sl.0)
    &&& spec_fill_ok(6, sl.0)
    &&& (forall|i: int| 0 <= i < ml.0.len() ==> (#[trigger] ml.0[i]) <= maxbits)
    &&& spec_parity_ok(ml.0)
    &&& spec_fill_ok(maxbits, ml.0)
}

/// A covered table's fill ranges cannot clash: two symbols sharing a
/// window would force one entry to pack both.
pub proof fn lemma_covered_disjoint(h: Huffman, lens: Seq<u8>, codes: Seq<u32>)
    requires
        h.wf(),
        table_covered(h, lens, codes),
    ensures
        spec_ranges_ok(h.max_bits(), lens, codes),
{
    assert forall|s1: int, s2: int|
        0 <= s1 < lens.len() && 0 <= s2 < lens.len() && s1 != s2 && (#[trigger] lens[s1]) != 0 && (
        #[trigger] lens[s2]) != 0 implies ((codes[s1] + 1) * pow2((h.max_bits() - lens[s1]) as nat)
        <= codes[s2] * pow2((h.max_bits() - lens[s2]) as nat) || (codes[s2] + 1) * pow2(
        (h.max_bits() - lens[s2]) as nat,
    ) <= codes[s1] * pow2((h.max_bits() - lens[s1]) as nat)) by {
        let p1 = pow2((h.max_bits() - lens[s1]) as nat);
        let p2 = pow2((h.max_bits() - lens[s2]) as nat);
        let a1 = codes[s1] * p1;
        let b1 = (codes[s1] + 1) * p1;
        let a2 = codes[s2] * p2;
        let b2 = (codes[s2] + 1) * p2;
        if !(b1 <= a2 || b2 <= a1) {
            lemma_pow2_pos((h.max_bits() - lens[s1]) as nat);
            lemma_pow2_pos((h.max_bits() - lens[s2]) as nat);
            assert(b1 == a1 + p1) by (nonlinear_arith)
                requires
                    a1 == codes[s1] * p1,
                    b1 == (codes[s1] + 1) * p1,
            ;
            assert(b2 == a2 + p2) by (nonlinear_arith)
                requires
                    a2 == codes[s2] * p2,
                    b2 == (codes[s2] + 1) * p2,
            ;
            let j = if a1 >= a2 {
                a1
            } else {
                a2
            };
            assert(a1 <= j < b1 && a2 <= j < b2);
            assert(covers(h, s1 as u16, codes[s1] as nat, lens[s1]));
            assert(covers(h, s2 as u16, codes[s2] as nat, lens[s2]));
            assert(h.table()[j] == (s1 as u16) * 32 + lens[s1]);
            assert(h.table()[j] == (s2 as u16) * 32 + lens[s2]);
            assert(false);
        }
    }
}

/// The symbol `decode_one` selects at position `pos` of a stream.
pub open spec fn spec_decode_symbol(h: Huffman, data: Seq<u8>, pos: int) -> u16 {
    entry_symbol(h.table()[stream_value(data, pos, h.max_bits() as int) as int])
}

/// The bits `decode_one` consumes at position `pos` of a stream.
pub open spec fn spec_decode_width(h: Huffman, data: Seq<u8>, pos: int) -> u16 {
    entry_length(h.table()[stream_value(data, pos, h.max_bits() as int) as int])
}

/// The `n` symbols that successive calls of `decode_one` yield from
/// position `pos`.
pub open spec fn spec_decode_seq(h: Huffman, data: Seq<u8>, pos: int, n: nat) -> Seq<u16>
    decreases n,
{
    if n == 0 {
        Seq::empty()
    } else {
        seq![spec_decode_symbol(h, data, pos)] + spec_decode_seq(
            h,
            data,
            pos + spec_decode_width(h, data, pos),
            (n - 1) as nat,
        )
    }
}

/// Where the `i`-th code begins when codes of lengths `lens` are laid out
/// one after another from `pos`.
pub open spec fn code_start(pos: int, lens: Seq<u8>, i: int) -> int
    decreases i,
{
    if i <= 0 {
        pos
    } else {
        code_start(pos, lens, i - 1) + lens[i - 1]
    }
}

/// Dropping the first code moves every start back by its length.
proof fn lemma_code_start_shift(pos: int, lens: Seq<u8>, i: int)
    requires
        lens.len() > 0,
        0 <= i <= lens.len() - 1,
    ensures
        code_start(pos + lens[0], lens.subrange(1, lens.len() as int), i) == code_start(
            pos,
            lens,
            i + 1,
        ),
    decreases i,
{
    let lens2 = lens.subrange(1, lens.len() as int);
    assert(code_start(pos, lens, i + 1) == code_start(pos, lens, i) + lens[i]);
    if i == 0 {
        assert(code_start(pos + lens[0], lens2, 0) == pos + lens[0]);
        assert(code_start(pos, lens, 0) == pos);
    } else {
        lemma_code_start_shift(pos, lens, i - 1);
        assert(code_start(pos + lens[0], lens2, i) == code_start(pos + lens[0], lens2, i - 1)
            + lens2[i - 1]);
        assert(lens2[i - 1] == lens[i]);
    }
}

/// Decoding inverts encoding, one symbol at a time: when the table hands a
/// window range to a symbol, and the stream holds that symbol's code bits,
/// `decode_one` returns exactly that symbol and consumes exactly its code.
pub proof fn lemma_decode_after_encode(
    h: Huffman,
    data: Seq<u8>,
    pos: int,
    sym: u16,
    code: nat,
    len: u8,
)
    requires
        h.wf(),
        1 <= len <= h.max_bits(),
        sym * 32 + len <= u16::MAX,
        code < pow2(len as nat),
        covers(h, sym, code, len),
        stream_value(data, pos, len as int) == code,
        0 <= pos,
    ensures
        entry_symbol(h.table()[stream_value(data, pos, h.max_bits() as int) as int]) == sym,
        entry_length(h.table()[stream_value(data, pos, h.max_bits() as int) as int]) == len,
{
    let mb = h.max_bits() as int;
    let rest = mb - len;
    lemma_stream_value_split(data, pos, len as int, rest);
    let tail = stream_value(data, pos + len, rest);
    lemma_stream_value_bound(data, pos + len, rest);
    let window = stream_value(data, pos, mb);
    assert(window == code * pow2(rest as nat) + tail);
    assert((code + 1) * pow2(rest as nat) == code * pow2(rest as nat) + pow2(rest as nat))
        by (nonlinear_arith);
    assert(h.table()[window as int] == sym * 32 + len);
    assert(entry_symbol((sym * 32 + len) as u16) == sym);
    assert(entry_length((sym * 32 + len) as u16) == len);
}

/// Decoding inverts encoding for whole symbol strings: when a stream
/// holds the concatenated codes of `syms`, each covered by the table,
/// decoding as many symbols yields exactly `syms`.
pub proof fn lemma_decode_after_encode_seq(
    h: Huffman,
    data: Seq<u8>,
    pos: int,
    syms: Seq<u16>,
    codes: Seq<nat>,
    lens: Seq<u8>,
)
    requires
        h.wf(),
        0 <= pos,
        codes.len() == syms.len(),
        lens.len() == syms.len(),
        forall|i: int|
            0 <= i < syms.len() ==> 1 <= (#[trigger] lens[i]) <= h.max_bits() && syms[i] * 32
                + lens[i] <= u16::MAX && codes[i] < pow2(lens[i] as nat) && covers(
                h,
                syms[i],
                codes[i],
                lens[i],
            ) && stream_value(data, code_start(pos, lens, i), lens[i] as int) == codes[i],
    ensures
        spec_decode_seq(h, data, pos, syms.len() as nat) == syms,
    decreases syms.len(),
{
    if syms.len() > 0 {
        assert(code_start(pos, lens, 0) == pos);
        lemma_decode_after_encode(h, data, pos, syms[0], codes[0], lens[0]);
        assert(spec_decode_symbol(h, data, pos) == syms[0]);
        assert(spec_decode_width(h, data, pos) == lens[0]);
        let pos2 = pos + lens[0];
        let syms2 = syms.subrange(1, syms.len() as int);
        let codes2 = codes.subrange(1, codes.len() as int);
        let lens2 = lens.subrange(1, lens.len() as int);
        assert forall|i: int| 0 <= i < syms2.len() implies 1 <= (#[trigger] lens2[i])
            <= h.max_bits() && syms2[i] * 32 + lens2[i] <= u16::MAX && codes2[i] < pow2(
            lens2[i] as nat,
        ) && covers(h, syms2[i], codes2[i], lens2[i]) && stream_value(
            data,
            code_start(pos2, lens2, i),
            lens2[i] as int,
        ) == codes2[i] by {
            assert(lens2[i] == lens[i + 1]);
            assert(syms2[i] == syms[i + 1]);
            assert(codes2[i] == codes[i + 1]);
            lemma_code_start_shift(pos, lens, i);
        }
        lemma_decode_after_encode_seq(h, data, pos2, syms2, codes2, lens2);
        assert(spec_decode_seq(h, data, pos, syms.len() as nat) == seq![syms[0]] + syms2);
        assert(seq![syms[0]] + syms2 =~= syms);
    } else {
        assert(spec_decode_seq(h, data, pos, 0) =~= syms);
    }
}

} // verus!

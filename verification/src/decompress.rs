//! Per-hunk decompressors.
//!
//! A compressed hunk is decoded by the codec its map entry names: the
//! Huffman codec is decoded here; raw DEFLATE and FLAC payloads go through
//! the `inflate` and `claxon` crates behind trusted wrappers; an unknown
//! tag fails every call.

use vstd::prelude::*;

use crate::bitstream::{BitReader, MAX_STREAM_BYTES};
use crate::huffman;
use crate::utils::{be16, le16, write_be16, write_le16};
use crate::ChdError;

verus! {

broadcast use vstd::group_vstd_default;

/// What raw DEFLATE decompression of a byte string yields, when it is a
/// well-formed stream.
pub uninterp spec fn inflate_of(src: Seq<u8>) -> Option<Seq<u8>>;

/// Relies on inflate::inflate_bytes: raw DEFLATE decoding, a function of
/// the input bytes alone.
#[verifier::external_body]
fn inflate_bytes_raw(src: &Vec<u8>) -> (r: Option<Vec<u8>>)
    ensures
        match r {
            Some(v) => inflate_of(src@) == Some(v@),
            None => inflate_of(src@) is None,
        },
{
    inflate::inflate_bytes(src.as_slice()).ok()
}

/// What decoding one FLAC frame of a byte string yields, when it holds
/// one: the frame's duration, its channel count, and its samples truncated
/// to 16 bits, channel after channel.
pub uninterp spec fn flac_frame_of(src: Seq<u8>) -> Option<(u32, u32, Seq<u16>)>;

/// Relies on claxon::frame::FrameReader: decodes one FLAC frame from the
/// bytes alone; the decoded buffer holds `channels * duration` samples,
/// channel after channel.
#[verifier::external_body]
fn decode_flac_frame(src: &Vec<u8>) -> (r: Option<(u32, u32, Vec<u16>)>)
    ensures
        match r {
            Some(t) => flac_frame_of(src@) == Some((t.0, t.1, t.2@)) && t.2@.len() == t.1 * t.0,
            None => flac_frame_of(src@) is None,
        },
{
    let cursor = std::io::Cursor::new(src.as_slice());
    let reader = claxon::input::BufferedReader::new(cursor);
    let mut frames = claxon::frame::FrameReader::new(reader);
    match frames.read_next_or_eof(Vec::new()) {
        Ok(Some(block)) => {
            let duration = block.duration();
            let channels = block.channels();
            let samples = block.into_buffer().into_iter().map(|s| s as u16).collect();
            Some((duration, channels, samples))
        },
        _ => None,
    }
}

/// A codec slot whose tag names no decoder this reader has; every call
/// fails.
pub struct Unknown {
    tag: u32,
}

impl Unknown {
    /// An always-failing codec remembering the tag that named it.
    pub fn new(tag: u32) -> (r: Unknown)
        ensures
            r.tag_spec() == tag,
    {
        Unknown { tag }
    }

    /// The tag this slot was built from.
    pub closed spec fn tag_spec(&self) -> u32 {
        self.tag
    }

    /// The tag this slot was built from, for diagnostics.
    pub fn tag(&self) -> (r: u32)
        ensures
            r == self.tag_spec(),
    {
        self.tag
    }

    /// Fails: the codec is not implemented.
    pub fn decompress(&self, _src: &Vec<u8>, dest: &mut Vec<u8>) -> (r: Result<(), ChdError>)
        ensures
            *final(dest) == *old(dest),
            r == Err::<(), ChdError>(ChdError::BadCodec),
    {
        Err(ChdError::BadCodec)
    }
}

/// The Huffman codec: each hunk carries a full-Huffman table description
/// followed by one 8-bit symbol per output byte.
pub struct Huffman {
    huffman: huffman::Huffman,
}

impl Huffman {
    /// Spec view of the held table.
    pub closed spec fn table(&self) -> huffman::Huffman {
        self.huffman
    }

    /// Whether the held table suits byte decoding.
    pub open spec fn wf(&self) -> bool {
        &&& self.table().wf()
        &&& self.table().num_codes() == 256
        &&& self.table().max_bits() == 16
    }

    /// A Huffman codec for 8-bit symbols with codes of up to 16 bits.
    pub fn new() -> (r: Huffman)
        ensures
            r.wf(),
    {
        Huffman { huffman: huffman::Huffman::new(256, 16) }
    }

    /// Reads the table description from `src`, then decodes one symbol per
    /// byte of `dest`: on success the output is exactly the byte string
    /// that the descriptor's canonical table decodes from the rest of the
    /// stream.  A stream that ran out of bits means the hunk was cut
    /// short.
    pub fn decompress(&mut self, src: &Vec<u8>, dest: &mut Vec<u8>) -> (r: Result<(), ChdError>)
        requires
            old(self).wf(),
            src@.len() < MAX_STREAM_BYTES,
            old(dest)@.len() < 0x0400_0000_0000_0000,
        ensures
            final(self).wf(),
            final(dest)@.len() == old(dest)@.len(),
            r.is_err() ==> (r == Err::<(), ChdError>(ChdError::BadHuffman) || r == Err::<
                (),
                ChdError,
            >(ChdError::BadCodec)),
            r == Err::<(), ChdError>(ChdError::BadHuffman) ==> *final(dest) == *old(dest),
            !huffman::spec_full_import_ok(src@, 0, 256, 16) ==> r == Err::<(), ChdError>(
                ChdError::BadHuffman,
            ),
            r.is_ok() <==> (huffman::spec_full_import_ok(src@, 0, 256, 16) && ({
                let sl = huffman::spec_small_lengths(src@, 0);
                let ml = huffman::spec_main_lengths(
                    src@,
                    sl.0,
                    sl.1,
                    256,
                    huffman::spec_bits_of(256 - 9),
                    0,
                    Seq::empty(),
                );
                let out = huffman::spec_decode_bytes(
                    src@,
                    ml.0,
                    ml.1,
                    old(dest)@.len() as int,
                    Seq::empty(),
                );
                out.1 <= 8 * src@.len()
            })),
            r.is_ok() ==> ({
                let sl = huffman::spec_small_lengths(src@, 0);
                let ml = huffman::spec_main_lengths(
                    src@,
                    sl.0,
                    sl.1,
                    256,
                    huffman::spec_bits_of(256 - 9),
                    0,
                    Seq::empty(),
                );
                let out = huffman::spec_decode_bytes(
                    src@,
                    ml.0,
                    ml.1,
                    old(dest)@.len() as int,
                    Seq::empty(),
                );
                final(dest)@ == out.0 && out.1 <= 8 * src@.len()
            }),
    {
        let ghost data = src@;
        let mut stream = BitReader::new(src.as_slice());
        match self.huffman.import_tree_huffman(&mut stream) {
            Ok(()) => (),
            Err(e) => {
                return Err(e);
            },
        };
        let ghost mllens = huffman::spec_main_lengths(
            data,
            huffman::spec_small_lengths(data, 0).0,
            huffman::spec_small_lengths(data, 0).1,
            256,
            huffman::spec_bits_of(256 - 9),
            0,
            Seq::empty(),
        ).0;
        let ghost importend = stream.consumed() as int;
        proof {
            huffman::lemma_table_matches_fill(self.huffman, mllens);
        }
        let n = dest.len();
        let ghost mut outacc: Seq<u8> = Seq::empty();
        let mut i: usize = 0;
        while i < n
            invariant
                self.wf(),
                stream.wf(),
                stream.stream() == data,
                data.len() < MAX_STREAM_BYTES,
                i <= n,
                n < 0x0400_0000_0000_0000,
                dest@.len() == n,
                importend <= 8 * data.len() + 98 + 20 * 256,
                stream.consumed() <= importend + 16 * i,
                outacc.len() == i,
                forall|k: int| 0 <= k < i ==> #[trigger] dest@[k] == outacc[k],
                huffman::spec_tbl_table(self.huffman, mllens),
                huffman::spec_decode_bytes(data, mllens, importend, n as int, Seq::empty())
                    == huffman::spec_decode_bytes(
                    data,
                    mllens,
                    stream.consumed() as int,
                    n - i,
                    outacc,
                ),
            decreases n - i,
        {
            proof {
                assert(8 * data.len() + 98 + 20 * 256 + 16 * n + 64 < u64::MAX);
                crate::bitstream::lemma_stream_value_bound(data, stream.consumed() as int, 16);
                vstd::arithmetic::power2::lemma2_to64();
            }
            let sym = self.huffman.decode_one(&mut stream);
            dest.set(i, sym as u8);
            proof {
                outacc = outacc.push(sym as u8);
            }
            i = i + 1;
        }
        proof {
            assert(huffman::spec_decode_bytes(data, mllens, importend, n as int, Seq::empty())
                == (outacc, stream.consumed() as int));
        }
        if stream.overflow() {
            return Err(ChdError::BadCodec);
        }
        proof {
            assert(dest@ =~= outacc);
        }
        Ok(())
    }
}

/// The zlib codec: hunks are raw DEFLATE streams that must decompress to
/// exactly one hunk of bytes.
pub struct Inflate {}

impl Inflate {
    /// A DEFLATE codec.
    pub fn new() -> (r: Inflate) {
        Inflate {  }
    }

    /// Decompresses `src` and requires the result to fill `dest` exactly.
    pub fn decompress(&self, src: &Vec<u8>, dest: &mut Vec<u8>) -> (r: Result<(), ChdError>)
        ensures
            final(dest)@.len() == old(dest)@.len(),
            match r {
                Ok(()) => inflate_of(src@) == Some(final(dest)@),
                Err(e) => e == ChdError::BadCodec && (inflate_of(src@) is Some
                    ==> inflate_of(src@).unwrap().len() != old(dest)@.len()),
            },
            r.is_err() ==> *final(dest) == *old(dest),
    {
        let decoded = match inflate_bytes_raw(src) {
            Some(v) => v,
            None => {
                return Err(ChdError::BadCodec);
            },
        };
        if decoded.len() != dest.len() {
            return Err(ChdError::BadCodec);
        }
        let n = dest.len();
        let mut i: usize = 0;
        while i < n
            invariant
                i <= n,
                dest@.len() == n,
                decoded@.len() == n,
                forall|j: int| 0 <= j < i ==> dest@[j] == decoded@[j],
            decreases n - i,
        {
            dest.set(i, decoded[i]);
            i = i + 1;
        }
        proof {
            assert(dest@ =~= decoded@);
        }
        Ok(())
    }
}

/// The interleaved byte output of a decoded stereo frame: sample pair
/// `i` occupies bytes `4 * i` to `4 * i + 3`, left channel then right,
/// each in the named byte order (`0x4C` for little-endian, else
/// big-endian).
pub open spec fn spec_flac_bytes(samples: Seq<u16>, numframes: int, endian: u8) -> Seq<u8> {
    Seq::new(
        (4 * numframes) as nat,
        |b: int|
            {
                let left = samples[b / 4];
                let right = samples[numframes + b / 4];
                if endian == 0x4C {
                    if b % 4 == 0 {
                        (left % 0x100) as u8
                    } else if b % 4 == 1 {
                        (left / 0x100) as u8
                    } else if b % 4 == 2 {
                        (right % 0x100) as u8
                    } else {
                        (right / 0x100) as u8
                    }
                } else {
                    if b % 4 == 0 {
                        (left / 0x100) as u8
                    } else if b % 4 == 1 {
                        (left % 0x100) as u8
                    } else if b % 4 == 2 {
                        (right / 0x100) as u8
                    } else {
                        (right % 0x100) as u8
                    }
                }
            },
    )
}

/// Sample pair `i` of a decoded stereo frame stands in the output at byte
/// `4 * i`: left then right channel, in the named byte order (`0x4C` for
/// little-endian, else big-endian).
pub open spec fn sample_pair_stored(
    dest: Seq<u8>,
    samples: Seq<u16>,
    numframes: int,
    endian: u8,
    i: int,
) -> bool {
    let left = samples[i];
    let right = samples[numframes + i];
    if endian == 0x4C {
        le16(dest, 4 * i) == left && le16(dest, 4 * i + 2) == right
    } else {
        be16(dest, 4 * i) == left && be16(dest, 4 * i + 2) == right
    }
}

/// The FLAC codec: a hunk is one endianness byte and one FLAC frame of
/// 16-bit stereo audio filling the hunk exactly.
pub struct Flac {}

impl Flac {
    /// A FLAC codec.
    pub fn new() -> (r: Flac) {
        Flac {  }
    }

    /// Decodes the frame after the endianness byte and lays the samples
    /// out as interleaved 16-bit pairs in the byte order the hunk names.
    pub fn decompress(&self, src: &Vec<u8>, dest: &mut Vec<u8>) -> (r: Result<(), ChdError>)
        requires
            old(dest)@.len() % 4 == 0,
        ensures
            final(dest)@.len() == old(dest)@.len(),
            r.is_err() ==> r == Err::<(), ChdError>(ChdError::BadCodec),
            r.is_err() ==> *final(dest) == *old(dest),
            (src@.len() > 0 && (src@[0] == 0x4C || src@[0] == 0x42) && ({
                let frame = flac_frame_of(src@.subrange(1, src@.len() as int));
                frame matches Some(t) && t.0 == old(dest)@.len() / 4 && t.1 == 2
            })) ==> r.is_ok(),
            r.is_ok() ==> src@.len() > 0 && (src@[0] == 0x4C || src@[0] == 0x42) && ({
                let frame = flac_frame_of(src@.subrange(1, src@.len() as int));
                let numframes = old(dest)@.len() / 4;
                &&& frame is Some
                &&& frame.unwrap().0 == numframes
                &&& frame.unwrap().1 == 2
                &&& final(dest)@ == spec_flac_bytes(frame.unwrap().2, numframes as int, src@[0])
                &&& forall|i: int|
                    0 <= i < numframes ==> #[trigger] sample_pair_stored(
                        final(dest)@,
                        frame.unwrap().2,
                        numframes as int,
                        src@[0],
                        i,
                    )
            }),
    {
        if src.len() == 0 {
            return Err(ChdError::BadCodec);
        }
        let endian = src[0];
        if endian != 0x4C && endian != 0x42 {
            return Err(ChdError::BadCodec);
        }
        // the frame bytes follow the endianness byte
        let mut payload: Vec<u8> = Vec::new();
        let mut i: usize = 1;
        while i < src.len()
            invariant
                1 <= i <= src@.len(),
                payload@.len() == i - 1,
                forall|j: int| 0 <= j < payload@.len() ==> payload@[j] == src@[j + 1],
            decreases src@.len() - i,
        {
            payload.push(src[i]);
            i = i + 1;
        }
        proof {
            assert(payload@ =~= src@.subrange(1, src@.len() as int));
        }
        let (duration, channels, samples) = match decode_flac_frame(&payload) {
            Some(t) => t,
            None => {
                return Err(ChdError::BadCodec);
            },
        };
        let numframes = dest.len() / 4;
        if duration as usize != numframes {
            return Err(ChdError::BadCodec);
        }
        if channels != 2 {
            return Err(ChdError::BadCodec);
        }
        proof {
            assert(dest@.len() == 4 * numframes);
        }
        let mut i: usize = 0;
        while i < numframes
            invariant
                i <= numframes,
                numframes == old(dest)@.len() / 4,
                dest@.len() == old(dest)@.len(),
                dest@.len() == 4 * numframes,
                4 * numframes <= usize::MAX,
                samples@.len() == 2 * numframes,
                endian == 0x4C || endian == 0x42,
                forall|k: int|
                    0 <= k < i ==> #[trigger] sample_pair_stored(
                        dest@,
                        samples@,
                        numframes as int,
                        endian,
                        k,
                    ),
                forall|b: int|
                    0 <= b < 4 * i ==> #[trigger] dest@[b] == spec_flac_bytes(
                        samples@,
                        numframes as int,
                        endian,
                    )[b],
            decreases numframes - i,
        {
            let ghost pre = dest@;
            let left = samples[i];
            let right = samples[numframes + i];
            if endian == 0x4C {
                write_le16(dest, 4 * i, left);
                write_le16(dest, 4 * i + 2, right);
            } else {
                write_be16(dest, 4 * i, left);
                write_be16(dest, 4 * i + 2, right);
            }
            proof {
                assert forall|k: int|
                    0 <= k < i + 1 implies #[trigger] sample_pair_stored(
                    dest@,
                    samples@,
                    numframes as int,
                    endian,
                    k,
                ) by {
                    if k < i {
                        assert(sample_pair_stored(pre, samples@, numframes as int, endian, k));
                        assert(dest@[4 * k] == pre[4 * k]);
                        assert(dest@[4 * k + 1] == pre[4 * k + 1]);
                        assert(dest@[4 * k + 2] == pre[4 * k + 2]);
                        assert(dest@[4 * k + 3] == pre[4 * k + 3]);
                    }
                }
                let fb = spec_flac_bytes(samples@, numframes as int, endian);
                if endian == 0x4C {
                    assert(dest@.subrange(4 * (i as int), 4 * (i as int) + 2)
                        == crate::utils::le16_bytes(left));
                    assert(dest@.subrange(4 * (i as int) + 2, 4 * (i as int) + 4)
                        == crate::utils::le16_bytes(right));
                } else {
                    assert(dest@.subrange(4 * (i as int), 4 * (i as int) + 2)
                        == crate::utils::be16_bytes(left));
                    assert(dest@.subrange(4 * (i as int) + 2, 4 * (i as int) + 4)
                        == crate::utils::be16_bytes(right));
                }
                assert forall|b: int| 0 <= b < 4 * (i + 1) implies #[trigger] dest@[b] == fb[b] by {
                    vstd::arithmetic::div_mod::lemma_fundamental_div_mod(b, 4);
                    if b < 4 * (i as int) {
                        assert(dest@[b] == pre[b]);
                    } else {
                        vstd::arithmetic::div_mod::lemma_fundamental_div_mod_converse(
                            b,
                            4,
                            i as int,
                            b - 4 * (i as int),
                        );
                        assert(b / 4 == i as int);
                        assert(dest@[4 * (i as int)] == dest@.subrange(
                            4 * (i as int),
                            4 * (i as int) + 2,
                        )[0]);
                        assert(dest@[4 * (i as int) + 1] == dest@.subrange(
                            4 * (i as int),
                            4 * (i as int) + 2,
                        )[1]);
                        assert(dest@[4 * (i as int) + 2] == dest@.subrange(
                            4 * (i as int) + 2,
                            4 * (i as int) + 4,
                        )[0]);
                        assert(dest@[4 * (i as int) + 3] == dest@.subrange(
                            4 * (i as int) + 2,
                            4 * (i as int) + 4,
                        )[1]);
                    }
                }
            }
            i = i + 1;
        }
        proof {
            assert(dest@ =~= spec_flac_bytes(samples@, numframes as int, endian));
        }
        Ok(())
    }
}

} // verus!

//! The CHD v5 image reader: header validation, hunk-map decoding, and
//! hunk reconstruction.
//!
//! `Chd::open` parses the header, materializes the canonical 12-byte-per-
//! entry hunk map (decoding the bit-packed compressed form when present),
//! and checks the map's checksum.  `read_hunk` reconstructs one hunk,
//! following self references up to a bounded depth; `read` serves logical
//! byte ranges across hunks.

use vstd::prelude::*;
use vstd::slice::slice_subrange;

use crate::bitstream::{stream_value, BitReader, MAX_STREAM_BYTES};
use crate::crc::{crc16, crc16_spec};
use crate::decompress;
use crate::huffman::Huffman;
use crate::utils::{
    be16, be24, be32, be48, be64, read_be16, read_be24, read_be32, read_be48, read_be64,
    read_bit_length, write_be16, write_be24, write_be48,
};
use crate::ChdError;

verus! {

broadcast use vstd::group_vstd_default;

/// Codec slot 0 in use.
pub const COMPRESSION_TYPE_0: u8 = 0;

/// Codec slot 1 in use.
pub const COMPRESSION_TYPE_1: u8 = 1;

/// Codec slot 2 in use.
pub const COMPRESSION_TYPE_2: u8 = 2;

/// Codec slot 3 in use.
pub const COMPRESSION_TYPE_3: u8 = 3;

/// Stored verbatim; the length is one full hunk.
pub const COMPRESSION_NONE: u8 = 4;

/// Same contents as another hunk of this image.
pub const COMPRESSION_SELF: u8 = 5;

/// Same contents as a hunk's worth of units of the parent image.
pub const COMPRESSION_PARENT: u8 = 6;

/// Map-stream pseudo-type: short run of repeats.
pub const COMPRESSION_RLE_SMALL: u8 = 7;

/// Map-stream pseudo-type: long run of repeats.
pub const COMPRESSION_RLE_LARGE: u8 = 8;

/// Map-stream pseudo-type: same as the last self reference.
pub const COMPRESSION_SELF_0: u8 = 9;

/// Map-stream pseudo-type: one past the last self reference.
pub const COMPRESSION_SELF_1: u8 = 10;

/// Map-stream pseudo-type: this hunk's own position in the parent.
pub const COMPRESSION_PARENT_SELF: u8 = 11;

/// Map-stream pseudo-type: same as the last parent reference.
pub const COMPRESSION_PARENT_0: u8 = 12;

/// Map-stream pseudo-type: one hunk past the last parent reference.
pub const COMPRESSION_PARENT_1: u8 = 13;

/// How many base compression types a canonical map entry can carry.
pub const COMPRESSION_NUM: usize = 7;

/// FourCC `zlib`: raw DEFLATE hunks.
pub const CHD_CODEC_ZLIB: u32 = 0x7A6C_6962;

/// FourCC `huff`: Huffman-coded hunks.
pub const CHD_CODEC_HUFF: u32 = 0x6875_6666;

/// FourCC `lzma`: raw LZMA hunks.
pub const CHD_CODEC_LZMA: u32 = 0x6C7A_6D61;

/// FourCC `flac`: FLAC-coded hunks.
pub const CHD_CODEC_FLAC: u32 = 0x666C_6163;

/// FourCC `cdzl`: CD-framed DEFLATE.
pub const CHD_CODEC_CD_ZLIB: u32 = 0x6364_7A6C;

/// FourCC `cdlz`: CD-framed LZMA.
pub const CHD_CODEC_CD_LZMA: u32 = 0x6364_6C7A;

/// FourCC `cdfl`: CD-framed FLAC.
pub const CHD_CODEC_CD_FLAC: u32 = 0x6364_666C;

/// How many self references a reconstruction will follow before it reports
/// a broken chain.
pub const SELF_REFERENCE_DEPTH: u32 = 64;

/// The eight magic bytes `MComprHD`.
pub open spec fn has_magic(s: Seq<u8>) -> bool {
    &&& s[0] == 0x4D
    &&& s[1] == 0x43
    &&& s[2] == 0x6F
    &&& s[3] == 0x6D
    &&& s[4] == 0x70
    &&& s[5] == 0x72
    &&& s[6] == 0x48
    &&& s[7] == 0x44
}

/// The first reason a byte string is rejected as a v5 header, or `None`
/// when it parses.
pub open spec fn spec_header_error(s: Seq<u8>) -> Option<ChdError> {
    if s.len() < 124 {
        Some(ChdError::Io)
    } else if !has_magic(s) {
        Some(ChdError::BadMagic)
    } else if be32(s, 12) != 5 {
        Some(ChdError::UnsupportedVersion)
    } else if be32(s, 8) != 124 {
        Some(ChdError::BadHeader)
    } else if be32(s, 56) < 1 || be32(s, 56) > 0x8_0000 {
        Some(ChdError::BadGeometry)
    } else if be32(s, 60) < 1 || be32(s, 56) < be32(s, 60) || be32(s, 56) % be32(s, 60) != 0 {
        Some(ChdError::BadGeometry)
    } else if be64(s, 32) / be32(s, 56) > 0xFFFF_FFFF {
        Some(ChdError::BadGeometry)
    } else {
        None
    }
}

/// The geometry and codec tags of an image, fixed at open.
pub struct Header {
    /// Format version; always 5 here.
    pub version: u32,
    /// Stored header length; always 124 here.
    pub length: u32,
    /// Logical size of the decompressed image in bytes.
    pub size: u64,
    /// Absolute file offset of the map region.
    pub mapoffset: u64,
    /// The four codec FourCC tags; zero marks an unused slot, and a zero
    /// tag in slot 0 marks a wholly uncompressed image.
    pub compressors: [u32; 4],
    /// Bytes in one hunk.
    pub hunkbytes: u32,
    /// How many whole hunks the image holds.
    pub hunkcount: u32,
    /// Bytes in the smallest addressable unit.
    pub unitbytes: u32,
}

impl Header {
    /// The geometry invariants a parsed header satisfies.
    pub open spec fn wf(&self) -> bool {
        &&& self.version == 5
        &&& self.length == 124
        &&& 1 <= self.hunkbytes <= 0x8_0000
        &&& 1 <= self.unitbytes <= self.hunkbytes
        &&& self.hunkbytes % self.unitbytes == 0
        &&& self.hunkcount == self.size / (self.hunkbytes as u64)
    }

    /// Parses and validates the 124-byte header at the start of `data`.
    pub fn read(data: &[u8]) -> (r: Result<Header, ChdError>)
        ensures
            match r {
                Ok(h) => {
                    &&& spec_header_error(data@) is None
                    &&& h.wf()
                    &&& h.size == be64(data@, 32)
                    &&& h.mapoffset == be64(data@, 40)
                    &&& h.hunkbytes == be32(data@, 56)
                    &&& h.unitbytes == be32(data@, 60)
                    &&& h.compressors@[0] == be32(data@, 16)
                    &&& h.compressors@[1] == be32(data@, 20)
                    &&& h.compressors@[2] == be32(data@, 24)
                    &&& h.compressors@[3] == be32(data@, 28)
                },
                Err(e) => spec_header_error(data@) == Some(e),
            },
    {
        if data.len() < 124 {
            return Err(ChdError::Io);
        }
        if !(data[0] == 0x4D && data[1] == 0x43 && data[2] == 0x6F && data[3] == 0x6D && data[4]
            == 0x70 && data[5] == 0x72 && data[6] == 0x48 && data[7] == 0x44) {
            return Err(ChdError::BadMagic);
        }
        let version = read_be32(data, 12);
        if version != 5 {
            return Err(ChdError::UnsupportedVersion);
        }
        let length = read_be32(data, 8);
        if length != 124 {
            return Err(ChdError::BadHeader);
        }
        let hunkbytes = read_be32(data, 56);
        if hunkbytes < 1 || hunkbytes > 512 * 1024 {
            return Err(ChdError::BadGeometry);
        }
        let unitbytes = read_be32(data, 60);
        if unitbytes < 1 || hunkbytes < unitbytes || hunkbytes % unitbytes > 0 {
            return Err(ChdError::BadGeometry);
        }
        let size = read_be64(data, 32);
        let hunkcount = size / (hunkbytes as u64);
        if hunkcount > 0xFFFF_FFFF {
            return Err(ChdError::BadGeometry);
        }
        let compressors = [
            read_be32(data, 16),
            read_be32(data, 20),
            read_be32(data, 24),
            read_be32(data, 28),
        ];
        Ok(
            Header {
                version,
                length,
                size,
                mapoffset: read_be64(data, 40),
                compressors,
                hunkbytes,
                hunkcount: hunkcount as u32,
                unitbytes,
            },
        )
    }
}

/// The decoded map is exactly what the map stream dictates: the three
/// bit widths are in range, the body begins with a well-formed run-length
/// coded Huffman descriptor, the first pass yields the compression types,
/// and the second pass yields every entry's type, length, offset and
/// checksum fields.
pub open spec fn spec_map_decoded(
    header: Header,
    maphdr: Seq<u8>,
    body: Seq<u8>,
    map: Seq<u8>,
) -> bool {
    &&& maphdr[12] < 32 && maphdr[13] < 32 && maphdr[14] < 32
    &&& crate::huffman::spec_rle_lengths(body, 0, 4, 16, Seq::empty()) matches Some(dp)
    &&& crate::huffman::spec_parity_ok(dp.0)
    &&& ({
        let t1 = spec_map_types(body, dp.0, dp.1, 0, 0, header.hunkcount as int, Seq::empty());
        let t2 = spec_map_entries(
            body,
            t1.0,
            0,
            maphdr[12] as int,
            maphdr[13] as int,
            maphdr[14] as int,
            header.hunkbytes as int,
            header.unitbytes as int,
            t1.1,
            be48(maphdr, 4) as int,
            0,
            0,
            Seq::empty(),
        );
        &&& t2 matches Some(e2)
        &&& map == spec_map_bytes(e2.0, header.hunkcount as int)
        &&& forall|h: int|
            0 <= h < header.hunkcount ==> ({
                let entry = e2.0[h];
                &&& (#[trigger] map[12 * h]) == entry.0
                &&& be24(map, 12 * h + 1) == entry.1
                &&& be48(map, 12 * h + 4) == entry.2
                &&& be16(map, 12 * h + 10) == entry.3
            })
    })
}

/// The canonical hunk map: twelve bytes per hunk, all fields big-endian.
/// Byte 0 is the compression type, bytes 1 to 3 the compressed length,
/// bytes 4 to 9 the offset (or referenced index), bytes 10 and 11 the
/// checksum of the reconstructed hunk.
pub struct Map5 {
    /// The decoded map bytes.
    pub map: Vec<u8>,
}

impl Map5 {
    /// Byte position of entry `hunknum`.
    pub open spec fn spec_offset(hunknum: int) -> int {
        12 * hunknum
    }

    /// The map covers `hunkcount` entries.
    pub open spec fn wf(&self, hunkcount: u32) -> bool {
        self.map@.len() == 12 * hunkcount
    }

    /// Byte position of entry `hunknum`.
    pub fn offset(hunknum: usize) -> (r: usize)
        requires
            12 * hunknum <= usize::MAX,
        ensures
            r == Map5::spec_offset(hunknum as int),
    {
        12 * hunknum
    }

    /// The compression type of entry `hunknum`.
    pub fn compression(&self, hunknum: usize) -> (r: u8)
        requires
            12 * hunknum + 12 <= self.map.len(),
        ensures
            r == self.map@[12 * hunknum],
    {
        self.map[12 * hunknum]
    }

    /// Whether `buf` carries the checksum entry `hunknum` stores.
    pub fn validate(&self, hunknum: usize, buf: &[u8]) -> (r: bool)
        requires
            12 * hunknum + 12 <= self.map.len(),
        ensures
            r == (be16(self.map@, 12 * hunknum + 10) == crc16_spec(buf@)),
    {
        let offs = 12 * hunknum;
        let crc = read_be16(self.map.as_slice(), offs + 10);
        let calc = crc16(buf);
        crc == calc
    }

    /// The compression type, offset and length of entry `hunknum`.
    pub fn locate(&self, hunknum: usize) -> (r: (u8, u64, u32))
        requires
            12 * hunknum + 12 <= self.map.len(),
        ensures
            r.0 == self.map@[12 * hunknum],
            r.1 == be48(self.map@, 12 * hunknum + 4),
            r.1 < 0x1_0000_0000_0000,
            r.2 == be24(self.map@, 12 * hunknum + 1),
            r.2 < 0x100_0000,
    {
        let offs = 12 * hunknum;
        let compression = self.map[offs];
        let offset = read_be48(self.map.as_slice(), offs + 4);
        let length = read_be24(self.map.as_slice(), offs + 1);
        (compression, offset, length)
    }

    /// Reads the map region: raw entries when the image is uncompressed,
    /// else the 16-byte map header and the compressed body it describes.
    pub fn read(data: &[u8], header: &Header) -> (r: Result<Map5, ChdError>)
        requires
            header.wf(),
        ensures
            match r {
                Ok(m) => {
                    &&& m.wf(header.hunkcount)
                    &&& header.compressors@[0] == 0 ==> m.map@ == data@.subrange(
                        header.mapoffset as int,
                        header.mapoffset + 12 * header.hunkcount,
                    )
                    &&& header.compressors@[0] != 0 ==> crc16_spec(m.map@) == be16(
                        data@,
                        header.mapoffset + 10,
                    ) && (forall|h: int|
                        0 <= h < header.hunkcount ==> #[trigger] m.map@[12 * h] <= 6)
                },
                Err(_) => true,
            },
            r.is_ok() <==> spec_map_read_ok(*header, data@),
            r.is_err() ==> (r == Err::<Map5, ChdError>(ChdError::BadGeometry) || r == Err::<
                Map5,
                ChdError,
            >(ChdError::Io) || r == Err::<Map5, ChdError>(ChdError::BadMap) || r == Err::<
                Map5,
                ChdError,
            >(ChdError::BadHuffman)),
            12 * header.hunkcount > usize::MAX ==> r == Err::<Map5, ChdError>(
                ChdError::BadGeometry,
            ),
            header.compressors@[0] != 0 ==> match r {
                Ok(m) => spec_map_decoded(
                    *header,
                    data@.subrange(header.mapoffset as int, header.mapoffset + 16),
                    data@.subrange(
                        header.mapoffset + 16,
                        header.mapoffset + 16 + be32(data@, header.mapoffset as int),
                    ),
                    m.map@,
                ),
                Err(_) => true,
            },
    {
        let hunkcount = header.hunkcount as usize;
        if (usize::MAX as u64) / 12 < hunkcount as u64 {
            proof {
                assert(12 * header.hunkcount > usize::MAX) by (nonlinear_arith)
                    requires
                        (usize::MAX as u64) / 12 < header.hunkcount as u64,
                ;
            }
            return Err(ChdError::BadGeometry);
        }
        proof {
            assert(12 * header.hunkcount <= usize::MAX) by (nonlinear_arith)
                requires
                    (usize::MAX as u64) / 12 >= header.hunkcount as u64,
            ;
        }
        let total: usize = 12 * hunkcount;
        let datalen = data.len() as u64;
        if header.compressors[0] == 0 {
            // uncompressed: the canonical entries are stored verbatim
            if header.mapoffset > datalen || (total as u64) > datalen - header.mapoffset {
                return Err(ChdError::Io);
            }
            let start = header.mapoffset as usize;
            let mut map: Vec<u8> = Vec::new();
            let mut i: usize = 0;
            while i < total
                invariant
                    map@.len() == i,
                    i <= total,
                    start + total <= data@.len(),
                    start + total <= usize::MAX,
                    forall|j: int| 0 <= j < i ==> map@[j] == data@[start + j],
                decreases total - i,
            {
                map.push(data[start + i]);
                i = i + 1;
            }
            proof {
                assert(map@ =~= data@.subrange(
                    header.mapoffset as int,
                    header.mapoffset + 12 * header.hunkcount,
                ));
            }
            Ok(Map5 { map })
        } else {
            if header.mapoffset > datalen || 16 > datalen - header.mapoffset {
                return Err(ChdError::Io);
            }
            let start = header.mapoffset as usize;
            let maphdr = slice_subrange(data, start, start + 16);
            let maplength = read_be32(maphdr, 0);
            if (maplength as u64) > datalen - header.mapoffset - 16 {
                return Err(ChdError::Io);
            }
            let comprmap = slice_subrange(data, start + 16, start + 16 + maplength as usize);
            let m = Map5::decompress(header, maphdr, comprmap)?;
            proof {
                assert(be16(maphdr@, 10) == be16(data@, header.mapoffset + 10));
            }
            Ok(m)
        }
    }

    /// Decodes the compressed hunk map: a Huffman table over the sixteen
    /// type codes, a first pass of run-length coded compression types, and
    /// a second pass extracting each entry's length, offset and checksum
    /// while resolving pseudo-types to base types.  The materialized map
    /// must match the stored checksum.
    #[verifier::rlimit(100)]
    #[verifier::spinoff_prover]
    pub fn decompress(header: &Header, maphdr: &[u8], comprmap: &[u8]) -> (r: Result<
        Map5,
        ChdError,
    >)
        requires
            header.wf(),
            maphdr@.len() == 16,
            comprmap@.len() < MAX_STREAM_BYTES,
            12 * header.hunkcount <= usize::MAX,
        ensures
            match r {
                Ok(m) => {
                    &&& m.wf(header.hunkcount)
                    &&& crc16_spec(m.map@) == be16(maphdr@, 10)
                    &&& forall|h: int|
                        0 <= h < header.hunkcount ==> #[trigger] m.map@[12 * h] <= 6
                    &&& spec_map_decoded(*header, maphdr@, comprmap@, m.map@)
                },
                Err(_) => true,
            },
            r.is_ok() <==> spec_map_ok(
                header.hunkbytes as int,
                header.unitbytes as int,
                header.hunkcount as int,
                maphdr@,
                comprmap@,
            ),
            r.is_err() ==> (r == Err::<Map5, ChdError>(ChdError::BadMap) || r == Err::<
                Map5,
                ChdError,
            >(ChdError::BadHuffman)),
            !(maphdr@[12] < 32 && maphdr@[13] < 32 && maphdr@[14] < 32) ==> r == Err::<
                Map5,
                ChdError,
            >(ChdError::BadMap),
            ((maphdr@[12] < 32 && maphdr@[13] < 32 && maphdr@[14] < 32)
                && !crate::huffman::spec_rle_import_ok(comprmap@, 0, 4, 16, 8)) ==> r == Err::<
                Map5,
                ChdError,
            >(ChdError::BadHuffman),
    {
        let ghost ok = spec_map_ok(
            header.hunkbytes as int,
            header.unitbytes as int,
            header.hunkcount as int,
            maphdr@,
            comprmap@,
        );
        let hunkcount = header.hunkcount as usize;
        let total: usize = 12 * hunkcount;
        let hunkbytes = header.hunkbytes;
        let unitbytes = header.unitbytes;

        let lengthbits = read_bit_length(maphdr, 12)?;
        let hunkbits = read_bit_length(maphdr, 13)?;
        let parentbits = read_bit_length(maphdr, 14)?;

        let ghost body = comprmap@;
        let mut bits = BitReader::new(comprmap);
        let mut huffman = Huffman::new(16, 8);
        match huffman.import_tree_rle(&mut bits) {
            Ok(()) => (),
            Err(e) => {
                proof {
                    assert(!crate::huffman::spec_rle_import_ok(body, 0, 4, 16, 8));
                    assert(!ok);
                }
                return Err(e);
            },
        };
        let ghost descriptor = crate::huffman::spec_rle_lengths(body, 0, 4, 16, Seq::empty());
        let ghost lens = descriptor.unwrap().0;
        proof {
            assert(descriptor matches Some(p) && p.0 == lens);
            crate::huffman::lemma_table_matches_fill(huffman, lens);
            vstd::arithmetic::power2::lemma2_to64();
        }

        let mut map: Vec<u8> = Vec::new();
        while map.len() < total
            invariant
                map@.len() <= total,
                forall|j: int| 0 <= j < map@.len() ==> map@[j] == 0,
            decreases total - map.len(),
        {
            map.push(0);
        }

        // first pass: the run-length coded compression types
        let ghost p1start = bits.consumed() as int;
        let ghost mut types: Seq<u8> = Seq::empty();
        let mut repcount: u32 = 0;
        let mut lastcomp: u8 = 0;
        let mut h: usize = 0;
        while h < hunkcount
            invariant
                hunkcount == header.hunkcount,
                total == 12 * hunkcount,
                map@.len() == total,
                h <= hunkcount,
                huffman.wf(),
                huffman.num_codes() == 16,
                huffman.max_bits() == 8,
                huffman.table().len() == 256,
                forall|j: int|
                    0 <= j < 256 ==> (#[trigger] huffman.table()[j]) == crate::huffman::spec_tbl(
                        8,
                        lens,
                        j,
                    ),
                bits.wf(),
                bits.stream() == body,
                body.len() < MAX_STREAM_BYTES,
                lastcomp < 16,
                types.len() == h,
                forall|k: int| 0 <= k < h ==> #[trigger] map@[12 * k] == types[k],
                forall|k: int| 0 <= k < h ==> #[trigger] map@[12 * k] < 16,
                p1start <= 8 * body.len(),
                bits.consumed() <= 8 * body.len() + 24 * h,
                spec_map_types(body, lens, p1start, 0, 0, hunkcount as int, Seq::empty())
                    == spec_map_types(
                    body,
                    lens,
                    bits.consumed() as int,
                    repcount as int,
                    lastcomp,
                    hunkcount - h,
                    types,
                ),
            decreases hunkcount - h,
        {
            proof {
                assert(8 * body.len() + 24 * hunkcount + 64 < u64::MAX);
            }
            if repcount > 0 {
                repcount = repcount - 1;
            } else {
                let ghost pos0 = bits.consumed() as int;
                let code16 = huffman.decode_one(&mut bits);
                proof {
                    crate::bitstream::lemma_stream_value_bound(body, pos0, 8);
                }
                let code = code16 as u8;
                if code == COMPRESSION_RLE_SMALL {
                    let ghost pos1 = bits.consumed() as int;
                    let rep1 = huffman.decode_one(&mut bits);
                    proof {
                        crate::bitstream::lemma_stream_value_bound(body, pos1, 8);
                    }
                    repcount = 2 + rep1 as u32;
                } else if code == COMPRESSION_RLE_LARGE {
                    let ghost pos1 = bits.consumed() as int;
                    let rep1 = huffman.decode_one(&mut bits);
                    proof {
                        crate::bitstream::lemma_stream_value_bound(body, pos1, 8);
                    }
                    let ghost pos2 = bits.consumed() as int;
                    let rep2 = huffman.decode_one(&mut bits);
                    proof {
                        crate::bitstream::lemma_stream_value_bound(body, pos2, 8);
                    }
                    repcount = 2 + 16 + (rep1 as u32) * 16;
                    repcount = repcount + rep2 as u32;
                } else {
                    lastcomp = code;
                }
            }
            map.set(12 * h, lastcomp);
            proof {
                types = types.push(lastcomp);
            }
            h = h + 1;
        }
        let ghost typesfull = types;
        let ghost p2start = bits.consumed() as int;
        proof {
            assert(spec_map_types(body, lens, p1start, 0, 0, hunkcount as int, Seq::empty()) == (
            typesfull,
            p2start,
            ));
        }

        // second pass: lengths, offsets and checksums, with pseudo-types
        // resolved against the running state
        let ghost map1 = map@;
        let ghost mut entries: Seq<(u8, u32, u64, u16)> = Seq::empty();
        proof {
            assert(map@.subrange(0, 0) =~= spec_map_bytes(entries, 0));
        }
        let mut curoffset: u64 = read_be48(maphdr, 4);
        let mut lastself: u64 = 0;
        let mut lastparent: u64 = 0;
        let mut h: usize = 0;
        while h < hunkcount
            invariant
                hunkcount == header.hunkcount,
                total == 12 * hunkcount,
                map@.len() == total,
                map1.len() == total,
                h <= hunkcount,
                bits.wf(),
                bits.stream() == body,
                body.len() < MAX_STREAM_BYTES,
                header.wf(),
                hunkbytes == header.hunkbytes,
                unitbytes == header.unitbytes,
                lengthbits < 32,
                hunkbits < 32,
                parentbits < 32,
                curoffset < 0x2_0000_0000_0000,
                lastself < 0x1_0000_0000_0000,
                lastparent < 0x1_0000_0000_0000,
                12 * hunkcount <= usize::MAX,
                typesfull.len() == hunkcount,
                forall|k: int| 0 <= k < hunkcount ==> #[trigger] map1[12 * k] == typesfull[k],
                entries.len() == h,
                ok == spec_map_ok(
                    hunkbytes as int,
                    unitbytes as int,
                    hunkcount as int,
                    maphdr@,
                    comprmap@,
                ),
                crate::huffman::spec_rle_import_ok(body, 0, 4, 16, 8),
                body == comprmap@,
                maphdr@.len() == 16,
                crate::huffman::spec_rle_lengths(body, 0, 4, 16, Seq::empty()) == Some::<
                    (Seq<u8>, int),
                >((lens, p1start)),
                spec_map_types(body, lens, p1start, 0, 0, hunkcount as int, Seq::empty()) == (
                typesfull,
                p2start,
                ),
                lengthbits == maphdr@[12],
                hunkbits == maphdr@[13],
                parentbits == maphdr@[14],
                map@.subrange(0, 12 * (h as int)) == spec_map_bytes(entries, h as int),
                p2start <= 8 * body.len() + 24 * hunkcount,
                bits.consumed() <= 8 * body.len() + 24 * hunkcount + 48 * h,
                spec_map_entries(
                    body,
                    typesfull,
                    0,
                    lengthbits as int,
                    hunkbits as int,
                    parentbits as int,
                    hunkbytes as int,
                    unitbytes as int,
                    p2start,
                    be48(maphdr@, 4) as int,
                    0,
                    0,
                    Seq::empty(),
                ) == spec_map_entries(
                    body,
                    typesfull,
                    h as int,
                    lengthbits as int,
                    hunkbits as int,
                    parentbits as int,
                    hunkbytes as int,
                    unitbytes as int,
                    bits.consumed() as int,
                    curoffset as int,
                    lastself as int,
                    lastparent as int,
                    entries,
                ),
                forall|j: int| 12 * h <= j < total ==> #[trigger] map@[j] == map1[j],
                forall|k: int| 0 <= k < h ==> #[trigger] map@[12 * k] <= 6,
                forall|k: int|
                    0 <= k < h ==> ({
                        let entry = entries[k];
                        &&& (#[trigger] map@[12 * k]) == entry.0
                        &&& be24(map@, 12 * k + 1) == entry.1
                        &&& be48(map@, 12 * k + 4) == entry.2
                        &&& be16(map@, 12 * k + 10) == entry.3
                    }),
            decreases hunkcount - h,
        {
            proof {
                assert(8 * body.len() + 24 * hunkcount + 48 * hunkcount + 64 < u64::MAX);
            }
            let ghost mpre = map@;
            let ghost pos0 = bits.consumed() as int;
            let ghost cur0 = curoffset as int;
            let ghost ls0 = lastself as int;
            let ghost lp0 = lastparent as int;
            let ghost ents0 = entries;
            let mut offset = curoffset;
            let mut length: u32 = 0;
            let mut crc: u16 = 0;
            let raw = map[12 * h];
            proof {
                assert(typesfull[h as int] == raw);
                crate::bitstream::lemma_stream_value_bound(body, pos0, lengthbits as int);
                crate::bitstream::lemma_stream_value_bound(body, pos0, hunkbits as int);
                crate::bitstream::lemma_stream_value_bound(body, pos0, parentbits as int);
                vstd::arithmetic::power2::lemma2_to64();
                if lengthbits < 31 {
                    vstd::arithmetic::power2::lemma_pow2_strictly_increases(
                        lengthbits as nat,
                        31,
                    );
                }
                if hunkbits < 31 {
                    vstd::arithmetic::power2::lemma_pow2_strictly_increases(hunkbits as nat, 31);
                }
                if parentbits < 31 {
                    vstd::arithmetic::power2::lemma_pow2_strictly_increases(
                        parentbits as nat,
                        31,
                    );
                }
            }
            if raw <= COMPRESSION_TYPE_3 {
                length = bits.read(lengthbits as usize);
                curoffset = curoffset + length as u64;
                crc = read_u16(&mut bits);
            } else if raw == COMPRESSION_NONE {
                length = hunkbytes;
                curoffset = curoffset + hunkbytes as u64;
                crc = read_u16(&mut bits);
            } else if raw == COMPRESSION_SELF {
                offset = bits.read(hunkbits as usize) as u64;
                lastself = offset;
            } else if raw == COMPRESSION_PARENT {
                offset = bits.read(parentbits as usize) as u64;
                lastparent = offset;
            } else if raw == COMPRESSION_SELF_0 || raw == COMPRESSION_SELF_1 {
                if raw == COMPRESSION_SELF_1 {
                    if lastself >= 0x1_0000_0000_0000 - 1 {
                    proof {
                        assert(spec_map_entries(
                            body,
                            typesfull,
                            h as int,
                            lengthbits as int,
                            hunkbits as int,
                            parentbits as int,
                            hunkbytes as int,
                            unitbytes as int,
                            pos0,
                            cur0,
                            ls0,
                            lp0,
                            ents0,
                        ) is None);
                        assert(!ok);
                    }
                        return Err(ChdError::BadMap);
                    }
                    lastself = lastself + 1;
                }
                offset = lastself;
                map.set(12 * h, COMPRESSION_SELF);
            } else if raw == COMPRESSION_PARENT_SELF {
                proof {
                    vstd::arithmetic::mul::lemma_mul_upper_bound(
                        h as int,
                        0xFFFF_FFFF,
                        hunkbytes as int,
                        0x8_0000,
                    );
                }
                let units = ((h as u64) * (hunkbytes as u64)) / (unitbytes as u64);
                if units >= 0x1_0000_0000_0000 {
                    proof {
                        assert(spec_map_entries(
                            body,
                            typesfull,
                            h as int,
                            lengthbits as int,
                            hunkbits as int,
                            parentbits as int,
                            hunkbytes as int,
                            unitbytes as int,
                            pos0,
                            cur0,
                            ls0,
                            lp0,
                            ents0,
                        ) is None);
                        assert(!ok);
                    }
                    return Err(ChdError::BadMap);
                }
                lastparent = units;
                offset = lastparent;
                map.set(12 * h, COMPRESSION_SELF);
            } else if raw == COMPRESSION_PARENT_0 || raw == COMPRESSION_PARENT_1 {
                if raw == COMPRESSION_PARENT_1 {
                    let next = lastparent + (hunkbytes / unitbytes) as u64;
                    if next >= 0x1_0000_0000_0000 {
                    proof {
                        assert(spec_map_entries(
                            body,
                            typesfull,
                            h as int,
                            lengthbits as int,
                            hunkbits as int,
                            parentbits as int,
                            hunkbytes as int,
                            unitbytes as int,
                            pos0,
                            cur0,
                            ls0,
                            lp0,
                            ents0,
                        ) is None);
                        assert(!ok);
                    }
                        return Err(ChdError::BadMap);
                    }
                    lastparent = next;
                }
                offset = lastparent;
                map.set(12 * h, COMPRESSION_PARENT);
            } else {
                    proof {
                        assert(spec_map_entries(
                            body,
                            typesfull,
                            h as int,
                            lengthbits as int,
                            hunkbits as int,
                            parentbits as int,
                            hunkbytes as int,
                            unitbytes as int,
                            pos0,
                            cur0,
                            ls0,
                            lp0,
                            ents0,
                        ) is None);
                        assert(!ok);
                    }
                return Err(ChdError::BadMap);
            }
            if length >= 0x100_0000 {
                    proof {
                        assert(spec_map_entries(
                            body,
                            typesfull,
                            h as int,
                            lengthbits as int,
                            hunkbits as int,
                            parentbits as int,
                            hunkbytes as int,
                            unitbytes as int,
                            pos0,
                            cur0,
                            ls0,
                            lp0,
                            ents0,
                        ) is None);
                        assert(!ok);
                    }
                return Err(ChdError::BadMap);
            }
            if offset >= 0x1_0000_0000_0000 {
                    proof {
                        assert(spec_map_entries(
                            body,
                            typesfull,
                            h as int,
                            lengthbits as int,
                            hunkbits as int,
                            parentbits as int,
                            hunkbytes as int,
                            unitbytes as int,
                            pos0,
                            cur0,
                            ls0,
                            lp0,
                            ents0,
                        ) is None);
                        assert(!ok);
                    }
                return Err(ChdError::BadMap);
            }
            write_be24(&mut map, 12 * h + 1, length);
            write_be48(&mut map, 12 * h + 4, offset);
            write_be16(&mut map, 12 * h + 10, crc);
            proof {
                entries = entries.push((map@[12 * h] as u8, length, offset, crc));
                assert(spec_map_entries(
                    body,
                    typesfull,
                    h as int,
                    lengthbits as int,
                    hunkbits as int,
                    parentbits as int,
                    hunkbytes as int,
                    unitbytes as int,
                    pos0,
                    cur0,
                    ls0,
                    lp0,
                    ents0,
                ) == spec_map_entries(
                    body,
                    typesfull,
                    h + 1,
                    lengthbits as int,
                    hunkbits as int,
                    parentbits as int,
                    hunkbytes as int,
                    unitbytes as int,
                    bits.consumed() as int,
                    curoffset as int,
                    lastself as int,
                    lastparent as int,
                    entries,
                ));
                assert forall|k: int| 0 <= k < h + 1 implies ({
                    let entry = entries[k];
                    &&& (#[trigger] map@[12 * k]) == entry.0
                    &&& be24(map@, 12 * k + 1) == entry.1
                    &&& be48(map@, 12 * k + 4) == entry.2
                    &&& be16(map@, 12 * k + 10) == entry.3
                }) by {
                    if k < h {
                        assert(map@[12 * k] == mpre[12 * k]);
                        assert(map@[12 * k + 1] == mpre[12 * k + 1]);
                        assert(map@[12 * k + 2] == mpre[12 * k + 2]);
                        assert(map@[12 * k + 3] == mpre[12 * k + 3]);
                        assert(map@[12 * k + 4] == mpre[12 * k + 4]);
                        assert(map@[12 * k + 5] == mpre[12 * k + 5]);
                        assert(map@[12 * k + 6] == mpre[12 * k + 6]);
                        assert(map@[12 * k + 7] == mpre[12 * k + 7]);
                        assert(map@[12 * k + 8] == mpre[12 * k + 8]);
                        assert(map@[12 * k + 9] == mpre[12 * k + 9]);
                        assert(map@[12 * k + 10] == mpre[12 * k + 10]);
                        assert(map@[12 * k + 11] == mpre[12 * k + 11]);
                    }
                }
                assert forall|j: int| 0 <= j < 12 * (h as int) implies map@[j] == mpre[j] by {
                    assert(j < 12 * (h as int));
                }
                assert(map@.subrange(0, 12 * (h as int)) =~= mpre.subrange(0, 12 * (h as int)));
                assert(map@.subrange(12 * (h as int) + 1, 12 * (h as int) + 4)
                    =~= crate::utils::be24_bytes(length));
                assert(map@.subrange(12 * (h as int) + 4, 12 * (h as int) + 10)
                    =~= crate::utils::be48_bytes(offset));
                assert(map@.subrange(12 * (h as int) + 10, 12 * (h as int) + 12)
                    =~= crate::utils::be16_bytes(crc));
                assert(map@.subrange(12 * (h as int), 12 * (h as int) + 12) =~= spec_entry_bytes(
                    entries[h as int],
                ));
                lemma_map_bytes_prefix(entries, ents0, h as int);
                assert(map@.subrange(0, 12 * ((h + 1) as int)) =~= spec_map_bytes(
                    ents0,
                    h as int,
                ) + spec_entry_bytes(entries[h as int]));
                assert(map@.subrange(0, 12 * ((h + 1) as int)) == spec_map_bytes(
                    entries,
                    h as int + 1,
                ));
            }
            h = h + 1;
        }
        proof {
            assert(spec_map_entries(
                body,
                typesfull,
                0,
                lengthbits as int,
                hunkbits as int,
                parentbits as int,
                hunkbytes as int,
                unitbytes as int,
                p2start,
                be48(maphdr@, 4) as int,
                0,
                0,
                Seq::empty(),
            ) == Some((entries, bits.consumed() as int)));
        }

        proof {
            assert(map@ =~= map@.subrange(0, 12 * (hunkcount as int)));
            assert(map@ == spec_map_bytes(entries, hunkcount as int));
        }
        let crc = read_be16(maphdr, 10);
        let calc = crc16(map.as_slice());
        if crc != calc {
            proof {
                assert(!ok);
            }
            return Err(ChdError::BadMap);
        }
        proof {
            assert(spec_map_decoded(*header, maphdr@, body, map@));
            assert(ok);
        }
        Ok(Map5 { map })
    }
}

/// One step of the first map pass per hunk: a pending repeat emits the
/// last type again; otherwise one Huffman symbol is decoded from the
/// canonical table of `lens`, where seven starts a short repeat run,
/// eight a long one, and anything else is the type itself.
pub open spec fn spec_map_types(
    data: Seq<u8>,
    lens: Seq<u8>,
    pos: int,
    rep: int,
    last: u8,
    n: int,
    acc: Seq<u8>,
) -> (Seq<u8>, int)
    decreases n,
{
    if n <= 0 {
        (acc, pos)
    } else if rep > 0 {
        spec_map_types(data, lens, pos, rep - 1, last, n - 1, acc.push(last))
    } else {
        let e = crate::huffman::spec_tbl(8, lens, stream_value(data, pos, 8) as int);
        let sym = crate::huffman::entry_symbol(e);
        let p1 = pos + crate::huffman::entry_length(e);
        if sym == 7 {
            let e2 = crate::huffman::spec_tbl(8, lens, stream_value(data, p1, 8) as int);
            let p2 = p1 + crate::huffman::entry_length(e2);
            spec_map_types(
                data,
                lens,
                p2,
                2 + crate::huffman::entry_symbol(e2) as int,
                last,
                n - 1,
                acc.push(last),
            )
        } else if sym == 8 {
            let e2 = crate::huffman::spec_tbl(8, lens, stream_value(data, p1, 8) as int);
            let p2 = p1 + crate::huffman::entry_length(e2);
            let e3 = crate::huffman::spec_tbl(8, lens, stream_value(data, p2, 8) as int);
            let p3 = p2 + crate::huffman::entry_length(e3);
            spec_map_types(
                data,
                lens,
                p3,
                2 + 16 + (crate::huffman::entry_symbol(e2) as int) * 16
                    + crate::huffman::entry_symbol(e3) as int,
                last,
                n - 1,
                acc.push(last),
            )
        } else {
            spec_map_types(data, lens, p1, 0, sym as u8, n - 1, acc.push(sym as u8))
        }
    }
}

/// One step of the second map pass per hunk, resolving the raw type in
/// `types[h]` to a canonical entry of (type, length, offset, checksum):
/// codec and verbatim entries take the running offset and advance it,
/// references read or derive their target, and pseudo-types normalize to
/// base types; a field out of range, or an unknown raw type, fails.
pub open spec fn spec_map_entries(
    data: Seq<u8>,
    types: Seq<u8>,
    h: int,
    lengthbits: int,
    hunkbits: int,
    parentbits: int,
    hunkbytes: int,
    unitbytes: int,
    pos: int,
    curoffset: int,
    lastself: int,
    lastparent: int,
    acc: Seq<(u8, u32, u64, u16)>,
) -> Option<(Seq<(u8, u32, u64, u16)>, int)>
    decreases types.len() - h,
{
    if h >= types.len() {
        Some((acc, pos))
    } else {
        let raw = types[h];
        if raw <= 3 || raw == 4 {
            let length = if raw == 4 {
                hunkbytes
            } else {
                stream_value(data, pos, lengthbits) as int
            };
            let crcpos = if raw == 4 {
                pos
            } else {
                pos + lengthbits
            };
            let crc = stream_value(data, crcpos, 16) as int;
            if length >= 0x100_0000 {
                None
            } else if curoffset >= 0x1_0000_0000_0000 {
                None
            } else {
                spec_map_entries(
                    data,
                    types,
                    h + 1,
                    lengthbits,
                    hunkbits,
                    parentbits,
                    hunkbytes,
                    unitbytes,
                    crcpos + 16,
                    curoffset + length,
                    lastself,
                    lastparent,
                    acc.push((raw, length as u32, curoffset as u64, crc as u16)),
                )
            }
        } else if raw == 5 || raw == 6 {
            let width = if raw == 5 {
                hunkbits
            } else {
                parentbits
            };
            let offset = stream_value(data, pos, width) as int;
            if offset >= 0x1_0000_0000_0000 {
                None
            } else {
                spec_map_entries(
                    data,
                    types,
                    h + 1,
                    lengthbits,
                    hunkbits,
                    parentbits,
                    hunkbytes,
                    unitbytes,
                    pos + width,
                    curoffset,
                    if raw == 5 {
                        offset
                    } else {
                        lastself
                    },
                    if raw == 6 {
                        offset
                    } else {
                        lastparent
                    },
                    acc.push((raw, 0, offset as u64, 0)),
                )
            }
        } else if raw == 9 || raw == 10 {
            if raw == 10 && lastself >= 0x1_0000_0000_0000 - 1 {
                None
            } else {
                let target = lastself + if raw == 10 {
                    1int
                } else {
                    0int
                };
                if target >= 0x1_0000_0000_0000 {
                    None
                } else {
                    spec_map_entries(
                        data,
                        types,
                        h + 1,
                        lengthbits,
                        hunkbits,
                        parentbits,
                        hunkbytes,
                        unitbytes,
                        pos,
                        curoffset,
                        target,
                        lastparent,
                        acc.push((5, 0, target as u64, 0)),
                    )
                }
            }
        } else if raw == 11 {
            let units = (h * hunkbytes) / unitbytes;
            if units >= 0x1_0000_0000_0000 {
                None
            } else {
                spec_map_entries(
                    data,
                    types,
                    h + 1,
                    lengthbits,
                    hunkbits,
                    parentbits,
                    hunkbytes,
                    unitbytes,
                    pos,
                    curoffset,
                    lastself,
                    units,
                    acc.push((5, 0, units as u64, 0)),
                )
            }
        } else if raw == 12 || raw == 13 {
            let next = lastparent + if raw == 13 {
                hunkbytes / unitbytes
            } else {
                0int
            };
            if next >= 0x1_0000_0000_0000 {
                None
            } else {
                spec_map_entries(
                    data,
                    types,
                    h + 1,
                    lengthbits,
                    hunkbits,
                    parentbits,
                    hunkbytes,
                    unitbytes,
                    pos,
                    curoffset,
                    lastself,
                    next,
                    acc.push((6, 0, next as u64, 0)),
                )
            }
        } else {
            None
        }
    }
}

/// The twelve canonical bytes of one map entry: the type byte, then the
/// big-endian length, offset and checksum fields.
pub open spec fn spec_entry_bytes(e: (u8, u32, u64, u16)) -> Seq<u8> {
    seq![e.0] + crate::utils::be24_bytes(e.1) + crate::utils::be48_bytes(e.2)
        + crate::utils::be16_bytes(e.3)
}

/// The canonical map bytes of the first `n` entries, laid end to end.
pub open spec fn spec_map_bytes(entries: Seq<(u8, u32, u64, u16)>, n: int) -> Seq<u8>
    decreases n,
{
    if n <= 0 {
        Seq::empty()
    } else {
        spec_map_bytes(entries, n - 1) + spec_entry_bytes(entries[n - 1])
    }
}

/// The map bytes of the first `n` entries depend on those entries alone.
proof fn lemma_map_bytes_prefix(e1: Seq<(u8, u32, u64, u16)>, e2: Seq<(u8, u32, u64, u16)>, n: int)
    requires
        forall|k: int| 0 <= k < n ==> e1[k] == e2[k],
    ensures
        spec_map_bytes(e1, n) == spec_map_bytes(e2, n),
    decreases n,
{
    if n > 0 {
        lemma_map_bytes_prefix(e1, e2, n - 1);
    }
}

/// The whole compressed map region decodes cleanly: the three bit widths
/// are in range, the body's Huffman descriptor imports cleanly, the
/// second pass resolves every entry, and the materialized map matches the
/// stored checksum.
pub open spec fn spec_map_ok(
    hunkbytes: int,
    unitbytes: int,
    hunkcount: int,
    maphdr: Seq<u8>,
    body: Seq<u8>,
) -> bool {
    &&& maphdr[12] < 32 && maphdr[13] < 32 && maphdr[14] < 32
    &&& crate::huffman::spec_rle_import_ok(body, 0, 4, 16, 8)
    &&& ({
        let dp = crate::huffman::spec_rle_lengths(body, 0, 4, 16, Seq::empty()).unwrap();
        let t1 = spec_map_types(body, dp.0, dp.1, 0, 0, hunkcount, Seq::empty());
        let t2 = spec_map_entries(
            body,
            t1.0,
            0,
            maphdr[12] as int,
            maphdr[13] as int,
            maphdr[14] as int,
            hunkbytes,
            unitbytes,
            t1.1,
            be48(maphdr, 4) as int,
            0,
            0,
            Seq::empty(),
        );
        &&& t2 matches Some(e2)
        &&& crc16_spec(spec_map_bytes(e2.0, hunkcount)) == be16(maphdr, 10)
    })
}

/// The whole map region is readable and decodes: the map fits in memory
/// and lies inside the source; a compressed map's header and body are in
/// range and the body decodes cleanly.
pub open spec fn spec_map_read_ok(header: Header, data: Seq<u8>) -> bool {
    &&& 12 * header.hunkcount <= usize::MAX
    &&& if header.compressors@[0] == 0 {
        header.mapoffset + 12 * header.hunkcount <= data.len()
    } else {
        &&& header.mapoffset + 16 <= data.len()
        &&& be32(data, header.mapoffset as int) <= data.len() - header.mapoffset - 16
        &&& spec_map_ok(
            header.hunkbytes as int,
            header.unitbytes as int,
            header.hunkcount as int,
            data.subrange(header.mapoffset as int, header.mapoffset + 16),
            data.subrange(
                header.mapoffset + 16,
                header.mapoffset + 16 + be32(data, header.mapoffset as int),
            ),
        )
    }
}

/// A source opens: its header passes every check and its map region
/// reads and decodes.
pub open spec fn spec_open_ok(data: Seq<u8>) -> bool {
    &&& spec_header_error(data) is None
    &&& ({
        let hunkcount = be64(data, 32) / be32(data, 56);
        let mapoffset = be64(data, 40) as int;
        &&& 12 * hunkcount <= usize::MAX
        &&& if be32(data, 16) == 0 {
            mapoffset + 12 * hunkcount <= data.len()
        } else {
            &&& mapoffset + 16 <= data.len()
            &&& be32(data, mapoffset) <= data.len() - mapoffset - 16
            &&& spec_map_ok(
                be32(data, 56) as int,
                be32(data, 60) as int,
                hunkcount as int,
                data.subrange(mapoffset, mapoffset + 16),
                data.subrange(mapoffset + 16, mapoffset + 16 + be32(data, mapoffset)),
            )
        }
    })
}

/// A seek target for the logical byte stream: from the start, from the
/// current position, or from the end of the image.
#[derive(Clone, Copy, Debug, PartialEq, Eq, Structural)]
pub enum SeekFrom {
    /// An absolute position.
    Start(u64),
    /// An offset from the current position.
    Current(i64),
    /// An offset from the logical size.
    End(i64),
}

/// How many hunks of the first `n` have compression type `c`.
pub open spec fn count_compression(map: Seq<u8>, n: int, c: u8) -> nat
    decreases n,
{
    if n <= 0 {
        0
    } else {
        count_compression(map, n - 1, c) + (if map[12 * (n - 1)] == c {
            1nat
        } else {
            0nat
        })
    }
}

/// No compression type appears more often than there are hunks.
pub proof fn lemma_count_compression_bound(map: Seq<u8>, n: int, c: u8)
    requires
        n >= 0,
    ensures
        count_compression(map, n, c) <= n,
    decreases n,
{
    if n > 0 {
        lemma_count_compression_bound(map, n - 1, c);
    }
}

/// An open CHD v5 image: the source bytes, the parsed header, and the
/// decoded hunk map.
pub struct Chd {
    /// The logical stream position that `seek` maintains.
    pub pos: i64,
    /// The whole container file.
    pub data: Vec<u8>,
    /// The parsed header.
    pub header: Header,
    /// The decoded hunk map.
    pub map: Map5,
}

impl Chd {
    /// A reader is backed by a validated header and a map with one entry
    /// per hunk.
    pub open spec fn wf(&self) -> bool {
        &&& self.header.wf()
        &&& self.map.wf(self.header.hunkcount)
    }

    /// Everything `open` pins down about a reader built from `data`: the
    /// source is rejected by no header check, the geometry comes from the
    /// header's fields, a raw map is the stored bytes themselves, and a
    /// decoded map carries only base compression types and matches its
    /// stored checksum.
    pub open spec fn spec_opened(c: Chd, data: Seq<u8>) -> bool {
        &&& spec_header_error(data) is None
        &&& c.wf()
        &&& c.pos == 0
        &&& c.data@ == data
        &&& c.header.size == be64(data, 32)
        &&& c.header.mapoffset == be64(data, 40)
        &&& c.header.hunkbytes == be32(data, 56)
        &&& c.header.unitbytes == be32(data, 60)
        &&& c.header.compressors@[0] == be32(data, 16)
        &&& c.header.compressors@[1] == be32(data, 20)
        &&& c.header.compressors@[2] == be32(data, 24)
        &&& c.header.compressors@[3] == be32(data, 28)
        &&& c.header.compressors@[0] == 0 ==> c.map.map@ == data.subrange(
            c.header.mapoffset as int,
            c.header.mapoffset + 12 * c.header.hunkcount,
        )
        &&& c.header.compressors@[0] != 0 ==> crc16_spec(c.map.map@) == be16(
            data,
            c.header.mapoffset + 10,
        )
        &&& c.header.compressors@[0] != 0 ==> forall|h: int|
            0 <= h < c.header.hunkcount ==> #[trigger] c.map.map@[12 * h] <= 6
        &&& c.header.compressors@[0] != 0 ==> spec_map_decoded(
            c.header,
            data.subrange(c.header.mapoffset as int, c.header.mapoffset + 16),
            data.subrange(
                c.header.mapoffset + 16,
                c.header.mapoffset + 16 + be32(data, c.header.mapoffset as int),
            ),
            c.map.map@,
        )
    }

    /// Parses the header, decodes the hunk map and checks its checksum.
    /// Nothing of the file is interpreted beyond those two regions until
    /// hunks are read.
    pub fn open(data: Vec<u8>) -> (r: Result<Chd, ChdError>)
        ensures
            match r {
                Ok(c) => Chd::spec_opened(c, data@),
                Err(e) => spec_header_error(data@) is Some ==> e == spec_header_error(
                    data@,
                ).unwrap(),
            },
            r.is_ok() <==> spec_open_ok(data@),
            r.is_err() ==> (spec_header_error(data@) matches Some(e) && r == Err::<Chd, ChdError>(
                e,
            ) || spec_header_error(data@) is None && (r == Err::<Chd, ChdError>(
                ChdError::BadGeometry,
            ) || r == Err::<Chd, ChdError>(ChdError::Io) || r == Err::<Chd, ChdError>(
                ChdError::BadMap,
            ) || r == Err::<Chd, ChdError>(ChdError::BadHuffman))),
    {
        let header = match Header::read(data.as_slice()) {
            Ok(h) => h,
            Err(e) => {
                proof {
                    assert(!spec_open_ok(data@));
                }
                return Err(e);
            },
        };
        let ghost hdr = header;
        let map = match Map5::read(data.as_slice(), &header) {
            Ok(m) => m,
            Err(e) => {
                proof {
                    assert(!spec_map_read_ok(hdr, data@));
                    assert(!spec_open_ok(data@));
                }
                return Err(e);
            },
        };
        proof {
            assert(spec_map_read_ok(hdr, data@));
            assert(spec_open_ok(data@));
        }
        Ok(Chd { pos: 0, data, header, map })
    }

    /// The logical size of the image in bytes.
    pub fn len(&self) -> (r: u64)
        ensures
            r == self.header.size,
    {
        self.header.size
    }

    /// The size of one hunk in bytes.
    pub fn hunk_size(&self) -> (r: u32)
        ensures
            r == self.header.hunkbytes,
    {
        self.header.hunkbytes
    }

    /// How many whole hunks the image holds.
    pub fn hunk_count(&self) -> (r: u32)
        ensures
            r == self.header.hunkcount,
    {
        self.header.hunkcount
    }

    /// The container format version.
    pub fn version(&self) -> (r: u32)
        ensures
            r == self.header.version,
    {
        self.header.version
    }

    /// A human-readable name for a compression type byte.
    pub fn compression_name(&self, compr: u8) -> &'static str {
        if compr == COMPRESSION_TYPE_0 {
            match self.codec_name(0) {
                Some(n) => n,
                None => "Codec #0",
            }
        } else if compr == COMPRESSION_TYPE_1 {
            match self.codec_name(1) {
                Some(n) => n,
                None => "Codec #1",
            }
        } else if compr == COMPRESSION_TYPE_2 {
            match self.codec_name(2) {
                Some(n) => n,
                None => "Codec #2",
            }
        } else if compr == COMPRESSION_TYPE_3 {
            match self.codec_name(3) {
                Some(n) => n,
                None => "Codec #3",
            }
        } else if compr == COMPRESSION_NONE {
            "Uncompressed"
        } else if compr == COMPRESSION_SELF {
            "Self"
        } else if compr == COMPRESSION_PARENT {
            "Parent"
        } else {
            "Invalid"
        }
    }

    /// A human-readable name for codec slot `i`, or `None` for a slot not
    /// in use.
    pub fn codec_name(&self, i: usize) -> (r: Option<&'static str>)
        ensures
            r is Some <==> (i < 4 && (i == 0 || self.header.compressors@[i as int] != 0)),
            (i == 0 && self.header.compressors@[0] == 0) ==> (r matches Some(n) && n@ == "None"@),
            ({
                let tag = self.header.compressors@[i as int];
                &&& (i < 4 && tag == CHD_CODEC_HUFF) ==> (r matches Some(n) && n@ == "Huffman"@)
                &&& (i < 4 && tag == CHD_CODEC_ZLIB && !(i == 0 && tag == 0)) ==> (r matches Some(n)
                    && n@ == "zlib"@)
                &&& (i < 4 && tag == CHD_CODEC_LZMA) ==> (r matches Some(n) && n@ == "LZMA"@)
                &&& (i < 4 && tag == CHD_CODEC_FLAC) ==> (r matches Some(n) && n@ == "FLAC"@)
                &&& (i < 4 && tag == CHD_CODEC_CD_ZLIB) ==> (r matches Some(n) && n@ == "CD zlib"@)
                &&& (i < 4 && tag == CHD_CODEC_CD_LZMA) ==> (r matches Some(n) && n@ == "CD LZMA"@)
                &&& (i < 4 && tag == CHD_CODEC_CD_FLAC) ==> (r matches Some(n) && n@ == "CD FLAC"@)
                &&& (i < 4 && !(i == 0 && tag == 0) && tag != 0 && tag != CHD_CODEC_HUFF && tag
                    != CHD_CODEC_ZLIB && tag != CHD_CODEC_LZMA && tag != CHD_CODEC_FLAC && tag
                    != CHD_CODEC_CD_ZLIB && tag != CHD_CODEC_CD_LZMA && tag != CHD_CODEC_CD_FLAC)
                    ==> (r matches Some(n) && n@ == "Unknown"@)
            }),
    {
        if i == 0 && self.header.compressors[0] == 0 {
            return Some("None");
        }
        if i < 4 {
            let tag = self.header.compressors[i];
            if tag == 0 {
                None
            } else if tag == CHD_CODEC_HUFF {
                Some("Huffman")
            } else if tag == CHD_CODEC_ZLIB {
                Some("zlib")
            } else if tag == CHD_CODEC_LZMA {
                Some("LZMA")
            } else if tag == CHD_CODEC_FLAC {
                Some("FLAC")
            } else if tag == CHD_CODEC_CD_ZLIB {
                Some("CD zlib")
            } else if tag == CHD_CODEC_CD_LZMA {
                Some("CD LZMA")
            } else if tag == CHD_CODEC_CD_FLAC {
                Some("CD FLAC")
            } else {
                Some("Unknown")
            }
        } else {
            None
        }
    }

    /// How many hunks use each base compression type, indexed by type.
    /// A wholly uncompressed image counts every hunk as uncompressed.
    pub fn compression_distribution(&self) -> (r: Vec<u32>)
        requires
            self.wf(),
        ensures
            r@.len() == COMPRESSION_NUM,
            self.header.compressors@[0] == 0 ==> r@[COMPRESSION_NONE as int]
                == self.header.hunkcount && (forall|c: int|
                0 <= c < COMPRESSION_NUM && c != COMPRESSION_NONE ==> #[trigger] r@[c] == 0),
            self.header.compressors@[0] != 0 ==> forall|c: int|
                0 <= c < COMPRESSION_NUM ==> #[trigger] r@[c] == count_compression(
                    self.map.map@,
                    self.header.hunkcount as int,
                    c as u8,
                ),
    {
        let mut distr: Vec<u32> = Vec::new();
        let mut c: usize = 0;
        while c < COMPRESSION_NUM
            invariant
                distr@.len() == c,
                c <= COMPRESSION_NUM,
                forall|k: int| 0 <= k < c ==> (#[trigger] distr@[k]) == 0,
            decreases COMPRESSION_NUM - c,
        {
            distr.push(0);
            c = c + 1;
        }
        if self.header.compressors[0] == 0 {
            distr.set(COMPRESSION_NONE as usize, self.header.hunkcount);
        } else {
            let hunkcount = self.header.hunkcount as usize;
            let mut h: usize = 0;
            while h < hunkcount
                invariant
                    self.wf(),
                    hunkcount == self.header.hunkcount,
                    h <= hunkcount,
                    distr@.len() == COMPRESSION_NUM,
                    forall|c: int|
                        0 <= c < COMPRESSION_NUM ==> #[trigger] distr@[c] == count_compression(
                            self.map.map@,
                            h as int,
                            c as u8,
                        ),
                decreases hunkcount - h,
            {
                proof {
                    assert(12 * h + 12 <= 12 * hunkcount);
                }
                let compressor = self.map.compression(h);
                if compressor < 7 {
                    proof {
                        lemma_count_compression_bound(self.map.map@, h as int, compressor);
                    }
                    let old_count = distr[compressor as usize];
                    distr.set(compressor as usize, old_count + 1);
                }
                h = h + 1;
            }
        }
        distr
    }

    /// The contents hunk `hunknum` reconstructs to, where the map alone
    /// decides them: a verbatim hunk (or any hunk of a wholly
    /// uncompressed image) is a slice of the source, and a self reference
    /// resolves through its target, spending one level of `depth` per
    /// hop.  A hunk whose contents pass through a codec is not modelled
    /// here.
    pub open spec fn spec_hunk(&self, hunknum: int, depth: nat) -> Option<Seq<u8>>
        decreases depth,
    {
        if !(0 <= hunknum < self.header.hunkcount) {
            None
        } else {
            let compression = self.map.map@[12 * hunknum];
            let offset = be48(self.map.map@, 12 * hunknum + 4);
            if self.header.compressors@[0] == 0 || compression == COMPRESSION_NONE {
                if offset + self.header.hunkbytes <= self.data@.len() {
                    Some(self.data@.subrange(offset as int, offset + self.header.hunkbytes))
                } else {
                    None
                }
            } else if compression == COMPRESSION_SELF {
                if depth == 0 {
                    None
                } else {
                    self.spec_hunk(offset as int, (depth - 1) as nat)
                }
            } else if compression <= 3 {
                let length = be24(self.map.map@, 12 * hunknum + 1);
                let tag = self.header.compressors@[compression as int];
                let hunkbytes = self.header.hunkbytes as int;
                if offset + length <= self.data@.len() {
                    let src = self.data@.subrange(offset as int, offset as int + length);
                    if tag == CHD_CODEC_HUFF {
                        let sl = crate::huffman::spec_small_lengths(src, 0);
                        let ml = crate::huffman::spec_main_lengths(
                            src,
                            sl.0,
                            sl.1,
                            256,
                            crate::huffman::spec_bits_of(256 - 9),
                            0,
                            Seq::empty(),
                        );
                        let out = crate::huffman::spec_decode_bytes(
                            src,
                            ml.0,
                            ml.1,
                            hunkbytes,
                            Seq::empty(),
                        );
                        if crate::huffman::spec_full_import_ok(src, 0, 256, 16) && out.1 <= 8
                            * src.len() {
                            Some(out.0)
                        } else {
                            None
                        }
                    } else if tag == CHD_CODEC_ZLIB {
                        match crate::decompress::inflate_of(src) {
                            Some(v) => if v.len() == hunkbytes {
                                Some(v)
                            } else {
                                None
                            },
                            None => None,
                        }
                    } else if tag == CHD_CODEC_FLAC {
                        let frame = crate::decompress::flac_frame_of(
                            src.subrange(1, src.len() as int),
                        );
                        if hunkbytes % 4 == 0 && src.len() > 0 && (src[0] == 0x4C || src[0]
                            == 0x42) && (frame matches Some(fr) && fr.0 == hunkbytes / 4 && fr.1
                            == 2) {
                            Some(
                                crate::decompress::spec_flac_bytes(
                                    frame.unwrap().2,
                                    hunkbytes / 4,
                                    src[0],
                                ),
                            )
                        } else {
                            None
                        }
                    } else {
                        None
                    }
                } else {
                    None
                }
            } else {
                None
            }
        }
    }

    /// A chain of self references starting at `hunknum` that is still on
    /// a self reference after `depth` hops: reconstruction under a budget
    /// of `depth` gives up on it.
    pub open spec fn spec_chain_over(&self, hunknum: int, depth: nat) -> bool
        decreases depth,
    {
        &&& 0 <= hunknum < self.header.hunkcount
        &&& self.header.compressors@[0] != 0
        &&& self.map.map@[12 * hunknum] == COMPRESSION_SELF
        &&& if depth == 0 {
            true
        } else {
            let target = be48(self.map.map@, 12 * hunknum + 4);
            target < self.header.hunkcount && self.spec_chain_over(
                target as int,
                (depth - 1) as nat,
            )
        }
    }

    /// Reads `length` bytes at `offset` and hands them to codec slot
    /// `index`.
    fn decompress_hunk(&self, offset: u64, length: u32, index: usize, buf: &mut Vec<u8>) -> (r:
        Result<(), ChdError>)
        requires
            self.wf(),
            index < 4,
            old(buf)@.len() == self.header.hunkbytes,
        ensures
            final(buf)@.len() == old(buf)@.len(),
            ({
                let tag = self.header.compressors@[index as int];
                (offset + length <= self.data@.len() && tag != CHD_CODEC_HUFF && tag
                    != CHD_CODEC_ZLIB && tag != CHD_CODEC_FLAC) ==> r == Err::<(), ChdError>(
                    ChdError::BadCodec,
                )
            }),
            r.is_err() ==> (r == Err::<(), ChdError>(ChdError::Io) || r == Err::<(), ChdError>(
                ChdError::BadHuffman,
            ) || r == Err::<(), ChdError>(ChdError::BadCodec)),
            (r.is_err() && self.header.compressors@[index as int] != CHD_CODEC_HUFF) ==> final(buf)@
                == old(buf)@,
            (offset + length <= self.data@.len() && self.header.compressors@[index as int]
                == CHD_CODEC_HUFF) ==> (r.is_ok() <==> ({
                let src = self.data@.subrange(offset as int, offset + length);
                let sl = crate::huffman::spec_small_lengths(src, 0);
                let ml = crate::huffman::spec_main_lengths(
                    src,
                    sl.0,
                    sl.1,
                    256,
                    crate::huffman::spec_bits_of(256 - 9),
                    0,
                    Seq::empty(),
                );
                let out = crate::huffman::spec_decode_bytes(
                    src,
                    ml.0,
                    ml.1,
                    old(buf)@.len() as int,
                    Seq::empty(),
                );
                crate::huffman::spec_full_import_ok(src, 0, 256, 16) && out.1 <= 8 * src.len()
            })),
            (offset + length <= self.data@.len() && self.header.compressors@[index as int]
                == CHD_CODEC_ZLIB) ==> (r.is_ok() <==> ({
                let decoded = crate::decompress::inflate_of(
                    self.data@.subrange(offset as int, offset + length),
                );
                decoded matches Some(v) && v.len() == old(buf)@.len()
            })),
            (offset + length <= self.data@.len() && self.header.compressors@[index as int]
                == CHD_CODEC_FLAC) ==> (r.is_ok() <==> ({
                let src = self.data@.subrange(offset as int, offset + length);
                let frame = crate::decompress::flac_frame_of(src.subrange(1, src.len() as int));
                &&& old(buf)@.len() % 4 == 0
                &&& src.len() > 0
                &&& (src[0] == 0x4C || src[0] == 0x42)
                &&& frame matches Some(fr)
                &&& fr.0 == old(buf)@.len() / 4
                &&& fr.1 == 2
            })),
            (r == Err::<(), ChdError>(ChdError::Io) || r == Err::<(), ChdError>(
                ChdError::BadHuffman,
            )) ==> final(buf)@ == old(buf)@,
            (r.is_ok() && self.header.compressors@[index as int] == CHD_CODEC_ZLIB) ==> offset
                + length <= self.data@.len() && crate::decompress::inflate_of(
                self.data@.subrange(offset as int, offset + length),
            ) == Some(final(buf)@),
            (r.is_ok() && self.header.compressors@[index as int] == CHD_CODEC_HUFF) ==> offset
                + length <= self.data@.len() && ({
                let src = self.data@.subrange(offset as int, offset + length);
                let sl = crate::huffman::spec_small_lengths(src, 0);
                let ml = crate::huffman::spec_main_lengths(
                    src,
                    sl.0,
                    sl.1,
                    256,
                    crate::huffman::spec_bits_of(256 - 9),
                    0,
                    Seq::empty(),
                );
                let out = crate::huffman::spec_decode_bytes(
                    src,
                    ml.0,
                    ml.1,
                    old(buf)@.len() as int,
                    Seq::empty(),
                );
                final(buf)@ == out.0 && out.1 <= 8 * src.len()
            }),
            (r.is_ok() && self.header.compressors@[index as int] == CHD_CODEC_FLAC) ==> offset
                + length <= self.data@.len() && old(buf)@.len() % 4 == 0 && ({
                let src = self.data@.subrange(offset as int, offset + length);
                &&& src.len() > 0
                &&& (src[0] == 0x4C || src[0] == 0x42)
                &&& ({
                    let frame = crate::decompress::flac_frame_of(src.subrange(1, src.len() as int));
                    let numframes = old(buf)@.len() / 4;
                    &&& frame matches Some(fr)
                    &&& fr.0 == numframes
                    &&& fr.1 == 2
                    &&& final(buf)@ == crate::decompress::spec_flac_bytes(
                        fr.2,
                        numframes as int,
                        src[0],
                    )
                    &&& forall|i: int|
                        0 <= i < numframes ==> #[trigger] crate::decompress::sample_pair_stored(
                            final(buf)@,
                            fr.2,
                            numframes as int,
                            src[0],
                            i,
                        )
                })
            }),
    {
        let datalen = self.data.len() as u64;
        if offset > datalen || (length as u64) > datalen - offset {
            return Err(ChdError::Io);
        }
        let start = offset as usize;
        let n = length as usize;
        let mut compbuf: Vec<u8> = Vec::new();
        let mut i: usize = 0;
        while i < n
            invariant
                compbuf@.len() == i,
                i <= n,
                start + n <= self.data@.len(),
                start + n <= usize::MAX,
                forall|j: int| 0 <= j < i ==> compbuf@[j] == self.data@[start + j],
            decreases n - i,
        {
            compbuf.push(self.data[start + i]);
            i = i + 1;
        }
        proof {
            assert(compbuf@ =~= self.data@.subrange(offset as int, offset + length));
        }
        let tag = self.header.compressors[index];
        if tag == CHD_CODEC_HUFF {
            let mut codec = decompress::Huffman::new();
            codec.decompress(&compbuf, buf)
        } else if tag == CHD_CODEC_ZLIB {
            let codec = decompress::Inflate::new();
            codec.decompress(&compbuf, buf)
        } else if tag == CHD_CODEC_FLAC {
            if buf.len() % 4 != 0 {
                return Err(ChdError::BadCodec);
            }
            let codec = decompress::Flac::new();
            codec.decompress(&compbuf, buf)
        } else {
            // an empty slot, or a codec this reader does not provide
            Err(ChdError::BadCodec)
        }
    }

    /// Reconstructs hunk `hunknum` into `buf`, following at most `depth`
    /// self references.
    #[verifier::rlimit(100)]
    #[verifier::spinoff_prover]
    fn read_hunk_depth(&self, hunknum: usize, buf: &mut Vec<u8>, depth: u32) -> (r: Result<
        (),
        ChdError,
    >)
        requires
            self.wf(),
            old(buf)@.len() == self.header.hunkbytes,
        ensures
            final(buf)@.len() == old(buf)@.len(),
            (r.is_ok() && hunknum < self.header.hunkcount && (self.header.compressors@[0] == 0
                || self.map.map@[12 * hunknum] == COMPRESSION_NONE)) ==> ({
                let offset = be48(self.map.map@, 12 * hunknum + 4);
                offset + self.header.hunkbytes <= self.data@.len() && final(buf)@
                    == self.data@.subrange(
                    offset as int,
                    offset + self.header.hunkbytes,
                )
            }),
            self.spec_hunk(hunknum as int, depth as nat) is Some ==> (r.is_ok() && final(buf)@
                == self.spec_hunk(hunknum as int, depth as nat).unwrap()),
            hunknum >= self.header.hunkcount ==> r == Err::<(), ChdError>(ChdError::BadReference),
            (hunknum < self.header.hunkcount && self.header.compressors@[0] != 0
                && self.map.map@[12 * hunknum] == COMPRESSION_PARENT) ==> r == Err::<
                (),
                ChdError,
            >(ChdError::BadReference),
            self.spec_chain_over(hunknum as int, depth as nat) ==> r == Err::<(), ChdError>(
                ChdError::BadReference,
            ),
            (r.is_err() && r != Err::<(), ChdError>(ChdError::BadCodec)) ==> final(buf)@
                == old(buf)@,
            (r.is_ok() && hunknum < self.header.hunkcount && self.header.compressors@[0] != 0
                && self.map.map@[12 * hunknum] <= 3 && self.header.compressors@[self.map.map@[
                12 * hunknum
            ] as int] == CHD_CODEC_HUFF) ==> ({
                let off = be48(self.map.map@, 12 * hunknum + 4);
                let len = be24(self.map.map@, 12 * hunknum + 1);
                let src = self.data@.subrange(off as int, off as int + len);
                let sl = crate::huffman::spec_small_lengths(src, 0);
                let ml = crate::huffman::spec_main_lengths(
                    src,
                    sl.0,
                    sl.1,
                    256,
                    crate::huffman::spec_bits_of(256 - 9),
                    0,
                    Seq::empty(),
                );
                let out = crate::huffman::spec_decode_bytes(
                    src,
                    ml.0,
                    ml.1,
                    old(buf)@.len() as int,
                    Seq::empty(),
                );
                off + len <= self.data@.len() && final(buf)@ == out.0
            }),
            (r.is_ok() && hunknum < self.header.hunkcount && self.header.compressors@[0] != 0
                && self.map.map@[12 * hunknum] <= 3 && self.header.compressors@[self.map.map@[
                12 * hunknum
            ] as int] == CHD_CODEC_ZLIB) ==> ({
                let off = be48(self.map.map@, 12 * hunknum + 4);
                let len = be24(self.map.map@, 12 * hunknum + 1);
                off + len <= self.data@.len() && crate::decompress::inflate_of(
                    self.data@.subrange(off as int, off as int + len),
                ) == Some(final(buf)@)
            }),
            (r.is_ok() && hunknum < self.header.hunkcount && self.header.compressors@[0] != 0
                && self.map.map@[12 * hunknum] <= 3 && self.header.compressors@[self.map.map@[
                12 * hunknum
            ] as int] == CHD_CODEC_FLAC) ==> ({
                let off = be48(self.map.map@, 12 * hunknum + 4);
                let len = be24(self.map.map@, 12 * hunknum + 1);
                let src = self.data@.subrange(off as int, off as int + len);
                let frame = crate::decompress::flac_frame_of(src.subrange(1, src.len() as int));
                let numframes = old(buf)@.len() / 4;
                &&& off + len <= self.data@.len()
                &&& src.len() > 0
                &&& (src[0] == 0x4C || src[0] == 0x42)
                &&& frame matches Some(fr)
                &&& fr.0 == numframes
                &&& fr.1 == 2
                &&& final(buf)@ == crate::decompress::spec_flac_bytes(
                    fr.2,
                    numframes as int,
                    src[0],
                )
            }),
        decreases depth,
    {
        if hunknum >= self.header.hunkcount as usize {
            return Err(ChdError::BadReference);
        }
        proof {
            assert(12 * hunknum + 12 <= 12 * self.header.hunkcount);
        }
        let (compression, offset, length) = self.map.locate(hunknum);
        if self.header.compressors[0] == 0 || compression == COMPRESSION_NONE {
            let datalen = self.data.len() as u64;
            let hunkbytes = self.header.hunkbytes;
            if offset > datalen || (hunkbytes as u64) > datalen - offset {
                return Err(ChdError::Io);
            }
            let start = offset as usize;
            let n = hunkbytes as usize;
            let mut i: usize = 0;
            while i < n
                invariant
                    buf@.len() == n,
                    i <= n,
                    start + n <= self.data@.len(),
                    start + n <= usize::MAX,
                    forall|j: int| 0 <= j < i ==> buf@[j] == self.data@[start + j],
                decreases n - i,
            {
                buf.set(i, self.data[start + i]);
                i = i + 1;
            }
            proof {
                assert(buf@ =~= self.data@.subrange(offset as int, offset + hunkbytes));
                match self.spec_hunk(hunknum as int, depth as nat) {
                    Some(s) => {
                        assert(buf@ == s);
                    },
                    None => {},
                }
            }
            return Ok(());
        } else if compression == COMPRESSION_SELF {
            if depth == 0 {
                return Err(ChdError::BadReference);
            }
            if offset >= self.header.hunkcount as u64 {
                proof {
                    assert(self.spec_hunk(offset as int, (depth - 1) as nat) is None);
                }
                return Err(ChdError::BadReference);
            }
            let res = self.read_hunk_depth(offset as usize, buf, depth - 1);
            proof {
                match self.spec_hunk(hunknum as int, depth as nat) {
                    Some(s) => {
                        assert(res.is_ok() && buf@ == s);
                    },
                    None => {},
                }
            }
            return res;
        } else if compression <= COMPRESSION_TYPE_3 {
            let res = self.decompress_hunk(offset, length, compression as usize, buf);
            proof {
                assert(compression == self.map.map@[12 * hunknum]);
                assert(offset == be48(self.map.map@, 12 * hunknum + 4));
                assert(length == be24(self.map.map@, 12 * hunknum + 1));
                match self.spec_hunk(hunknum as int, depth as nat) {
                    Some(s) => {
                        assert(res.is_ok() && buf@ == s);
                    },
                    None => {},
                }
            }
            return res;
        } else if compression == COMPRESSION_PARENT {
            proof {
                assert(self.spec_hunk(hunknum as int, depth as nat) is None);
            }
            // a parent image would be needed, and none is attached
            return Err(ChdError::BadReference);
        } else {
            proof {
                assert(self.spec_hunk(hunknum as int, depth as nat) is None);
            }
            return Err(ChdError::BadMap);
        }
    }

    /// Reconstructs hunk `hunknum` into `buf`, which must be exactly one
    /// hunk long.  Chains of self references longer than the recursion
    /// bound fail as broken references.
    pub fn read_hunk(&self, hunknum: usize, buf: &mut Vec<u8>) -> (r: Result<(), ChdError>)
        requires
            self.wf(),
            old(buf)@.len() == self.header.hunkbytes,
        ensures
            final(buf)@.len() == old(buf)@.len(),
            (r.is_ok() && hunknum < self.header.hunkcount && (self.header.compressors@[0] == 0
                || self.map.map@[12 * hunknum] == COMPRESSION_NONE)) ==> ({
                let offset = be48(self.map.map@, 12 * hunknum + 4);
                offset + self.header.hunkbytes <= self.data@.len() && final(buf)@
                    == self.data@.subrange(
                    offset as int,
                    offset + self.header.hunkbytes,
                )
            }),
            self.spec_hunk(hunknum as int, SELF_REFERENCE_DEPTH as nat) is Some ==> (r.is_ok()
                && final(buf)@ == self.spec_hunk(
                hunknum as int,
                SELF_REFERENCE_DEPTH as nat,
            ).unwrap()),
            hunknum >= self.header.hunkcount ==> r == Err::<(), ChdError>(ChdError::BadReference),
            (hunknum < self.header.hunkcount && self.header.compressors@[0] != 0
                && self.map.map@[12 * hunknum] == COMPRESSION_PARENT) ==> r == Err::<
                (),
                ChdError,
            >(ChdError::BadReference),
            self.spec_chain_over(hunknum as int, SELF_REFERENCE_DEPTH as nat) ==> r == Err::<
                (),
                ChdError,
            >(ChdError::BadReference),
            (r.is_err() && r != Err::<(), ChdError>(ChdError::BadCodec)) ==> final(buf)@
                == old(buf)@,
            (r.is_ok() && hunknum < self.header.hunkcount && self.header.compressors@[0] != 0
                && self.map.map@[12 * hunknum] <= 3 && self.header.compressors@[self.map.map@[
                12 * hunknum
            ] as int] == CHD_CODEC_HUFF) ==> ({
                let off = be48(self.map.map@, 12 * hunknum + 4);
                let len = be24(self.map.map@, 12 * hunknum + 1);
                let src = self.data@.subrange(off as int, off as int + len);
                let sl = crate::huffman::spec_small_lengths(src, 0);
                let ml = crate::huffman::spec_main_lengths(
                    src,
                    sl.0,
                    sl.1,
                    256,
                    crate::huffman::spec_bits_of(256 - 9),
                    0,
                    Seq::empty(),
                );
                let out = crate::huffman::spec_decode_bytes(
                    src,
                    ml.0,
                    ml.1,
                    old(buf)@.len() as int,
                    Seq::empty(),
                );
                off + len <= self.data@.len() && final(buf)@ == out.0
            }),
            (r.is_ok() && hunknum < self.header.hunkcount && self.header.compressors@[0] != 0
                && self.map.map@[12 * hunknum] <= 3 && self.header.compressors@[self.map.map@[
                12 * hunknum
            ] as int] == CHD_CODEC_ZLIB) ==> ({
                let off = be48(self.map.map@, 12 * hunknum + 4);
                let len = be24(self.map.map@, 12 * hunknum + 1);
                off + len <= self.data@.len() && crate::decompress::inflate_of(
                    self.data@.subrange(off as int, off as int + len),
                ) == Some(final(buf)@)
            }),
            (r.is_ok() && hunknum < self.header.hunkcount && self.header.compressors@[0] != 0
                && self.map.map@[12 * hunknum] <= 3 && self.header.compressors@[self.map.map@[
                12 * hunknum
            ] as int] == CHD_CODEC_FLAC) ==> ({
                let off = be48(self.map.map@, 12 * hunknum + 4);
                let len = be24(self.map.map@, 12 * hunknum + 1);
                let src = self.data@.subrange(off as int, off as int + len);
                let frame = crate::decompress::flac_frame_of(src.subrange(1, src.len() as int));
                let numframes = old(buf)@.len() / 4;
                &&& off + len <= self.data@.len()
                &&& src.len() > 0
                &&& (src[0] == 0x4C || src[0] == 0x42)
                &&& frame matches Some(fr)
                &&& fr.0 == numframes
                &&& fr.1 == 2
                &&& final(buf)@ == crate::decompress::spec_flac_bytes(
                    fr.2,
                    numframes as int,
                    src[0],
                )
            }),
    {
        self.read_hunk_depth(hunknum, buf, SELF_REFERENCE_DEPTH)
    }

    /// Reconstructs hunk `hunknum` and checks it against the checksum its
    /// map entry stores.  Self and parent references store no checksum of
    /// their own and pass vacuously.
    pub fn validate_hunk(&self, hunknum: usize) -> (r: Result<(), ChdError>)
        requires
            self.wf(),
            hunknum < self.header.hunkcount,
        ensures
            ({
                let compression = self.map.map@[12 * hunknum];
                let stored = be16(self.map.map@, 12 * hunknum + 10);
                ((compression == COMPRESSION_SELF || compression == COMPRESSION_PARENT) && stored
                    == 0) ==> r == Ok::<(), ChdError>(())
            }),
            match self.spec_hunk(hunknum as int, SELF_REFERENCE_DEPTH as nat) {
                Some(s) => ({
                    let compression = self.map.map@[12 * hunknum];
                    let stored = be16(self.map.map@, 12 * hunknum + 10);
                    r == Ok::<(), ChdError>(()) <==> (((compression == COMPRESSION_SELF
                        || compression == COMPRESSION_PARENT) && stored == 0) || crc16_spec(s)
                        == stored)
                }),
                None => true,
            },
            (r.is_ok() && self.header.compressors@[0] != 0 && self.map.map@[12 * hunknum] <= 3
                && self.header.compressors@[self.map.map@[12 * hunknum] as int]
                == CHD_CODEC_HUFF) ==> ({
                let off = be48(self.map.map@, 12 * hunknum + 4);
                let len = be24(self.map.map@, 12 * hunknum + 1);
                let src = self.data@.subrange(off as int, off as int + len);
                let sl = crate::huffman::spec_small_lengths(src, 0);
                let ml = crate::huffman::spec_main_lengths(
                    src,
                    sl.0,
                    sl.1,
                    256,
                    crate::huffman::spec_bits_of(256 - 9),
                    0,
                    Seq::empty(),
                );
                let out = crate::huffman::spec_decode_bytes(
                    src,
                    ml.0,
                    ml.1,
                    self.header.hunkbytes as int,
                    Seq::empty(),
                );
                crc16_spec(out.0) == be16(self.map.map@, 12 * hunknum + 10)
            }),
            (r.is_ok() && self.header.compressors@[0] != 0 && self.map.map@[12 * hunknum] <= 3
                && self.header.compressors@[self.map.map@[12 * hunknum] as int]
                == CHD_CODEC_ZLIB) ==> ({
                let off = be48(self.map.map@, 12 * hunknum + 4);
                let len = be24(self.map.map@, 12 * hunknum + 1);
                let decoded = crate::decompress::inflate_of(
                    self.data@.subrange(off as int, off as int + len),
                );
                decoded matches Some(v) && crc16_spec(v) == be16(self.map.map@, 12 * hunknum + 10)
            }),
            (r.is_ok() && self.header.compressors@[0] != 0 && self.map.map@[12 * hunknum] <= 3
                && self.header.compressors@[self.map.map@[12 * hunknum] as int]
                == CHD_CODEC_FLAC) ==> ({
                let off = be48(self.map.map@, 12 * hunknum + 4);
                let len = be24(self.map.map@, 12 * hunknum + 1);
                let src = self.data@.subrange(off as int, off as int + len);
                let frame = crate::decompress::flac_frame_of(src.subrange(1, src.len() as int));
                let numframes = self.header.hunkbytes as int / 4;
                &&& frame matches Some(fr)
                &&& fr.0 == numframes
                &&& fr.1 == 2
                &&& crc16_spec(crate::decompress::spec_flac_bytes(fr.2, numframes, src[0]))
                    == be16(self.map.map@, 12 * hunknum + 10)
            }),
    {
        let maplen = self.map.map.len();
        proof {
            assert(12 * hunknum + 12 <= maplen);
        }
        let (compression, _offset, _length) = self.map.locate(hunknum);
        let stored = read_be16(self.map.map.as_slice(), 12 * hunknum + 10);
        if (compression == COMPRESSION_SELF || compression == COMPRESSION_PARENT) && stored == 0 {
            return Ok(());
        }
        let mut buf: Vec<u8> = Vec::new();
        let n = self.header.hunkbytes as usize;
        while buf.len() < n
            invariant
                buf@.len() <= n,
            decreases n - buf.len(),
        {
            buf.push(0);
        }
        self.read_hunk(hunknum, &mut buf)?;
        if crc16(buf.as_slice()) == stored {
            proof {
                assert(buf@.len() == self.header.hunkbytes && crc16_spec(buf@) == be16(
                    self.map.map@,
                    12 * hunknum + 10,
                ));
            }
            Ok(())
        } else {
            Err(ChdError::BadCodec)
        }
    }

    /// The last logical position a read can reach: the image's size, or
    /// the end of the last whole hunk if the size runs past it.
    pub open spec fn spec_read_limit(&self) -> int {
        if self.header.size <= self.header.hunkcount * self.header.hunkbytes {
            self.header.size as int
        } else {
            self.header.hunkcount * self.header.hunkbytes
        }
    }

    /// The byte at logical position `pos`, where the covering hunk's
    /// contents are decided by the map alone; `None` where a codec
    /// decides them.
    pub open spec fn spec_logical_byte(&self, pos: int) -> Option<u8> {
        match self.spec_hunk(pos / (self.header.hunkbytes as int), SELF_REFERENCE_DEPTH as nat) {
            Some(s) => Some(s[pos % (self.header.hunkbytes as int)]),
            None => None,
        }
    }

    /// Reads up to `dst.len()` logical bytes at `offset`, reconstructing
    /// each covering hunk; returns how many bytes were read, short only at
    /// the end of the image.  Reads at or past the end read nothing.
    pub fn read(&self, offset: u64, dst: &mut Vec<u8>) -> (r: Result<usize, ChdError>)
        requires
            self.wf(),
        ensures
            final(dst)@.len() == old(dst)@.len(),
            offset >= self.header.size ==> r == Ok::<usize, ChdError>(0),
            match r {
                Ok(k) => k == if offset >= self.spec_read_limit() {
                    0int
                } else if offset + old(dst)@.len() <= self.spec_read_limit() {
                    old(dst)@.len() as int
                } else {
                    self.spec_read_limit() - offset
                },
                Err(_) => true,
            },
            match r {
                Ok(k) => forall|i: int|
                    0 <= i < k && (#[trigger] self.spec_logical_byte(offset + i)) is Some
                        ==> final(dst)@[i] == self.spec_logical_byte(offset + i).unwrap(),
                Err(_) => true,
            },
            r.is_err() ==> exists|h: int|
                0 <= h < self.header.hunkcount && (#[trigger] self.spec_hunk(
                    h,
                    SELF_REFERENCE_DEPTH as nat,
                )) is None,
    {
        let size = self.header.size;
        if offset >= size {
            return Ok(0);
        }
        let hb = self.header.hunkbytes as u64;
        proof {
            vstd::arithmetic::mul::lemma_mul_upper_bound(
                self.header.hunkcount as int,
                0xFFFF_FFFF,
                hb as int,
                0x8_0000,
            );
        }
        let whole = (self.header.hunkcount as u64) * hb;
        let limit = if size <= whole {
            size
        } else {
            whole
        };
        if offset >= limit {
            return Ok(0);
        }
        let avail = limit - offset;
        let want = if (dst.len() as u64) <= avail {
            dst.len() as u64
        } else {
            avail
        };
        let mut scratch: Vec<u8> = Vec::new();
        let n = self.header.hunkbytes as usize;
        while scratch.len() < n
            invariant
                scratch@.len() <= n,
            decreases n - scratch.len(),
        {
            scratch.push(0);
        }
        let mut copied: u64 = 0;
        while copied < want
            invariant
                self.wf(),
                copied <= want,
                hb == self.header.hunkbytes,
                hb >= 1,
                limit == self.spec_read_limit(),
                limit <= self.header.hunkcount * self.header.hunkbytes,
                offset + want <= limit,
                want <= dst@.len(),
                want <= usize::MAX,
                dst@.len() == old(dst)@.len(),
                scratch@.len() == n,
                n == self.header.hunkbytes,
                forall|i: int|
                    0 <= i < copied && (#[trigger] self.spec_logical_byte(offset + i)) is Some
                        ==> dst@[i] == self.spec_logical_byte(offset + i).unwrap(),
            decreases want - copied,
        {
            let pos = offset + copied;
            let hunk = pos / hb;
            let within = pos % hb;
            proof {
                assert(pos < self.header.hunkcount * self.header.hunkbytes);
                vstd::arithmetic::mul::lemma_mul_is_commutative(
                    self.header.hunkcount as int,
                    hb as int,
                );
                vstd::arithmetic::div_mod::lemma_multiply_divide_lt(
                    pos as int,
                    hb as int,
                    self.header.hunkcount as int,
                );
            }
            let room = hb - within;
            let left = want - copied;
            let chunk = if room <= left {
                room
            } else {
                left
            };
            self.read_hunk_depth(hunk as usize, &mut scratch, SELF_REFERENCE_DEPTH)?;
            let mut i: u64 = 0;
            while i < chunk
                invariant
                    self.wf(),
                    i <= chunk,
                    within + chunk <= hb,
                    hb <= 0x8_0000,
                    copied + chunk <= want,
                    want <= dst@.len(),
                    want <= usize::MAX,
                    dst@.len() == old(dst)@.len(),
                    scratch@.len() == hb,
                    match self.spec_hunk(hunk as int, SELF_REFERENCE_DEPTH as nat) {
                        Some(s) => scratch@ == s,
                        None => true,
                    },
                    forall|i2: int|
                        0 <= i2 < copied && (#[trigger] self.spec_logical_byte(offset + i2))
                            is Some ==> dst@[i2] == self.spec_logical_byte(offset + i2).unwrap(),
                    forall|j: int|
                        0 <= j < i ==> #[trigger] dst@[copied + j] == scratch@[within + j],
                decreases chunk - i,
            {
                let b = scratch[(within + i) as usize];
                dst.set((copied + i) as usize, b);
                i = i + 1;
            }
            proof {
                assert forall|i2: int|
                    0 <= i2 < copied + chunk && (#[trigger] self.spec_logical_byte(offset + i2))
                        is Some implies dst@[i2] == self.spec_logical_byte(
                    offset + i2,
                ).unwrap() by {
                    if i2 >= copied {
                        let j = i2 - copied;
                        vstd::arithmetic::div_mod::lemma_fundamental_div_mod(
                            pos as int,
                            hb as int,
                        );
                        vstd::arithmetic::mul::lemma_mul_is_commutative(
                            hb as int,
                            hunk as int,
                        );
                        vstd::arithmetic::div_mod::lemma_fundamental_div_mod_converse(
                            offset + i2,
                            hb as int,
                            hunk as int,
                            within + j,
                        );
                        assert(dst@[copied + j] == scratch@[within + j]);
                        assert(dst@[i2] == scratch@[within + j]);
                    }
                }
            }
            copied = copied + chunk;
        }
        Ok(want as usize)
    }

    /// Moves the logical stream position and returns it: absolute from
    /// the start, or relative to the current position or the image's
    /// size, failing on position overflow.
    pub fn seek(&mut self, sf: SeekFrom) -> (r: Result<u64, ChdError>)
        ensures
            final(self).data@ == old(self).data@,
            final(self).header == old(self).header,
            final(self).map.map@ == old(self).map.map@,
            match sf {
                SeekFrom::Start(x) => if x <= i64::MAX as u64 {
                    final(self).pos == x && r == Ok::<u64, ChdError>(x)
                } else {
                    final(self).pos == old(self).pos && r == Err::<u64, ChdError>(ChdError::Io)
                },
                SeekFrom::Current(d) => if i64::MIN <= old(self).pos + d <= i64::MAX {
                    final(self).pos == old(self).pos + d && r == Ok::<u64, ChdError>(
                        final(self).pos as u64,
                    )
                } else {
                    final(self).pos == old(self).pos && r == Err::<u64, ChdError>(ChdError::Io)
                },
                SeekFrom::End(d) => if i64::MIN <= old(self).header.size as i64 + d <= i64::MAX {
                    final(self).pos == old(self).header.size as i64 + d && r == Ok::<
                        u64,
                        ChdError,
                    >(final(self).pos as u64)
                } else {
                    final(self).pos == old(self).pos && r == Err::<u64, ChdError>(ChdError::Io)
                },
            },
    {
        match sf {
            SeekFrom::Start(x) => {
                if x > i64::MAX as u64 {
                    return Err(ChdError::Io);
                }
                self.pos = x as i64;
            },
            SeekFrom::Current(d) => {
                match self.pos.checked_add(d) {
                    Some(p) => {
                        self.pos = p;
                    },
                    None => {
                        return Err(ChdError::Io);
                    },
                }
            },
            SeekFrom::End(d) => {
                match (self.header.size as i64).checked_add(d) {
                    Some(p) => {
                        self.pos = p;
                    },
                    None => {
                        return Err(ChdError::Io);
                    },
                }
            },
        }
        Ok(self.pos as u64)
    }
}

/// A self reference reconstructs to exactly what its target reconstructs
/// to, one recursion level down.
pub proof fn lemma_self_reference_resolves(c: Chd, h: int, depth: nat)
    requires
        0 <= h < c.header.hunkcount,
        c.header.compressors@[0] != 0,
        c.map.map@[12 * h] == COMPRESSION_SELF,
        depth > 0,
    ensures
        c.spec_hunk(h, depth) == c.spec_hunk(
            be48(c.map.map@, 12 * h + 4) as int,
            (depth - 1) as nat,
        ),
{
}

/// The checksum of the decoded canonical map equals the checksum the map
/// header stores.
pub proof fn lemma_map_checksum_matches(c: Chd, data: Seq<u8>)
    requires
        Chd::spec_opened(c, data),
        c.header.compressors@[0] != 0,
    ensures
        crc16_spec(c.map.map@) == be16(data, c.header.mapoffset + 10),
{
}

/// Every entry of a decoded map carries one of the seven base compression
/// types; no pseudo-type survives decoding.
pub proof fn lemma_map_entries_are_base_types(c: Chd, data: Seq<u8>, h: int)
    requires
        Chd::spec_opened(c, data),
        c.header.compressors@[0] != 0,
        0 <= h < c.header.hunkcount,
    ensures
        c.map.map@[12 * h] <= COMPRESSION_PARENT,
{
}

/// Opening the same source twice is deterministic: two readers built from
/// the same bytes agree on every geometry field, and their canonical maps
/// are bit-identical, whether the map was stored raw or decoded from the
/// compressed form.
pub proof fn lemma_open_deterministic(c1: Chd, c2: Chd, data: Seq<u8>)
    requires
        Chd::spec_opened(c1, data),
        Chd::spec_opened(c2, data),
    ensures
        c1.header.size == c2.header.size,
        c1.header.mapoffset == c2.header.mapoffset,
        c1.header.hunkbytes == c2.header.hunkbytes,
        c1.header.unitbytes == c2.header.unitbytes,
        c1.header.hunkcount == c2.header.hunkcount,
        c1.header.compressors@ =~= c2.header.compressors@,
        c1.map.map@ == c2.map.map@,
{
    let m1 = c1.map.map@;
    let m2 = c2.map.map@;
    let hc = c1.header.hunkcount as int;
    if c1.header.compressors@[0] == 0 {
        assert(m1 =~= m2);
    } else {
        let maphdr = data.subrange(c1.header.mapoffset as int, c1.header.mapoffset + 16);
        let body = data.subrange(
            c1.header.mapoffset + 16,
            c1.header.mapoffset + 16 + be32(data, c1.header.mapoffset as int),
        );
        assert(spec_map_decoded(c1.header, maphdr, body, m1));
        assert(spec_map_decoded(c2.header, maphdr, body, m2));
        assert forall|j: int| 0 <= j < m1.len() implies m1[j] == m2[j] by {
            let k = j / 12;
            vstd::arithmetic::div_mod::lemma_fundamental_div_mod(j, 12);
            vstd::arithmetic::div_mod::lemma_multiply_divide_lt(j, 12, hc);
            assert(0 <= k < hc);
            assert(m1[12 * k] == m2[12 * k]);
            assert(be24(m1, 12 * k + 1) == be24(m2, 12 * k + 1));
            assert(be48(m1, 12 * k + 4) == be48(m2, 12 * k + 4));
            assert(be16(m1, 12 * k + 10) == be16(m2, 12 * k + 10));
            let off = j - 12 * k;
            if off == 0 {
            } else if 1 <= off <= 3 {
                crate::utils::lemma_be24_unique(m1, m2, 12 * k + 1, 12 * k + 1);
            } else if 4 <= off <= 9 {
                crate::utils::lemma_be48_unique(m1, m2, 12 * k + 4, 12 * k + 4);
            } else {
                crate::utils::lemma_be16_unique(m1, m2, 12 * k + 10, 12 * k + 10);
            }
        }
        assert(m1 =~= m2);
    }
}

/// Reads one 16-bit big-endian field from the bit stream.
fn read_u16(bits: &mut BitReader) -> (r: u16)
    requires
        old(bits).wf(),
    ensures
        final(bits).stream() == old(bits).stream(),
        final(bits).wf(),
        r == crate::bitstream::stream_value(
            old(bits).stream(),
            old(bits).consumed() as int,
            16,
        ),
        final(bits).consumed() == crate::bitstream::spec_advance(old(bits).consumed(), 16),
{
    let v = bits.read(16);
    proof {
        crate::bitstream::lemma_stream_value_bound(
            old(bits).stream(),
            old(bits).consumed() as int,
            16,
        );
        vstd::arithmetic::power2::lemma2_to64();
    }
    v as u16
}

} // verus!

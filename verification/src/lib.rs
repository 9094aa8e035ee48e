//! Reader for version 5 of the MAME Compressed Hunks of Data (CHD) container.
//!
//! A CHD file stores a disk or card image as fixed-size hunks, each either
//! held verbatim, compressed by one of four codecs, or aliased to another
//! hunk of the same image or of a parent image.  The modules below parse the
//! header, decode the bit-packed hunk map, and reconstruct hunk contents.

use vstd::prelude::*;

pub mod bitstream;
pub mod chd;
pub mod crc;
pub mod decompress;
pub mod huffman;
pub mod utils;

verus! {

/// The failure kinds that opening or reading a CHD image can surface.
#[derive(Clone, Copy, Debug, PartialEq, Eq, Structural)]
pub enum ChdError {
    /// The first eight bytes are not the CHD magic.
    BadMagic,
    /// The header's version field names a version other than 5.
    UnsupportedVersion,
    /// The header is malformed in some other way.
    BadHeader,
    /// Hunk or unit sizes out of range, or the hunk count overflows.
    BadGeometry,
    /// The hunk map is malformed or fails its checksum.
    BadMap,
    /// A Huffman tree description is inconsistent.
    BadHuffman,
    /// A codec is unknown, or a hunk fails to decompress.
    BadCodec,
    /// A self or parent reference cannot be resolved.
    BadReference,
    /// A read from the underlying bytes ran past their end.
    Io,
}

} // verus!

use chd::chd::Chd;
use chd::decompress::{Huffman, Inflate, Unknown};
use chd::ChdError;

const HUFF: u32 = 0x6875_6666;
const ZLIB: u32 = 0x7A6C_6962;

fn set_be32(buf: &mut [u8], offs: usize, val: u32) {
    buf[offs] = (val >> 24) as u8;
    buf[offs + 1] = (val >> 16) as u8;
    buf[offs + 2] = (val >> 8) as u8;
    buf[offs + 3] = val as u8;
}

fn set_be64(buf: &mut [u8], offs: usize, val: u64) {
    set_be32(buf, offs, (val >> 32) as u32);
    set_be32(buf, offs + 4, val as u32);
}

fn header_bytes(
    tags: [u32; 4],
    size: u64,
    mapoffset: u64,
    hunkbytes: u32,
    unitbytes: u32,
) -> Vec<u8> {
    let mut h = vec![0u8; 124];
    h[0..8].copy_from_slice(b"MComprHD");
    set_be32(&mut h, 8, 124);
    set_be32(&mut h, 12, 5);
    for (i, tag) in tags.iter().enumerate() {
        set_be32(&mut h, 16 + 4 * i, *tag);
    }
    set_be64(&mut h, 32, size);
    set_be64(&mut h, 40, mapoffset);
    set_be32(&mut h, 56, hunkbytes);
    set_be32(&mut h, 60, unitbytes);
    h
}

fn pack_bits(fields: &[(u32, u32)]) -> Vec<u8> {
    let mut bits: Vec<bool> = Vec::new();
    for &(value, width) in fields {
        for k in (0..width).rev() {
            bits.push((value >> k) & 1 == 1);
        }
    }
    let mut bytes = vec![0u8; (bits.len() + 7) / 8];
    for (i, bit) in bits.iter().enumerate() {
        if *bit {
            bytes[i / 8] |= 0x80 >> (i % 8);
        }
    }
    bytes
}

fn crc16_ref(data: &[u8]) -> u16 {
    let mut crc: u16 = 0xFFFF;
    for &b in data {
        crc ^= (b as u16) << 8;
        for _ in 0..8 {
            crc = if crc & 0x8000 != 0 { (crc << 1) ^ 0x1021 } else { crc << 1 };
        }
    }
    crc
}

fn canonical_entry(compression: u8, length: u32, offset: u64, crc: u16) -> [u8; 12] {
    let mut e = [0u8; 12];
    e[0] = compression;
    e[1] = (length >> 16) as u8;
    e[2] = (length >> 8) as u8;
    e[3] = length as u8;
    e[4] = (offset >> 40) as u8;
    e[5] = (offset >> 32) as u8;
    e[6] = (offset >> 24) as u8;
    e[7] = (offset >> 16) as u8;
    e[8] = (offset >> 8) as u8;
    e[9] = offset as u8;
    e[10] = (crc >> 8) as u8;
    e[11] = crc as u8;
    e
}

/// An image of one hunk compressed by codec slot 0, with a compressed map.
fn one_codec_hunk_image(tag: u32, compressed: &[u8], decoded: &[u8], hunkbytes: u32) -> Vec<u8> {
    let first_offset: u64 = 124;
    let crc = crc16_ref(decoded);
    // map stream: all sixteen type codes four bits wide; one hunk of
    // type 0; its length, then its checksum
    let fields: Vec<(u32, u32)> = vec![
        (1, 4),
        (4, 4),
        (13, 4),
        (0, 4),
        (compressed.len() as u32, 16),
        (crc as u32, 16),
    ];
    let body = pack_bits(&fields);
    let canonical = canonical_entry(0, compressed.len() as u32, first_offset, crc);

    let mapoffset = 124 + compressed.len() as u64;
    let mut maphdr = vec![0u8; 16];
    set_be32(&mut maphdr, 0, body.len() as u32);
    maphdr[9] = first_offset as u8;
    maphdr[8] = (first_offset >> 8) as u8;
    let mapcrc = crc16_ref(&canonical);
    maphdr[10] = (mapcrc >> 8) as u8;
    maphdr[11] = mapcrc as u8;
    maphdr[12] = 16;
    maphdr[13] = 8;
    maphdr[14] = 8;

    let mut file = header_bytes([tag, 0, 0, 0], hunkbytes as u64, mapoffset, hunkbytes, 1);
    file.extend_from_slice(compressed);
    file.extend_from_slice(&maphdr);
    file.extend_from_slice(&body);
    file
}

/// A Huffman-coded hunk: the full-Huffman table description giving every
/// byte an eight-bit code, then one code per output byte.
fn huff_payload(decoded: &[u8]) -> Vec<u8> {
    let mut fields: Vec<(u32, u32)> = vec![
        (1, 3),
        (7, 3),
        (2, 3),
        (2, 3),
        (7, 3),
        (0b01, 2),
        (0b1, 1),
        (7, 3),
        (246, 8),
    ];
    for &b in decoded {
        fields.push((b as u32, 8));
    }
    pack_bits(&fields)
}

#[test]
fn s6_huffman_codec_hunk() {
    let decoded: Vec<u8> = (0..4096u32).map(|i| ((i * 7 + 3) & 0xFF) as u8).collect();
    let compressed = huff_payload(&decoded);
    let file = one_codec_hunk_image(HUFF, &compressed, &decoded, 4096);
    let c = Chd::open(file).unwrap();
    assert_eq!(c.codec_name(0), Some("Huffman"));

    let mut buf = vec![0u8; 4096];
    c.read_hunk(0, &mut buf).unwrap();
    assert_eq!(buf, decoded);
    c.validate_hunk(0).unwrap();
}

#[test]
fn zlib_codec_hunk() {
    // a stored-mode DEFLATE block: final, type 00, LEN, NLEN, then the
    // bytes verbatim
    let decoded: Vec<u8> = (0..4096u32).map(|i| ((i * 11 + 1) & 0xFF) as u8).collect();
    let mut compressed = vec![0x01, 0x00, 0x10, 0xFF, 0xEF];
    compressed.extend_from_slice(&decoded);
    let file = one_codec_hunk_image(ZLIB, &compressed, &decoded, 4096);
    let c = Chd::open(file).unwrap();
    assert_eq!(c.codec_name(0), Some("zlib"));

    let mut buf = vec![0u8; 4096];
    c.read_hunk(0, &mut buf).unwrap();
    assert_eq!(buf, decoded);
    c.validate_hunk(0).unwrap();
}

#[test]
fn zlib_codec_rejects_wrong_size() {
    // the stream inflates to 16 bytes, not a full hunk
    let decoded = vec![7u8; 16];
    let mut compressed = vec![0x01, 0x10, 0x00, 0xEF, 0xFF];
    compressed.extend_from_slice(&decoded);
    let codec = Inflate::new();
    let mut dest = vec![0u8; 4096];
    assert_eq!(codec.decompress(&compressed, &mut dest), Err(ChdError::BadCodec));
    // into a buffer of the right size it succeeds
    let mut dest = vec![0u8; 16];
    codec.decompress(&compressed, &mut dest).unwrap();
    assert_eq!(dest, decoded);
}

#[test]
fn huffman_codec_rejects_short_stream() {
    let decoded: Vec<u8> = vec![0x11; 64];
    let mut payload = huff_payload(&decoded);
    // with the tail cut off, the decode runs past the end of the stream
    payload.truncate(payload.len() - 32);
    let mut codec = Huffman::new();
    let mut dest = vec![0u8; 64];
    assert_eq!(codec.decompress(&payload, &mut dest), Err(ChdError::BadCodec));
}

fn crc8_flac(data: &[u8]) -> u8 {
    let mut crc: u8 = 0;
    for &b in data {
        crc ^= b;
        for _ in 0..8 {
            crc = if crc & 0x80 != 0 { (crc << 1) ^ 0x07 } else { crc << 1 };
        }
    }
    crc
}

fn crc16_flac(data: &[u8]) -> u16 {
    let mut crc: u16 = 0;
    for &b in data {
        crc ^= (b as u16) << 8;
        for _ in 0..8 {
            crc = if crc & 0x8000 != 0 { (crc << 1) ^ 0x8005 } else { crc << 1 };
        }
    }
    crc
}

/// One FLAC frame: fixed blocking, 192 samples, 44.1 kHz, independent
/// stereo, 16 bits per sample, one constant subframe per channel.
fn flac_frame(left: u16, right: u16) -> Vec<u8> {
    let mut f = vec![0xFF, 0xF8, 0x19, 0x18, 0x00];
    f.push(crc8_flac(&f));
    f.extend_from_slice(&[0x00, (left >> 8) as u8, left as u8]);
    f.extend_from_slice(&[0x00, (right >> 8) as u8, right as u8]);
    let crc = crc16_flac(&f);
    f.push((crc >> 8) as u8);
    f.push(crc as u8);
    f
}

#[test]
fn flac_codec_big_endian_frame() {
    let mut src = vec![b'B'];
    src.extend_from_slice(&flac_frame(0x1234, 0xABCD));
    let codec = chd::decompress::Flac::new();
    let mut dest = vec![0u8; 192 * 4];
    codec.decompress(&src, &mut dest).unwrap();
    for pair in dest.chunks(4) {
        assert_eq!(pair, &[0x12, 0x34, 0xAB, 0xCD]);
    }
}

#[test]
fn flac_codec_little_endian_frame() {
    let mut src = vec![b'L'];
    src.extend_from_slice(&flac_frame(0x1234, 0xABCD));
    let codec = chd::decompress::Flac::new();
    let mut dest = vec![0u8; 192 * 4];
    codec.decompress(&src, &mut dest).unwrap();
    for pair in dest.chunks(4) {
        assert_eq!(pair, &[0x34, 0x12, 0xCD, 0xAB]);
    }
}

#[test]
fn flac_codec_rejects_bad_endianness() {
    let mut src = vec![b'X'];
    src.extend_from_slice(&flac_frame(1, 2));
    let codec = chd::decompress::Flac::new();
    let mut dest = vec![0u8; 192 * 4];
    assert_eq!(codec.decompress(&src, &mut dest), Err(ChdError::BadCodec));
}

#[test]
fn flac_codec_rejects_duration_mismatch() {
    let mut src = vec![b'B'];
    src.extend_from_slice(&flac_frame(1, 2));
    let codec = chd::decompress::Flac::new();
    // 256 sample pairs expected, but the frame holds 192
    let mut dest = vec![0u8; 256 * 4];
    assert_eq!(codec.decompress(&src, &mut dest), Err(ChdError::BadCodec));
}

#[test]
fn huffman_codec_propagates_descriptor_errors() {
    // a small table whose single length-two code violates the parity
    // constraint: the tree description itself is at fault
    let payload = pack_bits(&[(2, 3), (7, 3), (7, 3)]);
    let mut codec = Huffman::new();
    let mut dest = vec![0u8; 16];
    assert_eq!(codec.decompress(&payload, &mut dest), Err(ChdError::BadHuffman));
    // the buffer is untouched on a descriptor failure
    assert_eq!(dest, vec![0u8; 16]);
}

#[test]
fn unknown_codec_always_fails() {
    let codec = Unknown::new(0x12345678);
    let mut dest = vec![0u8; 16];
    assert_eq!(codec.decompress(&vec![1, 2, 3], &mut dest), Err(ChdError::BadCodec));
}

#[test]
fn unrecognized_codec_tag_fails_hunk_read() {
    // an image naming a codec this reader does not provide
    let lzma = 0x6C7A_6D61;
    let compressed = vec![0u8; 32];
    let decoded = vec![0u8; 4096];
    let file = one_codec_hunk_image(lzma, &compressed, &decoded, 4096);
    let c = Chd::open(file).unwrap();
    assert_eq!(c.codec_name(0), Some("LZMA"));
    let mut buf = vec![0u8; 4096];
    assert_eq!(c.read_hunk(0, &mut buf), Err(ChdError::BadCodec));
}

use chd::chd::Chd;
use chd::ChdError;

const HUFF: u32 = 0x6875_6666;

fn set_be32(buf: &mut [u8], offs: usize, val: u32) {
    buf[offs] = (val >> 24) as u8;
    buf[offs + 1] = (val >> 16) as u8;
    buf[offs + 2] = (val >> 8) as u8;
    buf[offs + 3] = val as u8;
}

fn set_be64(buf: &mut [u8], offs: usize, val: u64) {
    set_be32(buf, offs, (val >> 32) as u32);
    set_be32(buf, offs + 4, val as u32);
}

fn header_bytes(
    tags: [u32; 4],
    size: u64,
    mapoffset: u64,
    hunkbytes: u32,
    unitbytes: u32,
) -> Vec<u8> {
    let mut h = vec![0u8; 124];
    h[0..8].copy_from_slice(b"MComprHD");
    set_be32(&mut h, 8, 124);
    set_be32(&mut h, 12, 5);
    for (i, tag) in tags.iter().enumerate() {
        set_be32(&mut h, 16 + 4 * i, *tag);
    }
    set_be64(&mut h, 32, size);
    set_be64(&mut h, 40, mapoffset);
    set_be32(&mut h, 56, hunkbytes);
    set_be32(&mut h, 60, unitbytes);
    h
}

fn pack_bits(fields: &[(u32, u32)]) -> Vec<u8> {
    let mut bits: Vec<bool> = Vec::new();
    for &(value, width) in fields {
        for k in (0..width).rev() {
            bits.push((value >> k) & 1 == 1);
        }
    }
    let mut bytes = vec![0u8; (bits.len() + 7) / 8];
    for (i, bit) in bits.iter().enumerate() {
        if *bit {
            bytes[i / 8] |= 0x80 >> (i % 8);
        }
    }
    bytes
}

fn crc16_ref(data: &[u8]) -> u16 {
    let mut crc: u16 = 0xFFFF;
    for &b in data {
        crc ^= (b as u16) << 8;
        for _ in 0..8 {
            crc = if crc & 0x8000 != 0 { (crc << 1) ^ 0x1021 } else { crc << 1 };
        }
    }
    crc
}

fn canonical_entry(compression: u8, length: u32, offset: u64, crc: u16) -> [u8; 12] {
    let mut e = [0u8; 12];
    e[0] = compression;
    e[1] = (length >> 16) as u8;
    e[2] = (length >> 8) as u8;
    e[3] = length as u8;
    e[4] = (offset >> 40) as u8;
    e[5] = (offset >> 32) as u8;
    e[6] = (offset >> 24) as u8;
    e[7] = (offset >> 16) as u8;
    e[8] = (offset >> 8) as u8;
    e[9] = offset as u8;
    e[10] = (crc >> 8) as u8;
    e[11] = crc as u8;
    e
}

/// One hunk of a hand-built compressed-map image.
enum Hunk {
    /// Stored verbatim.
    Stored(Vec<u8>),
    /// Same as another hunk.
    SelfRef(u64),
}

/// Builds a complete image whose map is compressed: verbatim hunk data
/// after the header, then the 16-byte map header and the bit-packed map.
/// The map's Huffman table gives every type code four bits.
fn compressed_image(hunks: &[Hunk], hunkbytes: u32) -> Vec<u8> {
    let size = hunkbytes as u64 * hunks.len() as u64;
    let first_offset: u64 = 124;

    let mut payload: Vec<u8> = Vec::new();
    let mut fields: Vec<(u32, u32)> = vec![(1, 4), (4, 4), (13, 4)];
    // first pass: one four-bit code per hunk
    for hunk in hunks {
        match hunk {
            Hunk::Stored(_) => fields.push((4, 4)),
            Hunk::SelfRef(_) => fields.push((5, 4)),
        }
    }
    // second pass: checksums for stored hunks, indexes for references
    let mut canonical: Vec<u8> = Vec::new();
    let mut cur = first_offset;
    for hunk in hunks {
        match hunk {
            Hunk::Stored(data) => {
                assert_eq!(data.len(), hunkbytes as usize);
                let crc = crc16_ref(data);
                fields.push((crc as u32, 16));
                canonical.extend_from_slice(&canonical_entry(4, hunkbytes, cur, crc));
                payload.extend_from_slice(data);
                cur += hunkbytes as u64;
            },
            Hunk::SelfRef(target) => {
                fields.push((*target as u32, 8));
                canonical.extend_from_slice(&canonical_entry(5, 0, *target, 0));
            },
        }
    }
    let body = pack_bits(&fields);

    let mapoffset = 124 + payload.len() as u64;
    let mut maphdr = vec![0u8; 16];
    set_be32(&mut maphdr, 0, body.len() as u32);
    // first_offset is a 48-bit field at byte 4
    maphdr[4] = (first_offset >> 40) as u8;
    maphdr[5] = (first_offset >> 32) as u8;
    maphdr[6] = (first_offset >> 24) as u8;
    maphdr[7] = (first_offset >> 16) as u8;
    maphdr[8] = (first_offset >> 8) as u8;
    maphdr[9] = first_offset as u8;
    let mapcrc = crc16_ref(&canonical);
    maphdr[10] = (mapcrc >> 8) as u8;
    maphdr[11] = mapcrc as u8;
    maphdr[12] = 16;  // length bits
    maphdr[13] = 8;  // hunk index bits
    maphdr[14] = 8;  // parent unit bits

    let mut file = header_bytes([HUFF, 0, 0, 0], size, mapoffset, hunkbytes, 1);
    file.extend_from_slice(&payload);
    file.extend_from_slice(&maphdr);
    file.extend_from_slice(&body);
    file
}

#[test]
fn compressed_map_round_trip() {
    let a = vec![0xAA; 4096];
    let b: Vec<u8> = (0..4096u32).map(|i| (i * 13 + 5) as u8).collect();
    let file = compressed_image(
        &[Hunk::Stored(a.clone()), Hunk::Stored(b.clone())],
        4096,
    );
    let c = Chd::open(file).unwrap();
    assert_eq!(c.hunk_count(), 2);

    let mut buf = vec![0u8; 4096];
    c.read_hunk(0, &mut buf).unwrap();
    assert_eq!(buf, a);
    c.read_hunk(1, &mut buf).unwrap();
    assert_eq!(buf, b);

    // every stored hunk carries the checksum of its contents
    c.validate_hunk(0).unwrap();
    c.validate_hunk(1).unwrap();

    let distr = c.compression_distribution();
    assert_eq!(distr, vec![0, 0, 0, 0, 2, 0, 0]);

    // a logical read across the hunk boundary stitches both hunks
    let mut span = vec![0u8; 12];
    assert_eq!(c.read(4090, &mut span), Ok(12));
    assert_eq!(&span[0..6], &a[4090..4096]);
    assert_eq!(&span[6..12], &b[0..6]);
}

#[test]
fn s5_flipped_map_body_fails() {
    let a = vec![0xAA; 4096];
    let b = vec![0x55; 4096];
    let mut file = compressed_image(&[Hunk::Stored(a), Hunk::Stored(b)], 4096);
    // the second stored checksum sits near the end of the map body
    let target = file.len() - 2;
    file[target] ^= 0xFF;
    assert_eq!(Chd::open(file).err(), Some(ChdError::BadMap));
}

#[test]
fn s7_self_reference_resolves() {
    let a: Vec<u8> = (0..4096u32).map(|i| (i * 31 + 1) as u8).collect();
    let file = compressed_image(&[Hunk::Stored(a.clone()), Hunk::SelfRef(0)], 4096);
    let c = Chd::open(file).unwrap();

    let mut h0 = vec![0u8; 4096];
    let mut h1 = vec![0u8; 4096];
    c.read_hunk(0, &mut h0).unwrap();
    c.read_hunk(1, &mut h1).unwrap();
    assert_eq!(h0, h1);
    assert_eq!(h0, a);

    // a reference entry stores no checksum of its own
    c.validate_hunk(1).unwrap();

    let distr = c.compression_distribution();
    assert_eq!(distr, vec![0, 0, 0, 0, 1, 1, 0]);
}

#[test]
fn corrupted_hunk_fails_validation() {
    let a = vec![0x33; 4096];
    let b = vec![0x44; 4096];
    let mut file = compressed_image(&[Hunk::Stored(a), Hunk::Stored(b)], 4096);
    // damage one byte of the first hunk's stored data, after the header
    file[200] ^= 0x01;
    let c = Chd::open(file).unwrap();
    assert_eq!(c.validate_hunk(0), Err(ChdError::BadCodec));
    c.validate_hunk(1).unwrap();
}

#[test]
fn p10_self_cycle_fails() {
    // a hunk that references itself never resolves
    let file = compressed_image(&[Hunk::SelfRef(0)], 4096);
    let c = Chd::open(file).unwrap();
    let mut buf = vec![0u8; 4096];
    assert_eq!(c.read_hunk(0, &mut buf), Err(ChdError::BadReference));
}

#[test]
fn self_reference_out_of_range_fails() {
    let file = compressed_image(&[Hunk::SelfRef(9)], 4096);
    let c = Chd::open(file).unwrap();
    let mut buf = vec![0u8; 4096];
    assert_eq!(c.read_hunk(0, &mut buf), Err(ChdError::BadReference));
}

#[test]
fn p5_reopening_gives_identical_maps() {
    let a = vec![0x42; 4096];
    let file = compressed_image(&[Hunk::Stored(a), Hunk::SelfRef(0)], 4096);
    let c1 = Chd::open(file.clone()).unwrap();
    let c2 = Chd::open(file).unwrap();
    assert_eq!(c1.map.map, c2.map.map);
    assert_eq!(c1.hunk_count(), c2.hunk_count());
}

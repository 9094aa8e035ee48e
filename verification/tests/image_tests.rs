use chd::chd::{Chd, SeekFrom};
use chd::ChdError;

fn set_be32(buf: &mut [u8], offs: usize, val: u32) {
    buf[offs] = (val >> 24) as u8;
    buf[offs + 1] = (val >> 16) as u8;
    buf[offs + 2] = (val >> 8) as u8;
    buf[offs + 3] = val as u8;
}

fn set_be64(buf: &mut [u8], offs: usize, val: u64) {
    set_be32(buf, offs, (val >> 32) as u32);
    set_be32(buf, offs + 4, val as u32);
}

/// A 124-byte v5 header.
fn header_bytes(
    tags: [u32; 4],
    size: u64,
    mapoffset: u64,
    hunkbytes: u32,
    unitbytes: u32,
) -> Vec<u8> {
    let mut h = vec![0u8; 124];
    h[0..8].copy_from_slice(b"MComprHD");
    set_be32(&mut h, 8, 124);
    set_be32(&mut h, 12, 5);
    for (i, tag) in tags.iter().enumerate() {
        set_be32(&mut h, 16 + 4 * i, *tag);
    }
    set_be64(&mut h, 32, size);
    set_be64(&mut h, 40, mapoffset);
    set_be32(&mut h, 56, hunkbytes);
    set_be32(&mut h, 60, unitbytes);
    h
}

/// An uncompressed image: the raw 12-byte map entries follow the header,
/// and the whole file is padded to `file_len`.
fn uncompressed_image(size: u64, hunkbytes: u32, entries: &[[u8; 12]], file_len: usize) -> Vec<u8> {
    let mut file = header_bytes([0, 0, 0, 0], size, 124, hunkbytes, 1);
    for e in entries {
        file.extend_from_slice(e);
    }
    while file.len() < file_len {
        let fill = (file.len() * 31 + 7) as u8;
        file.push(fill);
    }
    file
}

#[test]
fn s2_header_bad_magic() {
    let mut file = header_bytes([0, 0, 0, 0], 0, 124, 4096, 1);
    file[0..8].copy_from_slice(b"NotAHdr!");
    assert_eq!(Chd::open(file).err(), Some(ChdError::BadMagic));
}

#[test]
fn s3_header_unsupported_version() {
    let mut file = header_bytes([0, 0, 0, 0], 0, 124, 4096, 1);
    set_be32(&mut file, 12, 4);
    assert_eq!(Chd::open(file).err(), Some(ChdError::UnsupportedVersion));
}

#[test]
fn header_bad_length() {
    let mut file = header_bytes([0, 0, 0, 0], 0, 124, 4096, 1);
    set_be32(&mut file, 8, 120);
    assert_eq!(Chd::open(file).err(), Some(ChdError::BadHeader));
}

#[test]
fn header_truncated() {
    let file = b"MComprHD".to_vec();
    assert_eq!(Chd::open(file).err(), Some(ChdError::Io));
}

#[test]
fn hunk_bytes_boundaries() {
    // 1 and 524288 are accepted
    let file = uncompressed_image(4, 1, &[[0u8; 12]; 4], 200);
    let c = Chd::open(file).unwrap();
    assert_eq!(c.hunk_size(), 1);
    assert_eq!(c.hunk_count(), 4);

    let file = uncompressed_image(0, 524288, &[], 200);
    let c = Chd::open(file).unwrap();
    assert_eq!(c.hunk_size(), 524288);

    // 0 and 524289 are rejected
    let file = header_bytes([0, 0, 0, 0], 0, 124, 0, 1);
    assert_eq!(Chd::open(file).err(), Some(ChdError::BadGeometry));
    let file = header_bytes([0, 0, 0, 0], 0, 124, 524289, 1);
    assert_eq!(Chd::open(file).err(), Some(ChdError::BadGeometry));
}

#[test]
fn unit_bytes_rejected_when_inconsistent() {
    // unit larger than hunk
    let file = header_bytes([0, 0, 0, 0], 0, 124, 16, 32);
    assert_eq!(Chd::open(file).err(), Some(ChdError::BadGeometry));
    // hunk not a multiple of unit
    let file = header_bytes([0, 0, 0, 0], 0, 124, 100, 24);
    assert_eq!(Chd::open(file).err(), Some(ChdError::BadGeometry));
    // unit of zero
    let file = header_bytes([0, 0, 0, 0], 0, 124, 16, 0);
    assert_eq!(Chd::open(file).err(), Some(ChdError::BadGeometry));
}

#[test]
fn p8_empty_image_accepted() {
    let file = uncompressed_image(0, 4096, &[], 160);
    let c = Chd::open(file).unwrap();
    assert_eq!(c.hunk_count(), 0);
    assert_eq!(c.len(), 0);
    let mut buf = vec![0u8; 16];
    assert_eq!(c.read(0, &mut buf), Ok(0));
}

#[test]
fn s4_uncompressed_image() {
    // two hunks of 4096 bytes; both zeroed entries read from offset 0
    let file = uncompressed_image(8192, 4096, &[[0u8; 12]; 2], 8192);
    let c = Chd::open(file.clone()).unwrap();
    assert_eq!(c.version(), 5);
    assert_eq!(c.len(), 8192);
    assert_eq!(c.hunk_count(), 2);

    let mut out = vec![0u8; 8192];
    assert_eq!(c.read(0, &mut out), Ok(8192));
    assert_eq!(&out[0..4096], &file[0..4096]);
    assert_eq!(&out[4096..8192], &file[0..4096]);

    let mut hunk = vec![0u8; 4096];
    c.read_hunk(0, &mut hunk).unwrap();
    assert_eq!(&hunk[..], &file[0..4096]);

    // the whole image counts as uncompressed
    let distr = c.compression_distribution();
    assert_eq!(distr, vec![0, 0, 0, 0, 2, 0, 0]);
    assert_eq!(c.codec_name(0), Some("None"));
}

#[test]
fn p9_read_past_logical_size() {
    // the size is not a multiple of the hunk size; reads past it see EOF
    let file = uncompressed_image(6000, 4096, &[[0u8; 12]; 1], 8192);
    let c = Chd::open(file).unwrap();
    assert_eq!(c.hunk_count(), 1);
    let mut buf = vec![0u8; 64];
    assert_eq!(c.read(6000, &mut buf), Ok(0));
    assert_eq!(c.read(7000, &mut buf), Ok(0));
    // a large read is short at the end of the last whole hunk
    let mut buf = vec![0u8; 8192];
    assert_eq!(c.read(0, &mut buf), Ok(4096));
}

#[test]
fn seek_semantics() {
    let file = uncompressed_image(8192, 4096, &[[0u8; 12]; 2], 8192);
    let mut c = Chd::open(file).unwrap();
    assert_eq!(c.seek(SeekFrom::Current(0)), Ok(0));
    assert_eq!(c.seek(SeekFrom::End(0)), Ok(8192));
    assert_eq!(c.seek(SeekFrom::Current(-192)), Ok(8000));
    assert_eq!(c.seek(SeekFrom::Start(5)), Ok(5));
    assert_eq!(c.seek(SeekFrom::End(-8192)), Ok(0));
    // position overflow is an error and leaves the position alone
    assert_eq!(c.seek(SeekFrom::Start(42)), Ok(42));
    assert_eq!(c.seek(SeekFrom::Current(-43)), Ok(u64::MAX));
    assert_eq!(c.seek(SeekFrom::Current(i64::MIN)), Err(ChdError::Io));
    assert_eq!(c.seek(SeekFrom::Current(1)), Ok(0));
    assert_eq!(c.seek(SeekFrom::Start(u64::MAX)), Err(ChdError::Io));
    assert_eq!(c.seek(SeekFrom::Current(0)), Ok(0));
}

#[test]
fn compression_names() {
    let file = uncompressed_image(0, 4096, &[], 160);
    let c = Chd::open(file).unwrap();
    assert_eq!(c.compression_name(4), "Uncompressed");
    assert_eq!(c.compression_name(5), "Self");
    assert_eq!(c.compression_name(6), "Parent");
    assert_eq!(c.compression_name(200), "Invalid");
    assert_eq!(c.codec_name(1), None);
    assert_eq!(c.codec_name(4), None);
}

use chd::crc::crc16;
use chd::utils::{
    exp2, read_be16, read_be24, read_be32, read_be48, read_be64, read_bit_length, write_be16,
    write_be24, write_be48, write_le16,
};
use chd::ChdError;

#[test]
fn big_endian_reads() {
    let data = [0x01, 0x23, 0x45, 0x67, 0x89, 0xAB, 0xCD, 0xEF];
    assert_eq!(read_be16(&data, 0), 0x0123);
    assert_eq!(read_be16(&data, 3), 0x6789);
    assert_eq!(read_be24(&data, 0), 0x012345);
    assert_eq!(read_be32(&data, 2), 0x456789AB);
    assert_eq!(read_be48(&data, 1), 0x2345_6789_ABCD);
    assert_eq!(read_be64(&data, 0), 0x0123_4567_89AB_CDEF);
}

#[test]
fn big_endian_writes_round_trip() {
    let mut buf = vec![0u8; 8];
    write_be16(&mut buf, 1, 0xBEEF);
    assert_eq!(buf, vec![0, 0xBE, 0xEF, 0, 0, 0, 0, 0]);
    assert_eq!(read_be16(&buf, 1), 0xBEEF);

    let mut buf = vec![0xFFu8; 6];
    write_be24(&mut buf, 2, 0x012345);
    assert_eq!(buf, vec![0xFF, 0xFF, 0x01, 0x23, 0x45, 0xFF]);
    assert_eq!(read_be24(&buf, 2), 0x012345);

    let mut buf = vec![0u8; 6];
    write_be48(&mut buf, 0, 0xFEDC_BA98_7654);
    assert_eq!(buf, vec![0xFE, 0xDC, 0xBA, 0x98, 0x76, 0x54]);
    assert_eq!(read_be48(&buf, 0), 0xFEDC_BA98_7654);
}

#[test]
fn little_endian_writes() {
    let mut buf = vec![0u8; 4];
    write_le16(&mut buf, 1, 0xBEEF);
    assert_eq!(buf, vec![0, 0xEF, 0xBE, 0]);
}

#[test]
fn bit_length_descriptor_bounds() {
    assert_eq!(read_bit_length(&[31], 0), Ok(31));
    assert_eq!(read_bit_length(&[0], 0), Ok(0));
    assert_eq!(read_bit_length(&[32], 0), Err(ChdError::BadMap));
    assert_eq!(read_bit_length(&[255], 0), Err(ChdError::BadMap));
}

#[test]
fn powers_of_two() {
    assert_eq!(exp2(0), 1);
    assert_eq!(exp2(1), 2);
    assert_eq!(exp2(16), 0x1_0000);
    assert_eq!(exp2(32), 0x1_0000_0000);
}

#[test]
fn crc16_check_value() {
    // the standard CRC-16/CCITT-FALSE check string
    assert_eq!(crc16(b"123456789"), 0x29B1);
}

#[test]
fn crc16_empty_is_initial_value() {
    assert_eq!(crc16(&[]), 0xFFFF);
}

#[test]
fn crc16_single_bytes() {
    // one shifted-in byte, folded bit by bit
    fn reference(data: &[u8]) -> u16 {
        let mut crc: u16 = 0xFFFF;
        for &b in data {
            crc ^= (b as u16) << 8;
            for _ in 0..8 {
                crc = if crc & 0x8000 != 0 { (crc << 1) ^ 0x1021 } else { crc << 1 };
            }
        }
        crc
    }
    for b in [0u8, 1, 0x55, 0xAA, 0xFF] {
        assert_eq!(crc16(&[b]), reference(&[b]));
    }
    assert_eq!(crc16(&[1, 2, 3, 4]), reference(&[1, 2, 3, 4]));
}

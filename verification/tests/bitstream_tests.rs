use chd::bitstream::BitReader;

#[test]
fn test_reader() {
    let mut bit_reader = BitReader::new(&[0b11110011, 0b01100010]);

    assert_eq!(bit_reader.read(4), 0b1111);
    assert_eq!(bit_reader.read(2), 0b__00);
    assert_eq!(bit_reader.read(4), 0b1101);
    assert_eq!(bit_reader.read(6), 0b100010);
    assert_eq!(bit_reader.overflow(), false);
    assert_eq!(bit_reader.read(31), 0);
    assert_eq!(bit_reader.overflow(), true);
}

#[test]
fn read_is_peek_then_seek() {
    let data = [0xA5, 0x3C, 0x77];
    for width in 0..24usize {
        let mut by_read = BitReader::new(&data);
        let mut by_parts = BitReader::new(&data);
        // consume a few bits first so the cursors are not byte-aligned
        by_read.seek(3);
        by_parts.seek(3);
        let peeked = by_parts.peek(width);
        by_parts.seek(width);
        assert_eq!(by_read.read(width), peeked);
        assert_eq!(by_read.peek(8), by_parts.peek(8));
    }
}

#[test]
fn peek_does_not_consume() {
    let mut r = BitReader::new(&[0xF0, 0x0F]);
    assert_eq!(r.peek(4), 0xF);
    assert_eq!(r.peek(4), 0xF);
    assert_eq!(r.read(4), 0xF);
    assert_eq!(r.read(4), 0x0);
}

#[test]
fn overflow_is_permanent() {
    let mut r = BitReader::new(&[0xFF]);
    assert!(!r.overflow());
    r.seek(8);
    assert!(!r.overflow());
    r.seek(1);
    assert!(r.overflow());
    r.seek(5);
    assert!(r.overflow());
    assert_eq!(r.read(7), 0);
    assert!(r.overflow());
}

#[test]
fn bits_past_end_read_zero() {
    let mut r = BitReader::new(&[0b1000_0000]);
    assert_eq!(r.read(1), 1);
    assert_eq!(r.read(30), 0);
    assert!(r.overflow());
}

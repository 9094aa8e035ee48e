use chd::bitstream::BitReader;
use chd::huffman::Huffman;
use chd::ChdError;

/// Packs (value, width) pairs most-significant-bit first into bytes.
fn pack_bits(fields: &[(u32, u32)]) -> Vec<u8> {
    let mut bits: Vec<bool> = Vec::new();
    for &(value, width) in fields {
        for k in (0..width).rev() {
            bits.push((value >> k) & 1 == 1);
        }
    }
    let mut bytes = vec![0u8; (bits.len() + 7) / 8];
    for (i, bit) in bits.iter().enumerate() {
        if *bit {
            bytes[i / 8] |= 0x80 >> (i % 8);
        }
    }
    bytes
}

#[test]
fn rle_import_and_decode_round_trip() {
    // four symbols with code lengths 1, 2, 3, 3; canonical codes are
    // 1, 01, 000, 001
    let descriptor = pack_bits(&[(1, 3), (1, 3), (2, 3), (3, 3), (3, 3)]);
    let mut huffman = Huffman::new(4, 3);
    let mut stream = BitReader::new(&descriptor);
    assert!(huffman.import_tree_rle(&mut stream).is_ok());

    // encode the symbol sequence 0, 3, 1, 2, 0 with those codes
    let encoded = pack_bits(&[(1, 1), (1, 3), (1, 2), (0, 3), (1, 1)]);
    let mut stream = BitReader::new(&encoded);
    let decoded: Vec<u16> = (0..5).map(|_| huffman.decode_one(&mut stream)).collect();
    assert_eq!(decoded, vec![0, 3, 1, 2, 0]);
    assert!(!stream.overflow());
}

#[test]
fn rle_repeat_runs() {
    // sixteen symbols, all of length 4: descriptor is the escape form
    // "1, 4, repeat 13 more + 3"
    let descriptor = pack_bits(&[(1, 4), (4, 4), (13, 4)]);
    let mut huffman = Huffman::new(16, 8);
    let mut stream = BitReader::new(&descriptor);
    assert!(huffman.import_tree_rle(&mut stream).is_ok());

    // uniform lengths make each symbol its own code
    let encoded = pack_bits(&[(9, 4), (0, 4), (15, 4)]);
    let mut stream = BitReader::new(&encoded);
    assert_eq!(huffman.decode_one(&mut stream), 9);
    assert_eq!(huffman.decode_one(&mut stream), 0);
    assert_eq!(huffman.decode_one(&mut stream), 15);
}

#[test]
fn rle_rejects_inconsistent_lengths() {
    // a single length-2 code cannot make the partial sums even
    let descriptor = pack_bits(&[(2, 3), (0, 3), (0, 3), (0, 3)]);
    let mut huffman = Huffman::new(4, 3);
    let mut stream = BitReader::new(&descriptor);
    assert_eq!(huffman.import_tree_rle(&mut stream), Err(ChdError::BadHuffman));
}

#[test]
fn rle_rejects_wrong_code_count() {
    // a repeat run of 5 + 3 overruns a four-symbol table
    let descriptor = pack_bits(&[(1, 3), (2, 3), (5, 3)]);
    let mut huffman = Huffman::new(4, 3);
    let mut stream = BitReader::new(&descriptor);
    assert_eq!(huffman.import_tree_rle(&mut stream), Err(ChdError::BadHuffman));
}

#[test]
fn rle_rejects_truncated_stream() {
    // an empty source decodes only zero lengths, and the stream is far
    // overrun by the time the slots are filled
    let descriptor: Vec<u8> = Vec::new();
    let mut huffman = Huffman::new(16, 8);
    let mut stream = BitReader::new(&descriptor);
    assert_eq!(huffman.import_tree_rle(&mut stream), Err(ChdError::BadHuffman));
}

#[test]
fn full_huffman_import_decodes_bytes() {
    // the full-Huffman descriptor form: a small table whose symbols 0, 8
    // and 9 have lengths 1, 2 and 2, then the main table's 256 lengths,
    // all 8, via one length symbol and one long repeat
    let mut fields: Vec<(u32, u32)> = vec![
        // compact small-table block: slot 0 length, start = 7 + 1,
        // slot 8 length 2, slot 9 length 2, then stop
        (1, 3),
        (7, 3),
        (2, 3),
        (2, 3),
        (7, 3),
        // main lengths: symbol 9 (code 01) means length 8; then symbol 0
        // (code 1) repeats it: count 7 + 2 extended by 246
        (0b01, 2),
        (0b1, 1),
        (7, 3),
        (246, 8),
    ];
    // with uniform 8-bit lengths each byte is its own code
    let payload: Vec<u8> = (0..32u32).map(|i| ((i * 7 + 3) & 0xFF) as u8).collect();
    for &b in payload.iter() {
        fields.push((b as u32, 8));
    }
    let stream_bytes = pack_bits(&fields);
    let mut huffman = Huffman::new(256, 16);
    let mut stream = BitReader::new(&stream_bytes);
    assert!(huffman.import_tree_huffman(&mut stream).is_ok());
    for &b in payload.iter() {
        assert_eq!(huffman.decode_one(&mut stream), b as u16);
    }
    assert!(!stream.overflow());
}

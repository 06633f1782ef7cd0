use readable_hash::bit_reader::BitReader;
use readable_hash::traits::{ByteReader, SliceReader};

#[test]
fn reads_nibbles_msb_first() {
    let mut reader = SliceReader::new(&[0xAB]);
    let mut bits = BitReader::new(&reader);
    assert_eq!(bits.read_bits(&mut reader, 4), Some(0xA));
    assert_eq!(bits.read_bits(&mut reader, 4), Some(0xB));
    assert_eq!(bits.read_bits(&mut reader, 1), None);
}

#[test]
fn reads_across_byte_boundaries() {
    let mut reader = SliceReader::new(&[0b1010_1100, 0b0101_0011]);
    let mut bits = BitReader::new(&reader);
    assert_eq!(bits.read_bits(&mut reader, 3), Some(0b101));
    assert_eq!(bits.read_bits(&mut reader, 10), Some(0b0110_0010_10));
    assert_eq!(bits.read_bits(&mut reader, 3), Some(0b011));
    assert_eq!(bits.read_bits(&mut reader, 1), None);
}

#[test]
fn rejects_degenerate_widths() {
    let mut reader = SliceReader::new(&[0xFF, 0xFF, 0xFF, 0xFF, 0xFF]);
    let mut bits = BitReader::new(&reader);
    assert_eq!(bits.read_bits(&mut reader, 0), None);
    assert_eq!(bits.read_bits(&mut reader, 33), None);
    assert_eq!(bits.read_bits(&mut reader, 32), Some(0xFFFF_FFFF));
}

#[test]
fn has_more_bits_does_not_consume() {
    let mut reader = SliceReader::new(&[0x80]);
    let mut bits = BitReader::new(&reader);
    assert!(bits.has_more_bits(&mut reader, 8));
    assert!(!bits.has_more_bits(&mut reader, 9));
    assert_eq!(bits.read_bits(&mut reader, 8), Some(0x80));
    assert!(!bits.has_more_bits(&mut reader, 1));
}

#[test]
fn slice_reader_serves_bytes_in_order() {
    let mut reader = SliceReader::new(&[1, 2, 3]);
    let mut dest = vec![0u8; 2];
    assert_eq!(reader.read(&mut dest), 2);
    assert_eq!(dest, vec![1, 2]);
    assert_eq!(reader.read(&mut dest), 1);
    assert_eq!(dest, vec![3, 2]);
    assert_eq!(reader.read(&mut dest), 0);
}

//! Bit writer: what it writes reads back through the bit reader.

use flac_io::bitstream::BitReader;
use flac_io::bitwriter::BitWriter;

#[test]
fn round_trips_through_the_reader() {
    let mut w = BitWriter::new();
    w.write_bits(0b101, 3);
    w.write_bits(0b1111000011, 10);
    w.write_bits(0xAB, 8);
    let bytes = w.into_bytes();

    let mut r = BitReader::new(&bytes);
    assert_eq!(r.read_u32(3).unwrap(), 0b101);
    assert_eq!(r.read_u32(10).unwrap(), 0b1111000011);
    assert_eq!(r.read_u32(8).unwrap(), 0xAB);
}

#[test]
fn unary_round_trips() {
    let mut w = BitWriter::new();
    for q in [0u64, 1, 5, 9, 20] {
        w.write_unary(q);
    }
    let bytes = w.into_bytes();
    let mut r = BitReader::new(&bytes);
    for q in [0u64, 1, 5, 9, 20] {
        assert_eq!(r.read_unary().unwrap() as u64, q);
    }
}

#[test]
fn align_emits_pending_byte() {
    let mut w = BitWriter::new();
    w.write_bits(0b1, 1);
    assert!(!w.is_byte_aligned());
    w.align_to_byte();
    assert!(w.is_byte_aligned());
    assert_eq!(w.bytes().len(), 1);
    assert_eq!(w.bytes()[0], 0b1000_0000);
}

#[test]
fn wide_64_bit_write() {
    let mut w = BitWriter::new();
    w.write_bits(0x1234_5678_9ABC_DEF0, 64);
    let bytes = w.into_bytes();
    let mut r = BitReader::new(&bytes);
    assert_eq!(r.read_u64(64).unwrap(), 0x1234_5678_9ABC_DEF0);
}

#[test]
fn write_keeps_only_the_low_bits() {
    // Writing 0x1FF in 4 bits writes its low nibble; into_bytes pads with zeros.
    let mut w = BitWriter::new();
    w.write_bits(0x1FF, 4);
    assert_eq!(w.into_bytes(), vec![0xF0]);
    let mut w = BitWriter::new();
    w.write_unary(3);
    w.write_bits(0, 0);
    assert_eq!(w.into_bytes(), vec![0b0001_0000]);
}

//! Bit reader: field reads across byte boundaries, sign extension, unary codes,
//! truncation and byte alignment.

use flac_io::bitstream::BitReader;
use flac_io::FlacError;

#[test]
fn reads_bits_across_byte_boundary() {
    // 0b1010_1100, 0b1111_0000
    let mut r = BitReader::new(&[0xAC, 0xF0]);
    assert_eq!(r.read_u32(3).unwrap(), 0b101);
    assert_eq!(r.read_u32(7).unwrap(), 0b0110011);
    assert_eq!(r.read_u32(6).unwrap(), 0b110000);
}

#[test]
fn read_zero_bits_is_zero() {
    let mut r = BitReader::new(&[0xFF]);
    assert_eq!(r.read_u32(0).unwrap(), 0);
    assert_eq!(r.bits_left(), 8);
}

#[test]
fn full_32_and_64_bit_reads() {
    let mut r = BitReader::new(&[0x12, 0x34, 0x56, 0x78, 0x9A, 0xBC, 0xDE, 0xF0]);
    assert_eq!(r.read_u32(32).unwrap(), 0x1234_5678);
    assert_eq!(r.read_u32(32).unwrap(), 0x9ABC_DEF0);

    let mut r2 = BitReader::new(&[0x12, 0x34, 0x56, 0x78, 0x9A, 0xBC, 0xDE, 0xF0]);
    assert_eq!(r2.read_u64(64).unwrap(), 0x1234_5678_9ABC_DEF0);
}

#[test]
fn signed_sign_extension() {
    // 0b1110 in 4 bits is -2; 0b0110 is +6.
    let mut r = BitReader::new(&[0b1110_0110]);
    assert_eq!(r.read_signed(4).unwrap(), -2);
    assert_eq!(r.read_signed(4).unwrap(), 6);
}

#[test]
fn signed_full_width() {
    let mut r = BitReader::new(&[0xFF, 0xFF, 0xFF, 0xFF]);
    assert_eq!(r.read_signed(32).unwrap(), -1);
}

#[test]
fn signed_wide_handles_33_bits() {
    // 33 set bits is -1 in 33-bit two's complement.
    let mut r = BitReader::new(&[0xFF, 0xFF, 0xFF, 0xFF, 0x80]);
    assert_eq!(r.read_signed_wide(33).unwrap(), -1);

    // The most negative 33-bit value, 1 followed by 32 zeros, is -2^32.
    let mut r = BitReader::new(&[0x80, 0x00, 0x00, 0x00, 0x00]);
    assert_eq!(r.read_signed_wide(33).unwrap(), -(1i64 << 32));

    // A positive 33-bit value: 0 then 32 ones is 2^32 - 1.
    let mut r = BitReader::new(&[0x7F, 0xFF, 0xFF, 0xFF, 0x80]);
    assert_eq!(r.read_signed_wide(33).unwrap(), (1i64 << 32) - 1);
}

#[test]
fn unary_counts_leading_zeros() {
    // 0b0001_0010: first unary value is 3 (three zeros then a one),
    // remaining bits 0010 give a unary value of 2.
    let mut r = BitReader::new(&[0b0001_0010]);
    assert_eq!(r.read_unary().unwrap(), 3);
    assert_eq!(r.read_unary().unwrap(), 2);
}

#[test]
fn truncated_read_errors() {
    let mut r = BitReader::new(&[0xFF]);
    assert!(matches!(r.read_u32(9), Err(FlacError::Truncated)));
}

#[test]
fn unary_runs_off_the_end() {
    let mut r = BitReader::new(&[0x00]);
    assert!(matches!(r.read_unary(), Err(FlacError::Truncated)));
}

#[test]
fn align_to_byte_advances_to_boundary() {
    let mut r = BitReader::new(&[0xAC, 0xF0, 0x11]);
    r.read_u32(3).unwrap();
    assert!(!r.is_byte_aligned());
    r.align_to_byte();
    assert!(r.is_byte_aligned());
    assert_eq!(r.byte_position(), 1);
    // Aligning when already on a boundary is a no-op.
    r.align_to_byte();
    assert_eq!(r.byte_position(), 1);
    assert_eq!(r.read_u32(8).unwrap(), 0xF0);
}

#[test]
fn failed_read_leaves_the_cursor_usable() {
    // A read past the end reports truncation; the bits before it stay readable.
    let mut r = BitReader::new(&[0xA5]);
    assert!(matches!(r.read_u64(9), Err(FlacError::Truncated)));
    let mut r = BitReader::new(&[0xA5]);
    assert_eq!(r.read_u32(4).unwrap(), 0xA);
    assert_eq!(r.bits_left(), 4);
    assert_eq!(r.read_u32(4).unwrap(), 0x5);
    assert_eq!(r.bits_left(), 0);
}

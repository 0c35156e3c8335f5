//! The frame CRCs and the Ogg page CRC against known vectors.

use flac_io::crc::{crc16, crc8, ogg_crc32};

#[test]
fn crc8_empty_is_zero() {
    assert_eq!(crc8(&[]), 0);
}

#[test]
fn crc16_empty_is_zero() {
    assert_eq!(crc16(&[]), 0);
}

#[test]
fn crc8_known_vector() {
    // A single 0x00 byte clocked through leaves the register at zero; a
    // 0x01 byte leaves the low polynomial residue.
    assert_eq!(crc8(&[0x00]), 0x00);
    assert_eq!(crc8(&[0x01]), 0x07);
}

#[test]
fn crc16_known_vector() {
    assert_eq!(crc16(&[0x00]), 0x0000);
    assert_eq!(crc16(&[0x01]), 0x8005);
}

#[test]
fn ogg_crc32_known_vectors() {
    // The standard check string for this CRC variant (poly 0x04C11DB7,
    // init 0, no reflection, no final xor).
    assert_eq!(ogg_crc32(b""), 0x0000_0000);
    assert_eq!(ogg_crc32(b"123456789"), 0x89a1_897f);
}

#[test]
fn frame_crcs_of_the_check_string() {
    // The standard check values of CRC-8 (poly 0x07) and CRC-16/UMTS
    // (poly 0x8005), both with zero init and no reflection.
    assert_eq!(crc8(b"123456789"), 0xF4);
    assert_eq!(crc16(b"123456789"), 0xFEE8);
}

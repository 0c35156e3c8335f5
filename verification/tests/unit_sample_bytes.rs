//! The sample serialisation FLAC's MD5 is taken over.

use flac_io::md5::digest;
use flac_io::sample_bytes::{bytes_per_sample, md5_of_samples};

#[test]
fn bytes_per_sample_rounds_up() {
    assert_eq!(bytes_per_sample(8), 1);
    assert_eq!(bytes_per_sample(12), 2);
    assert_eq!(bytes_per_sample(16), 2);
    assert_eq!(bytes_per_sample(20), 3);
    assert_eq!(bytes_per_sample(24), 3);
    assert_eq!(bytes_per_sample(32), 4);
}

#[test]
fn negative_samples_use_twos_complement_low_bytes() {
    // -1 in 16-bit little-endian is 0xFF 0xFF.
    let md5 = md5_of_samples(&vec![vec![-1i32]], 16);
    let reference = digest(&[0xFF, 0xFF]);
    assert_eq!(md5, reference);
}

#[test]
fn interleaves_channels() {
    // Two channels, one frame: left=1, right=2 at 16-bit ->
    // 01 00 02 00 little-endian.
    let md5 = md5_of_samples(&vec![vec![1i32], vec![2i32]], 16);
    let reference = digest(&[0x01, 0x00, 0x02, 0x00]);
    assert_eq!(md5, reference);
}

#[test]
fn twenty_four_bit_samples_take_three_bytes() {
    // 0x123456 then -2 at 24 bits: 56 34 12 FE FF FF.
    let md5 = md5_of_samples(&vec![vec![0x12_3456, -2]], 24);
    assert_eq!(md5, digest(&[0x56, 0x34, 0x12, 0xFE, 0xFF, 0xFF]));
    // No samples hash the empty message.
    assert_eq!(md5_of_samples(&vec![vec![], vec![]], 16), digest(&[]));
}

//! Encoder building blocks: zigzag, fixed residuals, Rice parameter choice and
//! the coded frame number.

use flac_io::bitstream::BitReader;
use flac_io::bitwriter::BitWriter;
use flac_io::encoder::{
    best_rice_param, encode_subframe, fixed_residual, signed_range, write_rice, write_utf8_coded,
    zigzag,
};
use flac_io::frame::{decode_subframe, read_rice, read_utf8_coded};

#[test]
fn zigzag_is_invertible() {
    for r in [
        -1000i64,
        -1,
        0,
        1,
        2,
        1000,
        i32::MAX as i64,
        i32::MIN as i64,
    ] {
        let z = zigzag(r);
        let back = ((z >> 1) as i64) ^ -((z & 1) as i64);
        assert_eq!(back, r);
    }
}

#[test]
fn fixed_residual_order_one_is_difference() {
    let res = fixed_residual(&[10, 13, 19, 18], 1);
    assert_eq!(res, vec![3, 6, -1]);
}

#[test]
fn best_rice_param_handles_empty() {
    assert_eq!(best_rice_param(&[]), Some((0, 0)));
}

#[test]
fn utf8_coded_writes_round_trip_small() {
    // A single byte for values below 0x80.
    let mut w = BitWriter::new();
    write_utf8_coded(&mut w, 0x42);
    assert_eq!(w.into_bytes(), vec![0x42]);
}

#[test]
fn zigzag_values_and_extremes() {
    assert_eq!(zigzag(0), 0);
    assert_eq!(zigzag(-1), 1);
    assert_eq!(zigzag(1), 2);
    assert_eq!(zigzag(-2), 3);
    assert_eq!(zigzag(i64::MAX), u64::MAX - 1);
    assert_eq!(zigzag(i64::MIN), u64::MAX);
}

#[test]
fn fixed_residuals_of_every_order() {
    // A cubic has a constant third difference and a zero fourth difference.
    let s: Vec<i32> = (0..8).map(|n| n * n * n).collect();
    assert_eq!(fixed_residual(&s, 0), s.iter().map(|&v| v as i64).collect::<Vec<_>>());
    assert_eq!(fixed_residual(&s, 3), vec![6; 5]);
    assert_eq!(fixed_residual(&s, 4), vec![0; 4]);
    assert_eq!(fixed_residual(&s, 2), vec![6, 12, 18, 24, 30, 36]);
}

#[test]
fn best_rice_param_picks_the_smallest_size() {
    // All zero: parameter 0, one stop bit each.
    assert_eq!(best_rice_param(&[0, 0, 0, 0]), Some((0, 4)));
    // Zigzags 8, 9: k = 3 gives quotients 1 and 1 -> 2 * (1 + 1 + 3) = 10 bits,
    // k = 2 gives 2 * (2 + 1 + 2) = 10 bits too, so the smaller k = 2 wins.
    assert_eq!(best_rice_param(&[4, -5]), Some((2, 10)));
}

#[test]
fn coded_frame_numbers_read_back() {
    for v in [0u64, 0x7F, 0x80, 0x7FF, 0x800, 0xFFFF, 0x1_0000, 0x1F_FFFF, 0x7FFF_FFFF, 0x8000_0000, 0xF_FFFF_FFFF] {
        let mut w = BitWriter::new();
        write_utf8_coded(&mut w, v);
        let bytes = w.into_bytes();
        let mut r = BitReader::new(&bytes);
        assert_eq!(read_utf8_coded(&mut r).unwrap(), v, "value {v:#x}");
        assert_eq!(r.bits_left(), 0);
    }
    // Two-byte form of 129: 110_00010 10_000001.
    let mut w = BitWriter::new();
    write_utf8_coded(&mut w, 129);
    assert_eq!(w.into_bytes(), vec![0xC2, 0x81]);
}

#[test]
fn rice_codes_read_back() {
    let mut w = BitWriter::new();
    for (r, k) in [(0i64, 0u32), (-1, 0), (5, 2), (-300, 4), (123_456, 14), (-(1 << 33), 30)] {
        write_rice(&mut w, r, k);
    }
    let bytes = w.into_bytes();
    let mut rd = BitReader::new(&bytes);
    for (r, k) in [(0i64, 0u32), (-1, 0), (5, 2), (-300, 4), (123_456, 14), (-(1 << 33), 30)] {
        assert_eq!(read_rice(&mut rd, k).unwrap(), r);
    }
}

#[test]
fn signed_range_bounds() {
    assert_eq!(signed_range(4), (-8, 7));
    assert_eq!(signed_range(16), (-32768, 32767));
    assert_eq!(signed_range(32), (i32::MIN as i64, i32::MAX as i64));
    assert_eq!(signed_range(64), (i64::MIN, i64::MAX));
}

#[test]
fn every_subframe_kind_decodes_back() {
    // Constant, a smooth ramp (fixed predictor) and noise (verbatim).
    let constant = vec![-7i32; 50];
    let ramp: Vec<i32> = (0..300).map(|n| 3 * n - 400).collect();
    let noise: Vec<i32> = (0..64i64)
        .map(|n| ((n.wrapping_mul(2_654_435_761) >> 7) as i32).rem_euclid(60_000) - 30_000)
        .collect();
    for s in [constant, ramp, noise] {
        let mut w = BitWriter::new();
        encode_subframe(&mut w, &s, 16);
        let bytes = w.into_bytes();
        let mut r = BitReader::new(&bytes);
        let back = decode_subframe(&mut r, s.len(), 16).unwrap();
        assert_eq!(back, s.iter().map(|&v| v as i64).collect::<Vec<_>>());
    }
}

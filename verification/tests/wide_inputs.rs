//! Inputs beyond what a FLAC frame carries: long blocks, large residuals,
//! long Ogg packets, and the state left behind by failed reads.

use flac_io::bitstream::BitReader;
use flac_io::bitwriter::BitWriter;
use flac_io::encoder::{best_rice_param, encode_subframe, write_utf8_coded};
use flac_io::frame::{
    decode_subframe, read_utf8_coded, undo_channel_decorrelation, ChannelAssignment,
};
use flac_io::ogg::{mux, to_native_flac, Packet};
use flac_io::FlacError;

#[test]
fn subframes_longer_than_a_frame_block_round_trip() {
    // 70000 samples: more than a frame's block size and more than 65535.
    let ramp: Vec<i32> = (0..70_000).map(|n| (n % 5000) * 7 - 17_000).collect();
    let mut w = BitWriter::new();
    encode_subframe(&mut w, &ramp, 16);
    let bytes = w.into_bytes();
    let mut r = BitReader::new(&bytes);
    let back = decode_subframe(&mut r, ramp.len(), 16).unwrap();
    assert_eq!(back, ramp.iter().map(|&v| v as i64).collect::<Vec<_>>());
}

#[test]
fn rice_parameter_for_very_large_residuals() {
    // Zigzagged these are 2^61 and 2^61 - 1: every quotient is too large.
    assert_eq!(best_rice_param(&[1i64 << 60, -(1i64 << 60)]), None);
    // Zigzagged 2^41: quotients fit from parameter 21 on, and the size
    // 2^(41 - k) + 1 + k keeps falling up to the largest parameter, 30.
    assert_eq!(best_rice_param(&[1i64 << 40]), Some((30, 2048 + 1 + 30)));
}

#[test]
fn independent_assignment_leaves_any_channels_alone() {
    let mut channels = vec![vec![1i64, -2, 3], vec![i64::MAX, i64::MIN, 0]];
    let before = channels.clone();
    undo_channel_decorrelation(ChannelAssignment::Independent(1), &mut channels);
    assert_eq!(channels, before);
    undo_channel_decorrelation(ChannelAssignment::Independent(8), &mut channels);
    assert_eq!(channels, before);
}

#[test]
fn side_modes_leave_extra_channels_alone() {
    let mut channels = vec![vec![10i64, 20], vec![3, 4], vec![99, 98]];
    undo_channel_decorrelation(ChannelAssignment::LeftSide, &mut channels);
    assert_eq!(channels, vec![vec![10, 20], vec![7, 16], vec![99, 98]]);
}

#[test]
fn truncated_read_leaves_the_position() {
    let data = [0xABu8];
    let mut r = BitReader::new(&data);
    assert_eq!(r.read_u32(3).unwrap(), 0b101);
    assert_eq!(r.read_u32(6), Err(FlacError::Truncated));
    assert_eq!(r.bits_left(), 5);
    assert_eq!(r.read_u32(5).unwrap(), 0b01011);
}

#[test]
fn failed_unary_read_stops_after_the_cap() {
    // 2^20 + 1 zero bits and more: the code is refused once the cap is passed.
    let data = vec![0u8; (1 << 17) + 16];
    let mut r = BitReader::new(&data);
    let total = r.bits_left();
    assert!(matches!(r.read_unary(), Err(FlacError::CorruptStream(_))));
    assert_eq!(total - r.bits_left(), (1 << 20) + 1);
}

#[test]
fn long_first_packet_round_trips_through_pages() {
    // A mapping header far longer than one page (255 * 255 bytes).
    let mut first = vec![0x7F, b'F', b'L', b'A', b'C', 1, 0, 0, 1, b'f', b'L', b'a', b'C'];
    first.extend((0..70_000u32).map(|n| (n % 251) as u8));
    let second: Vec<u8> = (0..510u32).map(|n| (n % 13) as u8).collect();
    let packets = vec![
        Packet { data: first.clone(), granule: 0 },
        Packet { data: second.clone(), granule: 0 },
        Packet { data: vec![1, 2, 3], granule: 4096 },
    ];
    let bytes = mux(&packets);
    let mut want = first[9..].to_vec();
    want.extend_from_slice(&second);
    want.extend_from_slice(&[1, 2, 3]);
    assert_eq!(to_native_flac(&bytes, false).unwrap(), want);
}

#[test]
fn coded_numbers_of_every_length_read_back() {
    let values: [u64; 14] = [
        0,
        0x7F,
        0x80,
        0x7FF,
        0x800,
        0xFFFF,
        0x1_0000,
        0x1F_FFFF,
        0x20_0000,
        0x3FF_FFFF,
        0x400_0000,
        0x7FFF_FFFF,
        0x8000_0000,
        0xF_FFFF_FFFF,
    ];
    for v in values {
        let mut w = BitWriter::new();
        write_utf8_coded(&mut w, v);
        let bytes = w.into_bytes();
        let mut r = BitReader::new(&bytes);
        assert_eq!(read_utf8_coded(&mut r).unwrap(), v);
        assert_eq!(r.bits_left(), 0);
    }
}

#[test]
fn high_declared_depths_still_refuse_bad_subframes() {
    // Padding bit set.
    let mut r = BitReader::new(&[0x80u8, 0, 0, 0]);
    assert!(matches!(decode_subframe(&mut r, 4, 200), Err(FlacError::CorruptStream(_))));
    // Reserved type code 2 at depth 255: the depth is refused first.
    let mut r = BitReader::new(&[0x04u8, 0, 0, 0]);
    assert_eq!(
        decode_subframe(&mut r, 4, 255),
        Err(FlacError::CorruptStream("effective sample depth out of range".into()))
    );
    // Constant subframe with no wasted bits: depth 100 leaves an effective
    // depth above 33.
    let mut r = BitReader::new(&[0x00u8, 0, 0, 0]);
    assert!(matches!(decode_subframe(&mut r, 4, 100), Err(FlacError::CorruptStream(_))));
}

#[test]
fn rice_parameter_is_the_first_of_least_size() {
    let residual: Vec<i64> = (0..200i64).map(|n| (n * 37 % 301) - 150).collect();
    let z: Vec<u64> = residual
        .iter()
        .map(|&r| if r >= 0 { 2 * r as u64 } else { (2 * (-r - 1) + 1) as u64 })
        .collect();
    let mut best: Option<(u32, u64)> = None;
    for k in 0..=30u32 {
        if z.iter().any(|&v| (v >> k) > (1 << 20)) {
            continue;
        }
        let size: u64 = z.iter().map(|&v| (v >> k) + 1 + k as u64).sum();
        if best.map_or(true, |(_, b)| size < b) {
            best = Some((k, size));
        }
    }
    assert_eq!(best_rice_param(&residual), best);
}

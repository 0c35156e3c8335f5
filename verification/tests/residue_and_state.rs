//! The CRC-16 residue, and what a failed frame decode leaves behind.

use flac_io::bitstream::BitReader;
use flac_io::crc::crc16;
use flac_io::frame::decode_frame;
use flac_io::{encode, FlacAudio, StreamInfo};

#[test]
fn appending_the_crc16_gives_zero() {
    for data in [&b""[..], &b"123456789"[..], &[0xFFu8, 0x00, 0x80, 0x7F][..]] {
        let c = crc16(data);
        let mut with = data.to_vec();
        with.push((c >> 8) as u8);
        with.push(c as u8);
        assert_eq!(crc16(&with), 0);
    }
}

fn stream_info(channels: u8) -> StreamInfo {
    StreamInfo {
        min_block_size: 16,
        max_block_size: 4096,
        min_frame_size: 0,
        max_frame_size: 0,
        sample_rate: 44100,
        channels,
        bits_per_sample: 16,
        total_samples: 0,
        md5: [0; 16],
    }
}

#[test]
fn a_failed_frame_leaves_the_output_alone() {
    let a = FlacAudio {
        sample_rate: 44100,
        channels: 1,
        bits_per_sample: 16,
        samples: vec![(0..100).map(|n| n * 5 - 200).collect()],
    };
    let bytes = encode(&a).unwrap();
    let mut frame = bytes[42..].to_vec();
    // Damage the last byte: the CRC-16 no longer matches.
    let last = frame.len() - 1;
    frame[last] ^= 0x01;
    let mut out = vec![vec![9i32, 8, 7]];
    let mut r = BitReader::new(&frame);
    assert!(decode_frame(&mut r, &stream_info(1), &mut out).is_err());
    assert_eq!(out, vec![vec![9, 8, 7]]);
    // The intact frame appends its samples.
    let mut r = BitReader::new(&bytes[42..]);
    assert_eq!(decode_frame(&mut r, &stream_info(1), &mut out).unwrap(), 100);
    assert_eq!(out[0].len(), 103);
}

#[test]
fn info_ignores_everything_after_the_header() {
    let a = FlacAudio {
        sample_rate: 22050,
        channels: 2,
        bits_per_sample: 8,
        samples: vec![vec![1, 2, 3, 4], vec![-1, -2, -3, -4]],
    };
    let bytes = encode(&a).unwrap();
    let whole = flac_io::info(&bytes).unwrap();
    let mut garbage = bytes[..42].to_vec();
    garbage.extend_from_slice(&[0xFF, 0x00, 0x13, 0x37]);
    assert_eq!(flac_io::info(&garbage).unwrap(), whole);
    assert_eq!(flac_io::info(&bytes[..42]).unwrap(), whole);
}

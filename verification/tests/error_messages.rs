//! The detail each error carries: the offending values, written in decimal.

use flac_io::bitstream::BitReader;
use flac_io::frame::decode_subframe;
use flac_io::{decode, encode, encode_ogg, info, FlacAudio, FlacError};

fn mono(len: usize) -> FlacAudio {
    FlacAudio {
        sample_rate: 44100,
        channels: 1,
        bits_per_sample: 16,
        samples: vec![(0..len as i32).map(|n| n * 3 - 50).collect()],
    }
}

fn stereo(len: usize) -> FlacAudio {
    FlacAudio {
        sample_rate: 44100,
        channels: 2,
        bits_per_sample: 16,
        samples: vec![vec![7; len], vec![-7; len]],
    }
}

#[test]
fn encoder_names_the_bad_channel_count() {
    let mut a = mono(4);
    a.channels = 9;
    assert_eq!(
        encode(&a),
        Err(FlacError::InvalidInput("channel count 9 is outside 1 to 8".into()))
    );
}

#[test]
fn encoder_names_the_bad_bit_depth() {
    let mut a = mono(4);
    a.bits_per_sample = 33;
    assert_eq!(
        encode(&a),
        Err(FlacError::InvalidInput("bit depth 33 is outside 4 to 32".into()))
    );
}

#[test]
fn encoder_names_the_bad_sample_rate() {
    let mut a = mono(4);
    a.sample_rate = 1_048_576;
    assert_eq!(
        encode_ogg(&a),
        Err(FlacError::InvalidInput(
            "sample rate 1048576 is outside 1 to 1048575".into()
        ))
    );
}

#[test]
fn encoder_names_the_first_ragged_channel() {
    let a = FlacAudio {
        sample_rate: 8000,
        channels: 3,
        bits_per_sample: 8,
        samples: vec![vec![1, 2, 3, 4], vec![1, 2, 3], vec![1]],
    };
    assert_eq!(
        encode(&a),
        Err(FlacError::InvalidInput(
            "channel 1 has 3 samples but channel 0 has 4".into()
        ))
    );
}

#[test]
fn encoder_names_the_first_channel_out_of_range() {
    let a = FlacAudio {
        sample_rate: 8000,
        channels: 3,
        bits_per_sample: 8,
        samples: vec![vec![1, -128, 127], vec![0, 128, 0], vec![-129, 0, 0]],
    };
    assert_eq!(
        encode(&a),
        Err(FlacError::InvalidInput(
            "channel 1 has a sample outside the 8-bit range".into()
        ))
    );
}

#[test]
fn decoder_names_an_unsupported_bit_depth() {
    let mut bytes = encode(&mono(10)).unwrap();
    // STREAMINFO body starts at byte 8; bits 103..108 hold depth - 1. Depth 3
    // leaves bit 103 clear and puts 0b0010 in the top of body byte 13.
    bytes[8 + 13] = (bytes[8 + 13] & 0x0F) | 0x20;
    assert_eq!(bytes[8 + 12] & 1, 0);
    let want = Err(FlacError::Unsupported("3-bit samples".into()));
    assert_eq!(decode(&bytes).map(|_| ()), want);
    assert_eq!(info(&bytes).map(|_| ()), want);
}

#[test]
fn decoder_names_the_declared_total_over_the_cap() {
    let mut bytes = encode(&stereo(10)).unwrap();
    // The 36-bit total sits in the low nibble of body byte 13 and bytes 14..18.
    bytes[8 + 13] = (bytes[8 + 13] & 0xF0) | 0x08;
    for k in 14..18 {
        bytes[8 + k] = 0;
    }
    assert_eq!(
        decode(&bytes).map(|_| ()),
        Err(FlacError::LimitExceeded(
            "stream declares 34359738368 samples across 2 channels, above the 1073741824-sample decode cap"
                .into()
        ))
    );
}

#[test]
fn decoder_names_a_wrong_streaminfo_length() {
    let mut bytes = encode(&mono(10)).unwrap();
    bytes[7] = 33;
    assert_eq!(
        decode(&bytes).map(|_| ()),
        Err(FlacError::CorruptStream(
            "STREAMINFO length is 33, expected 34".into()
        ))
    );
}

#[test]
fn decoder_names_a_reserved_subframe_type() {
    // Padding bit 0, type code 2 (reserved), no wasted bits.
    let data = [0x04u8, 0, 0, 0];
    let mut r = BitReader::new(&data);
    assert_eq!(
        decode_subframe(&mut r, 4, 16),
        Err(FlacError::CorruptStream(
            "reserved subframe type code 2".into()
        ))
    );
}

#[test]
fn ogg_demux_names_the_structure_version() {
    let mut bytes = encode_ogg(&mono(10)).unwrap();
    bytes[4] = 1;
    assert_eq!(
        decode(&bytes).map(|_| ()),
        Err(FlacError::Unsupported(
            "Ogg stream structure version 1".into()
        ))
    );
}

#[test]
fn large_counts_are_written_in_full() {
    let a = FlacAudio {
        sample_rate: 4_000_000_000,
        channels: 1,
        bits_per_sample: 16,
        samples: vec![vec![0]],
    };
    assert_eq!(
        encode(&a),
        Err(FlacError::InvalidInput(
            "sample rate 4000000000 is outside 1 to 1048575".into()
        ))
    );
}

//! The Ogg layer on concrete streams: what the demuxer rebuilds from the
//! encoder's pages, and that it never gives back more than it read.

use flac_io::ogg::to_native_flac;
use flac_io::{decode, encode, encode_ogg, info, FlacAudio};

fn ramp(channels: u8, bps: u8, len: usize) -> FlacAudio {
    let span = 1i64 << bps;
    let lo = -(1i64 << (bps - 1));
    let samples = (0..channels)
        .map(|c| {
            (0..len)
                .map(|n| (((n as i64) * 97 + (c as i64) * 13) % span + lo) as i32)
                .collect()
        })
        .collect();
    FlacAudio {
        sample_rate: 32000,
        channels,
        bits_per_sample: bps,
        samples,
    }
}

#[test]
fn demux_of_encoded_ogg_is_the_native_stream_with_a_comment_block() {
    let a = ramp(2, 16, 5000);
    let oga = encode_ogg(&a).unwrap();
    let native = to_native_flac(&oga, false).unwrap();
    let flac = encode(&a).unwrap();
    // Marker and STREAMINFO body agree; the Ogg form's STREAMINFO is not the
    // last block, and a 19-byte comment block sits before the frames.
    assert_eq!(&native[0..4], b"fLaC");
    assert_eq!(native[4], 0x00);
    assert_eq!(flac[4], 0x80);
    assert_eq!(&native[5..42], &flac[5..42]);
    assert_eq!(native[42], 0x84);
    assert_eq!(native.len(), flac.len() + 19);
    assert_eq!(&native[61..], &flac[42..]);
}

#[test]
fn demux_never_expands_its_input() {
    for len in [0usize, 1, 4096, 9000] {
        let oga = encode_ogg(&ramp(1, 8, len)).unwrap();
        let full = to_native_flac(&oga, false).unwrap();
        let heads = to_native_flac(&oga, true).unwrap();
        assert!(full.len() <= oga.len());
        assert!(heads.len() <= oga.len());
        // The header-only read stops after the comment block.
        assert_eq!(heads.len(), 61);
        assert_eq!(&heads[..], &full[..61]);
    }
}

#[test]
fn ogg_info_reports_the_encoded_parameters() {
    let a = ramp(3, 12, 777);
    let i = info(&encode_ogg(&a).unwrap()).unwrap();
    assert_eq!(i.sample_rate, 32000);
    assert_eq!(i.channels, 3);
    assert_eq!(i.bits_per_sample, 12);
    assert_eq!(i.total_samples, 777);
}

#[test]
fn both_containers_decode_alike() {
    let a = ramp(4, 20, 3000);
    let from_flac = decode(&encode(&a).unwrap()).unwrap();
    let from_ogg = decode(&encode_ogg(&a).unwrap()).unwrap();
    assert_eq!(from_flac, from_ogg);
    assert_eq!(from_ogg, a);
}

#[test]
fn both_containers_carry_the_same_streaminfo() {
    let a = ramp(2, 24, 4500);
    let from_flac = info(&encode(&a).unwrap()).unwrap();
    let from_ogg = info(&encode_ogg(&a).unwrap()).unwrap();
    assert_eq!(from_flac, from_ogg);
    assert_ne!(from_flac.md5, [0u8; 16]);
}

#[test]
fn re_encoding_through_ogg_is_stable() {
    let a = ramp(2, 16, 6000);
    let once = encode_ogg(&a).unwrap();
    let twice = encode_ogg(&decode(&once).unwrap()).unwrap();
    assert_eq!(once, twice);
}

//! Ogg-wrapped FLAC: round-tripping the crate's own Ogg encoder. The container
//! is auto-detected by `decode`/`info`; `encode_ogg` writes it.

use flac_io::{decode, encode, encode_ogg, info, FlacAudio};

fn audio(channels: u8, bps: u8, rate: u32, len: usize) -> FlacAudio {
    let (lo, hi) = (-(1i64 << (bps - 1)), (1i64 << (bps - 1)) - 1);
    let samples = (0..channels)
        .map(|c| {
            (0..len)
                .map(|n| {
                    let v = ((n as i64 * (c as i64 + 3) * 131) % (hi - lo + 1)) + lo;
                    v as i32
                })
                .collect()
        })
        .collect();
    FlacAudio {
        sample_rate: rate,
        channels,
        bits_per_sample: bps,
        samples,
    }
}

#[test]
fn encode_ogg_round_trips_across_configs() {
    let cases = [
        (1u8, 8u8, 8000u32, 1), // single sample
        (1, 16, 44100, 4096),   // exactly one block
        (2, 16, 44100, 10_000), // multiple frames
        (2, 24, 96000, 9000),
        (6, 16, 48000, 5000),
        (8, 16, 48000, 4097), // block boundary + many channels
        (2, 32, 48000, 6000),
    ];
    for (ch, bps, rate, len) in cases {
        let a = audio(ch, bps, rate, len);
        let bytes = encode_ogg(&a).expect("encode_ogg");
        let back = decode(&bytes).expect("decode our .oga");
        assert_eq!(back.samples, a.samples, "round-trip {ch}ch/{bps}bit/{len}");
        assert_eq!(back.sample_rate, rate);
        assert_eq!(back.bits_per_sample, bps);
        // info() agrees on the same bytes.
        let i = info(&bytes).unwrap();
        assert_eq!(i.channels, ch);
        assert_eq!(i.total_samples as usize, len);
    }
}

#[test]
fn encode_ogg_is_deterministic() {
    let a = audio(2, 16, 44100, 12_000);
    assert_eq!(encode_ogg(&a).unwrap(), encode_ogg(&a).unwrap());
}

#[test]
fn empty_stream_round_trips_through_ogg() {
    let a = FlacAudio {
        sample_rate: 44100,
        channels: 1,
        bits_per_sample: 16,
        samples: vec![vec![]],
    };
    let bytes = encode_ogg(&a).expect("encode empty .oga");
    let back = decode(&bytes).expect("decode empty .oga");
    assert_eq!(back.samples_per_channel(), 0);
}

#[test]
fn ogg_and_native_decode_to_the_same_samples() {
    // The two containers carry identical audio.
    let a = audio(2, 16, 44100, 9000);
    let native = decode(&encode(&a).unwrap()).unwrap();
    let ogg = decode(&encode_ogg(&a).unwrap()).unwrap();
    assert_eq!(native.samples, ogg.samples);
}

#[test]
fn large_stream_spanning_many_pages_round_trips() {
    // Long enough that audio frames fill several Ogg pages, exercising the
    // page-packing and granule bookkeeping over many pages.
    let a = audio(2, 16, 44100, 4096 * 30 + 7);
    let bytes = encode_ogg(&a).expect("encode large .oga");
    let back = decode(&bytes).expect("decode large .oga");
    assert_eq!(back.samples, a.samples);
    assert_eq!(back.samples_per_channel(), 4096 * 30 + 7);
}

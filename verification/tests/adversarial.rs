//! Adversarial input: decode() must never panic on hostile or damaged bytes.
//! It may return an error, but a parser of untrusted data must not crash. No
//! assertion on the returned value; the test passing IS the no-panic guarantee.

/// A tiny deterministic pseudo-random generator (no external dependency).
struct Lcg(u64);
impl Lcg {
    fn next_u32(&mut self) -> u32 {
        self.0 = self
            .0
            .wrapping_mul(6364136223846793005)
            .wrapping_add(1442695040888963407);
        (self.0 >> 33) as u32
    }
}

#[test]
fn random_bytes_never_panic() {
    let mut rng = Lcg(0x1234_5678_9abc_def0);
    for _ in 0..2000 {
        let len = (rng.next_u32() % 512) as usize;
        let data: Vec<u8> = (0..len).map(|_| rng.next_u32() as u8).collect();
        let _ = flac_io::decode(&data);
    }
}

#[test]
fn random_bytes_with_valid_marker_never_panic() {
    // Prefixing the fLaC marker pushes the parser deeper into the metadata and
    // frame code with otherwise random bytes.
    let mut rng = Lcg(0xdead_beef_cafe_f00d);
    for _ in 0..2000 {
        let len = (rng.next_u32() % 512) as usize;
        let mut data = b"fLaC".to_vec();
        data.extend((0..len).map(|_| rng.next_u32() as u8));
        let _ = flac_io::decode(&data);
    }
}

#[test]
fn random_ogg_pages_never_panic() {
    // Ogg-marked input sends the bytes through the page demuxer first.
    let mut rng = Lcg(0x5eed_0000_1111_2222);
    for _ in 0..2000 {
        let len = (rng.next_u32() % 512) as usize;
        let mut data = b"OggS".to_vec();
        data.extend((0..len).map(|_| rng.next_u32() as u8));
        let _ = flac_io::decode(&data);
        let _ = flac_io::info(&data);
    }
}

#[test]
fn truncated_and_flipped_encoder_output_never_panics() {
    // The crate's own streams, cut at every length and with single bits
    // flipped, in both containers.
    let ch: Vec<i32> = (0..3000).map(|i| ((i * 37) % 2000) - 1000).collect();
    let a = flac_io::FlacAudio {
        sample_rate: 44100,
        channels: 2,
        bits_per_sample: 16,
        samples: vec![ch.clone(), ch],
    };
    let mut rng = Lcg(0x0badc0de_0badc0de);
    for full in [flac_io::encode(&a).unwrap(), flac_io::encode_ogg(&a).unwrap()] {
        for cut in (0..full.len()).step_by(7) {
            let _ = flac_io::decode(&full[..cut]);
        }
        for _ in 0..300 {
            let mut data = full.clone();
            let pos = (rng.next_u32() as usize) % data.len();
            data[pos] ^= 1 << (rng.next_u32() % 8);
            let _ = flac_io::decode(&data);
        }
    }
}

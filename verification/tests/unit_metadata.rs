//! The stream header: marker, metadata block chain and STREAMINFO.

use flac_io::metadata::read_header;
use flac_io::FlacError;

/// Build a minimal valid header: marker + one last STREAMINFO block.
fn synthetic_header() -> Vec<u8> {
    let mut v = Vec::new();
    v.extend_from_slice(b"fLaC");
    // Block header: last flag set, type 0, length 34.
    v.push(0x80);
    v.extend_from_slice(&[0x00, 0x00, 0x22]);
    // STREAMINFO body, 34 bytes.
    // min/max block size 4096.
    v.extend_from_slice(&[0x10, 0x00, 0x10, 0x00]);
    // min/max frame size 0.
    v.extend_from_slice(&[0, 0, 0, 0, 0, 0]);
    let mut bits = Vec::new();
    push_bits(&mut bits, 44100, 20);
    push_bits(&mut bits, 1, 3); // channels - 1 = 1 (stereo)
    push_bits(&mut bits, 15, 5); // bps - 1 = 15 (16-bit)
    push_bits(&mut bits, 88200, 36); // total samples
    let packed = pack(&bits);
    v.extend_from_slice(&packed);
    // MD5 (16 bytes of 0xAB).
    v.extend_from_slice(&[0xAB; 16]);
    v
}

fn push_bits(out: &mut Vec<u8>, value: u64, n: u32) {
    for i in (0..n).rev() {
        out.push(((value >> i) & 1) as u8);
    }
}

fn pack(bits: &[u8]) -> Vec<u8> {
    let mut out = vec![0u8; bits.len().div_ceil(8)];
    for (i, &bit) in bits.iter().enumerate() {
        if bit != 0 {
            out[i / 8] |= 1 << (7 - (i % 8));
        }
    }
    out
}

#[test]
fn rejects_non_flac() {
    assert_eq!(read_header(b"RIFFxxxx").unwrap_err(), FlacError::NotFlac);
    assert_eq!(read_header(b"fL").unwrap_err(), FlacError::NotFlac);
}

#[test]
fn parses_synthetic_streaminfo() {
    let h = read_header(&synthetic_header()).unwrap();
    let si = &h.stream_info;
    assert_eq!(si.min_block_size, 4096);
    assert_eq!(si.max_block_size, 4096);
    assert_eq!(si.sample_rate, 44100);
    assert_eq!(si.channels, 2);
    assert_eq!(si.bits_per_sample, 16);
    assert_eq!(si.total_samples, 88200);
    assert_eq!(si.md5, [0xAB; 16]);
    assert_eq!(h.frame_start, synthetic_header().len());
}

#[test]
fn truncated_header_errors() {
    let full = synthetic_header();
    assert_eq!(read_header(&full[..10]).unwrap_err(), FlacError::Truncated);
}

#[test]
fn rejects_zero_sample_rate() {
    let mut h = synthetic_header();
    // Zero the 20-bit sample rate: it starts at byte 4+4+10 = 18.
    h[18] = 0;
    h[19] = 0;
    h[20] &= 0x0F; // clear the top 4 bits of the sample rate's last nibble
    assert!(matches!(read_header(&h), Err(FlacError::CorruptStream(_))));
}

#[test]
fn skips_other_blocks_and_rejects_bad_chains() {
    // A padding block after a non-last STREAMINFO is skipped; frames start after it.
    let mut h = synthetic_header();
    h[4] = 0x00; // STREAMINFO no longer last
    h.extend_from_slice(&[0x81, 0x00, 0x00, 0x03, 0, 0, 0]); // last padding block, 3 bytes
    let parsed = read_header(&h).unwrap();
    assert_eq!(parsed.frame_start, h.len());

    // A second STREAMINFO is corrupt.
    let mut twice = synthetic_header();
    twice[4] = 0x00;
    let body = synthetic_header()[4..].to_vec();
    twice.extend_from_slice(&body);
    assert!(matches!(read_header(&twice), Err(FlacError::CorruptStream(_))));

    // A STREAMINFO whose length is not 34 is corrupt.
    let mut short = synthetic_header();
    short[7] = 0x21;
    assert!(matches!(read_header(&short), Err(FlacError::CorruptStream(_))));

    // Block type 127 is invalid.
    let mut bad = synthetic_header();
    bad[4] = 0x00;
    bad.extend_from_slice(&[0xFF, 0x00, 0x00, 0x00]);
    assert!(matches!(read_header(&bad), Err(FlacError::CorruptStream(_))));

    // A chain with no STREAMINFO at all is corrupt.
    let no_si = vec![b'f', b'L', b'a', b'C', 0x81, 0x00, 0x00, 0x00];
    assert!(matches!(read_header(&no_si), Err(FlacError::CorruptStream(_))));
}

//! The Ogg layer: capture pattern, mapping header, paging and demuxing.

use flac_io::crc::ogg_crc32;
use flac_io::ogg::{
    is_ogg, mapping_header_count, mux, to_native_flac, Packet, FLAC_MAPPING_TYPE, FLAG_BOS,
    MAPPING_PREFIX_LEN,
};
use flac_io::FlacError;

const OGG_MAGIC: &[u8; 4] = b"OggS";
const FLAC_MAPPING_SIG: &[u8; 4] = b"FLAC";
const FLAC_MARKER: &[u8; 4] = b"fLaC";

/// A valid-looking mapping header packet: the prefix, a header-packet count,
/// then `fLaC` and `body` standing in for STREAMINFO (the Ogg layer only
/// moves these bytes, it does not interpret them).
fn mapping_header(count: u16, body: &[u8]) -> Vec<u8> {
    let mut p = vec![FLAC_MAPPING_TYPE];
    p.extend_from_slice(FLAC_MAPPING_SIG);
    p.extend_from_slice(&[1, 0]);
    p.extend_from_slice(&count.to_be_bytes());
    p.extend_from_slice(FLAC_MARKER);
    p.extend_from_slice(body);
    p
}

/// Expected native rebuild: the mapping header minus its prefix, then every
/// following packet verbatim.
fn expected_native(packets: &[Packet]) -> Vec<u8> {
    let mut v = packets[0].data[MAPPING_PREFIX_LEN..].to_vec();
    for p in &packets[1..] {
        v.extend_from_slice(&p.data);
    }
    v
}

#[test]
fn is_ogg_detects_capture_pattern() {
    assert!(is_ogg(b"OggS....."));
    assert!(!is_ogg(b"fLaC"));
    assert!(!is_ogg(b"Og"));
}

#[test]
fn mux_then_demux_round_trips() {
    let packets = vec![
        Packet {
            data: mapping_header(0, &[0xAB; 38]),
            granule: 0,
        },
        Packet {
            data: vec![0x11; 100],
            granule: 100,
        },
        Packet {
            data: vec![0x22; 50],
            granule: 150,
        },
    ];
    let ogg = mux(&packets);
    assert!(is_ogg(&ogg));
    let native = to_native_flac(&ogg, false).unwrap();
    assert_eq!(native, expected_native(&packets));
}

#[test]
fn packet_spanning_multiple_pages_round_trips() {
    // A packet larger than one page (255 * 255 = 65025 bytes) must split
    // across pages on encode and reassemble on decode.
    let big: Vec<u8> = (0..70_000u32).map(|i| i as u8).collect();
    let packets = vec![
        Packet {
            data: mapping_header(0, &[0xCD; 38]),
            granule: 0,
        },
        Packet {
            data: big.clone(),
            granule: 1,
        },
    ];
    let ogg = mux(&packets);
    let native = to_native_flac(&ogg, false).unwrap();
    assert_eq!(native, expected_native(&packets));
    // The big packet must really have spanned more than one page.
    let pages = ogg.windows(4).filter(|w| w == OGG_MAGIC).count();
    assert!(pages >= 3, "expected the big packet to span pages, got {pages}");
}

#[test]
fn headers_only_stops_after_declared_header_packets() {
    // count = 1 means one header packet (the comment) follows the mapping
    // header; the audio packet after it must not be needed by `info`.
    let packets = vec![
        Packet {
            data: mapping_header(1, &[0x01; 38]),
            granule: 0,
        },
        Packet {
            data: vec![0x84, 0, 0, 1, 0x55],
            granule: 0,
        }, // pretend comment block
        Packet {
            data: vec![0xFF; 200],
            granule: 4096,
        }, // audio frame
    ];
    let ogg = mux(&packets);
    let headers = to_native_flac(&ogg, true).unwrap();
    // Only the mapping body + the one comment packet, not the audio frame.
    let mut want = packets[0].data[MAPPING_PREFIX_LEN..].to_vec();
    want.extend_from_slice(&packets[1].data);
    assert_eq!(headers, want);
}

#[test]
fn mapping_header_count_reads_field_and_validates() {
    assert_eq!(
        mapping_header_count(&mapping_header(2, &[0; 38])).unwrap(),
        2
    );
    // Wrong embedded signature is rejected.
    let mut bad = mapping_header(0, &[0; 38]);
    bad[9] = b'X'; // corrupt the `fLaC` marker
    assert!(mapping_header_count(&bad).is_err());
    // Too short is rejected, not panicked.
    assert!(mapping_header_count(&[0x7F, b'F']).is_err());
}

#[test]
fn truncated_and_corrupt_pages_error_without_panic() {
    let packets = vec![
        Packet {
            data: mapping_header(0, &[0xAB; 38]),
            granule: 0,
        },
        Packet {
            data: vec![0x11; 100],
            granule: 100,
        },
    ];
    let ogg = mux(&packets);
    // Every truncation must return an error, never panic.
    for cut in 0..ogg.len() {
        let _ = to_native_flac(&ogg[..cut], false);
    }
    // Flipping a body byte must trip the page checksum.
    let mut corrupt = ogg.clone();
    let last = corrupt.len() - 1;
    corrupt[last] ^= 0xFF;
    assert!(matches!(
        to_native_flac(&corrupt, false),
        Err(FlacError::CrcMismatch)
    ));
}

#[test]
fn non_flac_ogg_is_not_flac() {
    // A BOS page whose first packet is not the FLAC mapping header.
    let packets = vec![Packet {
        data: vec![0x01; 20],
        granule: 0,
    }];
    let ogg = mux(&packets);
    assert!(matches!(
        to_native_flac(&ogg, false),
        Err(FlacError::NotFlac)
    ));
}

/// Build one standalone page carrying a single packet, for crafting awkward
/// containers. `crc` overrides the checksum (to test that foreign pages are
/// skipped without checking theirs); `None` computes the correct one.
fn make_page(serial: u32, seq: u32, flags: u8, body: &[u8], crc: Option<u32>) -> Vec<u8> {
    let mut p = Vec::new();
    p.extend_from_slice(OGG_MAGIC);
    p.push(0);
    p.push(flags);
    p.extend_from_slice(&0i64.to_le_bytes());
    p.extend_from_slice(&serial.to_le_bytes());
    p.extend_from_slice(&seq.to_le_bytes());
    let crc_at = p.len();
    p.extend_from_slice(&[0u8; 4]);
    let mut segs = Vec::new();
    let mut rem = body.len();
    loop {
        let v = rem.min(255);
        rem -= v;
        segs.push(v as u8);
        if v < 255 {
            break;
        }
    }
    p.push(segs.len() as u8);
    p.extend_from_slice(&segs);
    p.extend_from_slice(body);
    let c = crc.unwrap_or_else(|| {
        let mut q = p.clone();
        q[crc_at..crc_at + 4].fill(0);
        ogg_crc32(&q)
    });
    p[crc_at..crc_at + 4].copy_from_slice(&c.to_le_bytes());
    p
}

#[test]
fn exact_multiple_of_255_packet_round_trips() {
    // A packet whose length is a multiple of 255 must end with a 0-valued
    // lacing segment, or the demuxer would read it as continuing.
    for len in [255usize, 510, 255 * 4] {
        let packets = vec![
            Packet {
                data: mapping_header(0, &[0x09; 38]),
                granule: 0,
            },
            Packet {
                data: vec![0x7E; len],
                granule: 1,
            },
        ];
        let ogg = mux(&packets);
        assert_eq!(
            to_native_flac(&ogg, false).unwrap(),
            expected_native(&packets),
            "len {len}"
        );
    }
}

#[test]
fn skips_foreign_multiplexed_stream_without_checking_its_crc() {
    // A non-FLAC logical stream comes first, with a deliberately wrong
    // checksum. The demuxer must skip it by serial and still decode the
    // FLAC stream that follows.
    let flac = vec![
        Packet {
            data: mapping_header(0, &[0x42; 38]),
            granule: 0,
        },
        Packet {
            data: vec![0xAA; 80],
            granule: 100,
        },
    ];
    let foreign = make_page(0x1234_5678, 0, FLAG_BOS, b"NotFLACheader", Some(0xDEAD_BEEF));
    let mut stream = foreign;
    stream.extend_from_slice(&mux(&flac));
    assert_eq!(
        to_native_flac(&stream, false).unwrap(),
        expected_native(&flac)
    );
}

#[test]
fn chained_streams_decode_the_first() {
    // Two FLAC logical streams concatenated; the demuxer stops at the first
    // stream's end-of-stream page.
    let first = vec![
        Packet {
            data: mapping_header(0, &[0x01; 38]),
            granule: 0,
        },
        Packet {
            data: vec![0x11; 40],
            granule: 10,
        },
    ];
    let second = vec![
        Packet {
            data: mapping_header(0, &[0x02; 38]),
            granule: 0,
        },
        Packet {
            data: vec![0x22; 40],
            granule: 10,
        },
    ];
    let mut stream = mux(&first);
    stream.extend_from_slice(&mux(&second));
    assert_eq!(
        to_native_flac(&stream, false).unwrap(),
        expected_native(&first)
    );
}

#[test]
fn rejects_unsupported_ogg_version() {
    let mut ogg = mux(&[Packet {
        data: mapping_header(0, &[0; 38]),
        granule: 0,
    }]);
    ogg[4] = 1; // structure version must be 0
    assert!(matches!(
        to_native_flac(&ogg, false),
        Err(FlacError::Unsupported(_))
    ));
}

#[test]
fn first_page_holds_only_the_mapping_header() {
    // The mapping header sits alone on a BOS page; the next page continues
    // the stream and the last one carries the end-of-stream flag.
    let packets = vec![
        Packet {
            data: mapping_header(0, &[0x33; 38]),
            granule: 0,
        },
        Packet {
            data: vec![0x44; 10],
            granule: 7,
        },
    ];
    let ogg = mux(&packets);
    let first_len = 27 + 1 + 51;
    assert_eq!(ogg[5], 0x02); // BOS only
    assert_eq!(ogg[26], 1); // one segment
    assert_eq!(ogg[27], 51);
    assert_eq!(&ogg[first_len..first_len + 4], OGG_MAGIC);
    assert_eq!(ogg[first_len + 5], 0x04); // EOS
    assert_eq!(&ogg[first_len + 6..first_len + 14], &7i64.to_le_bytes());
    assert_eq!(&ogg[first_len + 18..first_len + 22], &1u32.to_le_bytes()); // page sequence 1
    assert_eq!(ogg.len(), first_len + 27 + 1 + 10);
}

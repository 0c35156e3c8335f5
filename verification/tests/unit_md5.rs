//! MD5 against the RFC 1321 test vectors, and streaming against one-shot.

use flac_io::md5::{digest, Md5};

fn hex(bytes: &[u8; 16]) -> String {
    bytes.iter().map(|b| format!("{b:02x}")).collect()
}

#[test]
fn empty_string() {
    assert_eq!(hex(&digest(b"")), "d41d8cd98f00b204e9800998ecf8427e");
}

#[test]
fn abc() {
    assert_eq!(hex(&digest(b"abc")), "900150983cd24fb0d6963f7d28e17f72");
}

#[test]
fn quick_brown_fox() {
    assert_eq!(
        hex(&digest(b"The quick brown fox jumps over the lazy dog")),
        "9e107d9d372bb6826bd81d3542a419d6"
    );
}

#[test]
fn long_input_spanning_blocks() {
    // 1000 'a' bytes: exercises the multi-block path and the length field.
    let data = vec![b'a'; 1000];
    assert_eq!(hex(&digest(&data)), "cabe45dcc9ae5b66ba86600cca6b8ba8");
}

#[test]
fn streaming_matches_one_shot() {
    let data = vec![0x5Au8; 130];
    let mut h = Md5::new();
    h.update(&data[..7]);
    h.update(&data[7..64]);
    h.update(&data[64..]);
    assert_eq!(h.finalize(), digest(&data));
}

#[test]
fn padding_boundaries() {
    // 55 bytes fit the length field in the same block; 56 and 64 do not.
    assert_eq!(
        hex(&digest(b"12345678901234567890123456789012345678901234567890123456789012345678901234567890")),
        "57edf4a22be3c955ac49da2e2107b67a"
    );
    let mut h = Md5::new();
    h.update(&[]);
    assert_eq!(hex(&h.finalize()), "d41d8cd98f00b204e9800998ecf8427e");
}

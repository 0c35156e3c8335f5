//! Input that is not FLAC at all is refused.

#[test]
fn not_flac_rejected() {
    assert!(flac_io::decode(b"not a flac file at all").is_err());
}

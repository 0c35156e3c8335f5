//! Every error variant has a message, and the detail strings are carried.

use flac_io::FlacError;

#[test]
fn every_variant_displays_a_message() {
    let variants = [
        FlacError::NotFlac,
        FlacError::Truncated,
        FlacError::CorruptStream("why".into()),
        FlacError::Unsupported("what".into()),
        FlacError::CrcMismatch,
        FlacError::LimitExceeded("cap".into()),
        FlacError::InvalidInput("why".into()),
    ];
    for v in &variants {
        let s = v.message();
        assert!(!s.is_empty());
        // The detail string is carried through for the parameterised ones.
        let _ = format!("{v:?}");
    }
    assert!(FlacError::CorruptStream("partition".into())
        .message()
        .contains("partition"));
}

#[test]
fn messages_name_the_failure_class() {
    assert_eq!(
        FlacError::NotFlac.message(),
        "input is not a FLAC stream (missing fLaC marker)"
    );
    assert_eq!(FlacError::Truncated.message(), "FLAC stream ended unexpectedly");
    assert_eq!(
        FlacError::InvalidInput("x".into()).message(),
        "invalid input to the FLAC encoder: x"
    );
    assert_eq!(
        FlacError::LimitExceeded("y".into()).message(),
        "FLAC stream exceeds a decoder safety limit: y"
    );
}

use edifact_rs::{from_bytes, EdifactError};

#[test]
fn from_bytes_rejects_invalid_una() {
    let err = from_bytes(b"UNA::.? 'BGM:220'").collect_segments().expect_err("invalid UNA should fail slice parsing");
    assert!(matches!(err, EdifactError::InvalidUna));
}

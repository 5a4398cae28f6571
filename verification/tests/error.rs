use fefits::error::{Error, IoError, IoErrorKind};

#[test]
fn error_messages() {
    assert_eq!(Error::HduNotFound(42).message(), "HDU index 42 not found");
    assert_eq!(
        Error::ChecksumMismatch { expected: 7, actual: 1234567 }.message(),
        "Checksum Mismatch: expected 7, got 1234567"
    );
    assert_eq!(Error::MissingKeyword("NAXIS").message(), "Missing required keyword: NAXIS");
    assert_eq!(
        Error::InvalidKeywordValue { keyword: "BITPIX", value: "7".into(), reason: "bad" }.message(),
        "Keyword BITPIX has invalid value: 7: bad"
    );
    assert_eq!(
        Error::Io(IoError { kind: IoErrorKind::UnexpectedEof }).message(),
        "I/O error: unexpected end of file"
    );
}

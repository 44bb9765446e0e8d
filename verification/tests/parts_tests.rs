use mailparse::{find_from, find_from_u8, MailHeader, MailParseError};

#[test]
fn find_from_locates_first_occurrence() {
    assert_eq!(find_from("abcabc", 0, "bc"), Some(1));
    assert_eq!(find_from("abcabc", 2, "bc"), Some(4));
    assert_eq!(find_from("abcabc", 5, "bc"), None);
    assert_eq!(find_from("abc", 0, "zz"), None);
}

#[test]
fn find_from_u8_locates_first_occurrence() {
    assert_eq!(find_from_u8(b"abcabc", 0, b"bc"), Some(1));
    assert_eq!(find_from_u8(b"abcabc", 2, b"bc"), Some(4));
    assert_eq!(find_from_u8(b"abcabc", 5, b"c"), Some(5));
}

#[test]
fn mail_header_returns_raw_bytes() {
    let header = MailHeader::new(b"Subject", b"=?UTF-8?B?abc");
    assert_eq!(header.get_key_raw(), b"Subject");
    assert_eq!(header.get_value_raw(), b"=?UTF-8?B?abc".as_slice());
}

#[test]
fn quoted_printable_error_converts() {
    let err = MailParseError::from(quoted_printable::QuotedPrintableError::InvalidByte);
    assert!(matches!(err, MailParseError::QuotedPrintableDecodeError(_)));
}

#[test]
fn base64_error_converts() {
    let inner = data_encoding::DecodeError {
        position: 0,
        kind: data_encoding::DecodeKind::Length,
    };
    let err = MailParseError::from(inner);
    assert!(matches!(err, MailParseError::Base64DecodeError(_)));
}

#[test]
fn encoding_error_converts() {
    let err = MailParseError::from("bad text".to_string());
    assert!(matches!(err, MailParseError::EncodingError(s) if s == "bad text"));
}

#[test]
fn generic_error_carries_description() {
    let err = MailParseError::Generic("bad input");
    assert!(matches!(err, MailParseError::Generic(s) if s == "bad input"));
}

use wasm_types::{BoundedString, CodecError, Message};

#[test]
fn decode_empty_is_truncated() {
    assert_eq!(BoundedString::decode_all(&[]).unwrap_err(), CodecError::Truncated);
}

#[test]
fn decode_short_payload_is_truncated() {
    assert_eq!(BoundedString::decode_all(&[5, b'a', b'b']).unwrap_err(), CodecError::Truncated);
}

#[test]
fn decode_oversized_length_is_rejected() {
    assert_eq!(
        BoundedString::decode_all(&[200]).unwrap_err(),
        CodecError::LengthExceedsCapacity
    );
}

#[test]
fn decode_invalid_utf8_is_rejected() {
    assert_eq!(BoundedString::decode_all(&[2, 0xff, 0xfe]).unwrap_err(), CodecError::InvalidUtf8);
}

#[test]
fn decode_truncated_multibyte_char_is_rejected() {
    // a 3-byte sequence cut short is never exposed as text
    assert_eq!(
        BoundedString::decode_all(&[2, 0xe2, 0x9d]).unwrap_err(),
        CodecError::InvalidUtf8
    );
}

#[test]
fn decode_trailing_bytes_are_rejected() {
    assert_eq!(BoundedString::decode_all(&[1, b'a', b'b']).unwrap_err(), CodecError::TrailingData);
}

#[test]
fn message_empty_is_truncated() {
    assert_eq!(Message::decode_all(&[]).unwrap_err(), CodecError::Truncated);
}

#[test]
fn message_unknown_discriminant_is_rejected() {
    assert_eq!(Message::decode_all(&[2, 1, b'a']).unwrap_err(), CodecError::UnknownDiscriminant);
}

#[test]
fn message_discriminant_error_takes_priority() {
    // the tag is read first, so a bad tag wins over a bad payload
    assert_eq!(Message::decode_all(&[9, 1, 0xff]).unwrap_err(), CodecError::UnknownDiscriminant);
}

#[test]
fn encode_is_length_prefixed() {
    let s = BoundedString::from_str("abc");
    assert_eq!(s.encode(), vec![3, b'a', b'b', b'c']);
    let empty = BoundedString::new();
    assert_eq!(empty.encode(), vec![0]);
}

#[test]
fn from_str_checked_rejects_long_input() {
    let long = "a".repeat(128);
    assert!(BoundedString::from_str_checked(&long).is_none());
    assert!(BoundedString::try_from_str(&long).is_none());
    let fits = "a".repeat(127);
    assert_eq!(BoundedString::from_str_checked(&fits).unwrap().len(), 127);
}

#[test]
fn string_round_trip() {
    let s = BoundedString::from_str("héllo ✓");
    let encoded = s.encode();
    let decoded = BoundedString::decode_all(&encoded).unwrap();
    assert_eq!(decoded, s);
    assert_eq!(decoded.as_str(), "héllo ✓");
}

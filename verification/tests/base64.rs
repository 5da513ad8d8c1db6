use base64_codec::DecodeError;
use base64_codec::base64_decode;
use base64_codec::base64_decode_url_safe;
use base64_codec::base64_encode;
use base64_codec::base64_encode_url_safe;

#[test]
fn test_base64_encode() {
    let data = b"Hello, Ethereum!";
    let encoded = base64_encode(data);
    assert_eq!(encoded, "SGVsbG8sIEV0aGVyZXVtIQ==");
}

#[test]
fn test_base64_decode() {
    let encoded = "SGVsbG8sIEV0aGVyZXVtIQ==";
    let decoded = base64_decode(encoded).expect("Failed to decode");
    assert_eq!(decoded, b"Hello, Ethereum!");
}

#[test]
fn test_base64_encode_url_safe() {
    let data = b"Hello, Ethereum!";
    let encoded = base64_encode_url_safe(data);
    assert_eq!(encoded, "SGVsbG8sIEV0aGVyZXVtIQ==");
}

#[test]
fn test_base64_decode_url_safe() {
    let encoded = "SGVsbG8sIEV0aGVyZXVtIQ==";
    let decoded = base64_decode_url_safe(encoded).expect("Failed to decode");
    assert_eq!(decoded, b"Hello, Ethereum!");
}

#[test]
fn test_invalid_base64_input() {
    let invalid_data = "InvalidBase64";
    let result = base64_decode(invalid_data);
    assert!(result.is_err(), "Expected error on invalid Base64 input");
}

#[test]
fn test_empty_input() {
    assert_eq!(base64_encode(&[]), "");
    assert_eq!(base64_encode_url_safe(&[]), "");
    assert_eq!(base64_decode("").expect("empty text decodes"), Vec::<u8>::new());
    assert_eq!(base64_decode_url_safe("").expect("empty text decodes"), Vec::<u8>::new());
}

#[test]
fn test_padding_one_byte() {
    let encoded = base64_encode(&[0xFF]);
    assert_eq!(encoded, "/w==");
    assert_eq!(base64_decode("/w==").expect("decodes"), vec![0xFF]);
}

#[test]
fn test_padding_two_bytes() {
    let encoded = base64_encode(&[0xFF, 0xFF]);
    assert_eq!(encoded, "//8=");
    assert_eq!(base64_decode("//8=").expect("decodes"), vec![0xFF, 0xFF]);
}

#[test]
fn test_padding_three_bytes() {
    let encoded = base64_encode(&[0xFF, 0xFF, 0xFF]);
    assert_eq!(encoded, "////");
    assert_eq!(base64_decode("////").expect("decodes"), vec![0xFF, 0xFF, 0xFF]);
}

#[test]
fn test_encoded_length_law() {
    for n in 0..32usize {
        let data = vec![0xABu8; n];
        let encoded = base64_encode(&data);
        let expected = if n == 0 { 0 } else { 4 * ((n + 2) / 3) };
        assert_eq!(encoded.len(), expected);
    }
}

#[test]
fn test_url_safe_alphabet_symbols() {
    assert_eq!(base64_encode_url_safe(&[0xFF, 0xFF, 0xFF]), "____");
    assert_eq!(base64_encode_url_safe(&[0xFB, 0xEF, 0xBE]), "----");
    assert_eq!(base64_encode(&[0xFB, 0xEF, 0xBE]), "++++");
}

#[test]
fn test_alphabet_exclusivity() {
    assert_eq!(base64_decode_url_safe("////"), Err(DecodeError::InvalidCharacter));
    assert_eq!(base64_decode_url_safe("++++"), Err(DecodeError::InvalidCharacter));
    assert_eq!(base64_decode("____"), Err(DecodeError::InvalidCharacter));
    assert_eq!(base64_decode("----"), Err(DecodeError::InvalidCharacter));
    assert_eq!(base64_decode_url_safe("____").expect("decodes"), vec![0xFF, 0xFF, 0xFF]);
    assert_eq!(base64_decode("++++").expect("decodes"), vec![0xFB, 0xEF, 0xBE]);
}

#[test]
fn test_round_trip_all_byte_values() {
    let mut data = Vec::new();
    for b in 0..=255u8 {
        data.push(b);
    }
    let encoded = base64_encode(&data);
    assert_eq!(base64_decode(&encoded).expect("round trip"), data);
    let encoded_url = base64_encode_url_safe(&data);
    assert_eq!(base64_decode_url_safe(&encoded_url).expect("round trip"), data);
}

#[test]
fn test_invalid_character_error() {
    assert_eq!(base64_decode("SGV$"), Err(DecodeError::InvalidCharacter));
    assert_eq!(base64_decode("SGV\u{20AC}"), Err(DecodeError::InvalidCharacter));
}

#[test]
fn test_invalid_length_error() {
    assert_eq!(base64_decode("SGVsbG8"), Err(DecodeError::InvalidLength));
    // Unpadded Base64 is rejected: only the canonical padded form decodes.
    assert_eq!(base64_decode("SGVsbG8sIEV0aGVyZXVtIQ"), Err(DecodeError::InvalidLength));
    assert_eq!(base64_decode("SGVsbG8sIEV0aGVyZXVtIQ==").expect("padded form decodes").len(), 16);
}

#[test]
fn test_invalid_padding_error() {
    assert_eq!(base64_decode("A==="), Err(DecodeError::InvalidPadding));
    assert_eq!(base64_decode("AB=A"), Err(DecodeError::InvalidPadding));
    assert_eq!(base64_decode("AB==CDEF"), Err(DecodeError::InvalidPadding));
    assert_eq!(base64_decode("===="), Err(DecodeError::InvalidPadding));
}

#[test]
fn test_non_canonical_trailing_bits() {
    // The final data symbol must leave its discarded bits zero: "AB==" would
    // decode to the same byte as "AA==", but only the latter is an encoding.
    assert_eq!(base64_decode("AB=="), Err(DecodeError::InvalidPadding));
    assert_eq!(base64_decode("AAB="), Err(DecodeError::InvalidPadding));
    assert_eq!(base64_decode("/x=="), Err(DecodeError::InvalidPadding));
    assert_eq!(base64_decode_url_safe("AB=="), Err(DecodeError::InvalidPadding));
    assert_eq!(base64_decode_url_safe("AAB="), Err(DecodeError::InvalidPadding));
    assert_eq!(base64_decode("AA==").expect("canonical form decodes"), vec![0x00]);
    assert_eq!(base64_decode("AAA=").expect("canonical form decodes"), vec![0x00, 0x00]);
}

#[test]
fn test_error_messages() {
    let character = base64_decode("SGV$").unwrap_err();
    assert_eq!(character.message(), "invalid character: not in the active alphabet");
    let length = base64_decode("SGV").unwrap_err();
    assert_eq!(length.message(), "invalid length: not a multiple of four");
    let padding = base64_decode("A===").unwrap_err();
    assert_eq!(padding.message(), "invalid padding: misplaced, overlong, or non-zero unused bits");
}

//! Tests for the base32 codec: the fixed alphabet, the concrete vectors of
//! the governing specification, and the rejection of bytes outside the
//! alphabet.

use typeid_suffix::encoding::{decode_base32, encode_base32};
use typeid_suffix::{DecodeError, InvalidSuffixReason};

#[test]
fn test_encode_zero_bytes() {
    let encoded = encode_base32(&[0u8; 16]);
    assert_eq!(&encoded, b"00000000000000000000000000");
}

#[test]
fn test_encode_all_ones() {
    let encoded = encode_base32(&[0xffu8; 16]);
    assert_eq!(&encoded, b"7zzzzzzzzzzzzzzzzzzzzzzzzz");
}

#[test]
fn test_encode_sixteen() {
    let mut bytes = [0u8; 16];
    bytes[15] = 0x10;
    let encoded = encode_base32(&bytes);
    assert_eq!(&encoded, b"0000000000000000000000000g");
}

#[test]
fn test_encode_spec_vector() {
    let bytes: [u8; 16] = [
        0x01, 0x89, 0x0a, 0x5d, 0xac, 0x96, 0x77, 0x4b, 0xbc, 0xce, 0xb3, 0x02, 0x09, 0x9a, 0x80,
        0x57,
    ];
    let encoded = encode_base32(&bytes);
    assert_eq!(&encoded, b"01h455vb4pex5vsknk084sn02q");
}

#[test]
fn test_decode_zero_suffix() {
    let decoded = decode_base32(b"00000000000000000000000000").unwrap();
    assert_eq!(decoded, [0u8; 16]);
}

#[test]
fn test_decode_max_suffix() {
    let decoded = decode_base32(b"7zzzzzzzzzzzzzzzzzzzzzzzzz").unwrap();
    assert_eq!(decoded, [0xffu8; 16]);
}

#[test]
fn test_decode_rejects_excluded_letters() {
    // The alphabet excludes 'i', 'l', 'o', and 'u' to avoid visual
    // ambiguity; each must fail even though it is ASCII.
    for &c in &[b'i', b'l', b'o', b'u'] {
        let mut encoded = *b"00000000000000000000000000";
        encoded[10] = c;
        let result = decode_base32(&encoded);
        assert_eq!(
            result,
            Err(DecodeError::InvalidSuffix(InvalidSuffixReason::InvalidCharacter))
        );
    }
}

#[test]
fn test_decode_rejects_uppercase() {
    let result = decode_base32(b"0A000000000000000000000000");
    assert_eq!(
        result,
        Err(DecodeError::InvalidSuffix(InvalidSuffixReason::InvalidCharacter))
    );
}

#[test]
fn test_decode_rejects_ascii_outside_alphabet() {
    let result = decode_base32(b"00000000!0000000000000000~");
    assert_eq!(
        result,
        Err(DecodeError::InvalidSuffix(InvalidSuffixReason::InvalidCharacter))
    );
}

#[test]
fn test_codec_roundtrip_bytes() {
    let bytes: [u8; 16] = [
        0xde, 0xad, 0xbe, 0xef, 0x01, 0x23, 0x45, 0x67, 0x89, 0xab, 0xcd, 0xef, 0xfe, 0xdc, 0xba,
        0x98,
    ];
    let encoded = encode_base32(&bytes);
    let decoded = decode_base32(&encoded).unwrap();
    assert_eq!(decoded, bytes);
}

#[test]
fn test_codec_roundtrip_string() {
    let encoded = *b"0123456789abcdefghjkmnpqrs";
    let decoded = decode_base32(&encoded).unwrap();
    let reencoded = encode_base32(&decoded);
    assert_eq!(reencoded, encoded);
}

#[test]
fn test_decode_truncates_oversized_first_digit() {
    // At the codec level an oversized first digit is not rejected: the top
    // two bits fall out of the 128-bit value. The parser rejects such
    // strings before this stage.
    let decoded = decode_base32(b"zzzzzzzzzzzzzzzzzzzzzzzzzz").unwrap();
    assert_eq!(decoded, [0xffu8; 16]);
}

//! Tests for the suffix value type: construction, parsing, the error
//! taxonomy, string views, and the hybrid ordering.

use std::cmp::Ordering;

use typeid_suffix::{
    DecodeError, InvalidSuffixReason, InvalidUuidReason, TypeIdSuffix, UuidBytes, UuidOther,
    UuidV7, UuidVariant, UuidVersion,
};

/// 16 bytes with the version nibble and RFC 4122 variant bits set, in the
/// way a generator for that version would lay them out.
fn uuid_with_version(version: u8, fill: u8) -> UuidBytes {
    let mut bytes = [fill; 16];
    bytes[6] = (bytes[6] & 0x0f) | (version << 4);
    bytes[8] = (bytes[8] & 0x3f) | 0x80;
    UuidBytes::from_bytes(bytes)
}

#[test]
fn test_typeid_suffix_default() {
    let suffix = TypeIdSuffix::default();
    let uuid = suffix.to_uuid();
    assert_eq!(uuid.version_num(), 7);
}

#[test]
fn test_typeid_suffix_explicit_version() {
    let _suffix = TypeIdSuffix::from_uuid(&uuid_with_version(4, 0x5a)).unwrap();
}

#[test]
fn test_encode_decode_roundtrip_v7() {
    let uuid = TypeIdSuffix::default();
    let uuid_to_uuid = uuid.to_uuid();
    let decoded: TypeIdSuffix = TypeIdSuffix::from_uuid(&uuid_to_uuid).unwrap();
    assert_eq!(uuid, decoded);
}

#[test]
fn test_encode_decode_roundtrip_other() {
    let suffix = TypeIdSuffix::from_uuid(&uuid_with_version(5, 0x3c)).unwrap();
    let suffix_to_uuid = suffix.to_uuid();
    let decoded: TypeIdSuffix = TypeIdSuffix::from_uuid(&suffix_to_uuid).unwrap();
    assert_eq!(suffix, decoded);
}

#[test]
fn test_other_uuid_versions() {
    let uuid_v1 = uuid_with_version(1, 0x11);
    let uuid_v4 = uuid_with_version(4, 0x44);
    let uuid_v5 = uuid_with_version(5, 0x55);

    let v1_typeid_suffix = TypeIdSuffix::from_uuid(&uuid_v1).unwrap();
    let v4_typeid_suffix = TypeIdSuffix::from_uuid(&uuid_v4).unwrap();
    let v5_typeid_suffix = TypeIdSuffix::from_uuid(&uuid_v5).unwrap();

    assert_eq!(uuid_v1.as_bytes(), v1_typeid_suffix.to_uuid().as_bytes());
    assert_eq!(uuid_v4.as_bytes(), v4_typeid_suffix.to_uuid().as_bytes());
    assert_eq!(uuid_v5.as_bytes(), v5_typeid_suffix.to_uuid().as_bytes());
}

#[test]
fn test_invalid_first_character() {
    let invalid_suffix = "80000000000000000000000000";
    assert!(TypeIdSuffix::from_str(invalid_suffix).is_err());
}

#[test]
fn test_first_character_error_reason() {
    let result = TypeIdSuffix::from_str("80000000000000000000000000");
    assert_eq!(
        result,
        Err(DecodeError::InvalidSuffix(InvalidSuffixReason::InvalidFirstCharacter))
    );
    // '8' and '9' are alphabet digits, but stand for values above 7.
    let result = TypeIdSuffix::from_str("9zzzzzzzzzzzzzzzzzzzzzzzzz");
    assert_eq!(
        result,
        Err(DecodeError::InvalidSuffix(InvalidSuffixReason::InvalidFirstCharacter))
    );
}

#[test]
fn test_invalid_length_error() {
    assert_eq!(
        TypeIdSuffix::from_str("abc"),
        Err(DecodeError::InvalidSuffix(InvalidSuffixReason::InvalidLength))
    );
    assert_eq!(
        TypeIdSuffix::from_str("000000000000000000000000000"),
        Err(DecodeError::InvalidSuffix(InvalidSuffixReason::InvalidLength))
    );
    assert_eq!(
        TypeIdSuffix::from_str(""),
        Err(DecodeError::InvalidSuffix(InvalidSuffixReason::InvalidLength))
    );
}

#[test]
fn test_non_ascii_error() {
    // 24 ASCII bytes followed by a two-byte character: 26 bytes in all.
    let input = "000000000000000000000000é";
    assert_eq!(input.len(), 26);
    assert_eq!(
        TypeIdSuffix::from_str(input),
        Err(DecodeError::InvalidSuffix(InvalidSuffixReason::NonAsciiCharacter))
    );
}

#[test]
fn test_invalid_character_error() {
    assert_eq!(
        TypeIdSuffix::from_str("0u000000000000000000000000"),
        Err(DecodeError::InvalidSuffix(InvalidSuffixReason::InvalidCharacter))
    );
    assert_eq!(
        TypeIdSuffix::from_str("00000000000000000000000-00"),
        Err(DecodeError::InvalidSuffix(InvalidSuffixReason::InvalidCharacter))
    );
}

#[test]
fn test_parse_spec_vectors() {
    let nil = TypeIdSuffix::from_str("00000000000000000000000000").unwrap();
    assert_eq!(nil.to_uuid().as_bytes(), &[0u8; 16]);

    let max = TypeIdSuffix::from_str("7zzzzzzzzzzzzzzzzzzzzzzzzz").unwrap();
    assert_eq!(max.to_uuid().as_bytes(), &[0xffu8; 16]);

    let mut sixteen_bytes = [0u8; 16];
    sixteen_bytes[15] = 0x10;
    let sixteen = TypeIdSuffix::from_str("0000000000000000000000000g").unwrap();
    assert_eq!(sixteen.to_uuid().as_bytes(), &sixteen_bytes);

    let v7_bytes: [u8; 16] = [
        0x01, 0x89, 0x0a, 0x5d, 0xac, 0x96, 0x77, 0x4b, 0xbc, 0xce, 0xb3, 0x02, 0x09, 0x9a, 0x80,
        0x57,
    ];
    let v7 = TypeIdSuffix::from_str("01h455vb4pex5vsknk084sn02q").unwrap();
    assert_eq!(v7.to_uuid().as_bytes(), &v7_bytes);
    let encoded = TypeIdSuffix::from_uuid(&UuidBytes::from_bytes(v7_bytes)).unwrap();
    assert_eq!(encoded, v7);
}

#[test]
fn test_as_str_roundtrip() {
    let suffix = TypeIdSuffix::from_str("01h455vb4pex5vsknk084sn02q").unwrap();
    assert_eq!(suffix.as_str(), "01h455vb4pex5vsknk084sn02q");
    assert_eq!(suffix.as_str().len(), 26);
    let reparsed = TypeIdSuffix::from_str(suffix.as_str()).unwrap();
    assert_eq!(reparsed, suffix);
}

#[test]
fn test_construct_length_invariant() {
    let from_fresh = TypeIdSuffix::new();
    assert_eq!(from_fresh.as_str().len(), 26);
    let from_uuid = TypeIdSuffix::from_uuid(&uuid_with_version(4, 0x00)).unwrap();
    assert_eq!(from_uuid.as_str().len(), 26);
}

#[test]
fn test_ordering_sortable_uuids() {
    // Two version 7 UUIDs whose numeric order is their timestamp order.
    let earlier = TypeIdSuffix::from_uuid(&uuid_with_version(7, 0x10)).unwrap();
    let later = TypeIdSuffix::from_uuid(&uuid_with_version(7, 0x20)).unwrap();
    assert_eq!(earlier.cmp(&later), Ordering::Less);
    assert_eq!(later.cmp(&earlier), Ordering::Greater);
    assert_eq!(earlier.cmp(&earlier), Ordering::Equal);
    assert!(earlier < later);
}

#[test]
fn test_ordering_matches_string_order() {
    // Non-time-ordered UUIDs fall back to lexicographic byte order of the
    // encoded form.
    let a = TypeIdSuffix::from_uuid(&uuid_with_version(4, 0x01)).unwrap();
    let b = TypeIdSuffix::from_uuid(&uuid_with_version(4, 0xfe)).unwrap();
    let expected = a.as_str().cmp(b.as_str());
    assert_eq!(a.cmp(&b), expected);
    assert_eq!(a.cmp(&a), Ordering::Equal);
}

#[test]
fn test_mixed_ordering_total() {
    let sortable = TypeIdSuffix::from_uuid(&uuid_with_version(7, 0x33)).unwrap();
    let plain = TypeIdSuffix::from_uuid(&uuid_with_version(4, 0x33)).unwrap();
    let forward = sortable.cmp(&plain);
    let backward = plain.cmp(&sortable);
    assert_eq!(forward, backward.reverse());
}

#[test]
fn test_uuid_version_markers() {
    let v7 = uuid_with_version(7, 0x42);
    let v4 = uuid_with_version(4, 0x42);
    assert!(UuidV7::validate(&v7));
    assert!(!UuidV7::validate(&v4));
    assert!(UuidOther::validate(&v7));
    assert!(UuidOther::validate(&v4));
}

#[test]
fn test_uuid_variant_classification() {
    let mut bytes = [0u8; 16];
    bytes[8] = 0x00;
    assert_eq!(UuidBytes::from_bytes(bytes).variant(), UuidVariant::Ncs);
    bytes[8] = 0x80;
    assert_eq!(UuidBytes::from_bytes(bytes).variant(), UuidVariant::Rfc4122);
    bytes[8] = 0xc0;
    assert_eq!(UuidBytes::from_bytes(bytes).variant(), UuidVariant::Microsoft);
    bytes[8] = 0xe0;
    assert_eq!(UuidBytes::from_bytes(bytes).variant(), UuidVariant::Future);
}

#[test]
fn test_version_recognition() {
    let nil = UuidBytes::from_bytes([0u8; 16]);
    assert!(nil.version_recognized());
    let max = UuidBytes::from_bytes([0xffu8; 16]);
    assert!(max.version_recognized());
    // Version 0 without all-zero bytes is not the nil UUID.
    let mut bytes = [0u8; 16];
    bytes[0] = 1;
    assert!(!UuidBytes::from_bytes(bytes).version_recognized());
    // Versions 9 through 14 are unrecognized.
    let mut v9 = [0u8; 16];
    v9[6] = 0x90;
    assert!(!UuidBytes::from_bytes(v9).version_recognized());
}

#[test]
fn test_unrecognized_version_still_acceptable() {
    // The acceptability predicate is a permissive OR: the variant whitelist
    // covers every variant pattern, so even an unrecognized version tag is
    // accepted.
    let mut bytes = [0u8; 16];
    bytes[6] = 0x90;
    let suffix = TypeIdSuffix::from_uuid(&UuidBytes::from_bytes(bytes)).unwrap();
    assert_eq!(suffix.to_uuid().as_bytes(), &bytes);
}

#[test]
fn test_error_messages() {
    assert_eq!(
        DecodeError::InvalidSuffix(InvalidSuffixReason::InvalidLength).message(),
        "Invalid `TypeId`suffix: Suffix must be exactly 26 characters long"
    );
    assert_eq!(
        DecodeError::InvalidUuid(InvalidUuidReason::InvalidVersion).message(),
        "Invalid UUID: UUID version is not valid for this `TypeId`"
    );
    assert_eq!(
        InvalidSuffixReason::NonAsciiCharacter.message(),
        "Suffix contains non-ASCII characters"
    );
    assert_eq!(
        InvalidSuffixReason::InvalidFirstCharacter.message(),
        "First character of suffix must be '7' or less"
    );
    assert_eq!(
        InvalidSuffixReason::InvalidCharacter.message(),
        "Suffix contains characters not in the base32 alphabet"
    );
    assert_eq!(InvalidUuidReason::InvalidVariant.message(), "UUID variant is not RFC4122");
    assert_eq!(InvalidUuidReason::InvalidBytes.message(), "UUID bytes are invalid");
}

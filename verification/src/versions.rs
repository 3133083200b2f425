//! Version markers: per-version validation policies for UUIDs.
//!
//! A marker type stands for one policy; the suffix type itself applies the
//! broader acceptability predicate, so these markers are for callers that
//! want to hold a UUID to a stricter, version-specific rule.

use vstd::prelude::*;

use crate::uuid_bytes::{spec_variant, spec_version_num, UuidBytes, UuidVariant};

verus! {

/// A UUID validation policy for one version family.
pub trait UuidVersion {
    /// The set of UUIDs this policy accepts.
    spec fn spec_valid(u: Seq<u8>) -> bool;

    /// Whether the UUID satisfies this policy.
    fn validate(uuid: &UuidBytes) -> (r: bool)
        ensures
            r == Self::spec_valid(uuid@),
    ;
}

/// Marker for version 7 (time-ordered random) UUIDs.
#[derive(Debug, Clone, Eq, PartialEq)]
pub struct UuidV7;

/// Marker for UUID versions other than 7.
///
/// This policy accepts every UUID: the governing specification is not
/// strict enough about non-version-7 UUIDs to allow more, so the decoding
/// checks elsewhere carry the real validation.
#[derive(Debug, Clone, Eq, PartialEq)]
pub struct UuidOther;

impl UuidVersion for UuidV7 {
    /// Version 7 with the RFC 4122 variant bits.
    open spec fn spec_valid(u: Seq<u8>) -> bool {
        spec_version_num(u) == 7 && spec_variant(u) is Rfc4122
    }

    fn validate(uuid: &UuidBytes) -> (r: bool) {
        if uuid.version_num() != 7 {
            return false;
        }
        if !matches!(uuid.variant(), UuidVariant::Rfc4122) {
            return false;
        }
        true
    }
}

impl UuidVersion for UuidOther {
    /// Any UUID at all.
    open spec fn spec_valid(u: Seq<u8>) -> bool {
        true
    }

    fn validate(_uuid: &UuidBytes) -> (r: bool) {
        true
    }
}

} // verus!

//! Error types for suffix operations.
//!
//! Two top-level kinds: a fault in the suffix text itself, or a fault in the
//! UUID it stands for. Each carries a more specific reason and no other
//! state; the errors are terminal and descriptive, not retryable.

use vstd::prelude::*;
use vstd::string::StringExecFns;

verus! {

/// Why a candidate suffix string was rejected.
#[derive(Debug, Clone, PartialEq, Eq)]
pub enum InvalidSuffixReason {
    /// The input is not exactly 26 bytes long.
    InvalidLength,
    /// The input holds a byte outside the ASCII range.
    NonAsciiCharacter,
    /// The first character's alphabet value is greater than 7.
    InvalidFirstCharacter,
    /// The input holds a character that is not in the base32 alphabet.
    InvalidCharacter,
}

/// Why a decoded UUID was rejected.
#[derive(Debug, Clone, PartialEq, Eq)]
pub enum InvalidUuidReason {
    /// The UUID fails the acceptability predicate.
    InvalidVersion,
    /// Reserved for stricter future validation of the variant bits.
    InvalidVariant,
    /// Reserved for byte-level structural UUID faults.
    InvalidBytes,
}

/// An error from a fallible suffix operation.
#[derive(Debug, Clone, PartialEq, Eq)]
pub enum DecodeError {
    /// The suffix text is invalid.
    InvalidSuffix(InvalidSuffixReason),
    /// The UUID the suffix stands for is invalid.
    InvalidUuid(InvalidUuidReason),
}

impl InvalidSuffixReason {
    /// The human-readable description of this reason.
    pub open spec fn message_spec(self) -> Seq<char> {
        match self {
            InvalidSuffixReason::InvalidLength => "Suffix must be exactly 26 characters long"@,
            InvalidSuffixReason::NonAsciiCharacter => "Suffix contains non-ASCII characters"@,
            InvalidSuffixReason::InvalidFirstCharacter => "First character of suffix must be '7' or less"@,
            InvalidSuffixReason::InvalidCharacter => "Suffix contains characters not in the base32 alphabet"@,
        }
    }

    /// A human-readable description of this reason.
    pub fn message(&self) -> (r: String)
        ensures
            r@ == self.message_spec(),
    {
        match self {
            InvalidSuffixReason::InvalidLength => String::from_str(
                "Suffix must be exactly 26 characters long",
            ),
            InvalidSuffixReason::NonAsciiCharacter => String::from_str(
                "Suffix contains non-ASCII characters",
            ),
            InvalidSuffixReason::InvalidFirstCharacter => String::from_str(
                "First character of suffix must be '7' or less",
            ),
            InvalidSuffixReason::InvalidCharacter => String::from_str(
                "Suffix contains characters not in the base32 alphabet",
            ),
        }
    }
}

impl InvalidUuidReason {
    /// The human-readable description of this reason.
    pub open spec fn message_spec(self) -> Seq<char> {
        match self {
            InvalidUuidReason::InvalidVersion => "UUID version is not valid for this `TypeId`"@,
            InvalidUuidReason::InvalidVariant => "UUID variant is not RFC4122"@,
            InvalidUuidReason::InvalidBytes => "UUID bytes are invalid"@,
        }
    }

    /// A human-readable description of this reason.
    pub fn message(&self) -> (r: String)
        ensures
            r@ == self.message_spec(),
    {
        match self {
            InvalidUuidReason::InvalidVersion => String::from_str(
                "UUID version is not valid for this `TypeId`",
            ),
            InvalidUuidReason::InvalidVariant => String::from_str("UUID variant is not RFC4122"),
            InvalidUuidReason::InvalidBytes => String::from_str("UUID bytes are invalid"),
        }
    }
}

impl DecodeError {
    /// The human-readable description of this error: the error category
    /// followed by the specific reason.
    pub open spec fn message_spec(self) -> Seq<char> {
        match self {
            DecodeError::InvalidSuffix(reason) => "Invalid `TypeId`suffix: "@ + reason.message_spec(),
            DecodeError::InvalidUuid(reason) => "Invalid UUID: "@ + reason.message_spec(),
        }
    }

    /// A human-readable description of this error.
    pub fn message(&self) -> (r: String)
        ensures
            r@ == self.message_spec(),
    {
        match self {
            DecodeError::InvalidSuffix(reason) => String::from_str("Invalid `TypeId`suffix: ").concat(
                reason.message().as_str(),
            ),
            DecodeError::InvalidUuid(reason) => String::from_str("Invalid UUID: ").concat(
                reason.message().as_str(),
            ),
        }
    }
}

} // verus!

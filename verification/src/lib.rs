//! The suffix component of a TypeID: a 26-character base32 string that is a
//! lossless textual representation of a 128-bit UUID.
//!
//! The crate has two tightly coupled parts: a stateless base32 codec over a
//! fixed Crockford-derived alphabet, and a validated, immutable suffix value
//! type that owns the 26 encoded bytes and enforces the acceptance rules.

pub mod encoding;
pub mod errors;
pub mod typeid_suffix;
pub mod uuid_bytes;
pub mod versions;

pub use crate::errors::{DecodeError, InvalidSuffixReason, InvalidUuidReason};
pub use crate::typeid_suffix::TypeIdSuffix;
pub use crate::uuid_bytes::{UuidBytes, UuidVariant};
pub use crate::versions::{UuidOther, UuidV7, UuidVersion};

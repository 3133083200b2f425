//! The library's model of a 128-bit UUID: its 16 bytes in big-endian order,
//! with the version and variant tags read from the RFC 4122-style bit
//! layout (version in the high nibble of byte 6, variant in the top bits of
//! byte 8).

use vstd::prelude::*;

verus! {

/// A 128-bit UUID held as its 16 bytes, big-endian.
///
/// Any 16 bytes form a UUID value; which values are acceptable for a suffix
/// is the business of the acceptability predicate in
/// [`crate::typeid_suffix`] and of the version markers in
/// [`crate::versions`].
#[derive(Debug, Clone, Copy, PartialEq, Eq, Hash)]
pub struct UuidBytes {
    /// The 16 bytes of the UUID, big-endian.
    pub bytes: [u8; 16],
}

/// The variant family encoded in the top bits of byte 8 of a UUID.
#[derive(Debug, Clone, Copy, PartialEq, Eq)]
pub enum UuidVariant {
    /// Top bit `0`: the NCS legacy family.
    Ncs,
    /// Top bits `10`: the standard RFC 4122 family.
    Rfc4122,
    /// Top bits `110`: the Microsoft legacy family.
    Microsoft,
    /// Top bits `111`: reserved for the future.
    Future,
}

impl View for UuidBytes {
    type V = Seq<u8>;

    open spec fn view(&self) -> Seq<u8> {
        self.bytes@
    }
}

/// The version number embedded in the high nibble of byte 6.
pub open spec fn spec_version_num(u: Seq<u8>) -> u8
    recommends
        u.len() == 16,
{
    u[6] >> 4
}

/// The variant family encoded in the top bits of byte 8.
pub open spec fn spec_variant(u: Seq<u8>) -> UuidVariant
    recommends
        u.len() == 16,
{
    if u[8] & 0x80 == 0x00 {
        UuidVariant::Ncs
    } else if u[8] & 0xc0 == 0x80 {
        UuidVariant::Rfc4122
    } else if u[8] & 0xe0 == 0xc0 {
        UuidVariant::Microsoft
    } else {
        UuidVariant::Future
    }
}

/// Whether every byte is zero: the nil UUID.
pub open spec fn spec_is_nil(u: Seq<u8>) -> bool {
    forall|i: int| 0 <= i < u.len() ==> u[i] == 0
}

/// Whether every byte is 0xff: the max UUID.
pub open spec fn spec_is_max(u: Seq<u8>) -> bool {
    forall|i: int| 0 <= i < u.len() ==> u[i] == 0xff
}

/// Whether the version field holds a recognized version tag: 1 through 8,
/// nil (version 0 with all bytes zero), or max (version 15 with all bytes
/// 0xff).
pub open spec fn spec_version_recognized(u: Seq<u8>) -> bool {
    ||| (spec_version_num(u) == 0 && spec_is_nil(u))
    ||| (1 <= spec_version_num(u) <= 8)
    ||| (spec_version_num(u) == 15 && spec_is_max(u))
}

impl UuidBytes {
    /// Wraps 16 big-endian bytes as a UUID value.
    pub fn from_bytes(bytes: [u8; 16]) -> (r: Self)
        ensures
            r@ == bytes@,
    {
        UuidBytes { bytes }
    }

    /// The 16 big-endian bytes of this UUID.
    pub fn as_bytes(&self) -> (r: &[u8; 16])
        ensures
            r@ == self@,
    {
        &self.bytes
    }

    /// The version number embedded in the high nibble of byte 6.
    pub fn version_num(&self) -> (r: u8)
        ensures
            r == spec_version_num(self@),
    {
        self.bytes[6] >> 4
    }

    /// The variant family encoded in the top bits of byte 8.
    pub fn variant(&self) -> (r: UuidVariant)
        ensures
            r == spec_variant(self@),
    {
        let b = self.bytes[8];
        if b & 0x80 == 0x00 {
            UuidVariant::Ncs
        } else if b & 0xc0 == 0x80 {
            UuidVariant::Rfc4122
        } else if b & 0xe0 == 0xc0 {
            UuidVariant::Microsoft
        } else {
            UuidVariant::Future
        }
    }

    /// Whether every byte is zero.
    pub fn is_nil(&self) -> (r: bool)
        ensures
            r == spec_is_nil(self@),
    {
        let mut i: usize = 0;
        while i < 16
            invariant
                0 <= i <= 16,
                forall|j: int| 0 <= j < i ==> self@[j] == 0,
            decreases 16 - i,
        {
            if self.bytes[i] != 0 {
                return false;
            }
            i += 1;
        }
        true
    }

    /// Whether every byte is 0xff.
    pub fn is_max(&self) -> (r: bool)
        ensures
            r == spec_is_max(self@),
    {
        let mut i: usize = 0;
        while i < 16
            invariant
                0 <= i <= 16,
                forall|j: int| 0 <= j < i ==> self@[j] == 0xff,
            decreases 16 - i,
        {
            if self.bytes[i] != 0xff {
                return false;
            }
            i += 1;
        }
        true
    }

    /// Whether the version field holds a recognized version tag.
    pub fn version_recognized(&self) -> (r: bool)
        ensures
            r == spec_version_recognized(self@),
    {
        let v = self.version_num();
        if v == 0 {
            self.is_nil()
        } else if v <= 8 {
            true
        } else if v == 15 {
            self.is_max()
        } else {
            false
        }
    }
}

/// Relies on `uuid::Uuid::now_v7`: a fresh version 7 UUID from the current
/// wall-clock time and random bits, carrying the version 7 tag and the
/// RFC 4122 variant bits.
#[verifier::external_body]
pub(crate) fn now_v7_bytes() -> (r: [u8; 16])
    ensures
        spec_version_num(r@) == 7,
        spec_variant(r@) is Rfc4122,
{
    uuid::Uuid::now_v7().into_bytes()
}

} // verus!

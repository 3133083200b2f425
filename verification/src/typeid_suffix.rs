//! The suffix value type: an immutable, validated wrapper around the 26
//! encoded bytes of a TypeID suffix.
//!
//! A value is constructed only through the validated encode-from-UUID or
//! decode-from-string paths, and is immutable thereafter, so converting it
//! back to a UUID can never fail.

use core::cmp::Ordering;

use vstd::arithmetic::div_mod::lemma_small_mod;
use vstd::arithmetic::mul::{lemma_mul_inequality, lemma_mul_is_distributive_add};
use vstd::arithmetic::power::{lemma_pow_positive, pow};
use vstd::arithmetic::power2::pow2;
use vstd::prelude::*;
use vstd::string::StringSliceAdditionalSpecFns;

use crate::encoding::{
    all_base32, base_value, bytes_value, char_value, char_values, decode_base32, decode_spec,
    encode_base32, encode_spec, is_base32_char, lemma_base_value_bound, lemma_base_value_head,
    lemma_char_value_for, lemma_char_value_increases, lemma_codec_powers, lemma_digits_value,
    lemma_encode_decode, lemma_encode_spec_props, lemma_suffix_value_bound, suffix_value,
    u128_from_be_bytes16,
};
use crate::errors::{DecodeError, InvalidSuffixReason, InvalidUuidReason};
use crate::uuid_bytes::{now_v7_bytes, spec_variant, spec_version_num, UuidBytes, UuidVariant};

verus! {

/// A TypeID suffix: a 26-character base32-encoded UUID.
#[derive(Debug, Clone, Copy, PartialEq, Eq, Hash)]
pub struct TypeIdSuffix {
    bytes: [u8; 26],
}

/// The invariant of an encoded suffix: 26 bytes, all in the base32
/// alphabet, with a first digit of at most 7 (so that the represented
/// value fits in 128 bits).
pub open spec fn spec_wf_suffix(s: Seq<u8>) -> bool {
    &&& s.len() == 26
    &&& all_base32(s)
    &&& char_value(s[0]) <= 7
}

/// Whether the variant tag of a UUID is on the accepted whitelist.
///
/// The whitelist holds all four variant families, so every UUID passes;
/// the governing specification keeps the check anyway, as one arm of the
/// permissive OR in [`spec_acceptable_uuid`].
pub open spec fn spec_variant_whitelisted(u: Seq<u8>) -> bool {
    ||| spec_variant(u) is Ncs
    ||| spec_variant(u) is Rfc4122
    ||| spec_variant(u) is Microsoft
    ||| spec_variant(u) is Future
}

/// The acceptability predicate for UUIDs: the variant is whitelisted OR the
/// version tag is recognized.
///
/// The OR of two independently sufficient conditions is deliberate: the
/// governing specification is permissive about non-time-ordered UUIDs, and
/// the two arms must not be tightened to an AND.
pub open spec fn spec_acceptable_uuid(u: Seq<u8>) -> bool {
    spec_variant_whitelisted(u) || crate::uuid_bytes::spec_version_recognized(u)
}

/// The outcome of parsing a candidate byte string: the error of the first
/// failed check, or `None` when the string is a valid suffix. The checks
/// run in a fixed order — length, ASCII, first character, alphabet,
/// UUID acceptability — so the error is deterministic.
pub open spec fn spec_parse_error(b: Seq<u8>) -> Option<DecodeError> {
    if b.len() != 26 {
        Some(DecodeError::InvalidSuffix(InvalidSuffixReason::InvalidLength))
    } else if exists|i: int| 0 <= i < 26 && b[i] >= 128 {
        Some(DecodeError::InvalidSuffix(InvalidSuffixReason::NonAsciiCharacter))
    } else if b[0] > 55 {
        // 55 is the byte of '7', the largest digit a suffix may open with
        Some(DecodeError::InvalidSuffix(InvalidSuffixReason::InvalidFirstCharacter))
    } else if !all_base32(b) {
        Some(DecodeError::InvalidSuffix(InvalidSuffixReason::InvalidCharacter))
    } else if !spec_acceptable_uuid(decode_spec(b)) {
        Some(DecodeError::InvalidUuid(InvalidUuidReason::InvalidVersion))
    } else {
        None
    }
}

/// Whether a suffix's underlying UUID is time-ordered (version 6 or 7),
/// and so sorts by its numeric value.
pub open spec fn spec_sortable(s: Seq<u8>) -> bool {
    spec_version_num(decode_spec(s)) == 6 || spec_version_num(decode_spec(s)) == 7
}

/// Three-way comparison of two natural numbers.
pub open spec fn spec_cmp_nat(x: nat, y: nat) -> Ordering {
    if x < y {
        Ordering::Less
    } else if x == y {
        Ordering::Equal
    } else {
        Ordering::Greater
    }
}

/// Lexicographic three-way comparison of two byte strings.
pub open spec fn spec_lex_cmp(a: Seq<u8>, b: Seq<u8>) -> Ordering
    decreases a.len(),
{
    if a.len() == 0 && b.len() == 0 {
        Ordering::Equal
    } else if a.len() == 0 {
        Ordering::Less
    } else if b.len() == 0 {
        Ordering::Greater
    } else if a[0] < b[0] {
        Ordering::Less
    } else if a[0] > b[0] {
        Ordering::Greater
    } else {
        spec_lex_cmp(a.drop_first(), b.drop_first())
    }
}

/// The suffix order: by decoded UUID value when both sides are
/// time-ordered, else by plain lexicographic byte order of the encoded
/// form.
pub open spec fn spec_cmp(a: Seq<u8>, b: Seq<u8>) -> Ordering {
    if spec_sortable(a) && spec_sortable(b) {
        spec_cmp_nat(bytes_value(decode_spec(a)), bytes_value(decode_spec(b)))
    } else {
        spec_lex_cmp(a, b)
    }
}

/// Relies on `core::str::from_utf8`: ASCII bytes are valid UTF-8, and the
/// resulting string views as exactly those bytes.
#[verifier::external_body]
fn ascii_bytes_as_str(bytes: &[u8; 26]) -> (r: &str)
    requires
        forall|i: int| 0 <= i < 26 ==> bytes@[i] < 128,
    ensures
        r.spec_bytes() == bytes@,
        r.is_ascii(),
{
    core::str::from_utf8(bytes.as_slice()).unwrap()
}

impl View for TypeIdSuffix {
    type V = Seq<u8>;

    closed spec fn view(&self) -> Seq<u8> {
        self.bytes@
    }
}

impl TypeIdSuffix {
    #[verifier::type_invariant]
    spec fn wf(self) -> bool {
        spec_wf_suffix(self@)
    }

    /// Creates a suffix from a freshly generated time-ordered (version 7)
    /// UUID: the default-value pathway.
    pub fn new() -> (r: Self)
        ensures
            spec_wf_suffix(r@),
            spec_version_num(decode_spec(r@)) == 7,
            spec_variant(decode_spec(r@)) is Rfc4122,
            spec_sortable(r@),
    {
        let uuid = UuidBytes::from_bytes(now_v7_bytes());
        proof {
            lemma_encode_spec_props(uuid@);
            crate::encoding::lemma_decode_encode(uuid@);
        }
        TypeIdSuffix { bytes: encode_base32(uuid.as_bytes()) }
    }

    /// Checks a UUID against the acceptability predicate: variant
    /// whitelisted OR version recognized.
    fn is_valid_uuid(uuid: &UuidBytes) -> (r: bool)
        ensures
            r == spec_acceptable_uuid(uuid@),
    {
        let is_valid_variant = matches!(
            uuid.variant(),
            UuidVariant::Rfc4122 | UuidVariant::Microsoft | UuidVariant::Future | UuidVariant::Ncs
        );
        let is_valid_version = uuid.version_recognized();
        is_valid_variant || is_valid_version
    }

    /// Validates a UUID and encodes it as a suffix.
    ///
    /// Returns the encoded suffix exactly when the UUID passes the
    /// acceptability predicate, and the invalid-version error otherwise.
    pub fn from_uuid(uuid: &UuidBytes) -> (r: Result<Self, DecodeError>)
        ensures
            match r {
                Ok(s) => spec_acceptable_uuid(uuid@) && s@ == encode_spec(uuid@) && spec_wf_suffix(
                    s@,
                ),
                Err(e) => !spec_acceptable_uuid(uuid@) && e == DecodeError::InvalidUuid(
                    InvalidUuidReason::InvalidVersion,
                ),
            },
    {
        if !Self::is_valid_uuid(uuid) {
            return Err(DecodeError::InvalidUuid(InvalidUuidReason::InvalidVersion));
        }
        proof {
            lemma_encode_spec_props(uuid@);
        }
        Ok(TypeIdSuffix { bytes: encode_base32(uuid.as_bytes()) })
    }

    /// Parses a candidate string into a suffix.
    ///
    /// The input is rejected unless it is exactly 26 bytes long, entirely
    /// ASCII, opens with a character no greater than `'7'`, is drawn from
    /// the base32 alphabet throughout, and decodes to an acceptable UUID;
    /// the error names the first check that failed.
    #[verifier::loop_isolation(false)]
    pub fn from_str(input: &str) -> (r: Result<Self, DecodeError>)
        ensures
            match r {
                Ok(s) => spec_parse_error(input.spec_bytes()) is None && s@ == input.spec_bytes()
                    && spec_wf_suffix(s@),
                Err(e) => spec_parse_error(input.spec_bytes()) == Some(e),
            },
    {
        let b = input.as_bytes();
        if b.len() != 26 {
            return Err(DecodeError::InvalidSuffix(InvalidSuffixReason::InvalidLength));
        }
        let mut i: usize = 0;
        while i < 26
            invariant
                b@.len() == 26,
                0 <= i <= 26,
                forall|j: int| 0 <= j < i ==> b@[j] < 128,
            decreases 26 - i,
        {
            if b[i] >= 128 {
                proof {
                    assert(0 <= i < 26 && input.spec_bytes()[i as int] >= 128);
                }
                return Err(DecodeError::InvalidSuffix(InvalidSuffixReason::NonAsciiCharacter));
            }
            i += 1;
        }
        if b[0] > 55 {
            return Err(DecodeError::InvalidSuffix(InvalidSuffixReason::InvalidFirstCharacter));
        }
        let mut encoded: [u8; 26] = [0;26];
        i = 0;
        while i < 26
            invariant
                b@.len() == 26,
                0 <= i <= 26,
                forall|j: int| 0 <= j < i ==> encoded@[j] == b@[j],
            decreases 26 - i,
        {
            encoded[i] = b[i];
            i += 1;
        }
        proof {
            assert(encoded@ =~= input.spec_bytes());
        }
        let decoded = match decode_base32(&encoded) {
            Ok(decoded) => decoded,
            Err(e) => {
                return Err(e);
            },
        };
        let uuid = UuidBytes::from_bytes(decoded);
        if !Self::is_valid_uuid(&uuid) {
            return Err(DecodeError::InvalidUuid(InvalidUuidReason::InvalidVersion));
        }
        Ok(TypeIdSuffix { bytes: encoded })
    }

    /// Decodes the stored bytes back into the UUID they stand for.
    ///
    /// This can never fail: construction guarantees that the stored bytes
    /// decode, and that encoding the result gives the same bytes back.
    pub fn to_uuid(&self) -> (r: UuidBytes)
        ensures
            r@ == decode_spec(self@),
            encode_spec(r@) == self@,
    {
        proof {
            use_type_invariant(self);
            lemma_encode_decode(self@);
        }
        match decode_base32(&self.bytes) {
            Ok(decoded) => UuidBytes::from_bytes(decoded),
            Err(_) => {
                proof {
                    assert(false);
                }
                UuidBytes::from_bytes([0;16])
            },
        }
    }

    /// The suffix as a read-only string view of its 26 bytes.
    pub fn as_str(&self) -> (r: &str)
        ensures
            r@.len() == 26,
            r.spec_bytes() == self@,
            r.is_ascii(),
            forall|i: int| 0 <= i < 26 ==> r@[i] as u8 == self@[i],
    {
        proof {
            use_type_invariant(self);
            assert forall|i: int| 0 <= i < 26 implies self@[i] < 128 by {
                crate::encoding::lemma_char_value_for(self@[i]);
            }
        }
        let r = ascii_bytes_as_str(&self.bytes);
        proof {
            broadcast use vstd::string::is_ascii_spec_bytes;
            vstd::utf8::is_ascii_chars_encode_utf8(r@);
        }
        r
    }

    /// Whether the underlying UUID is time-ordered (version 6 or 7).
    fn is_sortable(&self) -> (r: bool)
        ensures
            r == spec_sortable(self@),
    {
        let v = self.to_uuid().version_num();
        v == 6 || v == 7
    }

    /// Three-way comparison: by decoded UUID value when both suffixes hold
    /// time-ordered UUIDs, else by lexicographic byte order of the encoded
    /// form.
    #[verifier::loop_isolation(false)]
    pub fn cmp(&self, other: &Self) -> (r: Ordering)
        ensures
            r == spec_cmp(self@, other@),
    {
        proof {
            use_type_invariant(self);
            use_type_invariant(other);
        }
        if self.is_sortable() && other.is_sortable() {
            let ua = self.to_uuid();
            let ub = other.to_uuid();
            let x = u128_from_be_bytes16(ua.as_bytes());
            let y = u128_from_be_bytes16(ub.as_bytes());
            if x < y {
                Ordering::Less
            } else if x == y {
                Ordering::Equal
            } else {
                Ordering::Greater
            }
        } else {
            proof {
                assert(self@.skip(0) =~= self@);
                assert(other@.skip(0) =~= other@);
            }
            let mut i: usize = 0;
            while i < 26
                invariant
                    0 <= i <= 26,
                    self@.len() == 26,
                    other@.len() == 26,
                    spec_lex_cmp(self@, other@) == spec_lex_cmp(
                        self@.skip(i as int),
                        other@.skip(i as int),
                    ),
                decreases 26 - i,
            {
                let a = self.bytes[i];
                let c = other.bytes[i];
                proof {
                    assert(self@.skip(i as int)[0] == self@[i as int]);
                    assert(other@.skip(i as int)[0] == other@[i as int]);
                }
                if a < c {
                    proof {
                        assert(spec_lex_cmp(self@.skip(i as int), other@.skip(i as int))
                            == Ordering::Less);
                    }
                    return Ordering::Less;
                }
                if a > c {
                    proof {
                        assert(spec_lex_cmp(self@.skip(i as int), other@.skip(i as int))
                            == Ordering::Greater);
                    }
                    return Ordering::Greater;
                }
                proof {
                    assert(self@.skip(i as int).drop_first() =~= self@.skip(i as int + 1));
                    assert(other@.skip(i as int).drop_first() =~= other@.skip(i as int + 1));
                }
                i += 1;
            }
            proof {
                assert(self@.skip(26).len() == 0);
                assert(other@.skip(26).len() == 0);
            }
            Ordering::Equal
        }
    }
}

impl PartialOrd for TypeIdSuffix {
    fn partial_cmp(&self, other: &Self) -> Option<Ordering> {
        Some(self.cmp(other))
    }
}

impl vstd::std_specs::cmp::PartialOrdSpecImpl for TypeIdSuffix {
    open spec fn obeys_partial_cmp_spec() -> bool {
        true
    }

    open spec fn partial_cmp_spec(&self, other: &Self) -> Option<Ordering> {
        Some(spec_cmp(self@, other@))
    }
}

impl Default for TypeIdSuffix {
    /// A suffix made from a freshly generated version 7 UUID.
    fn default() -> (r: Self)
        ensures
            spec_wf_suffix(r@),
            spec_version_num(decode_spec(r@)) == 7,
            spec_variant(decode_spec(r@)) is Rfc4122,
            spec_sortable(r@),
    {
        Self::new()
    }
}

/// Rejection of an oversized first character: a 26-character alphabet
/// string whose first character stands for a digit above 7 never parses,
/// whatever the rest of the string holds.
pub proof fn lemma_reject_oversized_first(b: Seq<u8>)
    requires
        b.len() == 26,
        all_base32(b),
        char_value(b[0]) > 7,
    ensures
        spec_parse_error(b) == Some(
            DecodeError::InvalidSuffix(InvalidSuffixReason::InvalidFirstCharacter),
        ),
{
    assert forall|i: int| 0 <= i < 26 implies b[i] < 128 by {
        crate::encoding::lemma_char_value_for(b[i]);
    }
    crate::encoding::lemma_char_value_for(b[0]);
    assert(b[0] > 55);
}

/// With one first byte, the rest decides: a helper for the order
/// correspondence. A smaller first alphabet byte gives a strictly smaller
/// represented value, whatever the remaining bytes hold.
proof fn lemma_suffix_value_head_lt(a: Seq<u8>, b: Seq<u8>)
    requires
        a.len() == b.len(),
        a.len() >= 1,
        all_base32(a),
        all_base32(b),
        a[0] < b[0],
    ensures
        suffix_value(a) < suffix_value(b),
{
    let ca = char_values(a);
    let cb = char_values(b);
    assert forall|i: int| 0 <= i < a.len() implies #[trigger] ca[i] < 32 by {
        lemma_char_value_for(a[i]);
    }
    assert forall|i: int| 0 <= i < b.len() implies #[trigger] cb[i] < 32 by {
        lemma_char_value_for(b[i]);
    }
    lemma_base_value_head(ca, 32);
    lemma_base_value_head(cb, 32);
    let e = (a.len() - 1) as nat;
    let p = pow(32, e);
    lemma_pow_positive(32, e);
    lemma_base_value_bound(ca.drop_first(), 32);
    lemma_char_value_increases(a[0], b[0]);
    assert(ca[0] + 1 <= cb[0]);
    lemma_mul_inequality(ca[0] + 1, cb[0] as int, p);
    assert((ca[0] + 1) * p == ca[0] * p + p) by {
        lemma_mul_is_distributive_add(p, ca[0] as int, 1);
        vstd::arithmetic::mul::lemma_mul_is_commutative(p, ca[0] + 1);
        vstd::arithmetic::mul::lemma_mul_is_commutative(p, ca[0] as int);
    }
    assert(suffix_value(a) == ca[0] * p + base_value(ca.drop_first(), 32));
    assert(suffix_value(b) == cb[0] * p + base_value(cb.drop_first(), 32));
    assert(base_value(ca.drop_first(), 32) < p);
}

/// The two comparison bases agree on strings of one length: lexicographic
/// byte order of alphabet strings equals numeric order of the values they
/// stand for, because the alphabet writes larger digits with larger bytes.
pub proof fn lemma_lex_order_is_numeric_order(a: Seq<u8>, b: Seq<u8>)
    requires
        a.len() == b.len(),
        all_base32(a),
        all_base32(b),
    ensures
        spec_lex_cmp(a, b) == spec_cmp_nat(suffix_value(a), suffix_value(b)),
    decreases a.len(),
{
    if a.len() == 0 {
        assert(char_values(a) =~= Seq::<u8>::empty());
        assert(char_values(b) =~= Seq::<u8>::empty());
        assert(suffix_value(a) == 0);
        assert(suffix_value(b) == 0);
    } else if a[0] < b[0] {
        lemma_suffix_value_head_lt(a, b);
    } else if a[0] > b[0] {
        lemma_suffix_value_head_lt(b, a);
    } else {
        let adf = a.drop_first();
        let bdf = b.drop_first();
        assert(forall|i: int| 0 <= i < adf.len() ==> is_base32_char(#[trigger] adf[i]));
        assert(forall|i: int| 0 <= i < bdf.len() ==> is_base32_char(#[trigger] bdf[i]));
        lemma_lex_order_is_numeric_order(adf, bdf);
        let ca = char_values(a);
        let cb = char_values(b);
        assert(ca.drop_first() =~= char_values(adf));
        assert(cb.drop_first() =~= char_values(bdf));
        lemma_base_value_head(ca, 32);
        lemma_base_value_head(cb, 32);
        assert(ca[0] == cb[0]);
        assert(suffix_value(a) == ca[0] * pow(32, (a.len() - 1) as nat) + suffix_value(adf));
        assert(suffix_value(b) == ca[0] * pow(32, (b.len() - 1) as nat) + suffix_value(bdf));
    }
}

/// The hybrid order's two bases never disagree: on well-formed suffixes it
/// always equals plain lexicographic byte order of the encoded form.
pub proof fn lemma_cmp_agrees_with_lex(a: Seq<u8>, b: Seq<u8>)
    requires
        spec_wf_suffix(a),
        spec_wf_suffix(b),
    ensures
        spec_cmp(a, b) == spec_lex_cmp(a, b),
{
    if spec_sortable(a) && spec_sortable(b) {
        lemma_codec_powers();
        lemma_decoded_value(a);
        lemma_decoded_value(b);
        lemma_lex_order_is_numeric_order(a, b);
    }
}

/// A well-formed suffix's decoded bytes stand for exactly the value the
/// suffix stands for: the 128-bit truncation in decoding never bites.
proof fn lemma_decoded_value(s: Seq<u8>)
    requires
        spec_wf_suffix(s),
    ensures
        bytes_value(decode_spec(s)) == suffix_value(s),
{
    lemma_codec_powers();
    lemma_suffix_value_bound(s);
    let sv = suffix_value(s);
    lemma_small_mod(sv, pow2(128));
    lemma_digits_value(sv, 16, 256);
    lemma_small_mod(sv, (pow(256, 16)) as nat);
}

/// Ordering consistency: two suffixes built from time-ordered UUIDs compare
/// exactly as their source UUIDs' numeric values do.
pub proof fn lemma_ordering_consistency(u1: Seq<u8>, u2: Seq<u8>)
    requires
        u1.len() == 16,
        u2.len() == 16,
        spec_version_num(u1) == 6 || spec_version_num(u1) == 7,
        spec_version_num(u2) == 6 || spec_version_num(u2) == 7,
    ensures
        spec_cmp(encode_spec(u1), encode_spec(u2)) == spec_cmp_nat(bytes_value(u1), bytes_value(u2)),
{
    crate::encoding::lemma_decode_encode(u1);
    crate::encoding::lemma_decode_encode(u2);
}

} // verus!

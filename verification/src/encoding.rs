//! The base32 codec: stateless conversion between a 16-byte UUID and its
//! 26-character encoded form, over the fixed alphabet
//! `0123456789abcdefghjkmnpqrstvwxyz`.
//!
//! The 16 bytes are read as a big-endian 128-bit integer and written as 26
//! base32 digits, most significant first. 26 digits cover 130 bits, so the
//! first digit of an encoded value is always at most 7.

use vstd::prelude::*;
use vstd::arithmetic::div_mod::*;
use vstd::arithmetic::mul::*;
use vstd::arithmetic::power::*;
use vstd::arithmetic::power2::*;

use crate::errors::{DecodeError, InvalidSuffixReason};

verus! {

/// The 5-bit value that an alphabet byte stands for, or 255 for a byte
/// outside the 32-symbol alphabet.
pub open spec fn char_value(c: u8) -> u8 {
    if 48 <= c && c <= 57 {
        // '0'..='9'
        (c - 48) as u8
    } else if 97 <= c && c <= 104 {
        // 'a'..='h'
        (c - 87) as u8
    } else if c == 106 {
        // 'j'
        18
    } else if c == 107 {
        // 'k'
        19
    } else if c == 109 {
        // 'm'
        20
    } else if c == 110 {
        // 'n'
        21
    } else if 112 <= c && c <= 116 {
        // 'p'..='t'
        (c - 90) as u8
    } else if c == 118 {
        // 'v'
        27
    } else if 119 <= c && c <= 122 {
        // 'w'..='z'
        (c - 91) as u8
    } else {
        255
    }
}

/// Whether a byte belongs to the 32-symbol alphabet.
pub open spec fn is_base32_char(c: u8) -> bool {
    char_value(c) != 255
}

/// The alphabet byte for a 5-bit value.
pub open spec fn char_for(v: u8) -> u8
    recommends
        v < 32,
{
    if v < 10 {
        (v + 48) as u8
    } else if v < 18 {
        (v + 87) as u8
    } else if v == 18 {
        106
    } else if v == 19 {
        107
    } else if v == 20 {
        109
    } else if v == 21 {
        110
    } else if v < 27 {
        (v + 90) as u8
    } else if v == 27 {
        118
    } else {
        (v + 91) as u8
    }
}

/// Encoding a 5-bit value gives an ASCII alphabet byte, and decoding it
/// gives the value back.
pub proof fn lemma_char_for_value(v: u8)
    requires
        v < 32,
    ensures
        char_for(v) < 128,
        is_base32_char(char_for(v)),
        char_value(char_for(v)) == v,
{
}

/// A byte of the alphabet decodes to a 5-bit value, and encoding that value
/// gives the byte back.
pub proof fn lemma_char_value_for(c: u8)
    requires
        is_base32_char(c),
    ensures
        char_value(c) < 32,
        c < 128,
        char_for(char_value(c)) == c,
{
}

/// The alphabet preserves order: a smaller alphabet byte stands for a
/// smaller 5-bit value.
pub proof fn lemma_char_value_increases(c1: u8, c2: u8)
    requires
        is_base32_char(c1),
        is_base32_char(c2),
        c1 < c2,
    ensures
        char_value(c1) < char_value(c2),
{
}

/// The value of a digit sequence read in the given base, most significant
/// digit first.
pub open spec fn base_value(digits: Seq<u8>, base: nat) -> nat
    decreases digits.len(),
{
    if digits.len() == 0 {
        0
    } else {
        base_value(digits.drop_last(), base) * base + digits.last() as nat
    }
}

/// Digit `i` (counting from the least significant) of `n` in the given base.
pub open spec fn nth_digit(n: nat, i: nat, base: nat) -> u8 {
    (((n as int) / pow(base as int, i)) % (base as int)) as u8
}

/// The `len` digits of `n` in the given base, most significant first.
pub open spec fn digits_of(n: nat, len: nat, base: nat) -> Seq<u8> {
    Seq::new(len, |i: int| nth_digit(n, (len - 1 - i) as nat, base))
}

/// The 5-bit values of an encoded suffix's bytes.
pub open spec fn char_values(s: Seq<u8>) -> Seq<u8> {
    s.map_values(|c: u8| char_value(c))
}

/// The 128-bit integer that an encoded suffix stands for (before any
/// truncation to 128 bits).
pub open spec fn suffix_value(s: Seq<u8>) -> nat {
    base_value(char_values(s), 32)
}

/// The big-endian integer value of a byte string.
pub open spec fn bytes_value(b: Seq<u8>) -> nat {
    base_value(b, 256)
}

/// Whether every byte of a string belongs to the base32 alphabet.
pub open spec fn all_base32(s: Seq<u8>) -> bool {
    forall|i: int| 0 <= i < s.len() ==> is_base32_char(s[i])
}

/// The 26-byte encoded form of a 16-byte value: the 26 base32 digits of its
/// big-endian integer value, most significant first.
pub open spec fn encode_spec(b: Seq<u8>) -> Seq<u8> {
    digits_of(bytes_value(b), 26, 32).map_values(|v: u8| char_for(v))
}

/// The 16-byte value that an all-alphabet encoded string decodes to: its
/// integer value truncated to 128 bits, written big-endian.
pub open spec fn decode_spec(s: Seq<u8>) -> Seq<u8> {
    digits_of(suffix_value(s) % pow2(128), 16, 256)
}

fn base32_char_value(c: u8) -> (r: u8)
    ensures
        r == char_value(c),
{
    if 48 <= c && c <= 57 {
        c - 48
    } else if 97 <= c && c <= 104 {
        c - 87
    } else if c == 106 {
        18
    } else if c == 107 {
        19
    } else if c == 109 {
        20
    } else if c == 110 {
        21
    } else if 112 <= c && c <= 116 {
        c - 90
    } else if c == 118 {
        27
    } else if 119 <= c && c <= 122 {
        c - 91
    } else {
        255
    }
}

fn base32_char_for(v: u8) -> (r: u8)
    requires
        v < 32,
    ensures
        r == char_for(v),
{
    if v < 10 {
        v + 48
    } else if v < 18 {
        v + 87
    } else if v == 18 {
        106
    } else if v == 19 {
        107
    } else if v == 20 {
        109
    } else if v == 21 {
        110
    } else if v < 27 {
        v + 90
    } else if v == 27 {
        118
    } else {
        v + 91
    }
}

/// The concrete powers that the codec's bounds rest on.
pub proof fn lemma_codec_powers()
    ensures
        pow2(120) == 0x1000000000000000000000000000000,
        pow2(123) == 0x8000000000000000000000000000000,
        pow2(125) == 0x20000000000000000000000000000000,
        pow2(128) == 0x100000000000000000000000000000000,
        pow(256, 15) == pow2(120),
        pow(256, 16) == pow2(128),
        pow(32, 25) == pow2(125),
        pow(32, 26) == pow2(130),
        pow2(128) == 8 * pow2(125),
        pow2(128) < pow2(130),
{
    lemma2_to64();
    lemma2_to64_rest();
    lemma_pow2_adds(64, 56);
    lemma_pow2_adds(64, 59);
    lemma_pow2_adds(64, 61);
    lemma_pow2_adds(64, 64);
    lemma_pow2_adds(3, 125);
    lemma_pow2_strictly_increases(128, 130);
    assert(pow2(120) == 0x1000000000000000000000000000000);
    assert(pow2(123) == 0x8000000000000000000000000000000);
    assert(pow2(125) == 0x20000000000000000000000000000000);
    assert(pow2(128) == 0x100000000000000000000000000000000);
    lemma_pow2(120);
    lemma_pow2(123);
    lemma_pow2(125);
    lemma_pow2(128);
    lemma_pow2(130);
    lemma_pow2(8);
    lemma_pow2(5);
    lemma_pow_positive(2, 8);
    lemma_pow_positive(2, 5);
    assert(pow(2, 8) == 256);
    assert(pow(2, 5) == 32);
    lemma_pow_multiplies(2, 8, 15);
    lemma_pow_multiplies(2, 8, 16);
    lemma_pow_multiplies(2, 5, 25);
    lemma_pow_multiplies(2, 5, 26);
    assert(pow(256, 15) == pow(pow(2, 8), 15));
    assert(pow(256, 16) == pow(pow(2, 8), 16));
    assert(pow(32, 25) == pow(pow(2, 5), 25));
    assert(pow(32, 26) == pow(pow(2, 5), 26));
    assert(pow2(3) == 8);
}

/// One more power: `base ^ (e + 1)` is `base ^ e` times the base.
proof fn lemma_pow_succ(b: int, e: nat)
    ensures
        pow(b, e + 1) == b * pow(b, e),
        pow(b, e + 1) == pow(b, e) * b,
{
    lemma_pow_adds(b, e, 1);
    lemma_pow1(b);
    lemma_mul_is_commutative(b, pow(b, e));
}

/// A digit string's value is below `base ^ len`.
pub proof fn lemma_base_value_bound(digits: Seq<u8>, base: nat)
    requires
        base >= 1,
        forall|i: int| 0 <= i < digits.len() ==> digits[i] < base,
    ensures
        base_value(digits, base) < pow(base as int, digits.len()),
    decreases digits.len(),
{
    if digits.len() == 0 {
        lemma_pow0(base as int);
    } else {
        let prefix = digits.drop_last();
        lemma_base_value_bound(prefix, base);
        let p = pow(base as int, prefix.len());
        lemma_pow_positive(base as int, prefix.len());
        assert(base_value(prefix, base) <= p - 1);
        lemma_mul_inequality(base_value(prefix, base) as int, p - 1, base as int);
        assert((p - 1) * base == p * base - base) by (nonlinear_arith);
        lemma_pow_succ(base as int, prefix.len());
        lemma_mul_is_commutative(p, base as int);
        assert(digits.last() < base);
        assert(digits.len() == prefix.len() + 1);
        assert(base_value(digits, base) == base_value(prefix, base) * base + digits.last());
        assert(base_value(prefix, base) * base <= (p - 1) * base);
        assert(pow(base as int, digits.len()) == p * base);
        assert(base_value(digits, base) < p * base);
    }
}

/// Reading back the digits of `n` gives `n` modulo `base ^ len`.
pub proof fn lemma_digits_value(n: nat, len: nat, base: nat)
    requires
        2 <= base <= 256,
    ensures
        base_value(digits_of(n, len, base), base) == n % (pow(base as int, len) as nat),
    decreases len,
{
    lemma_pow_positive(base as int, len);
    if len == 0 {
        lemma_pow0(base as int);
        assert(digits_of(n, 0, base) =~= Seq::<u8>::empty());
        assert(n as int % 1 == 0) by {
            lemma_mod_multiples_basic(n as int, 1);
        }
    } else {
        let digits = digits_of(n, len, base);
        let m = (n / base) as nat;
        lemma_div_pos_is_pos(n as int, base as int);
        assert(m as int == n as int / base as int);
        lemma_digits_value(m, (len - 1) as nat, base);
        assert(digits.drop_last() =~= digits_of(m, (len - 1) as nat, base)) by {
            assert forall|i: int| 0 <= i < len - 1 implies digits.drop_last()[i] == digits_of(
                m,
                (len - 1) as nat,
                base,
            )[i] by {
                let e = (len - 1 - i - 1) as nat;
                lemma_pow_positive(base as int, e);
                lemma_div_denominator(n as int, base as int, pow(base as int, e));
                lemma_pow_succ(base as int, e);
                lemma_mul_is_commutative(base as int, pow(base as int, e));
                assert((n as int / pow(base as int, (e + 1) as nat)) == (m as int) / pow(
                    base as int,
                    e,
                ));
            }
        }
        assert(digits.last() == nth_digit(n, 0, base));
        lemma_pow0(base as int);
        lemma_div_basics(n as int);
        assert(n as int / pow(base as int, 0) == n);
        let z = pow(base as int, (len - 1) as nat);
        lemma_pow_positive(base as int, (len - 1) as nat);
        lemma_breakdown(n as int, base as int, z);
        lemma_pow_succ(base as int, (len - 1) as nat);
        assert(base_value(digits, base) == base_value(digits.drop_last(), base) * base
            + digits.last());
        lemma_mul_is_commutative(base as int, (m as int) % z);
        assert(base_value(digits.drop_last(), base) == m % (z as nat));
        assert(digits.last() as int == n as int % base as int);
        let bv = base_value(digits, base) as int;
        assert(bv == ((m as int) % z) * base + (n as int % base as int));
        assert(n as int % (base as int * z) == base as int * ((n as int / base as int) % z)
            + n as int % base as int);
        assert(bv == n as int % (base as int * z));
        assert(base as int * z == pow(base as int, len));
        assert(bv == n as int % pow(base as int, len));
    }
}

/// Two digit strings of one length and one value are the same string.
pub proof fn lemma_base_value_injective(d1: Seq<u8>, d2: Seq<u8>, base: nat)
    requires
        base >= 2,
        d1.len() == d2.len(),
        forall|i: int| 0 <= i < d1.len() ==> d1[i] < base,
        forall|i: int| 0 <= i < d2.len() ==> d2[i] < base,
        base_value(d1, base) == base_value(d2, base),
    ensures
        d1 == d2,
    decreases d1.len(),
{
    if d1.len() == 0 {
        assert(d1 =~= d2);
    } else {
        let v = base_value(d1, base) as int;
        assert(d1.last() < base);
        assert(d2.last() < base);
        lemma_fundamental_div_mod_converse(
            v,
            base as int,
            base_value(d1.drop_last(), base) as int,
            d1.last() as int,
        );
        lemma_fundamental_div_mod_converse(
            v,
            base as int,
            base_value(d2.drop_last(), base) as int,
            d2.last() as int,
        );
        assert(forall|i: int| 0 <= i < d1.len() - 1 ==> #[trigger] d1.drop_last()[i] == d1[i]);
        assert(forall|i: int| 0 <= i < d2.len() - 1 ==> #[trigger] d2.drop_last()[i] == d2[i]);
        lemma_base_value_injective(d1.drop_last(), d2.drop_last(), base);
        assert forall|i: int| 0 <= i < d1.len() implies d1[i] == d2[i] by {
            if i < d1.len() - 1 {
                assert(d1[i] == d1.drop_last()[i]);
                assert(d2[i] == d2.drop_last()[i]);
            } else {
                assert(d1[i] == d1.last());
                assert(d2[i] == d2.last());
            }
        }
        assert(d1 =~= d2);
    }
}

/// Splitting off the most significant digit of a digit string.
pub proof fn lemma_base_value_head(digits: Seq<u8>, base: nat)
    requires
        base >= 1,
        digits.len() >= 1,
    ensures
        base_value(digits, base) == digits[0] * pow(base as int, (digits.len() - 1) as nat)
            + base_value(digits.drop_first(), base),
    decreases digits.len(),
{
    if digits.len() == 1 {
        lemma_pow0(base as int);
        assert(digits.drop_last() =~= Seq::<u8>::empty());
        assert(digits.drop_first() =~= Seq::<u8>::empty());
        assert(base_value(digits.drop_first(), base) == 0);
        assert(base_value(digits.drop_last(), base) == 0);
        assert(base_value(digits, base) == base_value(digits.drop_last(), base) * base
            + digits.last());
        assert(base_value(digits.drop_last(), base) * base == 0) by (nonlinear_arith)
            requires base_value(digits.drop_last(), base) == 0;
        assert(digits[0] * pow(base as int, (digits.len() - 1) as nat) == digits[0]);
    } else {
        let prefix = digits.drop_last();
        let n = digits.len() as int;
        let e = (n - 2) as nat;
        let p = pow(base as int, e);
        lemma_base_value_head(prefix, base);
        assert(prefix[0] == digits[0]);
        let pdf = prefix.drop_first();
        let df = digits.drop_first();
        assert(df.drop_last() =~= pdf);
        assert(df.last() == digits.last());
        assert(base_value(df, base) == base_value(pdf, base) * base + digits.last());
        assert(base_value(digits, base) == base_value(prefix, base) * base + digits.last());
        assert((digits[0] * p + base_value(pdf, base)) * base == (digits[0] * p) * base
            + base_value(pdf, base) * base) by {
            lemma_mul_is_distributive_add(base as int, digits[0] * p, base_value(pdf, base) as int);
            lemma_mul_is_commutative((digits[0] * p + base_value(pdf, base)) as int, base as int);
            lemma_mul_is_commutative((digits[0] * p) as int, base as int);
            lemma_mul_is_commutative(base_value(pdf, base) as int, base as int);
        }
        assert((digits[0] * p) * base == digits[0] * (p * base)) by {
            lemma_mul_is_associative(digits[0] as int, p, base as int);
        }
        lemma_pow_succ(base as int, e);
        assert(p * base == pow(base as int, (n - 1) as nat));
        assert(base_value(digits, base) == digits[0] * pow(base as int, (n - 1) as nat)
            + base_value(df, base));
    }
}

/// What encoding 16 bytes always yields: 26 alphabet bytes that stand for
/// the bytes' big-endian value, opening with a digit of at most 7.
pub proof fn lemma_encode_spec_props(b: Seq<u8>)
    requires
        b.len() == 16,
    ensures
        encode_spec(b).len() == 26,
        all_base32(encode_spec(b)),
        char_value(encode_spec(b)[0]) <= 7,
        suffix_value(encode_spec(b)) == bytes_value(b),
        bytes_value(b) < pow2(128),
{
    lemma_codec_powers();
    let v = bytes_value(b);
    lemma_base_value_bound(b, 256);
    let digits = digits_of(v, 26, 32);
    assert forall|i: int| 0 <= i < 26 implies #[trigger] digits[i] < 32 by {
        let e = (26 - 1 - i) as nat;
        lemma_pow_positive(32, e);
        lemma_mod_pos_bound(v as int / pow(32, e), 32);
    }
    assert forall|i: int| 0 <= i < 26 implies is_base32_char(#[trigger] encode_spec(b)[i]) by {
        lemma_char_for_value(digits[i]);
    }
    assert(char_values(encode_spec(b)) =~= digits) by {
        assert forall|i: int| 0 <= i < 26 implies char_values(encode_spec(b))[i] == digits[i] by {
            lemma_char_for_value(digits[i]);
        }
    }
    lemma_digits_value(v, 26, 32);
    lemma_small_mod(v, pow(32, 26) as nat);
    assert(digits[0] == nth_digit(v, 25, 32));
    assert(v < 8 * pow(32, 25));
    lemma_pow_positive(32, 25);
    lemma_multiply_divide_lt(v as int, pow(32, 25), 8);
    assert(v as int / pow(32, 25) < 8);
    lemma_div_pos_is_pos(v as int, pow(32, 25));
    lemma_small_mod((v as int / pow(32, 25)) as nat, 32);
    lemma_char_for_value(digits[0]);
}

/// A 26-character alphabet string whose first digit is at most 7 stands for
/// a value below 2^128.
pub proof fn lemma_suffix_value_bound(s: Seq<u8>)
    requires
        s.len() == 26,
        all_base32(s),
        char_value(s[0]) <= 7,
    ensures
        suffix_value(s) < pow2(128),
{
    lemma_codec_powers();
    let cv = char_values(s);
    assert forall|i: int| 0 <= i < 26 implies #[trigger] cv[i] < 32 by {
        lemma_char_value_for(s[i]);
    }
    lemma_base_value_head(cv, 32);
    lemma_base_value_bound(cv.drop_first(), 32);
    let p = pow(32, 25);
    lemma_pow_positive(32, 25);
    lemma_mul_inequality(cv[0] as int, 7, p);
    assert(suffix_value(s) == cv[0] * p + base_value(cv.drop_first(), 32));
    assert(suffix_value(s) < 7 * p + p);
    assert(7 * p + p == 8 * p) by (nonlinear_arith);
}

/// Round-trip: the encoded form of any 16 bytes decodes to those bytes.
pub proof fn lemma_decode_encode(b: Seq<u8>)
    requires
        b.len() == 16,
    ensures
        all_base32(encode_spec(b)),
        decode_spec(encode_spec(b)) == b,
{
    lemma_codec_powers();
    lemma_encode_spec_props(b);
    let v = bytes_value(b);
    lemma_small_mod(v, pow2(128));
    let d = digits_of(v, 16, 256);
    lemma_digits_value(v, 16, 256);
    lemma_small_mod(v, pow(256, 16) as nat);
    assert forall|i: int| 0 <= i < 16 implies #[trigger] d[i] < 256 by {
        let e = (16 - 1 - i) as nat;
        lemma_pow_positive(256, e);
        lemma_mod_pos_bound(v as int / pow(256, e), 256);
    }
    lemma_base_value_injective(d, b, 256);
}

/// Round-trip, string side: a 26-character alphabet string whose first digit
/// is at most 7 is the encoded form of the bytes it decodes to.
pub proof fn lemma_encode_decode(s: Seq<u8>)
    requires
        s.len() == 26,
        all_base32(s),
        char_value(s[0]) <= 7,
    ensures
        encode_spec(decode_spec(s)) == s,
{
    lemma_codec_powers();
    lemma_suffix_value_bound(s);
    let sv = suffix_value(s);
    lemma_small_mod(sv, pow2(128));
    let b = decode_spec(s);
    assert(b =~= digits_of(sv, 16, 256));
    lemma_digits_value(sv, 16, 256);
    lemma_small_mod(sv, pow(256, 16) as nat);
    assert(bytes_value(b) == sv);
    let digits = digits_of(sv, 26, 32);
    lemma_digits_value(sv, 26, 32);
    lemma_small_mod(sv, pow(32, 26) as nat);
    let cv = char_values(s);
    assert forall|i: int| 0 <= i < 26 implies #[trigger] cv[i] < 32 by {
        lemma_char_value_for(s[i]);
    }
    assert forall|i: int| 0 <= i < 26 implies #[trigger] digits[i] < 32 by {
        let e = (26 - 1 - i) as nat;
        lemma_pow_positive(32, e);
        lemma_mod_pos_bound(sv as int / pow(32, e), 32);
    }
    lemma_base_value_injective(digits, cv, 32);
    assert(encode_spec(b) =~= s) by {
        assert forall|i: int| 0 <= i < 26 implies encode_spec(b)[i] == s[i] by {
            lemma_char_value_for(s[i]);
        }
    }
}

/// The big-endian 128-bit value of 16 bytes.
pub(crate) fn u128_from_be_bytes16(bytes: &[u8; 16]) -> (n: u128)
    ensures
        n == bytes_value(bytes@),
{
    proof {
        lemma_codec_powers();
    }
    let mut n: u128 = 0;
    let mut i: usize = 0;
    while i < 16
        invariant
            0 <= i <= 16,
            n == base_value(bytes@.take(i as int), 256),
        decreases 16 - i,
    {
        proof {
            lemma_codec_powers();
            lemma_base_value_bound(bytes@.take(i as int), 256);
            lemma_pow_increases(256, i as nat, 15);
            assert(bytes@.take(i as int + 1).drop_last() =~= bytes@.take(i as int));
        }
        n = n * 256 + (bytes[i] as u128);
        i += 1;
    }
    proof {
        assert(bytes@.take(16) =~= bytes@);
    }
    n
}

/// The 16 big-endian bytes of a 128-bit value.
fn u128_to_be_bytes16(n: u128) -> (b: [u8; 16])
    ensures
        b@ == digits_of(n as nat, 16, 256),
{
    let mut out: [u8; 16] = [0;16];
    let mut m: u128 = n;
    let mut index: usize = 16;
    proof {
        lemma_pow0(256);
        lemma_div_basics(n as int);
    }
    while index > 0
        invariant
            0 <= index <= 16,
            m == (n as int) / pow(256, (16 - index) as nat),
            forall|j: int|
                index <= j < 16 ==> out@[j] == nth_digit(n as nat, (15 - j) as nat, 256),
        decreases index,
    {
        index -= 1;
        proof {
            let e = (15 - index) as nat;
            lemma_pow_positive(256, e);
            lemma_mod_pos_bound(m as int, 256);
            lemma_div_denominator(n as int, pow(256, e), 256);
            lemma_pow_succ(256, e);
            lemma_div_pos_is_pos(n as int, pow(256, e));
        }
        out[index] = (m % 256) as u8;
        m = m / 256;
    }
    proof {
        assert(out@ =~= digits_of(n as nat, 16, 256));
    }
    out
}

/// Encodes a 16-byte UUID into its 26-character base32 form.
///
/// Encoding is total: any 16 bytes are representable in 26 base32 digits
/// with room to spare.
pub fn encode_base32(uuid: &[u8; 16]) -> (r: [u8; 26])
    ensures
        r@ == encode_spec(uuid@),
{
    let n = u128_from_be_bytes16(uuid);
    let mut out: [u8; 26] = [0;26];
    let mut m: u128 = n;
    let mut index: usize = 26;
    proof {
        lemma_pow0(32);
        lemma_div_basics(n as int);
    }
    while index > 0
        invariant
            0 <= index <= 26,
            n == bytes_value(uuid@),
            m == (n as int) / pow(32, (26 - index) as nat),
            forall|j: int|
                index <= j < 26 ==> out@[j] == char_for(nth_digit(n as nat, (25 - j) as nat, 32)),
        decreases index,
    {
        index -= 1;
        proof {
            let e = (25 - index) as nat;
            lemma_pow_positive(32, e);
            lemma_mod_pos_bound(m as int, 32);
            lemma_div_denominator(n as int, pow(32, e), 32);
            lemma_pow_succ(32, e);
            lemma_div_pos_is_pos(n as int, pow(32, e));
        }
        out[index] = base32_char_for((m % 32) as u8);
        m = m / 32;
    }
    proof {
        assert(out@ =~= encode_spec(uuid@));
    }
    out
}

/// Decodes a 26-character base32 string back into a 16-byte UUID.
///
/// Fails exactly when some byte of the input is outside the 32-symbol
/// alphabet; the value is truncated to 128 bits, so the top two bits of an
/// oversized first digit are discarded here (the parser in
/// [`crate::typeid_suffix`] rejects such strings before this stage).
pub fn decode_base32(encoded: &[u8; 26]) -> (r: Result<[u8; 16], DecodeError>)
    ensures
        match r {
            Ok(b) => all_base32(encoded@) && b@ == decode_spec(encoded@),
            Err(e) => !all_base32(encoded@) && e == DecodeError::InvalidSuffix(
                InvalidSuffixReason::InvalidCharacter,
            ),
        },
{
    proof {
        lemma_codec_powers();
    }
    let mut acc: u128 = 0;
    let mut i: usize = 0;
    while i < 26
        invariant
            0 <= i <= 26,
            forall|j: int| 0 <= j < i ==> is_base32_char(#[trigger] encoded@[j]),
            acc == suffix_value(encoded@.take(i as int)) % pow2(128),
            pow2(128) == 0x100000000000000000000000000000000,
            pow2(123) == 0x8000000000000000000000000000000,
        decreases 26 - i,
    {
        let value = base32_char_value(encoded[i]);
        if value == 255 {
            assert(!is_base32_char(encoded@[i as int]));
            return Err(DecodeError::InvalidSuffix(InvalidSuffixReason::InvalidCharacter));
        }
        proof {
            let s = suffix_value(encoded@.take(i as int)) as int;
            let d = char_value(encoded@[i as int]) as int;
            let p123 = pow2(123) as int;
            let p128 = pow2(128) as int;
            assert(char_values(encoded@.take(i as int + 1)).drop_last() =~= char_values(
                encoded@.take(i as int),
            ));
            assert(suffix_value(encoded@.take(i as int + 1)) == s * 32 + d);
            lemma_mod_mod(s, p123, 32);
            assert((s % p128) % p123 == s % p123);
            lemma_truncate_middle(s, 32, p123);
            assert((32 * s) % p128 == 32 * (s % p123));
            lemma_mod_pos_bound(s, p123);
            assert(32 * (s % p123) <= 32 * (p123 - 1)) by {
                lemma_mul_inequality(s % p123, p123 - 1, 32);
                lemma_mul_is_commutative(s % p123, 32);
                lemma_mul_is_commutative(p123 - 1, 32);
            }
            lemma_fundamental_div_mod((32 * s), p128);
            lemma_fundamental_div_mod_converse_mod(
                32 * s + d,
                p128,
                (32 * s) / p128,
                32 * (s % p123) + d,
            );
            assert((s * 32 + d) % p128 == (acc as int % p123) * 32 + d) by {
                lemma_mul_is_commutative(s, 32);
                lemma_mul_is_commutative(s % p123, 32);
            }
        }
        acc = (acc % 0x8000000000000000000000000000000) * 32 + (value as u128);
        i += 1;
    }
    assert(encoded@.take(26) =~= encoded@);
    let bytes = u128_to_be_bytes16(acc);
    proof {
        assert(bytes@ =~= decode_spec(encoded@));
    }
    Ok(bytes)
}

} // verus!

//! Arbitrary-precision natural numbers, stored as little-endian base-2^32 limbs.
//! All arithmetic is done by `num_bigint::BigUint`; this module states what each
//! operation computes over the mathematical value of the limbs.

use num_bigint::BigUint;
use vstd::prelude::*;

verus! {

/// The value of little-endian base-2^32 limbs.
pub open spec fn limbs_value(s: Seq<u32>) -> nat
    decreases s.len(),
{
    if s.len() == 0 {
        0
    } else {
        s[0] as nat + 0x1_0000_0000 * limbs_value(s.drop_first())
    }
}

/// 2 to the power `n`.
pub open spec fn two_pow(n: nat) -> nat
    decreases n,
{
    if n == 0 {
        1
    } else {
        2 * two_pow((n - 1) as nat)
    }
}

/// Bitwise AND of two naturals.
pub open spec fn bit_and(a: nat, b: nat) -> nat
    decreases a,
{
    if a == 0 || b == 0 {
        0
    } else {
        (if a % 2 == 1 && b % 2 == 1 { 1nat } else { 0nat }) + 2 * bit_and(a / 2, b / 2)
    }
}

/// Number of bits needed to write `n` in binary (0 for 0).
pub open spec fn bit_length(n: nat) -> nat
    decreases n,
{
    if n == 0 {
        0
    } else {
        1 + bit_length(n / 2)
    }
}

/// The character for digit `d` (0..36): `0`-`9`, then lower-case `a`-`z`.
pub open spec fn digit_char(d: nat) -> char {
    if d < 10 {
        (('0' as nat) + d) as char
    } else {
        (('a' as nat) + d - 10) as char
    }
}

/// `n` written in base `radix` with lower-case letters, no leading zeros ("0" for zero).
pub open spec fn radix_string(n: nat, radix: nat) -> Seq<char>
    decreases n,
{
    if radix < 2 {
        Seq::empty()
    } else if n < radix {
        seq![digit_char(n)]
    } else {
        proof {
            assert(n / radix < n) by (nonlinear_arith)
                requires
                    radix >= 2,
                    n >= radix,
            ;
        }
        radix_string(n / radix, radix).push(digit_char(n % radix))
    }
}

/// Whether `c` is a digit separator inside a literal.
pub open spec fn is_separator(c: char) -> bool {
    c == '_' || c == '\''
}

/// Whether `c` is an ASCII decimal digit.
pub open spec fn is_dec_digit(c: char) -> bool {
    '0' <= c <= '9'
}

/// The digit value of an ASCII digit or letter (letters count from 10).
pub open spec fn char_digit_value(c: char) -> nat {
    if '0' <= c <= '9' {
        (c as nat - '0' as nat) as nat
    } else if 'a' <= c <= 'z' {
        (c as nat - 'a' as nat + 10) as nat
    } else if 'A' <= c <= 'Z' {
        (c as nat - 'A' as nat + 10) as nat
    } else {
        0
    }
}

/// The value of the digits in `s` read in base `radix`, skipping separators.
pub open spec fn digits_value(s: Seq<char>, radix: nat) -> nat
    decreases s.len(),
{
    if s.len() == 0 {
        0
    } else if is_separator(s.last()) {
        digits_value(s.drop_last(), radix)
    } else {
        digits_value(s.drop_last(), radix) * radix + char_digit_value(s.last())
    }
}

/// What `BigUint::from_str` (base 10) accepts and returns: an optional leading
/// `+` (not followed by another `+`), then decimal digits and `_`, not starting
/// with `_`, at least one character.
pub open spec fn decimal_biguint(s: Seq<char>) -> Option<nat> {
    let t = if s.len() > 0 && s[0] == '+' && !(s.len() > 1 && s[1] == '+') {
        s.drop_first()
    } else {
        s
    };
    if t.len() == 0 || t[0] == '_' || !(forall|i: int|
        0 <= i < t.len() ==> is_dec_digit(#[trigger] t[i]) || t[i] == '_') {
        None
    } else {
        Some(digits_value(t, 10))
    }
}

/// A natural number of any size.
pub struct BigNat {
    limbs: Vec<u32>,
}

impl View for BigNat {
    type V = nat;

    closed spec fn view(&self) -> nat {
        limbs_value(self.limbs@)
    }
}

impl BigNat {
    /// The number `v`.
    pub fn from_u32(v: u32) -> (r: BigNat)
        ensures
            r@ == v as nat,
    {
        let r = BigNat { limbs: vec![v] };
        assert(r.limbs@.drop_first() =~= Seq::<u32>::empty());
        assert(limbs_value(r.limbs@.drop_first()) == 0);
        r
    }

    /// The number in decimal.
    pub fn to_decimal_string(&self) -> (r: String)
        ensures
            r@ == radix_string(self@, 10),
    {
        big_to_decimal_string(self)
    }
}

/// Sum `a + b`, by `BigUint`'s `Add`.
#[verifier::external_body]
pub(crate) fn big_add(a: &BigNat, b: &BigNat) -> (r: BigNat)
    ensures
        r@ == a@ + b@,
{
    BigNat { limbs: (BigUint::new(a.limbs.clone()) + BigUint::new(b.limbs.clone())).to_u32_digits() }
}

/// Product `a * b`, by `BigUint`'s `Mul`.
#[verifier::external_body]
pub(crate) fn big_mul(a: &BigNat, b: &BigNat) -> (r: BigNat)
    ensures
        r@ == a@ * b@,
{
    BigNat { limbs: (BigUint::new(a.limbs.clone()) * BigUint::new(b.limbs.clone())).to_u32_digits() }
}

/// Difference `a - b`, by `BigUint`'s `Sub`, which panics when `b > a`.
#[verifier::external_body]
pub(crate) fn big_sub(a: &BigNat, b: &BigNat) -> (r: BigNat)
    requires
        b@ <= a@,
    ensures
        r@ == a@ - b@,
{
    BigNat { limbs: (BigUint::new(a.limbs.clone()) - BigUint::new(b.limbs.clone())).to_u32_digits() }
}

/// Left shift `a << shift`, by `BigUint`'s `Shl<usize>`: `a * 2^shift`.
#[verifier::external_body]
pub(crate) fn big_shl(a: &BigNat, shift: u32) -> (r: BigNat)
    ensures
        r@ == a@ * two_pow(shift as nat),
{
    BigNat { limbs: (BigUint::new(a.limbs.clone()) << (shift as usize)).to_u32_digits() }
}

/// Bitwise AND `a & b`, by `BigUint`'s `BitAnd`.
#[verifier::external_body]
pub(crate) fn big_bitand(a: &BigNat, b: &BigNat) -> (r: BigNat)
    ensures
        r@ == bit_and(a@, b@),
{
    BigNat { limbs: (BigUint::new(a.limbs.clone()) & BigUint::new(b.limbs.clone())).to_u32_digits() }
}

/// Quotient `a / b`, by `BigUint`'s `Div`, which panics on a zero divisor.
#[verifier::external_body]
pub(crate) fn big_div(a: &BigNat, b: &BigNat) -> (r: BigNat)
    requires
        b@ > 0,
    ensures
        r@ == a@ / b@,
{
    BigNat { limbs: (BigUint::new(a.limbs.clone()) / BigUint::new(b.limbs.clone())).to_u32_digits() }
}

/// Remainder `a % b`, by `BigUint`'s `Rem`, which panics on a zero divisor.
#[verifier::external_body]
pub(crate) fn big_rem(a: &BigNat, b: &BigNat) -> (r: BigNat)
    requires
        b@ > 0,
    ensures
        r@ == a@ % b@,
{
    BigNat { limbs: (BigUint::new(a.limbs.clone()) % BigUint::new(b.limbs.clone())).to_u32_digits() }
}

/// Whether `a <= b`, by `BigUint`'s `PartialOrd::le`.
#[verifier::external_body]
pub(crate) fn big_le(a: &BigNat, b: &BigNat) -> (r: bool)
    ensures
        r == (a@ <= b@),
{
    BigUint::new(a.limbs.clone()) <= BigUint::new(b.limbs.clone())
}

/// Whether `a == b`, by `BigUint`'s `PartialEq::eq`.
#[verifier::external_body]
pub(crate) fn big_eq(a: &BigNat, b: &BigNat) -> (r: bool)
    ensures
        r == (a@ == b@),
{
    BigUint::new(a.limbs.clone()) == BigUint::new(b.limbs.clone())
}

/// Number of significant bits, by `BigUint::bits`.
#[verifier::external_body]
pub(crate) fn big_bits(a: &BigNat) -> (r: u64)
    ensures
        r as nat == bit_length(a@),
{
    BigUint::new(a.limbs.clone()).bits()
}

/// `a` in base `radix`, by `BigUint::to_str_radix`, which panics outside 2..=36.
#[verifier::external_body]
pub(crate) fn big_to_str_radix(a: &BigNat, radix: u32) -> (r: String)
    requires
        2 <= radix <= 36,
    ensures
        r@ == radix_string(a@, radix as nat),
{
    BigUint::new(a.limbs.clone()).to_str_radix(radix)
}

/// `a` in decimal, by `BigUint`'s `Display` (through `ToString`).
#[verifier::external_body]
pub(crate) fn big_to_decimal_string(a: &BigNat) -> (r: String)
    ensures
        r@ == radix_string(a@, 10),
{
    BigUint::new(a.limbs.clone()).to_string()
}

/// Parses a decimal number, by `BigUint`'s `FromStr`.
#[verifier::external_body]
pub(crate) fn big_from_decimal_str(s: &str) -> (r: Option<BigNat>)
    ensures
        r matches Some(v) ==> decimal_biguint(s@) == Some(v@),
        r is None ==> decimal_biguint(s@) is None,
{
    match s.parse::<BigUint>() {
        Ok(b) => Some(BigNat { limbs: b.to_u32_digits() }),
        Err(_) => None,
    }
}

} // verus!

//! Recognising values that a `BIT(n)`, `GENMASK(h, l)` or `SZ_*` macro can
//! express, and writing those macros.

use crate::bignat::{
    is_dec_digit,
    big_bitand, big_bits, big_div, big_eq, big_le, big_rem, big_shl, big_sub, big_to_decimal_string,
    big_to_str_radix, bit_and, bit_length, digits_value, radix_string, two_pow, BigNat,
};
use crate::text::{append_chars, chars_of, decimal_chars, first_index_from, lemma_first_index_from};
use vstd::prelude::*;

verus! {

/// What `is_power_of_two` tests: `v > 0` and `v & (v - 1) == 0`.
pub open spec fn power_of_two_test(v: nat) -> bool {
    v > 0 && bit_and(v, (v - 1) as nat) == 0
}

/// Whether `value` is a power of two, tested as `value > 0 && value & (value - 1) == 0`.
pub fn is_power_of_two(value: &BigNat) -> (r: bool)
    ensures
        r == power_of_two_test(value@),
{
    let zero = BigNat::from_u32(0);
    if big_le(value, &zero) {
        return false;
    }
    let one = BigNat::from_u32(1);
    let below = big_sub(value, &one);
    let masked = big_bitand(value, &below);
    big_eq(&masked, &zero)
}

/// Index of the highest set bit: the bit length minus one.
pub fn highest_set_bit(value: &BigNat) -> (r: u64)
    requires
        value@ > 0,
    ensures
        r as nat == bit_length(value@) - 1,
{
    proof {
        lemma_bit_length_pos(value@);
    }
    big_bits(value) - 1
}

/// The bit range of a value whose binary form is a run of ones followed by zeros.
#[derive(Clone, Copy, PartialEq, Eq, Debug, Structural)]
pub struct BitRange {
    pub highest: usize,
    pub lowest: usize,
}

/// The index of the last `c` in `s` before position `n`.
pub open spec fn last_index_before(s: Seq<char>, c: char, n: int) -> Option<int>
    decreases n,
{
    if n <= 0 || n > s.len() {
        None
    } else if s[n - 1] == c {
        Some(n - 1)
    } else {
        last_index_before(s, c, n - 1)
    }
}

/// What `consecutive_set_bit_range` returns: with `bits` the binary form of `v`,
/// the first `0` must come after the last `1`; then the range spans from the top
/// bit down to the lowest one.
pub open spec fn set_bit_range(v: nat) -> Option<(nat, nat)> {
    let bits = radix_string(v, 2);
    match (first_index_from(bits, '0', 0), last_index_before(bits, '1', bits.len() as int)) {
        (Some(first_zero), Some(last_one)) => if first_zero <= last_one {
            None
        } else {
            Some(((bits.len() - 1) as nat, (bits.len() - last_one - 1) as nat))
        },
        _ => None,
    }
}

/// Finds the range of a value whose binary form is ones followed by at least one zero.
pub fn consecutive_set_bit_range(value: &BigNat) -> (r: Option<BitRange>)
    ensures
        r matches Some(b) ==> set_bit_range(value@) == Some((b.highest as nat, b.lowest as nat)),
        r is None ==> set_bit_range(value@) is None,
{
    let bits_string = big_to_str_radix(value, 2);
    let bits = chars_of(bits_string.as_str());
    let ghost s = bits@;
    let n = bits.len();
    let mut i: usize = 0;
    while i < n && bits[i] != '0'
        invariant
            n == s.len(),
            s == bits@,
            i <= n,
            first_index_from(s, '0', 0) == first_index_from(s, '0', i as int),
        decreases n - i,
    {
        i += 1;
    }
    if i == n {
        return None;
    }
    let first_zero = i;
    let mut j: usize = n;
    while j > 0 && bits[j - 1] != '1'
        invariant
            n == s.len(),
            s == bits@,
            j <= n,
            last_index_before(s, '1', n as int) == last_index_before(s, '1', j as int),
        decreases j,
    {
        j -= 1;
    }
    if j == 0 {
        return None;
    }
    let last_one = j - 1;
    if first_zero <= last_one {
        return None;
    }
    Some(BitRange { highest: n - 1, lowest: n - last_one - 1 })
}

/// The shift of the `i`-th size unit, largest first: E, P, T, G, M, K.
pub open spec fn size_unit_shift(i: nat) -> nat {
    (60 - 10 * i) as nat
}

/// The suffix letter of the `i`-th size unit.
pub open spec fn size_unit_suffix(i: nat) -> char {
    if i == 0 {
        'E'
    } else if i == 1 {
        'P'
    } else if i == 2 {
        'T'
    } else if i == 3 {
        'G'
    } else if i == 4 {
        'M'
    } else {
        'K'
    }
}

/// `SZ_`
pub open spec fn sz_prefix() -> Seq<char> {
    seq!['S', 'Z', '_']
}

/// The first size unit, from the `i`-th on, that divides `v` into at most 512 units.
pub open spec fn size_macro_from(v: nat, i: nat) -> Option<Seq<char>>
    decreases 6 - i,
{
    if i >= 6 {
        None
    } else {
        let unit = two_pow(size_unit_shift(i));
        if v >= unit && v % unit == 0 && v / unit <= 512 {
            Some(sz_prefix() + radix_string(v / unit, 10) + seq![size_unit_suffix(i)])
        } else {
            size_macro_from(v, i + 1)
        }
    }
}

/// What `format_size_macro` returns: `SZ_<v>` up to 512, else `SZ_<n><unit>`
/// for the largest unit that divides `v` into at most 512 of it.
pub open spec fn size_macro(v: nat) -> Option<Seq<char>> {
    if v <= 512 {
        Some(sz_prefix() + radix_string(v, 10))
    } else {
        size_macro_from(v, 0)
    }
}

fn size_unit(i: usize) -> (r: (u32, char))
    requires
        i < 6,
    ensures
        r.0 as nat == size_unit_shift(i as nat),
        r.1 == size_unit_suffix(i as nat),
{
    if i == 0 {
        (60, 'E')
    } else if i == 1 {
        (50, 'P')
    } else if i == 2 {
        (40, 'T')
    } else if i == 3 {
        (30, 'G')
    } else if i == 4 {
        (20, 'M')
    } else {
        (10, 'K')
    }
}

fn sz_prefix_chars() -> (v: Vec<char>)
    ensures
        v@ == sz_prefix(),
{
    let mut v = Vec::new();
    v.push('S');
    v.push('Z');
    v.push('_');
    assert(v@ =~= sz_prefix());
    v
}

/// The `SZ_*` macro for `value`, if there is one.
pub fn format_size_macro(value: &BigNat) -> (r: Option<Vec<char>>)
    ensures
        r matches Some(m) ==> size_macro(value@) == Some(m@),
        r is None ==> size_macro(value@) is None,
{
    let limit = BigNat::from_u32(512);
    if big_le(value, &limit) {
        let mut out = sz_prefix_chars();
        let digits = big_to_decimal_string(value);
        let digit_chars = chars_of(digits.as_str());
        append_chars(&mut out, digit_chars.as_slice());
        return Some(out);
    }
    let one = BigNat::from_u32(1);
    let mut i: usize = 0;
    while i < 6
        invariant
            i <= 6,
            limit@ == 512,
            one@ == 1,
            size_macro(value@) == size_macro_from(value@, i as nat),
            value@ > 512,
        decreases 6 - i,
    {
        let (shift, suffix) = size_unit(i);
        let unit = big_shl(&one, shift);
        proof {
            lemma_two_pow_pos(shift as nat);
        }
        let zero = BigNat::from_u32(0);
        if big_le(&unit, value) {
            let rem = big_rem(value, &unit);
            if big_eq(&rem, &zero) {
                let size = big_div(value, &unit);
                if big_le(&size, &limit) {
                    let mut out = sz_prefix_chars();
                    let digits = big_to_decimal_string(&size);
                    let digit_chars = chars_of(digits.as_str());
                    append_chars(&mut out, digit_chars.as_slice());
                    out.push(suffix);
                    return Some(out);
                }
            }
        }
        i += 1;
    }
    None
}

/// `BIT(`
pub open spec fn bit_open() -> Seq<char> {
    seq!['B', 'I', 'T', '(']
}

/// `GENMASK(`
pub open spec fn genmask_open() -> Seq<char> {
    seq!['G', 'E', 'N', 'M', 'A', 'S', 'K', '(']
}

/// `BIT(<bit>)`
pub open spec fn bit_macro_text(bit: nat) -> Seq<char> {
    bit_open() + radix_string(bit, 10) + seq![')']
}

/// `GENMASK(<high>, <low>)`
pub open spec fn genmask_macro_text(high: nat, low: nat) -> Seq<char> {
    genmask_open() + radix_string(high, 10) + seq![',', ' '] + radix_string(low, 10) + seq![')']
}

/// What `format_macro` returns: nothing for zero; `BIT(n)`, with the size macro
/// in a comment when there is one, for a power of two; `GENMASK(h, l)` for a run
/// of ones followed by zeros; nothing otherwise.
pub open spec fn macro_text(v: nat) -> Option<Seq<char>> {
    if v == 0 {
        None
    } else if power_of_two_test(v) {
        let bit = (bit_length(v) - 1) as nat;
        match size_macro(v) {
            Some(m) => Some(
                bit_macro_text(bit) + seq![' ', ' ', '/', '*', ' '] + m + seq![' ', '*', '/'],
            ),
            None => Some(bit_macro_text(bit)),
        }
    } else {
        match set_bit_range(v) {
            Some((high, low)) => Some(genmask_macro_text(high, low)),
            None => None,
        }
    }
}

/// `BIT(<bit>)` as characters.
pub fn bit_macro_chars(bit: u64) -> (v: Vec<char>)
    ensures
        v@ == bit_macro_text(bit as nat),
{
    let mut v = Vec::new();
    v.push('B');
    v.push('I');
    v.push('T');
    v.push('(');
    let digits = decimal_chars(bit);
    append_chars(&mut v, digits.as_slice());
    v.push(')');
    assert(v@ =~= bit_macro_text(bit as nat));
    v
}

/// `GENMASK(<high>, <low>)` as characters.
pub fn genmask_macro_chars(high: u64, low: u64) -> (v: Vec<char>)
    ensures
        v@ == genmask_macro_text(high as nat, low as nat),
{
    let mut v = Vec::new();
    v.push('G');
    v.push('E');
    v.push('N');
    v.push('M');
    v.push('A');
    v.push('S');
    v.push('K');
    v.push('(');
    let high_digits = decimal_chars(high);
    append_chars(&mut v, high_digits.as_slice());
    v.push(',');
    v.push(' ');
    let low_digits = decimal_chars(low);
    append_chars(&mut v, low_digits.as_slice());
    v.push(')');
    assert(v@ =~= genmask_macro_text(high as nat, low as nat));
    v
}

/// The macro that writes `value`, if any.
pub fn format_macro(value: &BigNat) -> (r: Option<Vec<char>>)
    ensures
        r matches Some(m) ==> macro_text(value@) == Some(m@),
        r is None ==> macro_text(value@) is None,
{
    let zero = BigNat::from_u32(0);
    if big_eq(value, &zero) {
        return None;
    }
    if is_power_of_two(value) {
        let bit = highest_set_bit(value);
        let mut out = bit_macro_chars(bit);
        match format_size_macro(value) {
            Some(size_macro) => {
                out.push(' ');
                out.push(' ');
                out.push('/');
                out.push('*');
                out.push(' ');
                append_chars(&mut out, size_macro.as_slice());
                out.push(' ');
                out.push('*');
                out.push('/');
                assert(out@ =~= bit_macro_text(bit as nat) + seq![' ', ' ', '/', '*', ' ']
                    + size_macro@ + seq![' ', '*', '/']);
                Some(out)
            },
            None => Some(out),
        }
    } else {
        match consecutive_set_bit_range(value) {
            Some(range) => Some(genmask_macro_chars(range.highest as u64, range.lowest as u64)),
            None => None,
        }
    }
}

/// `bit_length` of a positive number is positive.
pub proof fn lemma_bit_length_pos(v: nat)
    requires
        v > 0,
    ensures
        bit_length(v) >= 1,
{
}

/// Powers of two are positive.
pub proof fn lemma_two_pow_pos(n: nat)
    ensures
        two_pow(n) > 0,
    decreases n,
{
    if n > 0 {
        lemma_two_pow_pos((n - 1) as nat);
    }
}

/// `m & m == m`.
pub proof fn lemma_bit_and_self(m: nat)
    ensures
        bit_and(m, m) == m,
    decreases m,
{
    if m > 0 {
        lemma_bit_and_self(m / 2);
    }
}

/// A power of two passes `power_of_two_test`, and its highest bit is its exponent.
pub proof fn lemma_two_pow_test(k: nat)
    ensures
        power_of_two_test(two_pow(k)),
        bit_length(two_pow(k)) == k + 1,
    decreases k,
{
    lemma_two_pow_pos(k);
    if k > 0 {
        let w = two_pow((k - 1) as nat);
        lemma_two_pow_test((k - 1) as nat);
        let v = two_pow(k);
        assert(v == 2 * w);
        assert(v / 2 == w);
        assert(((v - 1) as nat) / 2 == (w - 1) as nat);
        assert(bit_and(v, (v - 1) as nat) == 2 * bit_and(w, (w - 1) as nat));
    } else {
        assert(bit_length(0) == 0);
    }
}

/// A value that passes `power_of_two_test` is two to the power of its highest bit.
pub proof fn lemma_test_two_pow(v: nat)
    requires
        power_of_two_test(v),
    ensures
        v == two_pow((bit_length(v) - 1) as nat),
    decreases v,
{
    if v == 1 {
        assert(bit_length(0) == 0);
    } else if v % 2 == 1 {
        let m = v / 2;
        lemma_bit_and_self(m);
        assert(((v - 1) as nat) / 2 == m);
        assert(((v - 1) as nat) % 2 == 0);
        assert(bit_and(v, (v - 1) as nat) == 2 * bit_and(m, m));
        assert(false);
    } else {
        let m = v / 2;
        assert(m >= 1);
        assert(((v - 1) as nat) / 2 == (m - 1) as nat);
        assert(bit_and(v, (v - 1) as nat) == 2 * bit_and(m, (m - 1) as nat));
        lemma_test_two_pow(m);
        lemma_bit_length_pos(m);
        assert(bit_length(v) == 1 + bit_length(m));
        assert(two_pow(bit_length(m)) == 2 * two_pow((bit_length(m) - 1) as nat));
    }
}

/// `power_of_two_test(v)` holds exactly when `v` is a power of two, and then
/// `highest_set_bit` is the exponent: the `BIT(n)` shown for `v` denotes `v`.
pub proof fn law_power_of_two(v: nat)
    ensures
        power_of_two_test(v) <==> exists|k: nat| v == two_pow(k),
        power_of_two_test(v) ==> v == two_pow((bit_length(v) - 1) as nat),
{
    if power_of_two_test(v) {
        lemma_test_two_pow(v);
    }
    if exists|k: nat| v == two_pow(k) {
        let k = choose|k: nat| v == two_pow(k);
        lemma_two_pow_test(k);
    }
}

/// Every character of a binary form is `0` or `1`.
pub proof fn lemma_binary_chars(v: nat)
    ensures
        forall|i: int|
            0 <= i < radix_string(v, 2).len() ==> #[trigger] radix_string(v, 2)[i] == '0'
                || radix_string(v, 2)[i] == '1',
    decreases v,
{
    if v >= 2 {
        lemma_binary_chars(v / 2);
        let t = radix_string(v / 2, 2);
        let s = radix_string(v, 2);
        assert(s == t.push(crate::bignat::digit_char(v % 2)));
        assert forall|i: int| 0 <= i < s.len() implies #[trigger] s[i] == '0' || s[i] == '1' by {
            if i < t.len() {
                assert(s[i] == t[i]);
            }
        }
    }
}

/// After the last `c` found before `n`, up to `n`, no character is `c`.
pub proof fn lemma_last_index_before(s: Seq<char>, c: char, n: int)
    requires
        n <= s.len(),
        last_index_before(s, c, n) is Some,
    ensures
        ({
            let l = last_index_before(s, c, n)->0;
            &&& 0 <= l < n
            &&& s[l] == c
            &&& forall|k: int| l < k < n ==> s[k] != c
        }),
    decreases n,
{
    if s[n - 1] != c {
        lemma_last_index_before(s, c, n - 1);
    }
}

/// `a` ones followed by `b` zeros, read in binary, is `(2^a - 1) * 2^b`.
pub proof fn lemma_ones_zeros_value(a: nat, b: nat)
    ensures
        digits_value(Seq::new(a, |i: int| '1') + Seq::new(b, |i: int| '0'), 2) == (two_pow(a) - 1)
            * two_pow(b),
    decreases a + b,
{
    let s = Seq::new(a, |i: int| '1') + Seq::new(b, |i: int| '0');
    lemma_two_pow_pos(a);
    if b > 0 {
        lemma_ones_zeros_value(a, (b - 1) as nat);
        assert(s.drop_last() =~= Seq::new(a, |i: int| '1') + Seq::new((b - 1) as nat, |i: int| '0'));
        assert(s.last() == '0');
        assert(crate::bignat::char_digit_value('0') == 0);
        assert(digits_value(s, 2) == digits_value(s.drop_last(), 2) * 2);
        assert(two_pow(b) == 2 * two_pow((b - 1) as nat));
        assert((two_pow(a) - 1) * two_pow((b - 1) as nat) * 2 == (two_pow(a) - 1) * two_pow(b))
            by (nonlinear_arith)
            requires
                two_pow(b) == 2 * two_pow((b - 1) as nat),
        ;
        assert(digits_value(s, 2) == (two_pow(a) - 1) * two_pow(b));
    } else if a > 0 {
        lemma_ones_zeros_value((a - 1) as nat, 0);
        assert(s.drop_last() =~= Seq::new((a - 1) as nat, |i: int| '1') + Seq::new(0, |i: int| '0'));
        assert(s.last() == '1');
        assert(crate::bignat::char_digit_value('1') == 1);
        assert(digits_value(s, 2) == digits_value(s.drop_last(), 2) * 2 + 1);
        assert(two_pow(a) == 2 * two_pow((a - 1) as nat));
        assert(two_pow(0) == 1);
        assert(b == 0 && two_pow(b) == 1);
        lemma_two_pow_pos((a - 1) as nat);
        let p = two_pow((a - 1) as nat);
        assert(digits_value(s.drop_last(), 2) == (p - 1) * 1);
        assert((two_pow(a) - 1) * two_pow(b) == two_pow(a) - 1) by (nonlinear_arith)
            requires
                two_pow(b) == 1,
        ;
    } else {
        assert(s =~= Seq::<char>::empty());
        assert(two_pow(0) == 1);
        assert(digits_value(s, 2) == 0);
        assert((two_pow(a) - 1) * two_pow(b) == 0) by (nonlinear_arith)
            requires
                two_pow(a) == 1,
        ;
    }
}

/// When `consecutive_set_bit_range` finds `(high, low)`, the value is the mask of
/// bits `low..=high`, the value that `GENMASK(high, low)` denotes.
pub proof fn law_set_bit_range_is_mask(v: nat)
    ensures
        set_bit_range(v) matches Some((high, low)) ==> low <= high && v == (two_pow(
            (high - low + 1) as nat,
        ) - 1) * two_pow(low),
{
    let s = radix_string(v, 2);
    if let Some((high, low)) = set_bit_range(v) {
        let f = first_index_from(s, '0', 0)->0;
        let o = last_index_before(s, '1', s.len() as int)->0;
        lemma_first_index_from(s, '0', 0);
        lemma_last_index_before(s, '1', s.len() as int);
        lemma_binary_chars(v);
        let a = (o + 1) as nat;
        let b = (s.len() - o - 1) as nat;
        let t = Seq::new(a, |i: int| '1') + Seq::new(b, |i: int| '0');
        assert forall|i: int| 0 <= i < s.len() implies s[i] == t[i] by {
            if i <= o {
                assert(s[i] != '0');
            } else {
                assert(s[i] != '1');
            }
        }
        assert(s =~= t);
        lemma_ones_zeros_value(a, b);
        crate::literal::lemma_radix_string_reads_back(v, 2);
    }
}

/// The binary form of a non-zero `v` has `bit_length(v)` digits.
pub proof fn lemma_binary_len(v: nat)
    requires
        v > 0,
    ensures
        radix_string(v, 2).len() == bit_length(v),
    decreases v,
{
    if v >= 2 {
        lemma_binary_len(v / 2);
    } else {
        assert(bit_length(0) == 0);
    }
}

/// A size macro that ends in `K` counts kibibytes: it is `SZ_<n>K` with
/// `n * 1024` the value and `n` at most 512.
pub proof fn lemma_kibibyte_size_macro(v: nat)
    requires
        size_macro(v) is Some,
        size_macro(v)->0.last() == 'K',
    ensures
        ({
            let n = v / 1024;
            &&& n <= 512
            &&& v == n * 1024
            &&& size_macro(v)->0 == sz_prefix() + radix_string(n, 10) + seq!['K']
        }),
{
    if v <= 512 {
        let d = radix_string(v, 10);
        crate::literal::lemma_radix_string_digits(v, 10);
        assert((sz_prefix() + d).last() == d.last());
        assert(crate::literal::is_radix_digit(d[d.len() - 1], 10));
    } else {
        lemma_kibibyte_size_macro_from(v, 0);
    }
}

proof fn lemma_kibibyte_size_macro_from(v: nat, i: nat)
    requires
        i <= 6,
        size_macro_from(v, i) is Some,
        size_macro_from(v, i)->0.last() == 'K',
    ensures
        v / 1024 <= 512,
        v == (v / 1024) * 1024,
        size_macro_from(v, i)->0 == sz_prefix() + radix_string(v / 1024, 10) + seq!['K'],
    decreases 6 - i,
{
    let unit = two_pow(size_unit_shift(i));
    if v >= unit && v % unit == 0 && v / unit <= 512 {
        let m = sz_prefix() + radix_string(v / unit, 10) + seq![size_unit_suffix(i)];
        assert(m.last() == size_unit_suffix(i));
        assert(i == 5);
        assert(two_pow(10) == 1024) by {
            reveal_with_fuel(two_pow, 11);
        }
        assert(v == (v / 1024) * 1024) by (nonlinear_arith)
            requires
                v % 1024 == 0,
        ;
    } else {
        lemma_kibibyte_size_macro_from(v, i + 1);
    }
}

/// `n` ones followed by nothing: the characters `'1'` repeated `n` times.
pub open spec fn ones(n: nat) -> Seq<char> {
    Seq::new(n, |i: int| '1')
}

/// The characters `'0'` repeated `n` times.
pub open spec fn zeros(n: nat) -> Seq<char> {
    Seq::new(n, |i: int| '0')
}

/// The last `c` before `n` is at `k` when `s[k]` is `c` and none after it is.
proof fn lemma_last_index_at(s: Seq<char>, c: char, n: int, k: int)
    requires
        0 <= k < n <= s.len(),
        s[k] == c,
        forall|j: int| k < j < n ==> s[j] != c,
    ensures
        last_index_before(s, c, n) == Some(k),
    decreases n - k,
{
    if k < n - 1 {
        lemma_last_index_at(s, c, n - 1, k);
    }
}

/// `2^a - 1` in binary is `a` ones.
proof fn lemma_ones_binary(a: nat)
    requires
        a >= 1,
    ensures
        two_pow(a) >= 2,
        radix_string((two_pow(a) - 1) as nat, 2) == ones(a),
    decreases a,
{
    lemma_two_pow_pos(a);
    if a == 1 {
        assert(two_pow(1) == 2) by {
            assert(two_pow(0) == 1);
        }
        assert(radix_string(1, 2) == seq![crate::bignat::digit_char(1)]);
        assert(radix_string(1, 2) =~= ones(1));
    } else {
        lemma_ones_binary((a - 1) as nat);
        let w = (two_pow((a - 1) as nat) - 1) as nat;
        let v = (two_pow(a) - 1) as nat;
        assert(two_pow(a) == 2 * two_pow((a - 1) as nat));
        assert(v == 2 * w + 1);
        assert(v / 2 == w && v % 2 == 1);
        assert(radix_string(v, 2) == radix_string(w, 2).push(crate::bignat::digit_char(1)));
        assert(radix_string(v, 2) =~= ones(a));
    }
}

/// The mask of `a` ones shifted left by `b` is, in binary, `a` ones then `b` zeros.
pub proof fn lemma_mask_binary(a: nat, b: nat)
    requires
        a >= 1,
    ensures
        (two_pow(a) - 1) * two_pow(b) >= 1,
        radix_string(((two_pow(a) - 1) * two_pow(b)) as nat, 2) == ones(a) + zeros(b),
    decreases b,
{
    lemma_ones_binary(a);
    lemma_two_pow_pos(b);
    let m = (two_pow(a) - 1) as nat;
    assert(m * two_pow(b) >= 1) by (nonlinear_arith)
        requires
            m >= 1,
            two_pow(b) >= 1,
    ;
    if b == 0 {
        assert(two_pow(0) == 1);
        assert(m * 1 == m);
        assert(ones(a) + zeros(0) =~= ones(a));
    } else {
        lemma_mask_binary(a, (b - 1) as nat);
        let u = m * two_pow((b - 1) as nat);
        let v = m * two_pow(b);
        assert(two_pow(b) == 2 * two_pow((b - 1) as nat));
        assert(v == 2 * u) by (nonlinear_arith)
            requires
                v == m * two_pow(b),
                u == m * two_pow((b - 1) as nat),
                two_pow(b) == 2 * two_pow((b - 1) as nat),
        ;
        assert(v / 2 == u && v % 2 == 0);
        assert(v >= 2);
        assert(radix_string(v, 2) == radix_string(u, 2).push(crate::bignat::digit_char(0)));
        assert(radix_string(v, 2) =~= ones(a) + zeros(b));
    }
}

/// `GENMASK(high, low)` with `low >= 1` is written back as the same macro when
/// `high > low`, and as `BIT(low)` (a power of two) when `high == low`.
pub proof fn lemma_genmask_value_macro(high: nat, low: nat)
    requires
        1 <= low <= high,
    ensures
        high > low ==> macro_text(((two_pow((high - low + 1) as nat) - 1) * two_pow(low)) as nat)
            == Some(genmask_macro_text(high, low)),
        high == low ==> ((two_pow((high - low + 1) as nat) - 1) * two_pow(low)) as nat == two_pow(low),
{
    let a = (high - low + 1) as nat;
    let v = ((two_pow(a) - 1) * two_pow(low)) as nat;
    lemma_mask_binary(a, low);
    let bits = radix_string(v, 2);
    assert(bits.len() == a + low);
    if high == low {
        assert(two_pow(1) == 2) by {
            assert(two_pow(0) == 1);
        }
        assert(a == 1);
        assert(two_pow(a) - 1 == 1);
        assert(1 * two_pow(low) == two_pow(low));
        assert(v == two_pow(low));
    } else {
        assert(bits[a as int] == '0');
        crate::text::lemma_first_index_at(bits, '0', 0, a as int);
        lemma_last_index_at(bits, '1', bits.len() as int, a - 1);
        assert(set_bit_range(v) == Some((high, low)));
        if power_of_two_test(v) {
            law_power_of_two(v);
            let k = (bit_length(v) - 1) as nat;
            lemma_mask_binary(1, k);
            assert(two_pow(1) == 2) by {
                assert(two_pow(0) == 1);
            }
            assert((two_pow(1) - 1) * two_pow(k) == two_pow(k));
            assert(bits == ones(1) + zeros(k));
            assert(bits[1] == '1');
            assert((ones(1) + zeros(k))[1] == '0');
        }
    }
}

/// `2^n` is written back as a macro that starts with `BIT(n)`.
pub proof fn lemma_power_macro(n: nat)
    ensures
        macro_text(two_pow(n)) matches Some(m) && m.len() >= bit_macro_text(n).len() && m.take(
            bit_macro_text(n).len() as int,
        ) == bit_macro_text(n),
{
    lemma_two_pow_test(n);
    lemma_two_pow_pos(n);
    let b = bit_macro_text(n);
    match size_macro(two_pow(n)) {
        Some(s) => {
            let m = b + seq![' ', ' ', '/', '*', ' '] + s + seq![' ', '*', '/'];
            assert(m.take(b.len() as int) =~= b);
        },
        None => {
            assert(b.take(b.len() as int) =~= b);
        },
    }
}

/// The power of two that a size unit letter stands for: `K` 2^10, `M` 2^20,
/// `G` 2^30, `T` 2^40, `P` 2^50, `E` 2^60.
pub open spec fn unit_exponent(u: char) -> nat {
    if u == 'K' {
        10
    } else if u == 'M' {
        20
    } else if u == 'G' {
        30
    } else if u == 'T' {
        40
    } else if u == 'P' {
        50
    } else {
        60
    }
}

/// Whether `u` is one of the size unit letters `K`, `M`, `G`, `T`, `P`, `E`.
pub open spec fn unit_letter(u: char) -> bool {
    u == 'K' || u == 'M' || u == 'G' || u == 'T' || u == 'P' || u == 'E'
}

proof fn lemma_size_macro_from_denotes(v: nat, i: nat)
    requires
        i <= 6,
        size_macro_from(v, i) is Some,
    ensures
        ({
            let m = size_macro_from(v, i)->0;
            let u = m.last();
            let unit = two_pow(unit_exponent(u));
            &&& m.len() >= 1
            &&& unit_letter(u)
            &&& unit > 0
            &&& v % unit == 0
            &&& v / unit <= 512
            &&& m == sz_prefix() + radix_string(v / unit, 10) + seq![u]
        }),
    decreases 6 - i,
{
    let unit = two_pow(size_unit_shift(i));
    lemma_two_pow_pos(size_unit_shift(i));
    if v >= unit && v % unit == 0 && v / unit <= 512 {
        let u = size_unit_suffix(i);
        let m = sz_prefix() + radix_string(v / unit, 10) + seq![u];
        assert(m.last() == u);
        assert(unit_exponent(u) == size_unit_shift(i));
    } else {
        lemma_size_macro_from_denotes(v, i + 1);
    }
}

/// Every size macro stands for its value: `SZ_<n>` is `n` itself (at most 512),
/// and `SZ_<n><unit>` is `n` times the power of two its unit letter names.
pub proof fn law_size_macro_denotes(v: nat)
    ensures
        size_macro(v) matches Some(m) ==> if is_dec_digit(m.last()) {
            v <= 512 && m == sz_prefix() + radix_string(v, 10)
        } else {
            let u = m.last();
            let unit = two_pow(unit_exponent(u));
            &&& unit_letter(u)
            &&& v == (v / unit) * unit
            &&& v / unit <= 512
            &&& m == sz_prefix() + radix_string(v / unit, 10) + seq![u]
        },
{
    if v <= 512 {
        let d = radix_string(v, 10);
        crate::literal::lemma_radix_string_digits(v, 10);
        let m = sz_prefix() + d;
        assert(m.last() == d.last());
        assert(crate::literal::is_radix_digit(d[d.len() - 1], 10));
    } else if size_macro(v) is Some {
        lemma_size_macro_from_denotes(v, 0);
        let m = size_macro(v)->0;
        let u = m.last();
        let unit = two_pow(unit_exponent(u));
        assert(!is_dec_digit(u));
        assert(v == (v / unit) * unit) by (nonlinear_arith)
            requires
                unit > 0,
                v % unit == 0,
        ;
    }
}

} // verus!

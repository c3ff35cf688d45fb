//! Integer literals: binary, octal, hexadecimal and decimal, with `_` and `'`
//! separators and C integer suffixes.

use crate::bignat::{
    big_add, big_mul, char_digit_value, digit_char, digits_value, is_separator, radix_string, BigNat,
};
use vstd::prelude::*;

verus! {

/// Whether `c` may be part of a word under the cursor.
pub open spec fn name_char(c: char) -> bool {
    ||| 'a' <= c <= 'z'
    ||| 'A' <= c <= 'Z'
    ||| '0' <= c <= '9'
    ||| c == '_'
    ||| c == '\''
}

/// Whether `ch` may be part of a word under the cursor: an ASCII letter or
/// digit, `_`, or `'`.
pub fn is_name_char(ch: char) -> (r: bool)
    ensures
        r == name_char(ch),
{
    ('a' <= ch && ch <= 'z') || ('A' <= ch && ch <= 'Z') || ('0' <= ch && ch <= '9') || ch == '_'
        || ch == '\''
}

/// Whether `c` is a digit of base `radix` (2, 8, 10 or 16).
pub open spec fn is_radix_digit(c: char, radix: nat) -> bool {
    if radix == 16 {
        ||| '0' <= c <= '9'
        ||| 'a' <= c <= 'f'
        ||| 'A' <= c <= 'F'
    } else {
        '0' <= c && (c as nat) < ('0' as nat) + radix && radix <= 10
    }
}

/// `body` holds only digits of base `radix` and separators, and at least one digit.
pub open spec fn valid_digits(body: Seq<char>, radix: nat) -> bool {
    &&& forall|i: int| 0 <= i < body.len() ==> is_radix_digit(#[trigger] body[i], radix)
        || is_separator(body[i])
    &&& exists|i: int| 0 <= i < body.len() && is_radix_digit(#[trigger] body[i], radix)
}

/// The value of `body` as a literal body in base `radix`, if it is well formed.
pub open spec fn body_value(body: Seq<char>, radix: nat) -> Option<nat> {
    if valid_digits(body, radix) {
        Some(digits_value(body, radix))
    } else {
        None
    }
}

/// `0b`/`0B` followed by binary digits.
pub open spec fn binary_literal(s: Seq<char>) -> Option<nat> {
    if s.len() >= 3 && s[0] == '0' && (s[1] == 'b' || s[1] == 'B') {
        body_value(s.skip(2), 2)
    } else {
        None
    }
}

/// Where the digits of an octal literal start: after `0o`/`0O`, else after `0`.
pub open spec fn octal_body_start(s: Seq<char>) -> int {
    if s.len() > 2 && (s[1] == 'o' || s[1] == 'O') {
        2
    } else {
        1
    }
}

/// `0o`/`0O` or a lone leading `0`, followed by octal digits.
pub open spec fn octal_literal(s: Seq<char>) -> Option<nat> {
    if s.len() >= 2 && s[0] == '0' {
        body_value(s.skip(octal_body_start(s)), 8)
    } else {
        None
    }
}

/// `0x`/`0X` followed by hexadecimal digits.
pub open spec fn hex_literal(s: Seq<char>) -> Option<nat> {
    if s.len() >= 3 && s[0] == '0' && (s[1] == 'x' || s[1] == 'X') {
        body_value(s.skip(2), 16)
    } else {
        None
    }
}

/// Decimal digits.
pub open spec fn decimal_literal(s: Seq<char>) -> Option<nat> {
    if s.len() >= 1 {
        body_value(s, 10)
    } else {
        None
    }
}

/// How a number under the cursor was written.
#[derive(Clone, Copy, PartialEq, Eq, Debug, Structural)]
pub enum LiteralKind {
    Binary,
    Octal,
    Hex,
    Decimal,
    Macro,
}

/// A parsed literal: its value and notation.
pub struct ParseResult {
    pub big_num: BigNat,
    pub literal_kind: LiteralKind,
}

/// The digit value of an ASCII digit or letter.
pub fn digit_value(c: char) -> (d: u32)
    ensures
        d as nat == char_digit_value(c),
{
    if '0' <= c && c <= '9' {
        (c as u32) - ('0' as u32)
    } else if 'a' <= c && c <= 'z' {
        (c as u32) - ('a' as u32) + 10
    } else if 'A' <= c && c <= 'Z' {
        (c as u32) - ('A' as u32) + 10
    } else {
        0
    }
}

fn radix_digit(c: char, radix: u32) -> (r: bool)
    requires
        radix == 2 || radix == 8 || radix == 10 || radix == 16,
    ensures
        r == is_radix_digit(c, radix as nat),
{
    if radix == 16 {
        ('0' <= c && c <= '9') || ('a' <= c && c <= 'f') || ('A' <= c && c <= 'F')
    } else {
        '0' <= c && (c as u32) < ('0' as u32) + radix
    }
}

/// The value of `chars[start..]` as digits of base `radix` with separators, if
/// it holds only digits and separators and at least one digit.
fn parse_body(chars: &[char], start: usize, radix: u32) -> (r: Option<BigNat>)
    requires
        start <= chars.len(),
        radix == 2 || radix == 8 || radix == 10 || radix == 16,
    ensures
        r matches Some(v) ==> body_value(chars@.skip(start as int), radix as nat) == Some(v@),
        r is None ==> body_value(chars@.skip(start as int), radix as nat) is None,
{
    let ghost body = chars@.skip(start as int);
    let mut i = start;
    let mut any_digit = false;
    while i < chars.len()
        invariant
            start <= i <= chars.len(),
            body == chars@.skip(start as int),
            radix == 2 || radix == 8 || radix == 10 || radix == 16,
            forall|k: int| 0 <= k < i - start ==> is_radix_digit(#[trigger] body[k], radix as nat)
                || is_separator(body[k]),
            any_digit <==> exists|k: int| 0 <= k < i - start && is_radix_digit(#[trigger] body[k], radix as nat),
        decreases chars.len() - i,
    {
        let c = chars[i];
        assert(body[i - start] == c);
        if radix_digit(c, radix) {
            any_digit = true;
        } else if c != '_' && c != '\'' {
            assert(!valid_digits(body, radix as nat));
            return None;
        }
        i += 1;
    }
    if !any_digit {
        return None;
    }
    let base = BigNat::from_u32(radix);
    let mut acc = BigNat::from_u32(0);
    let mut j = start;
    while j < chars.len()
        invariant
            start <= j <= chars.len(),
            base@ == radix as nat,
            acc@ == digits_value(chars@.subrange(start as int, j as int), radix as nat),
        decreases chars.len() - j,
    {
        let c = chars[j];
        assert(chars@.subrange(start as int, j + 1).drop_last() =~= chars@.subrange(start as int, j as int));
        if c != '_' && c != '\'' {
            let d = BigNat::from_u32(digit_value(c));
            let scaled = big_mul(&acc, &base);
            acc = big_add(&scaled, &d);
        }
        j += 1;
    }
    assert(chars@.subrange(start as int, chars.len() as int) =~= body);
    Some(acc)
}

/// Parses `0b`/`0B` followed by binary digits and separators.
pub fn parse_binary(chars: &[char]) -> (r: Option<ParseResult>)
    ensures
        r matches Some(p) ==> binary_literal(chars@) == Some(p.big_num@) && p.literal_kind
            == LiteralKind::Binary,
        r is None ==> binary_literal(chars@) is None,
{
    if chars.len() < 3 {
        return None;
    }
    if chars[0] != '0' || (chars[1] != 'b' && chars[1] != 'B') {
        return None;
    }
    match parse_body(chars, 2, 2) {
        Some(big_num) => Some(ParseResult { big_num, literal_kind: LiteralKind::Binary }),
        None => None,
    }
}

/// Parses an octal literal: `0o`/`0O` or a lone leading `0`, then octal digits
/// and separators.
pub fn parse_octal(chars: &[char]) -> (r: Option<ParseResult>)
    ensures
        r matches Some(p) ==> octal_literal(chars@) == Some(p.big_num@) && p.literal_kind
            == LiteralKind::Octal,
        r is None ==> octal_literal(chars@) is None,
{
    if chars.len() < 2 {
        return None;
    }
    if chars[0] != '0' {
        return None;
    }
    let start: usize = if chars.len() > 2 && (chars[1] == 'o' || chars[1] == 'O') {
        2
    } else {
        1
    };
    match parse_body(chars, start, 8) {
        Some(big_num) => Some(ParseResult { big_num, literal_kind: LiteralKind::Octal }),
        None => None,
    }
}

/// Parses `0x`/`0X` followed by hexadecimal digits and separators.
pub fn parse_hex(chars: &[char]) -> (r: Option<ParseResult>)
    ensures
        r matches Some(p) ==> hex_literal(chars@) == Some(p.big_num@) && p.literal_kind
            == LiteralKind::Hex,
        r is None ==> hex_literal(chars@) is None,
{
    if chars.len() < 3 {
        return None;
    }
    if chars[0] != '0' || (chars[1] != 'x' && chars[1] != 'X') {
        return None;
    }
    match parse_body(chars, 2, 16) {
        Some(big_num) => Some(ParseResult { big_num, literal_kind: LiteralKind::Hex }),
        None => None,
    }
}

/// Parses decimal digits and separators.
pub fn parse_decimal(chars: &[char]) -> (r: Option<ParseResult>)
    ensures
        r matches Some(p) ==> decimal_literal(chars@) == Some(p.big_num@) && p.literal_kind
            == LiteralKind::Decimal,
        r is None ==> decimal_literal(chars@) is None,
{
    if chars.len() == 0 {
        return None;
    }
    assert(chars@.skip(0) =~= chars@);
    match parse_body(chars, 0, 10) {
        Some(big_num) => Some(ParseResult { big_num, literal_kind: LiteralKind::Decimal }),
        None => None,
    }
}

/// A digit written by `digit_char` reads back as itself.
pub proof fn lemma_digit_char_value(d: nat)
    requires
        d < 36,
    ensures
        char_digit_value(digit_char(d)) == d,
        d < 10 ==> '0' <= digit_char(d) <= '9',
        10 <= d ==> 'a' <= digit_char(d) <= 'z',
        10 <= d < 16 ==> 'a' <= digit_char(d) <= 'f',
        d < 8 ==> (digit_char(d) as nat) < ('0' as nat) + 8,
        d < 2 ==> (digit_char(d) as nat) < ('0' as nat) + 2,
{
    let c = digit_char(d);
    if d < 10 {
        assert(c as nat == '0' as nat + d);
    } else {
        assert(c as nat == 'a' as nat + d - 10);
    }
}

/// The `i`-th integer suffix that `strip_integer_suffix` tries, in order.
pub open spec fn integer_suffix(i: int) -> Seq<char> {
    if i == 0 {
        seq!['l', 'l', 'u']
    } else if i == 1 {
        seq!['u', 'l', 'l']
    } else if i == 2 {
        seq!['l', 'u']
    } else if i == 3 {
        seq!['u', 'l']
    } else if i == 4 {
        seq!['u']
    } else if i == 5 {
        seq!['L', 'L', 'U']
    } else if i == 6 {
        seq!['U', 'L', 'L']
    } else if i == 7 {
        seq!['L', 'U']
    } else if i == 8 {
        seq!['U', 'L']
    } else {
        seq!['U']
    }
}

fn integer_suffix_chars(i: usize) -> (v: Vec<char>)
    requires
        i < 10,
    ensures
        v@ == integer_suffix(i as int),
{
    let v = if i == 0 {
        vec!['l', 'l', 'u']
    } else if i == 1 {
        vec!['u', 'l', 'l']
    } else if i == 2 {
        vec!['l', 'u']
    } else if i == 3 {
        vec!['u', 'l']
    } else if i == 4 {
        vec!['u']
    } else if i == 5 {
        vec!['L', 'L', 'U']
    } else if i == 6 {
        vec!['U', 'L', 'L']
    } else if i == 7 {
        vec!['L', 'U']
    } else if i == 8 {
        vec!['U', 'L']
    } else {
        vec!['U']
    };
    assert(v@ =~= integer_suffix(i as int));
    v
}

/// Whether `s` ends with `suffix`.
pub open spec fn ends_with(s: Seq<char>, suffix: Seq<char>) -> bool {
    suffix.len() <= s.len() && s.skip(s.len() - suffix.len()) == suffix
}

/// `s` without the first of the integer suffixes, from the `i`-th on, that it ends with.
pub open spec fn strip_suffix_from(s: Seq<char>, i: int) -> Seq<char>
    decreases 10 - i,
{
    if i < 0 || i >= 10 {
        s
    } else if ends_with(s, integer_suffix(i)) {
        s.take(s.len() - integer_suffix(i).len())
    } else {
        strip_suffix_from(s, i + 1)
    }
}

/// What `strip_integer_suffix` returns: `s` without the first of `llu`, `ull`,
/// `lu`, `ul`, `u`, `LLU`, `ULL`, `LU`, `UL`, `U` that it ends with.
pub open spec fn stripped_integer(s: Seq<char>) -> Seq<char> {
    strip_suffix_from(s, 0)
}

/// Removes a C integer suffix (`u`, `ul`, `ull`, `lu`, `llu`, in lower or upper case).
pub fn strip_integer_suffix(word: &str) -> (r: &str)
    ensures
        r@ == stripped_integer(word@),
{
    let chars = crate::text::chars_of(word);
    let n = chars.len();
    let mut i: usize = 0;
    while i < 10
        invariant
            i <= 10,
            chars@ == word@,
            n == chars.len(),
            stripped_integer(word@) == strip_suffix_from(word@, i as int),
        decreases 10 - i,
    {
        let suffix = integer_suffix_chars(i);
        if suffix.len() <= n && crate::text::occurs_at(chars.as_slice(), suffix.as_slice(), n - suffix.len()) {
            assert(chars@.subrange(n - suffix.len(), n as int) =~= chars@.skip(n - suffix.len()));
            return word.substring_char(0, n - suffix.len());
        }
        proof {
            if suffix.len() <= n {
                assert(chars@.subrange(n - suffix.len(), n as int) =~= chars@.skip(n - suffix.len()));
            }
        }
        i += 1;
    }
    word
}

/// `s` without `_` and `'` separators.
pub open spec fn drop_separators(s: Seq<char>) -> Seq<char>
    decreases s.len(),
{
    if s.len() == 0 {
        s
    } else if is_separator(s.last()) {
        drop_separators(s.drop_last())
    } else {
        drop_separators(s.drop_last()).push(s.last())
    }
}

/// Separators do not change the value of digits.
pub proof fn lemma_drop_separators_value(s: Seq<char>, radix: nat)
    ensures
        digits_value(drop_separators(s), radix) == digits_value(s, radix),
    decreases s.len(),
{
    if s.len() > 0 {
        lemma_drop_separators_value(s.drop_last(), radix);
        if !is_separator(s.last()) {
            let d = drop_separators(s.drop_last());
            assert(d.push(s.last()).drop_last() =~= d);
        }
    }
}

/// The characters of `s` without `_` and `'` separators.
pub fn remove_separators(s: &[char]) -> (r: Vec<char>)
    ensures
        r@ == drop_separators(s@),
{
    let mut r = Vec::new();
    let mut i: usize = 0;
    while i < s.len()
        invariant
            i <= s.len(),
            r@ == drop_separators(s@.take(i as int)),
        decreases s.len() - i,
    {
        assert(s@.take(i + 1).drop_last() =~= s@.take(i as int));
        if s[i] != '_' && s[i] != '\'' {
            r.push(s[i]);
        }
        i += 1;
    }
    assert(s@.take(s.len() as int) =~= s@);
    r
}

/// The value and notation of a literal: binary, else octal, else hexadecimal,
/// else decimal.
pub open spec fn literal_value(s: Seq<char>) -> Option<(nat, LiteralKind)> {
    match binary_literal(s) {
        Some(v) => Some((v, LiteralKind::Binary)),
        None => match octal_literal(s) {
            Some(v) => Some((v, LiteralKind::Octal)),
            None => match hex_literal(s) {
                Some(v) => Some((v, LiteralKind::Hex)),
                None => match decimal_literal(s) {
                    Some(v) => Some((v, LiteralKind::Decimal)),
                    None => None,
                },
            },
        },
    }
}

/// The digits of `radix_string(v, radix)` are digits of that base and read back as `v`.
pub proof fn lemma_radix_string_reads_back(v: nat, radix: nat)
    requires
        radix == 2 || radix == 8 || radix == 10 || radix == 16,
    ensures
        valid_digits(radix_string(v, radix), radix),
        digits_value(radix_string(v, radix), radix) == v,
    decreases v,
{
    let s = radix_string(v, radix);
    if v < radix {
        let c = digit_char(v);
        lemma_digit_char_value(v);
        assert(s == seq![c]);
        assert(s.drop_last() =~= Seq::<char>::empty());
        assert(is_radix_digit(s[0], radix));
        assert(s.last() == c && !is_separator(c));
        assert(digits_value(s, radix) == digits_value(s.drop_last(), radix) * radix
            + char_digit_value(c));
    } else {
        lemma_radix_string_reads_back(v / radix, radix);
        let t = radix_string(v / radix, radix);
        let c = digit_char(v % radix);
        lemma_digit_char_value(v % radix);
        assert(s == t.push(c));
        assert(s.drop_last() =~= t);
        assert(is_radix_digit(c, radix));
        assert(s.last() == c && !is_separator(c));
        assert(digits_value(s, radix) == digits_value(t, radix) * radix + char_digit_value(c));
        assert forall|i: int| 0 <= i < s.len() implies is_radix_digit(#[trigger] s[i], radix)
            || is_separator(s[i]) by {
            if i < t.len() {
                assert(s[i] == t[i]);
            }
        }
        let w = choose|i: int| 0 <= i < t.len() && is_radix_digit(#[trigger] t[i], radix);
        assert(s[w] == t[w]);
        assert(v == (v / radix) * radix + v % radix) by (nonlinear_arith)
            requires
                radix > 0,
        ;
    }
}

/// Reading a number back from the binary form that the hover shows gives the number.
pub proof fn law_binary_round_trip(v: nat)
    ensures
        binary_literal(seq!['0', 'b'] + radix_string(v, 2)) == Some(v),
{
    lemma_radix_string_reads_back(v, 2);
    let s = seq!['0', 'b'] + radix_string(v, 2);
    assert(s.skip(2) =~= radix_string(v, 2));
}

/// Reading a number back from the octal form that the hover shows gives the number.
pub proof fn law_octal_round_trip(v: nat)
    ensures
        octal_literal(seq!['0', 'o'] + radix_string(v, 8)) == Some(v),
{
    lemma_radix_string_reads_back(v, 8);
    let s = seq!['0', 'o'] + radix_string(v, 8);
    assert(s.skip(2) =~= radix_string(v, 8));
}

/// Reading a number back from the hexadecimal form that the hover shows gives the number.
pub proof fn law_hex_round_trip(v: nat)
    ensures
        hex_literal(seq!['0', 'x'] + radix_string(v, 16)) == Some(v),
{
    lemma_radix_string_reads_back(v, 16);
    let s = seq!['0', 'x'] + radix_string(v, 16);
    assert(s.skip(2) =~= radix_string(v, 16));
}

/// Reading a number back from the decimal form that the hover shows gives the number.
pub proof fn law_decimal_round_trip(v: nat)
    ensures
        decimal_literal(radix_string(v, 10)) == Some(v),
{
    lemma_radix_string_reads_back(v, 10);
}

/// Hex digit text: at least one character, all of them hexadecimal digits.
pub open spec fn hex_digit_text(s: Seq<char>) -> bool {
    s.len() > 0 && forall|i: int| 0 <= i < s.len() ==> is_radix_digit(#[trigger] s[i], 16)
}

/// Every character of `radix_string(v, radix)` is a digit of that base, and there is one at least.
pub proof fn lemma_radix_string_digits(v: nat, radix: nat)
    requires
        radix == 2 || radix == 8 || radix == 10 || radix == 16,
    ensures
        radix_string(v, radix).len() > 0,
        forall|i: int|
            0 <= i < radix_string(v, radix).len() ==> is_radix_digit(
                #[trigger] radix_string(v, radix)[i],
                radix,
            ),
    decreases v,
{
    let s = radix_string(v, radix);
    if v < radix {
        lemma_digit_char_value(v);
        assert(s == seq![digit_char(v)]);
    } else {
        lemma_radix_string_digits(v / radix, radix);
        lemma_digit_char_value(v % radix);
        let t = radix_string(v / radix, radix);
        assert(s == t.push(digit_char(v % radix)));
        assert forall|i: int| 0 <= i < s.len() implies is_radix_digit(#[trigger] s[i], radix) by {
            if i < t.len() {
                assert(s[i] == t[i]);
            }
        }
    }
}

/// Dropping the separators of a well-formed body leaves its digits, at least one.
pub proof fn lemma_drop_separators_digits(body: Seq<char>, radix: nat)
    requires
        valid_digits(body, radix),
    ensures
        drop_separators(body).len() > 0,
        forall|i: int|
            0 <= i < drop_separators(body).len() ==> is_radix_digit(
                #[trigger] drop_separators(body)[i],
                radix,
            ),
{
    lemma_drop_separators_chars(body, radix);
    let w = choose|i: int| 0 <= i < body.len() && is_radix_digit(#[trigger] body[i], radix);
    lemma_drop_separators_keeps_digit(body, radix, w);
}

pub proof fn lemma_drop_separators_chars(body: Seq<char>, radix: nat)
    requires
        forall|i: int| 0 <= i < body.len() ==> is_radix_digit(#[trigger] body[i], radix) || is_separator(body[i]),
    ensures
        forall|i: int|
            0 <= i < drop_separators(body).len() ==> is_radix_digit(
                #[trigger] drop_separators(body)[i],
                radix,
            ),
    decreases body.len(),
{
    if body.len() > 0 {
        let b = body.drop_last();
        assert forall|i: int| 0 <= i < b.len() implies is_radix_digit(#[trigger] b[i], radix)
            || is_separator(b[i]) by {
            assert(b[i] == body[i]);
        }
        lemma_drop_separators_chars(b, radix);
        let d = drop_separators(b);
        if !is_separator(body.last()) {
            assert(is_radix_digit(body[body.len() - 1], radix));
            assert forall|i: int| 0 <= i < d.push(body.last()).len() implies is_radix_digit(
                #[trigger] d.push(body.last())[i],
                radix,
            ) by {
                if i < d.len() {
                    assert(d.push(body.last())[i] == d[i]);
                }
            }
        }
    }
}

proof fn lemma_drop_separators_keeps_digit(body: Seq<char>, radix: nat, w: int)
    requires
        0 <= w < body.len(),
        is_radix_digit(body[w], radix),
    ensures
        drop_separators(body).len() > 0,
    decreases body.len(),
{
    if w < body.len() - 1 {
        assert(body.drop_last()[w] == body[w]);
        lemma_drop_separators_keeps_digit(body.drop_last(), radix, w);
    } else {
        assert(!is_separator(body.last()));
    }
}

/// Something is left after dropping the separators only where `s` holds a
/// character that is not a separator.
proof fn lemma_some_non_separator(s: Seq<char>)
    requires
        drop_separators(s).len() > 0,
    ensures
        exists|i: int| 0 <= i < s.len() && !is_separator(#[trigger] s[i]),
    decreases s.len(),
{
    if is_separator(s.last()) {
        lemma_some_non_separator(s.drop_last());
        let i = choose|i: int| 0 <= i < s.drop_last().len() && !is_separator(#[trigger] s.drop_last()[i]);
        assert(s[i] == s.drop_last()[i]);
    } else {
        assert(!is_separator(s[s.len() - 1]));
    }
}

/// A hexadecimal literal reads as `v` however it is spelled: `0x` or `0X`,
/// digits in either case, and `_` or `'` separators anywhere after the prefix,
/// as long as its digits, lower-cased, are the hexadecimal form of `v`.
pub proof fn law_hex_spellings(v: nat, x: char, body: Seq<char>)
    requires
        x == 'x' || x == 'X',
        forall|i: int| 0 <= i < body.len() ==> is_radix_digit(#[trigger] body[i], 16) || is_separator(body[i]),
        crate::normalize::lower_all(drop_separators(body)) == radix_string(v, 16),
    ensures
        hex_literal(seq!['0', x] + body) == Some(v),
{
    let s = seq!['0', x] + body;
    let d = drop_separators(body);
    assert(s.skip(2) =~= body);
    lemma_radix_string_digits(v, 16);
    assert(crate::normalize::lower_all(d).len() == d.len());
    lemma_some_non_separator(body);
    let w = choose|i: int| 0 <= i < body.len() && !is_separator(#[trigger] body[i]);
    assert(is_radix_digit(body[w], 16));
    assert(valid_digits(body, 16));
    lemma_drop_separators_value(body, 16);
    lemma_drop_separators_chars(body, 16);
    crate::normalize::lemma_lower_digits_value(d, 16);
    lemma_radix_string_reads_back(v, 16);
}

/// A C octal literal: a `0` followed by octal digits (with any `_` or `'`
/// separators), at least one of them, is read in base 8, and as octal.
pub proof fn law_leading_zero_is_octal(s: Seq<char>)
    requires
        s.len() >= 2,
        s[0] == '0',
        forall|i: int| 1 <= i < s.len() ==> ('0' <= #[trigger] s[i] <= '7' || s[i] == '_' || s[i] == '\''),
        exists|i: int| 1 <= i < s.len() && '0' <= #[trigger] s[i] <= '7',
    ensures
        literal_value(s) == Some((digits_value(s.skip(1), 8), LiteralKind::Octal)),
{
    let body = s.skip(1);
    assert(binary_literal(s) is None);
    assert(octal_body_start(s) == 1);
    assert forall|i: int| 0 <= i < body.len() implies is_radix_digit(#[trigger] body[i], 8)
        || is_separator(body[i]) by {
        assert(body[i] == s[i + 1]);
    }
    let w = choose|i: int| 1 <= i < s.len() && '0' <= #[trigger] s[i] <= '7';
    assert(body[w - 1] == s[w]);
    assert(is_radix_digit(body[w - 1], 8));
    assert(valid_digits(body, 8));
}

/// The C integer suffixes: `u`, `ul`, `lu`, `ull`, `llu`, in lower or in upper case.
pub open spec fn c_integer_suffix(t: Seq<char>) -> bool {
    ||| t == seq!['u']
    ||| t == seq!['u', 'l']
    ||| t == seq!['l', 'u']
    ||| t == seq!['u', 'l', 'l']
    ||| t == seq!['l', 'l', 'u']
    ||| t == seq!['U']
    ||| t == seq!['U', 'L']
    ||| t == seq!['L', 'U']
    ||| t == seq!['U', 'L', 'L']
    ||| t == seq!['L', 'L', 'U']
}

/// A word ending with `c` cannot end with a suffix whose last character differs.
proof fn lemma_ends_with_last(x: Seq<char>, t: Seq<char>)
    requires
        t.len() > 0,
        ends_with(x, t),
    ensures
        x.last() == t.last(),
{
    assert(x.skip(x.len() - t.len())[t.len() - 1] == x[x.len() - 1]);
}

/// Stripping stops at the first listed suffix that the word ends with.
proof fn lemma_strip_first(x: Seq<char>, i: int, k: int)
    requires
        0 <= i <= k < 10,
        ends_with(x, integer_suffix(k)),
        forall|j: int| i <= j < k ==> !ends_with(x, #[trigger] integer_suffix(j)),
    ensures
        strip_suffix_from(x, i) == x.take(x.len() - integer_suffix(k).len()),
    decreases k - i,
{
    if i < k {
        lemma_strip_first(x, i + 1, k);
    }
}

/// Stripping removes a C integer suffix: a word `w` followed by one of the C
/// integer suffixes `s` gives back `w`, unless the whole ends with a longer C
/// integer suffix.
pub proof fn law_integer_suffix_stripped(w: Seq<char>, s: Seq<char>)
    requires
        c_integer_suffix(s),
        forall|t: Seq<char>|
            c_integer_suffix(t) && t.len() > s.len() ==> !#[trigger] ends_with(w + s, t),
    ensures
        stripped_integer(w + s) == w,
{
    let x = w + s;
    assert(x.skip(x.len() - s.len()) =~= s);
    assert(ends_with(x, s));
    assert(x.last() == s.last());
    let k: int = if s == seq!['l', 'l', 'u'] {
        0
    } else if s == seq!['u', 'l', 'l'] {
        1
    } else if s == seq!['l', 'u'] {
        2
    } else if s == seq!['u', 'l'] {
        3
    } else if s == seq!['u'] {
        4
    } else if s == seq!['L', 'L', 'U'] {
        5
    } else if s == seq!['U', 'L', 'L'] {
        6
    } else if s == seq!['L', 'U'] {
        7
    } else if s == seq!['U', 'L'] {
        8
    } else {
        9
    };
    assert(integer_suffix(k) == s);
    assert forall|j: int| 0 <= j < k implies !ends_with(x, #[trigger] integer_suffix(j)) by {
        let t = integer_suffix(j);
        assert(c_integer_suffix(t));
        if t.len() <= s.len() && ends_with(x, t) {
            lemma_ends_with_last(x, t);
            assert(t.last() != s.last());
        }
    }
    lemma_strip_first(x, 0, k);
    assert(x.take(x.len() - s.len()) =~= w);
}

} // verus!

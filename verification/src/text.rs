//! Character-level helpers: conversion between `str` and `char` sequences,
//! Unicode white space, case mapping, and decimal numerals.

use crate::bignat::{digit_char, digits_value, is_dec_digit, radix_string};
use vstd::prelude::*;
use vstd::utf8::{char_is_scalar, encode_scalar, encode_utf8};

verus! {

/// The characters of `s`, in order.
pub fn chars_of(s: &str) -> (v: Vec<char>)
    ensures
        v@ == s@,
{
    let mut v: Vec<char> = Vec::new();
    for c in it: s.chars()
        invariant
            v@ == it.seq().take(it.index() as int),
    {
        v.push(c);
    }
    v
}

/// Appends one character, by `String::push`.
#[verifier::external_body]
fn push_char(s: &mut String, c: char)
    ensures
        final(s)@ == old(s)@.push(c),
{
    s.push(c);
}

/// The string made of the characters `v`.
pub fn string_of(v: &[char]) -> (s: String)
    ensures
        s@ == v@,
{
    let mut s = String::new();
    let mut i: usize = 0;
    while i < v.len()
        invariant
            i <= v.len(),
            s@ == v@.take(i as int),
        decreases v.len() - i,
    {
        push_char(&mut s, v[i]);
        i += 1;
        assert(s@ =~= v@.take(i as int));
    }
    assert(v@.take(v.len() as int) =~= v@);
    s
}

/// Appends the characters `src` to `dst`.
pub fn append_chars(dst: &mut Vec<char>, src: &[char])
    ensures
        final(dst)@ == old(dst)@ + src@,
{
    let mut i: usize = 0;
    while i < src.len()
        invariant
            i <= src.len(),
            dst@ == old(dst)@ + src@.take(i as int),
        decreases src.len() - i,
    {
        dst.push(src[i]);
        i += 1;
        assert(dst@ =~= old(dst)@ + src@.take(i as int));
    }
    assert(src@.take(src.len() as int) =~= src@);
}

/// The character of digit `d` (0..36), as `digit_char` describes it.
pub fn digit_to_char(d: u32) -> (c: char)
    requires
        d < 36,
    ensures
        c == digit_char(d as nat),
{
    if d < 10 {
        ((48 + d) as u8) as char
    } else {
        ((87 + d) as u8) as char
    }
}

/// `n` in decimal, as `Display` for integers writes it.
pub fn decimal_chars(n: u64) -> (v: Vec<char>)
    ensures
        v@ == radix_string(n as nat, 10),
    decreases n,
{
    if n < 10 {
        let mut v = Vec::new();
        v.push(digit_to_char(n as u32));
        v
    } else {
        let mut v = decimal_chars(n / 10);
        v.push(digit_to_char((n % 10) as u32));
        v
    }
}

/// Unicode `White_Space`, as `char::is_whitespace` tests it.
pub open spec fn is_white_space(c: char) -> bool {
    ||| c == ' '
    ||| '\t' <= c <= '\r'
    ||| c == '\u{85}'
    ||| c == '\u{a0}'
    ||| c == '\u{1680}'
    ||| '\u{2000}' <= c <= '\u{200a}'
    ||| c == '\u{2028}'
    ||| c == '\u{2029}'
    ||| c == '\u{202f}'
    ||| c == '\u{205f}'
    ||| c == '\u{3000}'
}

/// Whether `c` is white space, as `char::is_whitespace` tests it.
pub fn is_whitespace(c: char) -> (r: bool)
    ensures
        r == is_white_space(c),
{
    c == ' ' || ('\t' <= c && c <= '\r') || c == '\u{85}' || c == '\u{a0}' || c == '\u{1680}'
        || ('\u{2000}' <= c && c <= '\u{200a}') || c == '\u{2028}' || c == '\u{2029}' || c
        == '\u{202f}' || c == '\u{205f}' || c == '\u{3000}'
}

/// `s` without leading white space (`str::trim_start`).
pub open spec fn trim_start(s: Seq<char>) -> Seq<char>
    decreases s.len(),
{
    if s.len() > 0 && is_white_space(s[0]) {
        trim_start(s.drop_first())
    } else {
        s
    }
}

/// `s` without trailing white space (`str::trim_end`).
pub open spec fn trim_end(s: Seq<char>) -> Seq<char>
    decreases s.len(),
{
    if s.len() > 0 && is_white_space(s.last()) {
        trim_end(s.drop_last())
    } else {
        s
    }
}

/// `s` without leading and trailing white space (`str::trim`).
pub open spec fn trim(s: Seq<char>) -> Seq<char> {
    trim_end(trim_start(s))
}

/// The end of `s[from..to]` without trailing white space.
pub fn trim_end_bound(s: &[char], from: usize, to: usize) -> (end: usize)
    requires
        from <= to <= s.len(),
    ensures
        from <= end <= to,
        s@.subrange(from as int, end as int) == trim_end(s@.subrange(from as int, to as int)),
{
    let mut end = to;
    while end > from && is_whitespace(s[end - 1])
        invariant
            from <= end <= to <= s.len(),
            trim_end(s@.subrange(from as int, to as int)) == trim_end(
                s@.subrange(from as int, end as int),
            ),
        decreases end,
    {
        assert(s@.subrange(from as int, end as int).drop_last() =~= s@.subrange(
            from as int,
            end - 1,
        ));
        end -= 1;
    }
    end
}

/// The bounds of `s[from..to]` without leading and trailing white space.
pub fn trim_bounds(s: &[char], from: usize, to: usize) -> (r: (usize, usize))
    requires
        from <= to <= s.len(),
    ensures
        from <= r.0 <= r.1 <= to,
        s@.subrange(r.0 as int, r.1 as int) == trim(s@.subrange(from as int, to as int)),
{
    let mut start = from;
    while start < to && is_whitespace(s[start])
        invariant
            from <= start <= to <= s.len(),
            trim_start(s@.subrange(from as int, to as int)) == trim_start(
                s@.subrange(start as int, to as int),
            ),
        decreases to - start,
    {
        assert(s@.subrange(start as int, to as int).drop_first() =~= s@.subrange(
            start + 1,
            to as int,
        ));
        start += 1;
    }
    assert(trim_start(s@.subrange(start as int, to as int)) == s@.subrange(start as int, to as int));
    let end = trim_end_bound(s, start, to);
    (start, end)
}

/// The characters of `s[from..to]` without leading and trailing white space.
pub fn trim_chars(s: &[char], from: usize, to: usize) -> (r: Vec<char>)
    requires
        from <= to <= s.len(),
    ensures
        r@ == trim(s@.subrange(from as int, to as int)),
{
    let (start, end) = trim_bounds(s, from, to);
    let mut r = Vec::new();
    append_chars(&mut r, &s[start..end]);
    assert(r@ =~= s@.subrange(start as int, end as int));
    r
}

/// `s` without one leading `+`.
pub open spec fn without_plus_sign(s: Seq<char>) -> Seq<char> {
    if s.len() > 0 && s[0] == '+' {
        s.drop_first()
    } else {
        s
    }
}

/// What `str::parse::<u32>` accepts and returns: an optional leading `+`, then at
/// least one ASCII decimal digit and nothing else, with a value that fits in `u32`.
pub open spec fn std_parse_u32(s: Seq<char>) -> Option<u32> {
    let body = without_plus_sign(s);
    if body.len() == 0 || !(forall|i: int| 0 <= i < body.len() ==> is_dec_digit(#[trigger] body[i]))
        || digits_value(body, 10) > u32::MAX {
        None
    } else {
        Some(digits_value(body, 10) as u32)
    }
}

/// Reading more digits never makes a number smaller.
pub proof fn lemma_digits_value_grows(s: Seq<char>, i: int, radix: nat)
    requires
        0 <= i <= s.len(),
        radix > 0,
    ensures
        digits_value(s.take(i), radix) <= digits_value(s, radix),
    decreases s.len() - i,
{
    if i < s.len() {
        lemma_digits_value_grows(s, i + 1, radix);
        assert(s.take(i + 1).drop_last() =~= s.take(i));
        assert(digits_value(s.take(i), radix) * radix >= digits_value(s.take(i), radix))
            by (nonlinear_arith)
            requires
                radix > 0,
        ;
    } else {
        assert(s.take(i) =~= s);
    }
}

/// Parses a `u32` as `str::parse::<u32>` does.
pub fn parse_u32(s: &[char]) -> (r: Option<u32>)
    ensures
        r == std_parse_u32(s@),
{
    let start: usize = if s.len() > 0 && s[0] == '+' {
        1
    } else {
        0
    };
    let ghost body = without_plus_sign(s@);
    assert(body =~= s@.skip(start as int));
    if start == s.len() {
        return None;
    }
    let mut i = start;
    while i < s.len()
        invariant
            start <= i <= s.len(),
            body =~= s@.skip(start as int),
            body == without_plus_sign(s@),
            forall|k: int| 0 <= k < i - start ==> is_dec_digit(#[trigger] body[k]),
        decreases s.len() - i,
    {
        if !('0' <= s[i] && s[i] <= '9') {
            assert(!is_dec_digit(body[i - start]));
            assert(!(forall|k: int| 0 <= k < body.len() ==> is_dec_digit(#[trigger] body[k])));
            return None;
        }
        i += 1;
    }
    let mut acc: u64 = 0;
    let mut j = start;
    while j < s.len()
        invariant
            start <= j <= s.len(),
            body =~= s@.skip(start as int),
            body == without_plus_sign(s@),
            forall|k: int| 0 <= k < body.len() ==> is_dec_digit(#[trigger] body[k]),
            acc as nat == digits_value(body.take(j - start), 10),
            acc <= u32::MAX,
        decreases s.len() - j,
    {
        let c = s[j];
        assert(body[j - start] == c);
        assert(body.take(j - start + 1).drop_last() =~= body.take(j - start));
        acc = acc * 10 + ((c as u32) - ('0' as u32)) as u64;
        j += 1;
        assert(is_dec_digit(c));
        assert(acc as nat == digits_value(body.take(j - start), 10));
        if acc > 0xffff_ffff {
            proof {
                lemma_digits_value_grows(body, j - start, 10);
            }
            return None;
        }
    }
    assert(body.take(j - start) =~= body);
    Some(acc as u32)
}

/// Number of bytes that `c` takes in UTF-8.
pub open spec fn char_width(c: char) -> nat {
    let v = c as u32;
    if v < 0x80 {
        1
    } else if v < 0x800 {
        2
    } else if v < 0x10000 {
        3
    } else {
        4
    }
}

/// Number of bytes that `s` takes in UTF-8.
pub open spec fn utf8_len(s: Seq<char>) -> nat
    decreases s.len(),
{
    if s.len() == 0 {
        0
    } else {
        utf8_len(s.drop_last()) + char_width(s.last())
    }
}

proof fn lemma_encode_utf8_concat(a: Seq<char>, b: Seq<char>)
    ensures
        encode_utf8(a + b) == encode_utf8(a) + encode_utf8(b),
    decreases a.len(),
{
    if a.len() == 0 {
        assert(a + b =~= b);
        assert(encode_utf8(a) =~= Seq::<u8>::empty());
        assert(encode_utf8(a) + encode_utf8(b) =~= encode_utf8(b));
    } else {
        lemma_encode_utf8_concat(a.drop_first(), b);
        assert((a + b).drop_first() =~= a.drop_first() + b);
        assert(encode_utf8(a + b) =~= encode_scalar(a[0] as u32) + encode_utf8(a.drop_first() + b));
    }
}

/// `utf8_len` is the length of the UTF-8 encoding.
pub proof fn lemma_utf8_len_is_encoding_len(s: Seq<char>)
    ensures
        utf8_len(s) == encode_utf8(s).len(),
    decreases s.len(),
{
    if s.len() > 0 {
        let c = s.last();
        lemma_utf8_len_is_encoding_len(s.drop_last());
        lemma_encode_utf8_concat(s.drop_last(), seq![c]);
        assert(s.drop_last() + seq![c] =~= s);
        char_is_scalar(c);
        assert(seq![c].drop_first() =~= Seq::<char>::empty());
        assert(encode_utf8(Seq::<char>::empty()) =~= Seq::<u8>::empty());
        assert(encode_utf8(seq![c]) == encode_scalar(c as u32) + encode_utf8(seq![c].drop_first()));
        assert(encode_utf8(seq![c]) =~= encode_scalar(c as u32));
    } else {
        assert(encode_utf8(s) =~= Seq::<u8>::empty());
    }
}

/// The UTF-8 length of `take(i + 1)` adds the width of character `i`.
pub proof fn lemma_utf8_len_step(s: Seq<char>, i: int)
    requires
        0 <= i < s.len(),
    ensures
        utf8_len(s.take(i + 1)) == utf8_len(s.take(i)) + char_width(s[i]),
{
    assert(s.take(i + 1).drop_last() =~= s.take(i));
}

/// Byte offsets grow with the character index.
pub proof fn lemma_utf8_len_monotone(s: Seq<char>, i: int, j: int)
    requires
        0 <= i <= j <= s.len(),
    ensures
        utf8_len(s.take(i)) + (j - i) <= utf8_len(s.take(j)),
    decreases j - i,
{
    if i < j {
        lemma_utf8_len_monotone(s, i, j - 1);
        lemma_utf8_len_step(s, j - 1);
    }
}

/// Number of bytes that `c` takes in UTF-8 (`char::len_utf8`).
pub fn char_len_utf8(c: char) -> (r: usize)
    ensures
        r as nat == char_width(c),
        1 <= r <= 4,
{
    let v = c as u32;
    if v < 0x80 {
        1
    } else if v < 0x800 {
        2
    } else if v < 0x10000 {
        3
    } else {
        4
    }
}

/// A line of text as characters, with the byte offset of every character
/// boundary: `offsets[i]` is the UTF-8 length of the first `i` characters.
pub struct LineText {
    pub chars: Vec<char>,
    pub offsets: Vec<usize>,
}

impl LineText {
    pub open spec fn wf(&self) -> bool {
        &&& self.offsets.len() == self.chars.len() + 1
        &&& forall|i: int|
            0 <= i <= self.chars.len() ==> #[trigger] self.offsets@[i] as nat == utf8_len(
                self.chars@.take(i),
            )
    }

    /// The characters and byte offsets of `s`.
    pub fn new(s: &str) -> (r: LineText)
        ensures
            r.wf(),
            r.chars@ == s@,
    {
        let total = s.as_bytes().len();
        proof {
            lemma_utf8_len_is_encoding_len(s@);
        }
        let chars = chars_of(s);
        let mut offsets: Vec<usize> = Vec::new();
        offsets.push(0);
        assert(chars@.take(0) =~= Seq::<char>::empty());
        let mut i: usize = 0;
        while i < chars.len()
            invariant
                i <= chars.len(),
                chars@ == s@,
                total as nat == utf8_len(s@),
                offsets.len() == i + 1,
                forall|k: int|
                    0 <= k <= i ==> #[trigger] offsets@[k] as nat == utf8_len(chars@.take(k)),
            decreases chars.len() - i,
        {
            proof {
                lemma_utf8_len_step(chars@, i as int);
                lemma_utf8_len_monotone(chars@, i + 1, chars.len() as int);
                assert(chars@.take(chars.len() as int) =~= chars@);
            }
            let next = offsets[i] + char_len_utf8(chars[i]);
            offsets.push(next);
            i += 1;
        }
        LineText { chars, offsets }
    }
}

/// The index of the first `c` in `s` at or after `i`.
pub open spec fn first_index_from(s: Seq<char>, c: char, i: int) -> Option<int>
    decreases s.len() - i,
{
    if i < 0 || i >= s.len() {
        None
    } else if s[i] == c {
        Some(i)
    } else {
        first_index_from(s, c, i + 1)
    }
}

/// Before the first `c` found from `i` on, no character is `c`.
pub proof fn lemma_first_index_from(s: Seq<char>, c: char, i: int)
    requires
        0 <= i,
        first_index_from(s, c, i) is Some,
    ensures
        ({
            let f = first_index_from(s, c, i)->0;
            &&& i <= f < s.len()
            &&& s[f] == c
            &&& forall|k: int| i <= k < f ==> s[k] != c
        }),
    decreases s.len() - i,
{
    if s[i] != c {
        lemma_first_index_from(s, c, i + 1);
    }
}

/// The first `c` from `i` on is at `f` when `s[f]` is `c` and none before it is.
pub proof fn lemma_first_index_at(s: Seq<char>, c: char, i: int, f: int)
    requires
        0 <= i <= f < s.len(),
        s[f] == c,
        forall|k: int| i <= k < f ==> s[k] != c,
    ensures
        first_index_from(s, c, i) == Some(f),
    decreases f - i,
{
    if i < f {
        lemma_first_index_at(s, c, i + 1, f);
    }
}

/// Whether `pat` occurs in `s` at index `j`.
pub open spec fn matches_at(s: Seq<char>, pat: Seq<char>, j: int) -> bool {
    0 <= j && j + pat.len() <= s.len() && s.subrange(j, j + pat.len()) == pat
}

/// The index of the first occurrence of `pat` in `s` at or after `from`
/// (`str::find` on the rest of the text).
pub open spec fn find_from(s: Seq<char>, pat: Seq<char>, from: int) -> Option<int>
    decreases s.len() + 1 - from,
{
    if from < 0 || from + pat.len() > s.len() {
        None
    } else if matches_at(s, pat, from) {
        Some(from)
    } else {
        find_from(s, pat, from + 1)
    }
}

/// An occurrence found from `from` on lies at or after `from` and matches.
pub proof fn lemma_find_from(s: Seq<char>, pat: Seq<char>, from: int)
    requires
        find_from(s, pat, from) is Some,
    ensures
        ({
            let j = find_from(s, pat, from)->0;
            &&& from <= j
            &&& matches_at(s, pat, j)
            &&& forall|k: int| from <= k < j ==> !matches_at(s, pat, k)
        }),
    decreases s.len() + 1 - from,
{
    if !matches_at(s, pat, from) {
        lemma_find_from(s, pat, from + 1);
    }
}

/// Whether `pat` occurs in `s` at `j`.
pub fn occurs_at(s: &[char], pat: &[char], j: usize) -> (r: bool)
    ensures
        r == matches_at(s@, pat@, j as int),
{
    if j > s.len() || pat.len() > s.len() - j {
        return false;
    }
    let mut k: usize = 0;
    while k < pat.len()
        invariant
            j + pat.len() <= s.len(),
            k <= pat.len(),
            forall|m: int| 0 <= m < k ==> s@[j + m] == pat@[m],
        decreases pat.len() - k,
    {
        if s[j + k] != pat[k] {
            assert(s@.subrange(j as int, j + pat.len())[k as int] != pat@[k as int]);
            return false;
        }
        k += 1;
    }
    assert(s@.subrange(j as int, j + pat.len()) =~= pat@);
    true
}

/// The index of the first occurrence of `pat` in `s` at or after `from`.
pub fn find_pattern(s: &[char], pat: &[char], from: usize) -> (r: Option<usize>)
    ensures
        r matches Some(j) ==> find_from(s@, pat@, from as int) == Some(j as int),
        r is None ==> find_from(s@, pat@, from as int) is None,
{
    let mut j = from;
    loop
        invariant
            from <= j,
            find_from(s@, pat@, from as int) == find_from(s@, pat@, j as int),
        decreases s.len() + 1 - j,
    {
        if j > s.len() || pat.len() > s.len() - j {
            return None;
        }
        if occurs_at(s, pat, j) {
            return Some(j);
        }
        assert(pat@.len() > 0) by {
            if pat@.len() == 0 {
                assert(s@.subrange(j as int, j as int) =~= pat@);
            }
        }
        j += 1;
    }
}

/// The index of the first `c` in `s` at or after `from`.
pub fn find_char(s: &[char], c: char, from: usize) -> (r: Option<usize>)
    ensures
        r matches Some(j) ==> first_index_from(s@, c, from as int) == Some(j as int),
        r is None ==> first_index_from(s@, c, from as int) is None,
{
    let mut j = from;
    while j < s.len()
        invariant
            from <= j,
            first_index_from(s@, c, from as int) == first_index_from(s@, c, j as int),
        decreases s.len() - j,
    {
        if s[j] == c {
            return Some(j);
        }
        j += 1;
    }
    None
}

/// The result of `str::to_lowercase` (Unicode lower-case mapping).
pub uninterp spec fn unicode_lowercase(s: Seq<char>) -> Seq<char>;

/// The result of `str::to_uppercase` (Unicode upper-case mapping).
pub uninterp spec fn unicode_uppercase(s: Seq<char>) -> Seq<char>;

/// Whether every character of `s` is ASCII.
pub open spec fn all_ascii(s: Seq<char>) -> bool {
    vstd::utf8::is_ascii_chars(s)
}

/// `c` with `A`-`Z` mapped to `a`-`z`.
pub open spec fn ascii_lower(c: char) -> char {
    if 'A' <= c <= 'Z' {
        ((c as u32) + 32) as char
    } else {
        c
    }
}

/// `c` with `a`-`z` mapped to `A`-`Z`.
pub open spec fn ascii_upper(c: char) -> char {
    if 'a' <= c <= 'z' {
        ((c as u32) - 32) as char
    } else {
        c
    }
}

/// What `str::to_lowercase` returns: for ASCII text, `A`-`Z` mapped to `a`-`z`
/// and every other character as it is; for other text, the Unicode lower-case
/// mapping, left unstated.
pub open spec fn lowercase_of(s: Seq<char>) -> Seq<char> {
    if all_ascii(s) {
        s.map_values(|c: char| ascii_lower(c))
    } else {
        unicode_lowercase(s)
    }
}

/// What `str::to_uppercase` returns: for ASCII text, `a`-`z` mapped to `A`-`Z`
/// and every other character as it is; for other text, the Unicode upper-case
/// mapping, left unstated.
pub open spec fn uppercase_of(s: Seq<char>) -> Seq<char> {
    if all_ascii(s) {
        s.map_values(|c: char| ascii_upper(c))
    } else {
        unicode_uppercase(s)
    }
}

/// Lower-cases `s`, by `str::to_lowercase`. On ASCII text the contract states
/// the result: Unicode maps `A`-`Z` to `a`-`z` and no other ASCII character;
/// on other text it only names the result.
#[verifier::external_body]
pub(crate) fn to_lowercase(s: &str) -> (r: String)
    ensures
        all_ascii(s@) ==> r@ == s@.map_values(|c: char| ascii_lower(c)),
        !all_ascii(s@) ==> r@ == unicode_lowercase(s@),
{
    s.to_lowercase()
}

/// Upper-cases `s`, by `str::to_uppercase`. On ASCII text the contract states
/// the result: Unicode maps `a`-`z` to `A`-`Z` and no other ASCII character;
/// on other text it only names the result.
#[verifier::external_body]
pub(crate) fn to_uppercase(s: &str) -> (r: String)
    ensures
        all_ascii(s@) ==> r@ == s@.map_values(|c: char| ascii_upper(c)),
        !all_ascii(s@) ==> r@ == unicode_uppercase(s@),
{
    s.to_uppercase()
}

/// The character with code `v`, by `char::from_u32`: `None` when `v` is not a
/// Unicode scalar value.
#[verifier::external_body]
pub(crate) fn char_from_u32(v: u32) -> (r: Option<char>)
    ensures
        r matches Some(c) ==> c as u32 == v,
        r is None ==> !vstd::utf8::is_scalar(v),
{
    char::from_u32(v)
}

/// Whether `s` starts with `p`.
pub open spec fn starts_with(s: Seq<char>, p: Seq<char>) -> bool {
    p.len() <= s.len() && s.take(p.len() as int) == p
}

/// Whether `s` starts with `p`.
pub fn chars_start_with(s: &[char], p: &[char]) -> (r: bool)
    ensures
        r == starts_with(s@, p@),
{
    if p.len() > s.len() {
        return false;
    }
    let r = occurs_at(s, p, 0);
    assert(s@.subrange(0, p.len() as int) =~= s@.take(p.len() as int));
    r
}

/// Whether the characters `s` equal `t`.
pub fn chars_equal(s: &[char], t: &[char]) -> (r: bool)
    ensures
        r == (s@ == t@),
{
    if s.len() != t.len() {
        return false;
    }
    let r = chars_start_with(s, t);
    assert(s@.take(t.len() as int) =~= s@);
    r
}

/// In ASCII text every character is one byte: the byte offset of character `k` is `k`.
pub proof fn lemma_ascii_offsets(s: Seq<char>, k: int)
    requires
        all_ascii(s),
        0 <= k <= s.len(),
    ensures
        utf8_len(s.take(k)) == k,
    decreases k,
{
    if k > 0 {
        lemma_ascii_offsets(s, k - 1);
        lemma_utf8_len_step(s, k - 1);
    } else {
        assert(s.take(0) =~= Seq::<char>::empty());
    }
}

/// ASCII text has as many bytes as characters.
pub proof fn lemma_ascii_utf8_len(s: Seq<char>)
    requires
        all_ascii(s),
    ensures
        utf8_len(s) == s.len(),
{
    lemma_ascii_offsets(s, s.len() as int);
    assert(s.take(s.len() as int) =~= s);
}

} // verus!

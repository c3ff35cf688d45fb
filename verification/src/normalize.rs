//! Normalising the hovered word and the hover values, to find the row that
//! shows the word as it was written.

use crate::literal::{drop_separators, remove_separators, strip_integer_suffix, stripped_integer};
use crate::render::{label_chars, label_macro, Row, RowView};
use crate::scan::split_at_comma;
use crate::text::{
    all_ascii, append_chars, ascii_lower, chars_equal, chars_of, chars_start_with,
    find_char, lemma_first_index_from, matches_at,
    occurs_at, parse_u32, std_parse_u32, string_of, to_lowercase, to_uppercase, trim, trim_bounds,
    trim_end, trim_end_bound, lowercase_of, uppercase_of,
};
use crate::bitmacro::{
    bit_macro_chars, bit_macro_text, bit_open, genmask_macro_chars, genmask_macro_text, genmask_open,
};
use vstd::prelude::*;

verus! {

/// `/*`
pub open spec fn comment_open() -> Seq<char> {
    seq!['/', '*']
}

fn comment_open_chars() -> (v: Vec<char>)
    ensures
        v@ == comment_open(),
{
    let v = vec!['/', '*'];
    assert(v@ =~= comment_open());
    v
}

/// The last occurrence of `pat` in `s` at or before index `n`.
pub open spec fn last_match_at_or_before(s: Seq<char>, pat: Seq<char>, n: int) -> Option<int>
    decreases n + 1,
{
    if n < 0 {
        None
    } else if matches_at(s, pat, n) {
        Some(n)
    } else {
        last_match_at_or_before(s, pat, n - 1)
    }
}

/// The last occurrence of `pat` in `s` (`str::rfind`).
pub open spec fn rfind(s: Seq<char>, pat: Seq<char>) -> Option<int> {
    last_match_at_or_before(s, pat, s.len() - pat.len())
}

/// What `strip_macro_comment` returns: the text before the last `/*` without
/// trailing white space, or, with no `/*`, the text without surrounding white space.
pub open spec fn without_comment(s: Seq<char>) -> Seq<char> {
    match rfind(s, comment_open()) {
        Some(j) => trim_end(s.take(j)),
        None => trim(s),
    }
}

/// The index of the last occurrence of `pat` in `s`.
pub fn rfind_chars(s: &[char], pat: &[char]) -> (r: Option<usize>)
    ensures
        r matches Some(j) ==> rfind(s@, pat@) == Some(j as int),
        r is None ==> rfind(s@, pat@) is None,
{
    if pat.len() > s.len() {
        return None;
    }
    let mut n: usize = s.len() - pat.len();
    loop
        invariant
            n + pat.len() <= s.len(),
            rfind(s@, pat@) == last_match_at_or_before(s@, pat@, n as int),
        decreases n,
    {
        if occurs_at(s, pat, n) {
            return Some(n);
        }
        if n == 0 {
            assert(last_match_at_or_before(s@, pat@, -1) is None);
            return None;
        }
        n -= 1;
    }
}

/// Removes a trailing `/* ... */` comment and surrounding white space.
pub fn strip_macro_comment(value: &str) -> (r: &str)
    ensures
        r@ == without_comment(value@),
{
    let chars = chars_of(value);
    let pat = comment_open_chars();
    match rfind_chars(chars.as_slice(), pat.as_slice()) {
        Some(j) => {
            proof {
                lemma_rfind(value@, comment_open());
            }
            let end = trim_end_bound(chars.as_slice(), 0, j);
            assert(chars@.subrange(0, j as int) =~= chars@.take(j as int));
            value.substring_char(0, end)
        },
        None => {
            let (start, end) = trim_bounds(chars.as_slice(), 0, chars.len());
            assert(chars@.subrange(0, chars.len() as int) =~= chars@);
            value.substring_char(start, end)
        },
    }
}

/// The last occurrence lies within `s`.
pub proof fn lemma_last_match(s: Seq<char>, pat: Seq<char>, n: int)
    requires
        last_match_at_or_before(s, pat, n) is Some,
    ensures
        matches_at(s, pat, last_match_at_or_before(s, pat, n)->0),
        last_match_at_or_before(s, pat, n)->0 <= n,
    decreases n + 1,
{
    if !matches_at(s, pat, n) {
        lemma_last_match(s, pat, n - 1);
    }
}

/// The last occurrence lies within `s`.
pub proof fn lemma_rfind(s: Seq<char>, pat: Seq<char>)
    requires
        rfind(s, pat) is Some,
    ensures
        matches_at(s, pat, rfind(s, pat)->0),
{
    lemma_last_match(s, pat, s.len() - pat.len());
}

/// `s` without a final `)`, if it ends with one.
pub open spec fn strip_close_paren(s: Seq<char>) -> Option<Seq<char>> {
    if s.len() > 0 && s.last() == ')' {
        Some(s.drop_last())
    } else {
        None
    }
}

/// The inside of `upper` between `open` and a final `)`, if it has that shape.
pub open spec fn macro_inner(upper: Seq<char>, open: Seq<char>) -> Option<Seq<char>> {
    if starts_with_seq(upper, open) {
        strip_close_paren(upper.skip(open.len() as int))
    } else {
        None
    }
}

/// Whether `s` starts with `p`.
pub open spec fn starts_with_seq(s: Seq<char>, p: Seq<char>) -> bool {
    crate::text::starts_with(s, p)
}

/// What `normalize_macro_value` returns: for text that, upper-cased, reads
/// `BIT(<n>)` or `GENMASK(<h>,<l>)` with `u32` arguments (white space around
/// them allowed), the macro written in canonical form.
pub open spec fn normalized_macro(value: Seq<char>) -> Option<Seq<char>> {
    let upper = uppercase_of(value);
    match macro_inner(upper, bit_open()) {
        Some(inner) => match std_parse_u32(trim(inner)) {
            Some(bit) => Some(bit_macro_text(bit as nat)),
            None => None,
        },
        None => match macro_inner(upper, genmask_open()) {
            Some(inner) => match split_at_comma(inner) {
                Some((a, b)) => match (std_parse_u32(trim(a)), std_parse_u32(trim(b))) {
                    (Some(high), Some(low)) => Some(genmask_macro_text(high as nat, low as nat)),
                    _ => None,
                },
                None => None,
            },
            None => None,
        },
    }
}

fn macro_inner_bounds(upper: &[char], open: &[char]) -> (r: Option<(usize, usize)>)
    ensures
        r matches Some(b) ==> b.0 <= b.1 <= upper.len() && macro_inner(upper@, open@) == Some(
            upper@.subrange(b.0 as int, b.1 as int),
        ),
        r is None ==> macro_inner(upper@, open@) is None,
{
    if !chars_start_with(upper, open) {
        return None;
    }
    let n = upper.len();
    if n > open.len() && upper[n - 1] == ')' {
        assert(upper@.skip(open.len() as int).drop_last() =~= upper@.subrange(
            open.len() as int,
            n - 1,
        ));
        Some((open.len(), n - 1))
    } else {
        assert(upper@.skip(open.len() as int).len() == 0 || upper@.skip(open.len() as int).last()
            == upper@[n - 1]);
        None
    }
}

/// Writes a `BIT(n)` or `GENMASK(h, l)` text in canonical form.
pub fn normalize_macro_value(value: &str) -> (r: Option<String>)
    ensures
        r matches Some(m) ==> normalized_macro(value@) == Some(m@),
        r is None ==> normalized_macro(value@) is None,
{
    let upper_string = to_uppercase(value);
    let upper = chars_of(upper_string.as_str());
    let bit_open_v = vec!['B', 'I', 'T', '('];
    assert(bit_open_v@ =~= bit_open());
    if let Some((from, to)) = macro_inner_bounds(upper.as_slice(), bit_open_v.as_slice()) {
        let (a, b) = trim_bounds(upper.as_slice(), from, to);
        let bit = match parse_u32(&upper[a..b]) {
            Some(bit) => bit,
            None => return None,
        };
        let text = bit_macro_chars(bit as u64);
        return Some(string_of(text.as_slice()));
    }
    let genmask_open_v = vec!['G', 'E', 'N', 'M', 'A', 'S', 'K', '('];
    assert(genmask_open_v@ =~= genmask_open());
    if let Some((from, to)) = macro_inner_bounds(upper.as_slice(), genmask_open_v.as_slice()) {
        let inner = &upper[from..to];
        let comma = match find_char(inner, ',', 0) {
            Some(c) => c,
            None => return None,
        };
        proof {
            lemma_first_index_from(inner@, ',', 0);
        }
        let (a1, b1) = trim_bounds(inner, 0, comma);
        let (a2, b2) = trim_bounds(inner, comma + 1, inner.len());
        assert(inner@.subrange(0, comma as int) =~= inner@.take(comma as int));
        assert(inner@.subrange(comma + 1, inner.len() as int) =~= inner@.skip(comma + 1));
        let high = match parse_u32(&inner[a1..b1]) {
            Some(h) => h,
            None => return None,
        };
        let low = match parse_u32(&inner[a2..b2]) {
            Some(l) => l,
            None => return None,
        };
        let text = genmask_macro_chars(high as u64, low as u64);
        return Some(string_of(text.as_slice()));
    }
    None
}

/// Whether `c` names a radix after a leading `0`: `b`, `o` or `x` in either case.
pub open spec fn radix_letter(c: char) -> bool {
    c == 'b' || c == 'B' || c == 'o' || c == 'O' || c == 'x' || c == 'X'
}

/// `s` without its leading `0` characters.
pub open spec fn without_leading_zeros(s: Seq<char>) -> Seq<char>
    decreases s.len(),
{
    if s.len() > 0 && s[0] == '0' {
        without_leading_zeros(s.drop_first())
    } else {
        s
    }
}

/// What `normalize_prefixed_integer` returns: for `0` followed by a radix letter
/// and at least one more character, `0`, the lower-case radix letter, and the
/// remaining characters without leading zeros, lower-cased (`0` if none are
/// left); other text as it is.
pub open spec fn normalized_prefixed(s: Seq<char>) -> Seq<char> {
    if s.len() >= 3 && s[0] == '0' && radix_letter(s[1]) {
        let digits = without_leading_zeros(s.skip(2));
        seq!['0', ascii_lower(s[1])] + (if digits.len() == 0 {
            seq!['0']
        } else {
            lowercase_of(digits)
        })
    } else {
        s
    }
}

fn normalize_prefixed_chars(chars: &[char]) -> (r: Vec<char>)
    ensures
        r@ == normalized_prefixed(chars@),
{
    let mut out: Vec<char> = Vec::new();
    if chars.len() >= 3 && chars[0] == '0' && (chars[1] == 'b' || chars[1] == 'B' || chars[1] == 'o'
        || chars[1] == 'O' || chars[1] == 'x' || chars[1] == 'X') {
        let letter = string_of(&chars[1..2]);
        assert(letter@ =~= seq![chars@[1]]);
        let lower_letter = to_lowercase(letter.as_str());
        let lower_letter_chars = chars_of(lower_letter.as_str());
        assert(lower_letter_chars@ =~= seq![ascii_lower(chars@[1])]);
        let mut i: usize = 2;
        while i < chars.len() && chars[i] == '0'
            invariant
                2 <= i <= chars.len(),
                without_leading_zeros(chars@.skip(2)) == without_leading_zeros(chars@.skip(i as int)),
            decreases chars.len() - i,
        {
            assert(chars@.skip(i as int).drop_first() =~= chars@.skip(i + 1));
            i += 1;
        }
        let digits = &chars[i..chars.len()];
        assert(digits@ =~= chars@.skip(i as int));
        assert(without_leading_zeros(digits@) == digits@);
        out.push('0');
        append_chars(&mut out, lower_letter_chars.as_slice());
        if digits.len() == 0 {
            out.push('0');
        } else {
            let digit_string = string_of(digits);
            let lower_digits = to_lowercase(digit_string.as_str());
            let lower_digit_chars = chars_of(lower_digits.as_str());
            append_chars(&mut out, lower_digit_chars.as_slice());
        }
        assert(out@ =~= normalized_prefixed(chars@));
        out
    } else {
        append_chars(&mut out, chars);
        assert(out@ =~= chars@);
        out
    }
}

/// Writes a `0b`/`0o`/`0x` integer in a canonical form.
pub fn normalize_prefixed_integer(value: &str) -> (r: String)
    ensures
        r@ == normalized_prefixed(value@),
{
    let chars = chars_of(value);
    let out = normalize_prefixed_chars(chars.as_slice());
    string_of(out.as_slice())
}

/// What `normalize_heading_value` returns: the value without its comment, as a
/// canonical macro if it is one, else as a canonical prefixed integer without
/// separators.
pub open spec fn normalized_heading(value: Seq<char>) -> Seq<char> {
    let w = without_comment(value);
    match normalized_macro(w) {
        Some(m) => m,
        None => normalized_prefixed(drop_separators(w)),
    }
}

/// Writes a value in the canonical form used to compare it with the hovered word.
pub fn normalize_heading_value(value: &str) -> (r: String)
    ensures
        r@ == normalized_heading(value@),
{
    let without = strip_macro_comment(value);
    if let Some(macro_val) = normalize_macro_value(without) {
        return macro_val;
    }
    let chars = chars_of(without);
    let plain = remove_separators(chars.as_slice());
    let out = normalize_prefixed_chars(plain.as_slice());
    string_of(out.as_slice())
}

/// What `normalize_hovered_value` returns: the canonical form of the word
/// without its integer suffix, lower-cased.
pub open spec fn normalized_hovered(value: Seq<char>) -> Seq<char> {
    lowercase_of(normalized_heading(stripped_integer(value)))
}

/// The canonical, lower-cased form of the hovered word.
pub fn normalize_hovered_value(value: &str) -> (r: String)
    ensures
        r@ == normalized_hovered(value@),
{
    let heading = normalize_heading_value(strip_integer_suffix(value));
    to_lowercase(heading.as_str())
}

/// What `normalize_translated_value` returns: the canonical form, lower-cased.
pub open spec fn normalized_translated(value: Seq<char>) -> Seq<char> {
    lowercase_of(normalized_heading(value))
}

/// The canonical, lower-cased form of a row value.
pub fn normalize_translated_value(value: &str) -> (r: String)
    ensures
        r@ == normalized_translated(value@),
{
    let heading = normalize_heading_value(value);
    to_lowercase(heading.as_str())
}

/// What `promoted_heading_value` returns: a macro row's value trimmed, any other
/// row's value in canonical form.
pub open spec fn promoted_heading(row: RowView) -> Seq<char> {
    if row.label == label_macro() {
        trim(row.value)
    } else {
        normalized_heading(row.value)
    }
}

/// The value a row shows when it is promoted to the table header.
pub fn promoted_heading_value(row: &Row) -> (r: String)
    ensures
        r@ == promoted_heading(row@),
{
    let label = chars_of(row.label.as_str());
    if chars_equal(label.as_slice(), label_chars(5).as_slice()) {
        let value = chars_of(row.value.as_str());
        let (a, b) = trim_bounds(value.as_slice(), 0, value.len());
        assert(value@.subrange(0, value.len() as int) =~= value@);
        string_of(&value[a..b])
    } else {
        normalize_heading_value(row.value.as_str())
    }
}

/// The index of the first row, from `k` on, whose canonical value is `w`.
pub open spec fn first_matching_row(rows: Seq<RowView>, w: Seq<char>, k: int) -> Option<int>
    decreases rows.len() - k,
{
    if k < 0 || k >= rows.len() {
        None
    } else if normalized_translated(rows[k].value) == w {
        Some(k)
    } else {
        first_matching_row(rows, w, k + 1)
    }
}

/// What `promoted_hover_rows` returns: the first row whose value is the hovered
/// word in another notation becomes the heading (with its promoted value) and is
/// taken out of the rows; with no such row, no heading and all the rows.
pub open spec fn promoted_rows(word: Seq<char>, rows: Seq<RowView>) -> (Option<RowView>, Seq<RowView>) {
    match first_matching_row(rows, normalized_hovered(word), 0) {
        None => (None, rows),
        Some(i) => (
            Some(RowView { label: rows[i].label, value: promoted_heading(rows[i]) }),
            rows.remove(i),
        ),
    }
}

/// The views of some rows.
pub open spec fn rows_view(rows: Seq<Row>) -> Seq<RowView> {
    rows.map_values(|r: Row| r@)
}

fn find_matching_row(word_chars: &[char], rows: &[Row]) -> (r: Option<usize>)
    ensures
        r matches Some(i) ==> first_matching_row(rows_view(rows@), word_chars@, 0) == Some(i as int),
        r is None ==> first_matching_row(rows_view(rows@), word_chars@, 0) is None,
{
    let ghost rv = rows_view(rows@);
    let mut idx: usize = 0;
    while idx < rows.len()
        invariant
            idx <= rows.len(),
            rv == rows_view(rows@),
            first_matching_row(rv, word_chars@, 0) == first_matching_row(rv, word_chars@, idx as int),
        decreases rows.len() - idx,
    {
        let translated = normalize_translated_value(rows[idx].value.as_str());
        let translated_chars = chars_of(translated.as_str());
        assert(rv[idx as int] == rows@[idx as int]@);
        if chars_equal(translated_chars.as_slice(), word_chars) {
            return Some(idx);
        }
        idx += 1;
    }
    None
}

fn copy_rows_except(rows: &[Row], skip: usize) -> (r: Vec<Row>)
    ensures
        skip < rows.len() ==> rows_view(r@) == rows_view(rows@).remove(skip as int),
        skip >= rows.len() ==> rows_view(r@) == rows_view(rows@),
{
    let ghost rv = rows_view(rows@);
    let mut rest: Vec<Row> = Vec::new();
    let mut k: usize = 0;
    while k < rows.len()
        invariant
            k <= rows.len(),
            rv == rows_view(rows@),
            rows_view(rest@) == (if k <= skip {
                rv.take(k as int)
            } else {
                rv.take(skip as int) + rv.subrange(skip + 1, k as int)
            }),
        decreases rows.len() - k,
    {
        let ghost before = rest@;
        if k != skip {
            let row = rows[k].duplicate();
            rest.push(row);
            assert(rest@ == before.push(row));
            assert(rows_view(rest@) =~= rows_view(before).push(rv[k as int]));
        }
        k += 1;
        assert(rows_view(rest@) =~= (if k <= skip {
            rv.take(k as int)
        } else {
            rv.take(skip as int) + rv.subrange(skip + 1, k as int)
        }));
    }
    if skip < rows.len() {
        assert(rv.remove(skip as int) =~= rv.take(skip as int) + rv.subrange(
            skip + 1,
            rows.len() as int,
        ));
    } else {
        assert(rv.take(rows.len() as int) =~= rv);
    }
    rest
}

/// Promotes the row that shows the hovered word to the table header.
pub fn promoted_hover_rows(word: &str, rows: &[Row]) -> (r: (Option<Row>, Vec<Row>))
    ensures
        ({
            let (h, rest) = promoted_rows(word@, rows_view(rows@));
            &&& match r.0 {
                Some(row) => h == Some(row@),
                None => h is None,
            }
            &&& rows_view(r.1@) == rest
        }),
{
    let normalized_word = normalize_hovered_value(word);
    let word_chars = chars_of(normalized_word.as_str());
    match find_matching_row(word_chars.as_slice(), rows) {
        None => (None, copy_rows_except(rows, rows.len())),
        Some(idx) => {
            proof {
                lemma_first_matching_row(rows_view(rows@), word_chars@, 0);
            }
            let heading = Row::new(rows[idx].label.clone(), promoted_heading_value(&rows[idx]));
            (Some(heading), copy_rows_except(rows, idx))
        },
    }
}

/// A matching row lies within the rows.
pub proof fn lemma_first_matching_row(rows: Seq<RowView>, w: Seq<char>, k: int)
    requires
        0 <= k,
        first_matching_row(rows, w, k) is Some,
    ensures
        k <= first_matching_row(rows, w, k)->0 < rows.len(),
        normalized_translated(rows[first_matching_row(rows, w, k)->0].value) == w,
    decreases rows.len() - k,
{
    if normalized_translated(rows[k].value) != w {
        lemma_first_matching_row(rows, w, k + 1);
    }
}

/// Text made only of ASCII letters and digits, as the number rows show.
pub open spec fn plain_text(s: Seq<char>) -> bool {
    forall|i: int|
        0 <= i < s.len() ==> ('0' <= #[trigger] s[i] <= '9' || 'a' <= s[i] <= 'z' || 'A' <= s[i]
            <= 'Z')
}

/// `0`, a radix letter, and at least one more character.
pub open spec fn prefixed_shape(s: Seq<char>) -> bool {
    s.len() >= 3 && s[0] == '0' && radix_letter(s[1])
}

proof fn lemma_no_comment_match(s: Seq<char>, n: int)
    requires
        plain_text(s),
    ensures
        last_match_at_or_before(s, comment_open(), n) is None,
    decreases n + 1,
{
    if n >= 0 {
        if matches_at(s, comment_open(), n) {
            assert(s.subrange(n, n + 2)[0] == s[n]);
            assert(comment_open()[0] == '/');
        }
        lemma_no_comment_match(s, n - 1);
    }
}

proof fn lemma_plain_trim(s: Seq<char>)
    requires
        plain_text(s),
    ensures
        trim(s) == s,
{
    if s.len() > 0 {
        assert(!crate::text::is_white_space(s[0]));
        assert(!crate::text::is_white_space(s.last()));
    }
}

proof fn lemma_plain_no_separators(s: Seq<char>)
    requires
        plain_text(s),
    ensures
        drop_separators(s) == s,
    decreases s.len(),
{
    if s.len() > 0 {
        assert(plain_text(s.drop_last())) by {
            assert forall|i: int| 0 <= i < s.drop_last().len() implies ('0' <= #[trigger] s.drop_last()[i] <= '9'
                || 'a' <= s.drop_last()[i] <= 'z' || 'A' <= s.drop_last()[i] <= 'Z') by {
                assert(s.drop_last()[i] == s[i]);
            }
        }
        lemma_plain_no_separators(s.drop_last());
        assert(!crate::bignat::is_separator(s.last()));
        assert(s.drop_last().push(s.last()) =~= s);
    }
}

proof fn lemma_without_leading_zeros_ascii(s: Seq<char>)
    requires
        all_ascii(s),
    ensures
        all_ascii(without_leading_zeros(s)),
    decreases s.len(),
{
    if s.len() > 0 && s[0] == '0' {
        assert(all_ascii(s.drop_first())) by {
            assert forall|i: int| 0 <= i < s.drop_first().len() implies '\0' <= #[trigger] s.drop_first()[i]
                <= '\u{7f}' by {
                assert(s.drop_first()[i] == s[i + 1]);
            }
        }
        lemma_without_leading_zeros_ascii(s.drop_first());
    }
}

/// `ascii_lower` keeps ASCII characters ASCII.
pub proof fn lemma_ascii_lower_ascii(s: Seq<char>)
    requires
        all_ascii(s),
    ensures
        all_ascii(s.map_values(|c: char| ascii_lower(c))),
        s.map_values(|c: char| ascii_lower(c)).len() == s.len(),
{
    let m = s.map_values(|c: char| ascii_lower(c));
    assert forall|i: int| 0 <= i < m.len() implies '\0' <= #[trigger] m[i] <= '\u{7f}' by {
        assert(m[i] == ascii_lower(s[i]));
    }
}

/// The canonical form of a number row's value (ASCII letters and digits) is
/// ASCII, and at least three characters long when the value is a prefixed
/// integer.
pub proof fn lemma_plain_heading(v: Seq<char>)
    requires
        plain_text(v),
    ensures
        all_ascii(normalized_heading(v)),
        prefixed_shape(v) ==> normalized_heading(v).len() >= 3,
        normalized_heading(v) == normalized_prefixed(v),
{
    lemma_no_comment_match(v, v.len() - 2);
    lemma_plain_trim(v);
    assert(without_comment(v) == v);
    assert(all_ascii(v)) by {
        assert forall|i: int| 0 <= i < v.len() implies '\0' <= #[trigger] v[i] <= '\u{7f}' by {
            assert(plain_text(v));
        }
    }
    let upper = uppercase_of(v);
    assert(upper == v.map_values(|c: char| crate::text::ascii_upper(c)));
    assert(macro_inner(upper, bit_open()) is None) by {
        if starts_with_seq(upper, bit_open()) {
            assert(upper.take(4)[3] == upper[3]);
            assert(upper[3] == crate::text::ascii_upper(v[3]));
        }
    }
    assert(macro_inner(upper, genmask_open()) is None) by {
        if starts_with_seq(upper, genmask_open()) {
            assert(upper.take(8)[7] == upper[7]);
            assert(upper[7] == crate::text::ascii_upper(v[7]));
        }
    }
    assert(normalized_macro(v) is None);
    lemma_plain_no_separators(v);
    if prefixed_shape(v) {
        let digits = without_leading_zeros(v.skip(2));
        assert(all_ascii(v.skip(2))) by {
            assert forall|i: int| 0 <= i < v.skip(2).len() implies '\0' <= #[trigger] v.skip(2)[i]
                <= '\u{7f}' by {
                assert(v.skip(2)[i] == v[i + 2]);
            }
        }
        lemma_without_leading_zeros_ascii(v.skip(2));
        lemma_ascii_lower_ascii(digits);
        let tail = if digits.len() == 0 {
            seq!['0']
        } else {
            lowercase_of(digits)
        };
        assert(all_ascii(tail));
        let r = seq!['0', ascii_lower(v[1])] + tail;
        assert(r == normalized_heading(v));
        assert forall|i: int| 0 <= i < r.len() implies '\0' <= #[trigger] r[i] <= '\u{7f}' by {
            if i >= 2 {
                assert(r[i] == tail[i - 2]);
            }
        }
    }
}

/// The radix that a radix letter names.
pub open spec fn letter_radix(c: char) -> nat {
    if c == 'b' || c == 'B' {
        2
    } else if c == 'o' || c == 'O' {
        8
    } else {
        16
    }
}

/// The value of a `0b`, `0o` or `0x` literal, read in the radix its letter names.
pub open spec fn prefixed_literal_value(s: Seq<char>) -> Option<nat> {
    if s.len() >= 3 && s[0] == '0' && radix_letter(s[1]) {
        if letter_radix(s[1]) == 2 {
            crate::literal::binary_literal(s)
        } else if letter_radix(s[1]) == 8 {
            crate::literal::octal_literal(s)
        } else {
            crate::literal::hex_literal(s)
        }
    } else {
        None
    }
}

/// A leading `0` does not change the value of digits.
proof fn lemma_leading_zero_value(t: Seq<char>, r: nat)
    ensures
        crate::bignat::digits_value(seq!['0'] + t, r) == crate::bignat::digits_value(t, r),
    decreases t.len(),
{
    let z = seq!['0'] + t;
    if t.len() == 0 {
        assert(z.drop_last() =~= Seq::<char>::empty());
        assert(crate::bignat::char_digit_value('0') == 0);
        assert(crate::bignat::digits_value(Seq::<char>::empty(), r) == 0);
        assert(0 * r == 0) by (nonlinear_arith);
        assert(crate::bignat::digits_value(z, r) == crate::bignat::digits_value(z.drop_last(), r) * r + 0);
    } else {
        lemma_leading_zero_value(t.drop_last(), r);
        assert(z.drop_last() =~= seq!['0'] + t.drop_last());
        assert(z.last() == t.last());
    }
}

/// Leading zeros do not change the value of digits; the rest are digits still.
proof fn lemma_without_leading_zeros_value(d: Seq<char>, r: nat)
    requires
        forall|i: int| 0 <= i < d.len() ==> crate::literal::is_radix_digit(#[trigger] d[i], r),
    ensures
        crate::bignat::digits_value(without_leading_zeros(d), r) == crate::bignat::digits_value(d, r),
        forall|i: int|
            0 <= i < without_leading_zeros(d).len() ==> crate::literal::is_radix_digit(
                #[trigger] without_leading_zeros(d)[i],
                r,
            ),
    decreases d.len(),
{
    if d.len() > 0 && d[0] == '0' {
        let t = d.drop_first();
        assert forall|i: int| 0 <= i < t.len() implies crate::literal::is_radix_digit(#[trigger] t[i], r) by {
            assert(t[i] == d[i + 1]);
        }
        lemma_without_leading_zeros_value(t, r);
        assert(d =~= seq!['0'] + t);
        lemma_leading_zero_value(t, r);
    }
}

/// `t` with `A`-`Z` mapped to `a`-`z`.
pub open spec fn lower_all(t: Seq<char>) -> Seq<char> {
    t.map_values(|c: char| ascii_lower(c))
}

/// Lower-casing digits keeps them digits of the same value.
pub proof fn lemma_lower_digits_value(t: Seq<char>, r: nat)
    requires
        r == 2 || r == 8 || r == 16,
        forall|i: int| 0 <= i < t.len() ==> crate::literal::is_radix_digit(#[trigger] t[i], r),
    ensures
        crate::bignat::digits_value(lower_all(t), r) == crate::bignat::digits_value(t, r),
        forall|i: int| 0 <= i < t.len() ==> crate::literal::is_radix_digit(#[trigger] lower_all(t)[i], r),
    decreases t.len(),
{
    let m = lower_all(t);
    assert forall|i: int| 0 <= i < t.len() implies crate::literal::is_radix_digit(#[trigger] lower_all(t)[i], r) by {
        assert(m[i] == ascii_lower(t[i]));
        assert(crate::literal::is_radix_digit(t[i], r));
    }
    if t.len() > 0 {
        let u = t.drop_last();
        assert forall|i: int| 0 <= i < u.len() implies crate::literal::is_radix_digit(#[trigger] u[i], r) by {
            assert(u[i] == t[i]);
        }
        lemma_lower_digits_value(u, r);
        assert(m.drop_last() =~= lower_all(u));
        let c = t.last();
        assert(m.last() == ascii_lower(c));
        assert(crate::literal::is_radix_digit(c, r));
        assert(crate::bignat::char_digit_value(ascii_lower(c)) == crate::bignat::char_digit_value(c));
        assert(!crate::bignat::is_separator(c) && !crate::bignat::is_separator(ascii_lower(c)));
    }
}

/// The canonical form of a `0b`, `0o` or `0x` literal names the same number:
/// it is again such a literal, with a lower-case radix letter, and reads as the
/// same value.
pub proof fn law_prefixed_keeps_number(s: Seq<char>)
    requires
        s.len() >= 3,
        s[0] == '0',
        radix_letter(s[1]),
        forall|i: int| 2 <= i < s.len() ==> crate::literal::is_radix_digit(#[trigger] s[i], letter_radix(s[1])),
    ensures
        prefixed_literal_value(s) == Some(crate::bignat::digits_value(s.skip(2), letter_radix(s[1]))),
        normalized_prefixed(s).len() >= 3,
        normalized_prefixed(s)[0] == '0',
        normalized_prefixed(s)[1] == ascii_lower(s[1]),
        prefixed_literal_value(normalized_prefixed(s)) == prefixed_literal_value(s),
{
    let r = letter_radix(s[1]);
    let d = s.skip(2);
    assert forall|i: int| 0 <= i < d.len() implies crate::literal::is_radix_digit(#[trigger] d[i], r) by {
        assert(d[i] == s[i + 2]);
    }
    assert(crate::literal::is_radix_digit(d[0], r));
    assert(crate::literal::valid_digits(d, r));
    let w = without_leading_zeros(d);
    lemma_without_leading_zeros_value(d, r);
    let n = normalized_prefixed(s);
    let letter = ascii_lower(s[1]);
    assert(radix_letter(letter) && letter_radix(letter) == r);
    let tail = if w.len() == 0 {
        seq!['0']
    } else {
        lowercase_of(w)
    };
    assert(n == seq!['0', letter] + tail);
    assert(n.skip(2) =~= tail);
    if w.len() == 0 {
        assert(crate::bignat::digits_value(w, r) == 0);
        assert(tail.drop_last() =~= Seq::<char>::empty());
        assert(crate::bignat::digits_value(Seq::<char>::empty(), r) == 0);
        assert(0 * r == 0) by (nonlinear_arith);
        assert(crate::bignat::char_digit_value('0') == 0);
        assert(crate::bignat::digits_value(tail, r) == crate::bignat::digits_value(tail.drop_last(), r) * r + 0);
        assert(crate::bignat::digits_value(tail, r) == 0);
        assert(crate::literal::is_radix_digit(tail[0], r));
        assert(crate::literal::valid_digits(tail, r));
    } else {
        assert(all_ascii(w)) by {
            assert forall|i: int| 0 <= i < w.len() implies '\0' <= #[trigger] w[i] <= '\u{7f}' by {
                assert(crate::literal::is_radix_digit(w[i], r));
            }
        }
        assert(tail == lower_all(w));
        lemma_lower_digits_value(w, r);
        assert(crate::literal::is_radix_digit(tail[0], r));
        assert(crate::literal::valid_digits(tail, r));
    }
}

} // verus!

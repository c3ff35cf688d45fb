//! Writing the hover: the little-endian and ASCII readings of the hex digits,
//! Markdown escaping, digit grouping, and the table rows.

use crate::bignat::{big_add, big_mul, char_digit_value, BigNat};
use crate::literal::is_radix_digit;
use crate::text::{
    all_ascii, append_chars, char_from_u32, chars_equal, chars_of, chars_start_with, find_from, find_pattern,
    string_of, starts_with, to_lowercase, trim, trim_bounds, trim_end, trim_end_bound,
    lowercase_of, utf8_len, LineText,
};
use vstd::prelude::*;
use vstd::utf8::{encode_utf8, encode_utf8_valid_utf8, is_char_boundary};

verus! {

/// Display settings of the hover.
#[derive(Clone, Copy, PartialEq, Eq, Debug, Structural)]
pub struct Settings {
    /// Whether digit groups are separated by narrow spaces.
    pub group_spacing: bool,
}

impl Default for Settings {
    /// Group spacing is on by default.
    fn default() -> (r: Self)
        ensures
            r.group_spacing,
    {
        Settings { group_spacing: true }
    }
}

/// Characters that Markdown escaping prefixes with a backslash.
pub open spec fn md_special(c: char) -> bool {
    c == '\\' || c == '|' || c == '`' || c == '*' || c == '_'
}

/// The escaped form of one character.
pub open spec fn escape_char(c: char) -> Seq<char> {
    if md_special(c) {
        seq!['\\', c]
    } else {
        seq![c]
    }
}

/// What `escape_md` returns: each of `\`, `|`, `` ` ``, `*`, `_` preceded by a backslash.
pub open spec fn escaped(s: Seq<char>) -> Seq<char>
    decreases s.len(),
{
    if s.len() == 0 {
        s
    } else {
        escaped(s.drop_last()) + escape_char(s.last())
    }
}

/// Escapes the characters `s` for a Markdown table cell.
pub fn escape_chars(s: &[char]) -> (r: Vec<char>)
    ensures
        r@ == escaped(s@),
{
    let mut r: Vec<char> = Vec::new();
    let mut i: usize = 0;
    while i < s.len()
        invariant
            i <= s.len(),
            r@ == escaped(s@.take(i as int)),
        decreases s.len() - i,
    {
        let c = s[i];
        assert(s@.take(i + 1).drop_last() =~= s@.take(i as int));
        if c == '\\' || c == '|' || c == '`' || c == '*' || c == '_' {
            r.push('\\');
        }
        r.push(c);
        i += 1;
        assert(r@ =~= escaped(s@.take(i as int)));
    }
    assert(s@.take(s.len() as int) =~= s@);
    r
}

/// Escapes `value` for a Markdown table cell.
pub fn escape_md(value: &str) -> (r: String)
    ensures
        r@ == escaped(value@),
{
    let chars = chars_of(value);
    let escaped_chars = escape_chars(chars.as_slice());
    string_of(escaped_chars.as_slice())
}

/// The symbol shown for a byte in the ASCII row: control characters become
/// their Control Pictures symbol, DEL becomes `␡`, other bytes their Latin-1
/// character.
pub open spec fn char_code_symbol(code: u8) -> char {
    if code <= 31 {
        ((code as u32) + 0x2400) as char
    } else if code == 127 {
        '\u{2421}'
    } else {
        code as char
    }
}

/// The one-character string showing byte `code`.
pub fn from_char_code(code: u8) -> (r: String)
    ensures
        r@ == seq![char_code_symbol(code)],
{
    let c = if code <= 31 {
        match char_from_u32(code as u32 + 0x2400) {
            Some(c) => c,
            None => {
                assert(vstd::utf8::is_scalar((code as u32 + 0x2400) as u32));
                '\u{2400}'
            },
        }
    } else if code == 127 {
        '\u{2421}'
    } else {
        code as char
    };
    proof {
        vstd::utf8::char_u32_cast(c, c as u32);
    }
    let v = vec![c];
    string_of(v.as_slice())
}

/// Whether byte `b` is an ASCII hexadecimal digit.
pub open spec fn hex_byte_digit(b: u8) -> bool {
    (48 <= b <= 57) || (97 <= b <= 102) || (65 <= b <= 70)
}

/// The value of an ASCII hexadecimal digit byte.
pub open spec fn hex_byte_value(b: u8) -> nat {
    if 48 <= b <= 57 {
        (b - 48) as nat
    } else if 97 <= b <= 102 {
        (b - 87) as nat
    } else {
        (b - 55) as nat
    }
}

/// The value of hexadecimal digit bytes.
pub open spec fn hex_bytes_value(d: Seq<u8>) -> nat
    decreases d.len(),
{
    if d.len() == 0 {
        0
    } else {
        hex_bytes_value(d.drop_last()) * 16 + hex_byte_value(d.last())
    }
}

/// The bytes `b` without a leading `+` that is followed by more.
pub open spec fn hex_pair_digits(b: Seq<u8>) -> Seq<u8> {
    if b.len() >= 2 && b[0] == 43 {
        b.drop_first()
    } else {
        b
    }
}

/// What `u8::from_str_radix(s, 16).unwrap_or(0)` gives for the one or two bytes
/// `b` of `s`: an optional leading `+`, then hexadecimal digits; 0 otherwise.
pub open spec fn hex_pair_value(b: Seq<u8>) -> nat {
    let d = hex_pair_digits(b);
    if d.len() > 0 && forall|i: int| 0 <= i < d.len() ==> hex_byte_digit(#[trigger] d[i]) {
        hex_bytes_value(d)
    } else {
        0
    }
}

fn hex_pair(b: &[u8], from: usize, to: usize) -> (r: u8)
    requires
        from < to <= b.len(),
        to - from <= 2,
    ensures
        r as nat == hex_pair_value(b@.subrange(from as int, to as int)),
{
    let ghost s = b@.subrange(from as int, to as int);
    let start = if to - from >= 2 && b[from] == 43 {
        from + 1
    } else {
        from
    };
    let ghost d = hex_pair_digits(s);
    assert(d =~= b@.subrange(start as int, to as int));
    let mut acc: u32 = 0;
    let mut i = start;
    while i < to
        invariant
            from <= start <= i <= to <= b.len(),
            to - start <= 2,
            d =~= b@.subrange(start as int, to as int),
            d == hex_pair_digits(b@.subrange(from as int, to as int)),
            forall|k: int| 0 <= k < i - start ==> hex_byte_digit(#[trigger] d[k]),
            acc as nat == hex_bytes_value(d.take(i - start)),
            acc < 16 * 16,
            i - start < 2 || acc < 256,
            acc < 16 || i - start >= 2 || i == start || acc < 16,
            i == start ==> acc == 0,
            i == start + 1 ==> acc < 16,
        decreases to - i,
    {
        let c = b[i];
        assert(d[i - start] == c);
        assert(d.take(i - start + 1).drop_last() =~= d.take(i - start));
        let v: u32 = if 48 <= c && c <= 57 {
            (c - 48) as u32
        } else if 97 <= c && c <= 102 {
            (c - 87) as u32
        } else if 65 <= c && c <= 70 {
            (c - 55) as u32
        } else {
            assert(!hex_byte_digit(d[i - start]));
            assert(!(forall|k: int| 0 <= k < d.len() ==> hex_byte_digit(#[trigger] d[k])));
            return 0;
        };
        acc = acc * 16 + v;
        i += 1;
    }
    assert(d.take(d.len() as int) =~= d);
    if start == to {
        return 0;
    }
    acc as u8
}

/// Where byte `k` (counting from the left) of `len` hex digit bytes starts:
/// with an odd count the first byte is the lone first digit, the others are pairs.
pub open spec fn byte_start(len: int, k: int) -> int {
    if len % 2 == 1 {
        if k == 0 {
            0
        } else {
            2 * k - 1
        }
    } else {
        2 * k
    }
}

/// How many bytes `len` hex digit bytes stand for.
pub open spec fn byte_count(len: int) -> int {
    (len + 1) / 2
}

/// The value of byte `k` of the hex digit bytes `b`, as `u8::from_str_radix`
/// reads its digits (0 when they do not read).
pub open spec fn hex_byte_at(b: Seq<u8>, k: int) -> nat {
    hex_pair_value(b.subrange(byte_start(b.len() as int, k), byte_start(b.len() as int, k + 1)))
}

/// 256 to the power `k`.
pub open spec fn pow256(k: nat) -> nat
    decreases k,
{
    if k == 0 {
        1
    } else {
        256 * pow256((k - 1) as nat)
    }
}

/// The first `k` bytes of `b`, the first one the least significant.
pub open spec fn little_endian_sum(b: Seq<u8>, k: nat) -> nat
    decreases k,
{
    if k == 0 {
        0
    } else {
        little_endian_sum(b, (k - 1) as nat) + hex_byte_at(b, k - 1) * pow256((k - 1) as nat)
    }
}

/// What `compute_num_le` returns: the bytes of the hex digits read little-endian,
/// byte `k` from the left worth `256^k`.
pub open spec fn num_le_value(hexs: Seq<char>) -> nat {
    let b = encode_utf8(hexs);
    little_endian_sum(b, byte_count(b.len() as int) as nat)
}

/// The loop of `compute_num_le`: the bytes `b[..i]` read pairwise from the right
/// on top of `acc`.
spec fn num_le_from(b: Seq<u8>, i: int, acc: nat) -> nat
    decreases i,
{
    if i <= 0 {
        acc
    } else {
        let start = if i >= 2 {
            i - 2
        } else {
            0
        };
        num_le_from(b, start, acc * 256 + hex_pair_value(b.subrange(start, i)))
    }
}

/// Reading the bytes before `i` pairwise from the right on top of `acc` puts
/// `acc` above the little-endian value of those bytes.
proof fn lemma_num_le_from(b: Seq<u8>, i: int, acc: nat)
    requires
        0 <= i <= b.len(),
        (b.len() - i) % 2 == 0,
    ensures
        num_le_from(b, i, acc) == acc * pow256(byte_count(i) as nat) + little_endian_sum(
            b,
            byte_count(i) as nat,
        ),
    decreases i,
{
    let len = b.len() as int;
    let m = byte_count(i);
    if i == 0 {
        assert(byte_count(0) == 0);
        assert(pow256(0) == 1);
        assert(acc * 1 == acc);
        assert(little_endian_sum(b, 0) == 0);
    } else {
        let start = if i >= 2 {
            i - 2
        } else {
            0
        };
        let k = m - 1;
        assert(byte_start(len, k) == start);
        assert(byte_start(len, m) == i);
        let x = hex_pair_value(b.subrange(start, i));
        assert(x == hex_byte_at(b, k));
        let p = pow256(k as nat);
        assert(m >= 1);
        assert(pow256(m as nat) == 256 * p);
        assert(little_endian_sum(b, m as nat) == little_endian_sum(b, k as nat) + x * p);
        assert(num_le_from(b, i, acc) == num_le_from(b, start, acc * 256 + x));
        if i >= 2 {
            lemma_num_le_from(b, start, acc * 256 + x);
            assert(byte_count(start) == k);
            assert((acc * 256 + x) * p == acc * (256 * p) + x * p) by (nonlinear_arith);
        } else {
            assert(k == 0 && p == 1);
            assert(little_endian_sum(b, 0) == 0);
            assert(num_le_from(b, 0, acc * 256 + x) == acc * 256 + x);
            assert(acc * 256 + x == acc * (256 * p) + (0 + x * p)) by (nonlinear_arith)
                requires
                    p == 1,
            ;
        }
    }
}

/// The inputs on which slicing `hexs` into byte pairs from the right never cuts a
/// character: every byte offset at an even distance from the end is a character
/// boundary.
pub open spec fn pair_cuts_ok(hexs: Seq<char>) -> bool {
    let b = encode_utf8(hexs);
    forall|p: int| 0 <= p <= b.len() && (b.len() - p) % 2 == 0 ==> is_char_boundary(b, p)
}

/// Reads the hex digits as bytes in reverse order.
pub fn compute_num_le(hexs: &str) -> (r: BigNat)
    requires
        pair_cuts_ok(hexs@),
    ensures
        r@ == num_le_value(hexs@),
{
    let b = hexs.as_bytes();
    let ghost bs = encode_utf8(hexs@);
    assert(b@ == bs);
    let factor = BigNat::from_u32(256);
    let mut num_le = BigNat::from_u32(0);
    proof {
        lemma_num_le_from(bs, bs.len() as int, 0);
        assert(0 * pow256(byte_count(bs.len() as int) as nat) == 0);
    }
    let mut i = b.len();
    while i > 0
        invariant
            i <= b.len(),
            b@ == bs,
            factor@ == 256,
            num_le_value(hexs@) == num_le_from(bs, i as int, num_le@),
        decreases i,
    {
        let start = if i >= 2 {
            i - 2
        } else {
            0
        };
        let byte_val = hex_pair(b, start, i);
        let shifted = big_mul(&num_le, &factor);
        num_le = big_add(&shifted, &BigNat::from_u32(byte_val as u32));
        i = start;
    }
    num_le
}

/// What `compute_ascii` returns: one symbol (`char_code_symbol`) for each byte
/// that the hex digits stand for, from the left.
pub open spec fn ascii_text(hexs: Seq<char>) -> Seq<char> {
    let b = encode_utf8(hexs);
    Seq::new(byte_count(b.len() as int) as nat, |k: int| char_code_symbol(hex_byte_at(b, k) as u8))
}

/// The loop of `compute_ascii`: the symbols of the byte pairs from `b[i..]` on.
spec fn ascii_from(b: Seq<u8>, i: int) -> Seq<char>
    decreases b.len() + 1 - i,
{
    if i < 0 || i >= b.len() {
        Seq::empty()
    } else {
        seq![char_code_symbol(hex_pair_value(b.subrange(i, i + 2)) as u8)] + ascii_from(b, i + 2)
    }
}

/// From byte `k` on, the pairwise symbols are those of bytes `k..`.
proof fn lemma_ascii_from(b: Seq<u8>, k: int)
    requires
        0 <= k <= byte_count(b.len() as int),
        b.len() % 2 == 0 || k >= 1,
    ensures
        ascii_from(b, byte_start(b.len() as int, k)) == Seq::new(
            (byte_count(b.len() as int) - k) as nat,
            |j: int| char_code_symbol(hex_byte_at(b, k + j) as u8),
        ),
    decreases byte_count(b.len() as int) - k,
{
    let len = b.len() as int;
    let n = byte_count(len);
    let i = byte_start(len, k);
    let rest = Seq::new((n - k) as nat, |j: int| char_code_symbol(hex_byte_at(b, k + j) as u8));
    if k == n {
        assert(i >= len);
        assert(rest =~= Seq::<char>::empty());
    } else {
        assert(byte_start(len, k + 1) == i + 2);
        assert(i + 2 <= len);
        lemma_ascii_from(b, k + 1);
        let tail = Seq::new((n - k - 1) as nat, |j: int| char_code_symbol(hex_byte_at(b, k + 1 + j) as u8));
        assert(rest =~= seq![char_code_symbol(hex_byte_at(b, k) as u8)] + tail);
    }
}

/// The symbols of the bytes, read pairwise with a lone first digit, are those of
/// each byte in order.
proof fn lemma_ascii_text(b: Seq<u8>)
    ensures
        (if b.len() % 2 == 1 {
            seq![char_code_symbol(hex_pair_value(b.subrange(0, 1)) as u8)] + ascii_from(b, 1)
        } else {
            ascii_from(b, 0)
        }) == Seq::new(
            byte_count(b.len() as int) as nat,
            |k: int| char_code_symbol(hex_byte_at(b, k) as u8),
        ),
{
    let len = b.len() as int;
    let n = byte_count(len);
    let all = Seq::new(n as nat, |k: int| char_code_symbol(hex_byte_at(b, k) as u8));
    if len % 2 == 1 {
        lemma_ascii_from(b, 1);
        assert(byte_start(len, 1) == 1);
        assert(hex_byte_at(b, 0) == hex_pair_value(b.subrange(0, 1)));
        let tail = Seq::new((n - 1) as nat, |j: int| char_code_symbol(hex_byte_at(b, 1 + j) as u8));
        assert(all =~= seq![char_code_symbol(hex_byte_at(b, 0) as u8)] + tail);
    } else {
        lemma_ascii_from(b, 0);
        assert(byte_start(len, 0) == 0);
        let tail = Seq::new((n - 0) as nat, |j: int| char_code_symbol(hex_byte_at(b, 0 + j) as u8));
        assert(all =~= tail);
    }
}

/// Shows the hex digits as a string of byte symbols.
pub fn compute_ascii(hexs: &str) -> (r: String)
    requires
        pair_cuts_ok(hexs@),
    ensures
        r@ == ascii_text(hexs@),
{
    let b = hexs.as_bytes();
    let ghost bs = encode_utf8(hexs@);
    assert(b@ == bs);
    let mut result: Vec<char> = Vec::new();
    let start = b.len() % 2;
    if start == 1 {
        let v = hex_pair(b, 0, 1);
        let sym = from_char_code(v);
        let sym_chars = chars_of(sym.as_str());
        crate::text::append_chars(&mut result, sym_chars.as_slice());
    }
    let ghost prefix = result@;
    proof {
        lemma_ascii_text(bs);
        if start == 0 {
            assert(prefix =~= Seq::<char>::empty());
        }
    }
    assert(ascii_text(hexs@) == prefix + ascii_from(bs, start as int));
    let mut i = start;
    while i < b.len()
        invariant
            start <= i <= b.len(),
            (b.len() - i) % 2 == 0,
            b@ == bs,
            ascii_text(hexs@) == result@ + ascii_from(bs, i as int),
        decreases b.len() - i,
    {
        let v = hex_pair(b, i, i + 2);
        let sym = from_char_code(v);
        let sym_chars = chars_of(sym.as_str());
        let ghost before = result@;
        crate::text::append_chars(&mut result, sym_chars.as_slice());
        assert(ascii_from(bs, i as int) == seq![char_code_symbol(v)] + ascii_from(bs, i + 2));
        assert(before + ascii_from(bs, i as int) =~= result@ + ascii_from(bs, i + 2));
        i += 2;
    }
    assert(ascii_from(bs, i as int) =~= Seq::<char>::empty());
    assert(result@ + Seq::<char>::empty() =~= result@);
    string_of(result.as_slice())
}

/// What `group_separator` returns: nothing without group spacing; otherwise a
/// three-per-em space (U+2004) after a group with an even number of groups to its
/// right, a four-per-em space (U+2005) after the others.
pub open spec fn separator_text(index: int, group_count: int, settings: Settings) -> Seq<char> {
    if !settings.group_spacing {
        Seq::empty()
    } else if (group_count - index - 1) % 2 == 0 {
        seq!['\u{2004}']
    } else {
        seq!['\u{2005}']
    }
}

/// The separator after group `index` of `group_count` groups.
pub fn group_separator(index: usize, group_count: usize, settings: &Settings) -> (r: &'static str)
    requires
        settings.group_spacing ==> index < group_count,
    ensures
        r@ == separator_text(index as int, group_count as int, *settings),
{
    if !settings.group_spacing {
        proof {
            reveal_strlit("");
        }
        return "";
    }
    let groups_to_right = group_count - index - 1;
    if groups_to_right % 2 == 0 {
        proof {
            reveal_strlit("\u{2004}");
        }
        "\u{2004}"
    } else {
        proof {
            reveal_strlit("\u{2005}");
        }
        "\u{2005}"
    }
}

/// The index of the character that starts at byte offset `c` of `s`, searching
/// from character `k` on (`s.len()` for the end).
pub open spec fn index_at_byte(s: Seq<char>, c: int, k: int) -> Option<int>
    decreases s.len() + 1 - k,
{
    if k < 0 || k > s.len() {
        None
    } else if utf8_len(s.take(k)) == c {
        Some(k)
    } else {
        index_at_byte(s, c, k + 1)
    }
}

/// The character index at byte offset `c` of `s`, if `c` is a character boundary.
pub open spec fn char_index_of_byte(s: Seq<char>, c: int) -> Option<int> {
    index_at_byte(s, c, 0)
}

proof fn lemma_index_at_byte(s: Seq<char>, c: int, k: int)
    requires
        0 <= k,
        index_at_byte(s, c, k) is Some,
    ensures
        k <= index_at_byte(s, c, k)->0 <= s.len(),
        utf8_len(s.take(index_at_byte(s, c, k)->0)) == c,
    decreases s.len() + 1 - k,
{
    if utf8_len(s.take(k)) != c {
        lemma_index_at_byte(s, c, k + 1);
    }
}

fn index_of_offset(text: &LineText, c: usize) -> (r: Option<usize>)
    requires
        text.wf(),
    ensures
        r matches Some(k) ==> char_index_of_byte(text.chars@, c as int) == Some(k as int),
        r is None ==> char_index_of_byte(text.chars@, c as int) is None,
{
    let mut k: usize = 0;
    while k <= text.chars.len()
        invariant
            text.wf(),
            k <= text.chars.len() + 1,
            char_index_of_byte(text.chars@, c as int) == index_at_byte(text.chars@, c as int, k as int),
        decreases text.chars.len() + 1 - k,
    {
        if text.offsets[k] == c {
            return Some(k);
        }
        k += 1;
    }
    None
}

/// The groups of `d` that end at byte offset `end`, each `g` bytes long but the
/// first, from left to right; `None` when a cut falls inside a character.
pub open spec fn byte_groups(d: Seq<char>, end: int, g: int) -> Option<Seq<Seq<char>>>
    decreases end,
{
    if end <= 0 || g <= 0 {
        Some(Seq::empty())
    } else {
        let start = if end >= g {
            end - g
        } else {
            0
        };
        match (char_index_of_byte(d, start), char_index_of_byte(d, end), byte_groups(d, start, g)) {
            (Some(a), Some(b), Some(gs)) => Some(gs.push(d.subrange(a, b))),
            _ => None,
        }
    }
}

/// Whether `value` starts with `prefix`, ignoring case.
pub open spec fn has_case_prefix(value: Seq<char>, prefix: Seq<char>) -> bool {
    starts_with(lowercase_of(value), lowercase_of(prefix))
}

/// The character index where the digits of `value` start: after the prefix when
/// `value` has it.
pub open spec fn digits_start(value: Seq<char>, prefix: Seq<char>) -> int {
    if has_case_prefix(value, prefix) {
        char_index_of_byte(value, utf8_len(prefix) as int)->0
    } else {
        0
    }
}

/// The groups of the digits of `value`.
pub open spec fn value_groups(value: Seq<char>, prefix: Seq<char>, g: int) -> Option<Seq<Seq<char>>> {
    let digits = value.skip(digits_start(value, prefix));
    byte_groups(digits, utf8_len(digits) as int, g)
}

/// The inputs on which `grouped_code_spans` neither cuts a character when it
/// slices by byte offsets nor loops forever: a positive group length unless no
/// digits follow the prefix, the prefix length is a character boundary of
/// `value` when `value` has the prefix, and so is every cut between digit groups.
pub open spec fn grouping_ok(value: Seq<char>, prefix: Seq<char>, g: int) -> bool {
    &&& g > 0 || utf8_len(value.skip(digits_start(value, prefix))) == 0
    &&& has_case_prefix(value, prefix) ==> char_index_of_byte(value, utf8_len(prefix) as int) is Some
    &&& value_groups(value, prefix, g) is Some
}

/// Piece `i` of the grouped digits: the escaped prefix before the first group,
/// the escaped group, and a separator unless it is the last group.
pub open spec fn group_piece(groups: Seq<Seq<char>>, head: Seq<char>, settings: Settings, i: int) -> Seq<
    char,
> {
    (if i == 0 {
        head
    } else {
        Seq::empty()
    }) + escaped(groups[i]) + (if i < groups.len() - 1 {
        separator_text(i, groups.len() as int, settings)
    } else {
        Seq::empty()
    })
}

/// The first `k` pieces of the grouped digits, joined.
pub open spec fn joined_pieces(groups: Seq<Seq<char>>, head: Seq<char>, settings: Settings, k: int) -> Seq<
    char,
>
    decreases k,
{
    if k <= 0 {
        Seq::empty()
    } else {
        joined_pieces(groups, head, settings, k - 1) + group_piece(groups, head, settings, k - 1)
    }
}

/// What `grouped_code_spans` returns: the escaped prefix (when `value` starts
/// with it, ignoring case) and the digit groups of `group_length` bytes counted
/// from the right, escaped and separated per `settings`.
pub open spec fn grouped_spans(value: Seq<char>, prefix: Seq<char>, g: int, settings: Settings) -> Seq<
    char,
> {
    let start = digits_start(value, prefix);
    let head = escaped(value.take(start));
    let groups = value_groups(value, prefix, g)->0;
    if groups.len() == 0 {
        head
    } else {
        joined_pieces(groups, head, settings, groups.len() as int)
    }
}

/// Splits the digits of `value` into groups of `group_length` bytes from the
/// right, escaped and separated, after the escaped prefix when present.
pub fn grouped_code_spans(value: &str, prefix: &str, group_length: usize, settings: &Settings) -> (r:
    String)
    requires
        grouping_ok(value@, prefix@, group_length as int),
    ensures
        r@ == grouped_spans(value@, prefix@, group_length as int, *settings),
{
    let lower_val = to_lowercase(value);
    let lower_prefix = to_lowercase(prefix);
    let lower_val_chars = chars_of(lower_val.as_str());
    let lower_prefix_chars = chars_of(lower_prefix.as_str());
    let has_prefix = chars_start_with(lower_val_chars.as_slice(), lower_prefix_chars.as_slice());
    let vtext = LineText::new(value);
    let ptext = LineText::new(prefix);
    assert(ptext.chars@.take(ptext.chars.len() as int) =~= ptext.chars@);
    let prefix_len = ptext.offsets[ptext.chars.len()];
    let start = if has_prefix {
        match index_of_offset(&vtext, prefix_len) {
            Some(k) => k,
            None => {
                assert(false);
                0
            },
        }
    } else {
        0
    };
    proof {
        if has_prefix {
            lemma_index_at_byte(value@, prefix_len as int, 0);
        }
    }
    let mut head_chars: Vec<char> = Vec::new();
    append_chars(&mut head_chars, &vtext.chars[0..start]);
    assert(head_chars@ =~= value@.take(start as int));
    let head = escape_chars(head_chars.as_slice());
    let mut digit_chars: Vec<char> = Vec::new();
    append_chars(&mut digit_chars, &vtext.chars[start..vtext.chars.len()]);
    assert(digit_chars@ =~= value@.skip(start as int));
    let digits_string = string_of(digit_chars.as_slice());
    let dtext = LineText::new(digits_string.as_str());
    let ghost d = dtext.chars@;
    assert(dtext.chars@.take(dtext.chars.len() as int) =~= dtext.chars@);
    let total = dtext.offsets[dtext.chars.len()];
    let ghost all_groups = byte_groups(d, total as int, group_length as int)->0;
    let mut groups: Vec<Vec<char>> = Vec::new();
    let mut end = total;
    while end > 0
        invariant
            dtext.wf(),
            d == dtext.chars@,
            group_length > 0 || end == 0,
            byte_groups(d, total as int, group_length as int) == Some(all_groups),
            byte_groups(d, end as int, group_length as int) is Some,
            all_groups =~= byte_groups(d, end as int, group_length as int)->0 + groups@.map_values(
                |v: Vec<char>| v@,
            ),
        decreases end,
    {
        let group_start = if end >= group_length {
            end - group_length
        } else {
            0
        };
        let a = match index_of_offset(&dtext, group_start) {
            Some(a) => a,
            None => {
                assert(false);
                0
            },
        };
        let b = match index_of_offset(&dtext, end) {
            Some(b) => b,
            None => {
                assert(false);
                0
            },
        };
        proof {
            lemma_index_at_byte(d, group_start as int, 0);
            lemma_index_at_byte(d, end as int, 0);
        }
        if a > b {
            proof {
                crate::text::lemma_utf8_len_monotone(d, b as int, a as int);
            }
            assert(false);
        }
        let mut group: Vec<char> = Vec::new();
        append_chars(&mut group, &dtext.chars[a..b]);
        let ghost before = groups@.map_values(|v: Vec<char>| v@);
        groups.insert(0, group);
        assert(groups@.map_values(|v: Vec<char>| v@) =~= seq![d.subrange(a as int, b as int)]
            + before);
        end = group_start;
    }
    assert(all_groups =~= groups@.map_values(|v: Vec<char>| v@));
    let mut out: Vec<char> = Vec::new();
    if groups.len() == 0 {
        return string_of(head.as_slice());
    }
    let n = groups.len();
    let mut i: usize = 0;
    while i < n
        invariant
            n == groups.len(),
            i <= n,
            all_groups =~= groups@.map_values(|v: Vec<char>| v@),
            out@ == joined_pieces(all_groups, head@, *settings, i as int),
        decreases n - i,
    {
        let escaped_group = escape_chars(groups[i].as_slice());
        let ghost before = out@;
        if i == 0 {
            append_chars(&mut out, head.as_slice());
        }
        append_chars(&mut out, escaped_group.as_slice());
        if i < n - 1 {
            let sep = group_separator(i, n, settings);
            let sep_chars = chars_of(sep);
            append_chars(&mut out, sep_chars.as_slice());
        }
        assert(out@ =~= before + group_piece(all_groups, head@, *settings, i as int));
        i += 1;
    }
    string_of(out.as_slice())
}

/// A labelled row of the hover table.
pub struct Row {
    pub label: String,
    pub value: String,
}

/// The text of a row.
pub struct RowView {
    pub label: Seq<char>,
    pub value: Seq<char>,
}

impl View for Row {
    type V = RowView;

    open spec fn view(&self) -> RowView {
        RowView { label: self.label@, value: self.value@ }
    }
}

impl Row {
    /// A row with the given label and value.
    pub fn new(label: String, value: String) -> (r: Row)
        ensures
            r@ == (RowView { label: label@, value: value@ }),
    {
        Row { label, value }
    }

    /// A copy of the row.
    pub fn duplicate(&self) -> (r: Row)
        ensures
            r@ == self@,
    {
        Row { label: self.label.clone(), value: self.value.clone() }
    }
}

/// `Binary`
pub open spec fn label_binary() -> Seq<char> {
    seq!['B', 'i', 'n', 'a', 'r', 'y']
}

/// `Octal`
pub open spec fn label_octal() -> Seq<char> {
    seq!['O', 'c', 't', 'a', 'l']
}

/// `Dec (BE)`
pub open spec fn label_dec_be() -> Seq<char> {
    seq!['D', 'e', 'c', ' ', '(', 'B', 'E', ')']
}

/// `Dec (LE)`
pub open spec fn label_dec_le() -> Seq<char> {
    seq!['D', 'e', 'c', ' ', '(', 'L', 'E', ')']
}

/// `Hex`
pub open spec fn label_hex() -> Seq<char> {
    seq!['H', 'e', 'x']
}

/// `Macro`
pub open spec fn label_macro() -> Seq<char> {
    seq!['M', 'a', 'c', 'r', 'o']
}

/// `Ascii`
pub open spec fn label_ascii() -> Seq<char> {
    seq!['A', 's', 'c', 'i', 'i']
}

/// The label of each row kind, as characters.
pub fn label_chars(kind: u8) -> (v: Vec<char>)
    requires
        kind < 7,
    ensures
        kind == 0 ==> v@ == label_binary(),
        kind == 1 ==> v@ == label_octal(),
        kind == 2 ==> v@ == label_dec_be(),
        kind == 3 ==> v@ == label_dec_le(),
        kind == 4 ==> v@ == label_hex(),
        kind == 5 ==> v@ == label_macro(),
        kind == 6 ==> v@ == label_ascii(),
{
    let v = if kind == 0 {
        vec!['B', 'i', 'n', 'a', 'r', 'y']
    } else if kind == 1 {
        vec!['O', 'c', 't', 'a', 'l']
    } else if kind == 2 {
        vec!['D', 'e', 'c', ' ', '(', 'B', 'E', ')']
    } else if kind == 3 {
        vec!['D', 'e', 'c', ' ', '(', 'L', 'E', ')']
    } else if kind == 4 {
        vec!['H', 'e', 'x']
    } else if kind == 5 {
        vec!['M', 'a', 'c', 'r', 'o']
    } else {
        vec!['A', 's', 'c', 'i', 'i']
    };
    assert(kind == 0 ==> v@ =~= label_binary());
    assert(kind == 1 ==> v@ =~= label_octal());
    assert(kind == 2 ==> v@ =~= label_dec_be());
    assert(kind == 3 ==> v@ =~= label_dec_le());
    assert(kind == 4 ==> v@ =~= label_hex());
    assert(kind == 5 ==> v@ =~= label_macro());
    assert(kind == 6 ==> v@ =~= label_ascii());
    v
}

/// What `formatted_macro_value` returns: the trimmed macro, escaped; a trailing
/// `/* ... */` comment set off by two no-break spaces.
pub open spec fn formatted_macro(value: Seq<char>) -> Seq<char> {
    let text = trim(value);
    match find_from(text, seq!['/', '*'], 0) {
        Some(j) => escaped(trim_end(text.take(j))) + seq!['\u{a0}', '\u{a0}'] + escaped(
            trim_end(text.skip(j)),
        ),
        None => escaped(text),
    }
}

/// Formats a macro value for the table: escaped, with its comment set off.
pub fn formatted_macro_value(value: &str) -> (r: String)
    ensures
        r@ == formatted_macro(value@),
{
    let chars = chars_of(value);
    let (start, end) = trim_bounds(chars.as_slice(), 0, chars.len());
    assert(chars@.subrange(0, chars.len() as int) =~= chars@);
    let mut text: Vec<char> = Vec::new();
    append_chars(&mut text, &chars[start..end]);
    assert(text@ =~= trim(value@));
    let pat = vec!['/', '*'];
    assert(pat@ =~= seq!['/', '*']);
    match find_pattern(text.as_slice(), pat.as_slice(), 0) {
        Some(idx) => {
            proof {
                crate::text::lemma_find_from(text@, pat@, 0);
            }
            let before_end = trim_end_bound(text.as_slice(), 0, idx);
            let comment_end = trim_end_bound(text.as_slice(), idx, text.len());
            assert(text@.subrange(0, idx as int) =~= text@.take(idx as int));
            assert(text@.subrange(idx as int, text.len() as int) =~= text@.skip(idx as int));
            let mut out = escape_chars(&text[0..before_end]);
            out.push('\u{a0}');
            out.push('\u{a0}');
            let comment = escape_chars(&text[idx..comment_end]);
            append_chars(&mut out, comment.as_slice());
            assert(out@ =~= formatted_macro(value@));
            string_of(out.as_slice())
        },
        None => {
            let out = escape_chars(text.as_slice());
            string_of(out.as_slice())
        },
    }
}

/// `0b`
pub open spec fn prefix_binary() -> Seq<char> {
    seq!['0', 'b']
}

/// `0o`
pub open spec fn prefix_octal() -> Seq<char> {
    seq!['0', 'o']
}

/// `0x`
pub open spec fn prefix_hex() -> Seq<char> {
    seq!['0', 'x']
}

/// What `formatted_hover_value` returns for a row: grouped digits for the
/// number rows (binary by 4 after `0b`, octal by 3 after `0o`, decimal by 3,
/// hexadecimal by 4 after `0x`), the formatted macro, or the escaped value.
pub open spec fn formatted_value(row: RowView, settings: Settings) -> Seq<char> {
    if row.label == label_binary() {
        grouped_spans(row.value, prefix_binary(), 4, settings)
    } else if row.label == label_octal() {
        grouped_spans(row.value, prefix_octal(), 3, settings)
    } else if row.label == label_dec_be() || row.label == label_dec_le() {
        grouped_spans(row.value, Seq::empty(), 3, settings)
    } else if row.label == label_hex() {
        grouped_spans(row.value, prefix_hex(), 4, settings)
    } else if row.label == label_macro() {
        formatted_macro(row.value)
    } else {
        escaped(row.value)
    }
}

/// The rows that `formatted_hover_value` can format without cutting a character
/// when it groups digits by byte offsets.
pub open spec fn row_formattable(row: RowView) -> bool {
    if row.label == label_binary() {
        grouping_ok(row.value, prefix_binary(), 4)
    } else if row.label == label_octal() {
        grouping_ok(row.value, prefix_octal(), 3)
    } else if row.label == label_dec_be() || row.label == label_dec_le() {
        grouping_ok(row.value, Seq::empty(), 3)
    } else if row.label == label_hex() {
        grouping_ok(row.value, prefix_hex(), 4)
    } else {
        true
    }
}

/// Formats a row's value for the table.
pub fn formatted_hover_value(row: &Row, settings: &Settings) -> (r: String)
    requires
        row_formattable(row@),
    ensures
        r@ == formatted_value(row@, *settings),
{
    let label = chars_of(row.label.as_str());
    if chars_equal(label.as_slice(), label_chars(0).as_slice()) {
        proof {
            reveal_strlit("0b");
            assert("0b"@ =~= prefix_binary());
        }
        grouped_code_spans(row.value.as_str(), "0b", 4, settings)
    } else if chars_equal(label.as_slice(), label_chars(1).as_slice()) {
        proof {
            reveal_strlit("0o");
            assert("0o"@ =~= prefix_octal());
        }
        grouped_code_spans(row.value.as_str(), "0o", 3, settings)
    } else if chars_equal(label.as_slice(), label_chars(2).as_slice()) || chars_equal(
        label.as_slice(),
        label_chars(3).as_slice(),
    ) {
        proof {
            reveal_strlit("");
        }
        grouped_code_spans(row.value.as_str(), "", 3, settings)
    } else if chars_equal(label.as_slice(), label_chars(4).as_slice()) {
        proof {
            reveal_strlit("0x");
            assert("0x"@ =~= prefix_hex());
        }
        grouped_code_spans(row.value.as_str(), "0x", 4, settings)
    } else if chars_equal(label.as_slice(), label_chars(5).as_slice()) {
        formatted_macro_value(row.value.as_str())
    } else if chars_equal(label.as_slice(), label_chars(6).as_slice()) {
        escape_md(row.value.as_str())
    } else {
        if row.value.as_str().is_empty() {
            assert(row.value@ =~= Seq::<char>::empty());
            String::new()
        } else {
            escape_md(row.value.as_str())
        }
    }
}

/// A table line: `| <escaped label> | <formatted value> |`.
pub open spec fn table_line(row: RowView, settings: Settings) -> Seq<char> {
    seq!['|', ' '] + escaped(row.label) + seq![' ', '|', ' '] + formatted_value(row, settings) + seq![
        ' ',
        '|',
    ]
}

fn table_line_string(row: &Row, settings: &Settings) -> (r: String)
    requires
        row_formattable(row@),
    ensures
        r@ == table_line(row@, *settings),
{
    let label = chars_of(row.label.as_str());
    let mut out: Vec<char> = Vec::new();
    out.push('|');
    out.push(' ');
    let escaped_label = escape_chars(label.as_slice());
    append_chars(&mut out, escaped_label.as_slice());
    out.push(' ');
    out.push('|');
    out.push(' ');
    let value = formatted_hover_value(row, settings);
    let value_chars = chars_of(value.as_str());
    append_chars(&mut out, value_chars.as_slice());
    out.push(' ');
    out.push('|');
    assert(out@ =~= table_line(row@, *settings));
    string_of(out.as_slice())
}

/// The header line of the hover table, for the promoted row.
pub fn hover_table_header(row: &Row, settings: &Settings) -> (r: String)
    requires
        row_formattable(row@),
    ensures
        r@ == table_line(row@, *settings),
{
    table_line_string(row, settings)
}

/// A body line of the hover table.
pub fn hover_table_row(row: &Row, settings: &Settings) -> (r: String)
    requires
        row_formattable(row@),
    ensures
        r@ == table_line(row@, *settings),
{
    table_line_string(row, settings)
}

/// In ASCII text every byte offset up to the length is a character boundary.
pub proof fn lemma_ascii_index_of_byte(s: Seq<char>, c: int)
    requires
        all_ascii(s),
        0 <= c <= s.len(),
    ensures
        char_index_of_byte(s, c) == Some(c),
{
    assert forall|k: int| 0 <= k <= c implies index_at_byte(s, c, k) == Some(c) by {
        lemma_ascii_index_from(s, c, k);
    }
}

proof fn lemma_ascii_index_from(s: Seq<char>, c: int, k: int)
    requires
        all_ascii(s),
        0 <= k <= c <= s.len(),
    ensures
        index_at_byte(s, c, k) == Some(c),
    decreases c - k,
{
    crate::text::lemma_ascii_offsets(s, k);
    if k < c {
        lemma_ascii_index_from(s, c, k + 1);
    }
}

/// ASCII text can always be cut into byte groups.
pub proof fn lemma_ascii_byte_groups(d: Seq<char>, end: int, g: int)
    requires
        all_ascii(d),
        0 <= end <= d.len(),
        g > 0,
    ensures
        byte_groups(d, end, g) is Some,
    decreases end,
{
    if end > 0 {
        let start = if end >= g {
            end - g
        } else {
            0
        };
        lemma_ascii_index_of_byte(d, start);
        lemma_ascii_index_of_byte(d, end);
        lemma_ascii_byte_groups(d, start, g);
    }
}

/// Grouping ASCII digits never cuts a character, when the value is at least as
/// long as the prefix.
pub proof fn lemma_ascii_grouping_ok(value: Seq<char>, prefix: Seq<char>, g: int)
    requires
        all_ascii(value),
        all_ascii(prefix),
        prefix.len() <= value.len(),
        g > 0,
    ensures
        grouping_ok(value, prefix, g),
{
    crate::text::lemma_ascii_utf8_len(prefix);
    lemma_ascii_index_of_byte(value, prefix.len() as int);
    let start = digits_start(value, prefix);
    let digits = value.skip(start);
    assert(all_ascii(digits)) by {
        assert forall|i: int| 0 <= i < digits.len() implies '\0' <= #[trigger] digits[i] <= '\u{7f}' by {
            assert(digits[i] == value[start + i]);
        }
    }
    crate::text::lemma_ascii_utf8_len(digits);
    lemma_ascii_byte_groups(digits, digits.len() as int, g);
}

/// Slicing ASCII text into byte pairs never cuts a character.
pub proof fn lemma_ascii_pair_cuts(s: Seq<char>)
    requires
        all_ascii(s),
    ensures
        pair_cuts_ok(s),
{
    let b = encode_utf8(s);

    vstd::utf8::is_ascii_chars_encode_utf8(s);
    encode_utf8_valid_utf8(s);
    vstd::utf8::is_char_boundary_start_end_of_seq(b);
    assert forall|p: int| 0 <= p <= b.len() && (b.len() - p) % 2 == 0 implies is_char_boundary(b, p) by {
        if p < b.len() {
            vstd::utf8::is_char_boundary_iff_not_is_continuation_byte(b, p);
            assert(b[p] == s[p] as u8);
        }
    }
}

/// The groups `gs` written one after the other.
pub open spec fn concat_groups(gs: Seq<Seq<char>>) -> Seq<char>
    decreases gs.len(),
{
    if gs.len() == 0 {
        Seq::empty()
    } else {
        concat_groups(gs.drop_last()) + gs.last()
    }
}

/// Escaping text piece by piece is escaping it whole.
pub proof fn lemma_escaped_concat(a: Seq<char>, b: Seq<char>)
    ensures
        escaped(a + b) == escaped(a) + escaped(b),
    decreases b.len(),
{
    if b.len() == 0 {
        assert(a + b =~= a);
        assert(escaped(a) + escaped(b) =~= escaped(a));
    } else {
        lemma_escaped_concat(a, b.drop_last());
        assert((a + b).drop_last() =~= a + b.drop_last());
        assert((a + b).last() == b.last());
        assert(escaped(a) + escaped(b.drop_last()) + escape_char(b.last()) =~= escaped(a) + (
        escaped(b.drop_last()) + escape_char(b.last())));
    }
}

/// The byte offset of the whole of `d` is the character index `d.len()`.
proof fn lemma_index_at_end(d: Seq<char>, k: int)
    requires
        0 <= k <= d.len(),
    ensures
        index_at_byte(d, utf8_len(d) as int, k) == Some(d.len() as int),
    decreases d.len() - k,
{
    assert(d.take(d.len() as int) =~= d);
    if k < d.len() {
        crate::text::lemma_utf8_len_monotone(d, k + 1, d.len() as int);
        crate::text::lemma_utf8_len_step(d, k);
        lemma_index_at_end(d, k + 1);
    }
}

/// The groups cut from `d` up to byte offset `end`, written one after the other,
/// are the characters of `d` up to that offset.
proof fn lemma_byte_groups_cover(d: Seq<char>, end: int, g: int)
    requires
        0 <= end,
        g > 0,
        byte_groups(d, end, g) is Some,
        char_index_of_byte(d, end) is Some,
    ensures
        concat_groups(byte_groups(d, end, g)->0) == d.take(char_index_of_byte(d, end)->0),
    decreases end,
{
    if end == 0 {
        assert(d.take(0) =~= Seq::<char>::empty());
        assert(utf8_len(d.take(0)) == 0);
        assert(char_index_of_byte(d, 0) == Some(0int));
    } else {
        let start = if end >= g {
            end - g
        } else {
            0
        };
        let a = char_index_of_byte(d, start)->0;
        let b = char_index_of_byte(d, end)->0;
        let gs = byte_groups(d, start, g)->0;
        lemma_byte_groups_cover(d, start, g);
        lemma_index_at_byte(d, start, 0);
        lemma_index_at_byte(d, end, 0);
        if a > b {
            crate::text::lemma_utf8_len_monotone(d, b, a);
        }
        let all = gs.push(d.subrange(a, b));
        assert(all.drop_last() =~= gs);
        assert(d.take(a) + d.subrange(a, b) =~= d.take(b));
    }
}

/// Without group spacing, the first `k` pieces are the escaped prefix and the
/// escaped first `k` groups.
proof fn lemma_joined_pieces_plain(groups: Seq<Seq<char>>, head: Seq<char>, settings: Settings, k: int)
    requires
        !settings.group_spacing,
        1 <= k <= groups.len(),
    ensures
        joined_pieces(groups, head, settings, k) == head + escaped(concat_groups(groups.take(k))),
    decreases k,
{
    let t = groups.take(k);
    assert(t.drop_last() =~= groups.take(k - 1));
    assert(t.last() == groups[k - 1]);
    if k == 1 {
        assert(groups.take(0) =~= Seq::<Seq<char>>::empty());
        assert(concat_groups(t.drop_last()) =~= Seq::<char>::empty());
        assert(concat_groups(t) =~= groups[0]);
        assert(group_piece(groups, head, settings, 0) =~= head + escaped(groups[0]));
        assert(joined_pieces(groups, head, settings, 0) =~= Seq::<char>::empty());
        assert(joined_pieces(groups, head, settings, 1) =~= head + escaped(groups[0]));
    } else {
        lemma_joined_pieces_plain(groups, head, settings, k - 1);
        let prev = concat_groups(groups.take(k - 1));
        lemma_escaped_concat(prev, groups[k - 1]);
        assert(group_piece(groups, head, settings, k - 1) =~= escaped(groups[k - 1]));
        assert(head + escaped(prev) + escaped(groups[k - 1]) =~= head + (escaped(prev) + escaped(
            groups[k - 1],
        )));
    }
}

/// Grouping only adds separators: without group spacing, the grouped form of a
/// value is the value itself, escaped for Markdown.
pub proof fn law_grouping_without_spacing(value: Seq<char>, prefix: Seq<char>, g: int, settings: Settings)
    requires
        grouping_ok(value, prefix, g),
        !settings.group_spacing,
    ensures
        grouped_spans(value, prefix, g, settings) == escaped(value),
{
    let start = digits_start(value, prefix);
    if has_case_prefix(value, prefix) {
        lemma_index_at_byte(value, utf8_len(prefix) as int, 0);
    }
    let digits = value.skip(start);
    let head = escaped(value.take(start));
    let groups = value_groups(value, prefix, g)->0;
    lemma_index_at_end(digits, 0);
    if g > 0 {
        lemma_byte_groups_cover(digits, utf8_len(digits) as int, g);
    } else {
        crate::text::lemma_utf8_len_monotone(digits, 0, digits.len() as int);
        assert(digits.take(0) =~= Seq::<char>::empty());
        assert(utf8_len(Seq::<char>::empty()) == 0);
    }
    assert(digits.take(digits.len() as int) =~= digits);
    lemma_escaped_concat(value.take(start), digits);
    assert(value.take(start) + digits =~= value);
    if groups.len() == 0 {
        assert(digits =~= Seq::<char>::empty());
        assert(head + escaped(digits) =~= head);
    } else {
        lemma_joined_pieces_plain(groups, head, settings, groups.len() as int);
        assert(groups.take(groups.len() as int) =~= groups);
    }
}

/// Whether `c` is one of the narrow spaces that separate digit groups.
pub open spec fn is_group_space(c: char) -> bool {
    c == '\u{2004}' || c == '\u{2005}'
}

/// `s` without the narrow spaces that separate digit groups.
pub open spec fn without_group_spaces(s: Seq<char>) -> Seq<char>
    decreases s.len(),
{
    if s.len() == 0 {
        s
    } else if is_group_space(s.last()) {
        without_group_spaces(s.drop_last())
    } else {
        without_group_spaces(s.drop_last()).push(s.last())
    }
}

proof fn lemma_without_group_spaces_concat(a: Seq<char>, b: Seq<char>)
    ensures
        without_group_spaces(a + b) == without_group_spaces(a) + without_group_spaces(b),
    decreases b.len(),
{
    if b.len() == 0 {
        assert(a + b =~= a);
        assert(without_group_spaces(a) + without_group_spaces(b) =~= without_group_spaces(a));
    } else {
        lemma_without_group_spaces_concat(a, b.drop_last());
        assert((a + b).drop_last() =~= a + b.drop_last());
        assert((a + b).last() == b.last());
        if !is_group_space(b.last()) {
            assert(without_group_spaces(a) + without_group_spaces(b.drop_last()).push(b.last())
                =~= (without_group_spaces(a) + without_group_spaces(b.drop_last())).push(b.last()));
        }
    }
}

proof fn lemma_without_group_spaces_escaped(x: Seq<char>)
    requires
        forall|i: int| 0 <= i < x.len() ==> !is_group_space(#[trigger] x[i]),
    ensures
        without_group_spaces(escaped(x)) == escaped(x),
    decreases x.len(),
{
    if x.len() > 0 {
        let c = x.last();
        assert forall|i: int| 0 <= i < x.drop_last().len() implies !is_group_space(
            #[trigger] x.drop_last()[i],
        ) by {
            assert(x.drop_last()[i] == x[i]);
        }
        lemma_without_group_spaces_escaped(x.drop_last());
        lemma_without_group_spaces_concat(escaped(x.drop_last()), escape_char(c));
        let e = escape_char(c);
        assert(!is_group_space(c));
        let empty = Seq::<char>::empty();
        assert(without_group_spaces(empty) == empty);
        if md_special(c) {
            let d = seq!['\\'];
            assert(d.drop_last() =~= empty);
            assert(without_group_spaces(d) =~= d);
            assert(e.drop_last() =~= d);
            assert(without_group_spaces(e) =~= d.push(c));
        } else {
            assert(e.drop_last() =~= empty);
            assert(without_group_spaces(e) =~= empty.push(c));
        }
        assert(without_group_spaces(e) =~= e);
    }
}

/// Without the separators, the first `k` grouped pieces are the same whether
/// groups are spaced or not.
proof fn lemma_joined_without_spaces(groups: Seq<Seq<char>>, head: Seq<char>, settings: Settings, k: int)
    requires
        0 <= k <= groups.len(),
    ensures
        without_group_spaces(joined_pieces(groups, head, settings, k)) == without_group_spaces(
            joined_pieces(groups, head, Settings { group_spacing: false }, k),
        ),
    decreases k,
{
    let plain = Settings { group_spacing: false };
    if k > 0 {
        lemma_joined_without_spaces(groups, head, settings, k - 1);
        let pre = if k - 1 == 0 {
            head
        } else {
            Seq::<char>::empty()
        };
        let sep = if k - 1 < groups.len() - 1 {
            separator_text(k - 1, groups.len() as int, settings)
        } else {
            Seq::<char>::empty()
        };
        let body = pre + escaped(groups[k - 1]);
        assert(group_piece(groups, head, settings, k - 1) == body + sep);
        assert(group_piece(groups, head, plain, k - 1) =~= body + Seq::<char>::empty());
        assert(body + Seq::<char>::empty() =~= body);
        lemma_without_group_spaces_concat(body, sep);
        assert(without_group_spaces(Seq::<char>::empty()) == Seq::<char>::empty());
        if sep.len() > 0 {
            assert(sep.len() == 1 && is_group_space(sep.last()));
            assert(sep.drop_last() =~= Seq::<char>::empty());
        }
        assert(without_group_spaces(sep) =~= Seq::<char>::empty());
        assert(without_group_spaces(body) + without_group_spaces(sep) =~= without_group_spaces(body));
        lemma_without_group_spaces_concat(
            joined_pieces(groups, head, settings, k - 1),
            group_piece(groups, head, settings, k - 1),
        );
        lemma_without_group_spaces_concat(
            joined_pieces(groups, head, plain, k - 1),
            group_piece(groups, head, plain, k - 1),
        );
    }
}

/// Grouping only adds separators: with them taken out, the grouped form of a
/// value (that holds no such narrow space itself) is the value escaped for
/// Markdown, whatever the settings.
pub proof fn law_grouping_adds_only_separators(
    value: Seq<char>,
    prefix: Seq<char>,
    g: int,
    settings: Settings,
)
    requires
        grouping_ok(value, prefix, g),
        forall|i: int| 0 <= i < value.len() ==> !is_group_space(#[trigger] value[i]),
    ensures
        without_group_spaces(grouped_spans(value, prefix, g, settings)) == escaped(value),
{
    let plain = Settings { group_spacing: false };
    law_grouping_without_spacing(value, prefix, g, plain);
    lemma_without_group_spaces_escaped(value);
    let groups = value_groups(value, prefix, g)->0;
    if groups.len() > 0 {
        let head = escaped(value.take(digits_start(value, prefix)));
        lemma_joined_without_spaces(groups, head, settings, groups.len() as int);
    }
}

/// `s` with the backslash before each escaped character taken out.
pub open spec fn unescaped(s: Seq<char>) -> Seq<char>
    decreases s.len(),
{
    if s.len() == 0 {
        s
    } else if s[0] == '\\' && s.len() >= 2 {
        seq![s[1]] + unescaped(s.skip(2))
    } else {
        seq![s[0]] + unescaped(s.skip(1))
    }
}

/// Taking the Markdown escapes out again gives the value back.
pub proof fn law_unescape_escaped(v: Seq<char>)
    ensures
        unescaped(escaped(v)) == v,
    decreases v.len(),
{
    if v.len() > 0 {
        let c = v[0];
        let rest = v.drop_first();
        assert(v =~= seq![c] + rest);
        lemma_escaped_concat(seq![c], rest);
        assert(seq![c].drop_last() =~= Seq::<char>::empty());
        assert(escaped(Seq::<char>::empty()) == Seq::<char>::empty());
        assert(seq![c].last() == c);
        assert(escaped(seq![c]) == escaped(Seq::<char>::empty()) + escape_char(c));
        assert(escaped(seq![c]) =~= escape_char(c));
        law_unescape_escaped(rest);
        let e = escaped(v);
        assert(e == escape_char(c) + escaped(rest));
        if md_special(c) {
            assert(e.skip(2) =~= escaped(rest));
            assert(e[0] == '\\' && e[1] == c);
        } else {
            assert(e.skip(1) =~= escaped(rest));
            assert(e[0] == c && c != '\\');
        }
        assert(seq![c] + rest =~= v);
    } else {
        assert(escaped(v) == v);
    }
}

/// How many narrow spaces that separate digit groups `s` holds.
pub open spec fn count_group_spaces(s: Seq<char>) -> nat
    decreases s.len(),
{
    if s.len() == 0 {
        0
    } else {
        count_group_spaces(s.drop_last()) + (if is_group_space(s.last()) {
            1nat
        } else {
            0nat
        })
    }
}

/// The last narrow space that separates digit groups in `s`, if any.
pub open spec fn last_group_space(s: Seq<char>) -> Option<char>
    decreases s.len(),
{
    if s.len() == 0 {
        None
    } else if is_group_space(s.last()) {
        Some(s.last())
    } else {
        last_group_space(s.drop_last())
    }
}

proof fn lemma_group_spaces_concat(a: Seq<char>, b: Seq<char>)
    ensures
        count_group_spaces(a + b) == count_group_spaces(a) + count_group_spaces(b),
        last_group_space(a + b) == (if last_group_space(b) is Some {
            last_group_space(b)
        } else {
            last_group_space(a)
        }),
    decreases b.len(),
{
    if b.len() == 0 {
        assert(a + b =~= a);
    } else {
        lemma_group_spaces_concat(a, b.drop_last());
        assert((a + b).drop_last() =~= a + b.drop_last());
        assert((a + b).last() == b.last());
    }
}

proof fn lemma_escaped_group_spaces(x: Seq<char>)
    requires
        forall|i: int| 0 <= i < x.len() ==> !is_group_space(#[trigger] x[i]),
    ensures
        count_group_spaces(escaped(x)) == 0,
        last_group_space(escaped(x)) is None,
    decreases x.len(),
{
    if x.len() > 0 {
        let c = x.last();
        assert forall|i: int| 0 <= i < x.drop_last().len() implies !is_group_space(
            #[trigger] x.drop_last()[i],
        ) by {
            assert(x.drop_last()[i] == x[i]);
        }
        lemma_escaped_group_spaces(x.drop_last());
        lemma_group_spaces_concat(escaped(x.drop_last()), escape_char(c));
        let e = escape_char(c);
        assert(!is_group_space(c));
        let empty = Seq::<char>::empty();
        assert(count_group_spaces(empty) == 0);
        assert(last_group_space(empty) is None);
        assert(e.last() == c);
        if md_special(c) {
            let d = seq!['\\'];
            assert(d.drop_last() =~= empty);
            assert(d.last() == '\\');
            assert(count_group_spaces(d) == 0 && last_group_space(d) is None);
            assert(e.drop_last() =~= d);
        } else {
            assert(e.drop_last() =~= empty);
        }
        assert(count_group_spaces(e) == 0 && last_group_space(e) is None);
    }
}

/// With group spacing, the first `k` pieces hold a separator after each group
/// but the last; the last separator is the one after piece `k - 1`, or, when
/// `k` takes in the last group, the four-per-em space after the group before it.
proof fn lemma_joined_group_spaces(groups: Seq<Seq<char>>, head: Seq<char>, settings: Settings, k: int)
    requires
        settings.group_spacing,
        0 <= k <= groups.len(),
        groups.len() > 0,
        count_group_spaces(head) == 0,
        last_group_space(head) is None,
        forall|j: int| 0 <= j < groups.len() ==> count_group_spaces(escaped(#[trigger] groups[j])) == 0
            && last_group_space(escaped(groups[j])) is None,
    ensures
        count_group_spaces(joined_pieces(groups, head, settings, k)) == (if k <= groups.len() - 1 {
            k
        } else {
            groups.len() - 1
        }),
        1 <= k <= groups.len() - 1 ==> last_group_space(joined_pieces(groups, head, settings, k))
            == Some(separator_text(k - 1, groups.len() as int, settings)[0]),
        k == groups.len() >= 2 ==> last_group_space(joined_pieces(groups, head, settings, k)) == Some(
            '\u{2005}',
        ),
    decreases k,
{
    let n = groups.len() as int;
    let empty = Seq::<char>::empty();
    assert(count_group_spaces(empty) == 0 && last_group_space(empty) is None);
    if k == 0 {
        assert(joined_pieces(groups, head, settings, 0) =~= Seq::<char>::empty());
    } else {
        lemma_joined_group_spaces(groups, head, settings, k - 1);
        let pre = if k - 1 == 0 {
            head
        } else {
            Seq::<char>::empty()
        };
        let sep = if k - 1 < n - 1 {
            separator_text(k - 1, n, settings)
        } else {
            Seq::<char>::empty()
        };
        let g = escaped(groups[k - 1]);
        assert(count_group_spaces(g) == 0 && last_group_space(g) is None);
        assert(group_piece(groups, head, settings, k - 1) == pre + g + sep);
        lemma_group_spaces_concat(pre, g);
        lemma_group_spaces_concat(pre + g, sep);
        lemma_group_spaces_concat(
            joined_pieces(groups, head, settings, k - 1),
            group_piece(groups, head, settings, k - 1),
        );
        assert(count_group_spaces(pre) == 0 && last_group_space(pre) is None);
        if k - 1 < n - 1 {
            assert(sep.len() == 1 && is_group_space(sep[0]));
            assert(sep.drop_last() =~= empty);
            assert(count_group_spaces(sep) == 1);
            assert(last_group_space(sep) == Some(sep[0]));
        } else {
            assert(count_group_spaces(sep) == 0 && last_group_space(sep) is None);
            if n >= 2 {
                assert((n - (n - 2) - 1) % 2 == 1);
                assert(separator_text(n - 2, n, settings) == seq!['\u{2005}']);
            }
        }
    }
}

/// The groups of digits cut by `byte_groups` up to byte offset `end` are
/// `end / g` rounded up.
proof fn lemma_byte_groups_count(d: Seq<char>, end: int, g: int)
    requires
        0 <= end,
        g > 0,
        byte_groups(d, end, g) is Some,
    ensures
        byte_groups(d, end, g)->0.len() == (end + g - 1) / g,
    decreases end,
{
    if end == 0 {
        assert((g - 1) / g == 0) by (nonlinear_arith)
            requires
                g > 0,
        ;
    } else {
        let start = if end >= g {
            end - g
        } else {
            0
        };
        lemma_byte_groups_count(d, start, g);
        if end >= g {
            assert((end - g + g - 1) / g + 1 == (end + g - 1) / g) by (nonlinear_arith)
                requires
                    g > 0,
                    end >= g,
            ;
        } else {
            assert((g - 1) / g == 0 && (end + g - 1) / g == 1) by (nonlinear_arith)
                requires
                    g > 0,
                    0 < end < g,
            ;
        }
    }
}

/// With group spacing, a value's digits are cut into `d / g` groups rounded up
/// (`d` the bytes after the prefix), and one separator stands between each two
/// groups; the last separator is the four-per-em space (U+2005).
pub proof fn law_group_separators(value: Seq<char>, prefix: Seq<char>, g: int, settings: Settings)
    requires
        grouping_ok(value, prefix, g),
        g > 0,
        settings.group_spacing,
        forall|i: int| 0 <= i < value.len() ==> !is_group_space(#[trigger] value[i]),
    ensures
        ({
            let digits = value.skip(digits_start(value, prefix));
            let n = value_groups(value, prefix, g)->0.len();
            let out = grouped_spans(value, prefix, g, settings);
            &&& n == (utf8_len(digits) + g - 1) / g
            &&& count_group_spaces(out) == (if n == 0 {
                0
            } else {
                n - 1
            })
            &&& n >= 2 ==> last_group_space(out) == Some('\u{2005}')
        }),
{
    let start = digits_start(value, prefix);
    if has_case_prefix(value, prefix) {
        lemma_index_at_byte(value, utf8_len(prefix) as int, 0);
    }
    let digits = value.skip(start);
    let groups = value_groups(value, prefix, g)->0;
    lemma_byte_groups_count(digits, utf8_len(digits) as int, g);
    let head = escaped(value.take(start));
    assert forall|i: int| 0 <= i < value.take(start).len() implies !is_group_space(
        #[trigger] value.take(start)[i],
    ) by {
        assert(value.take(start)[i] == value[i]);
    }
    lemma_escaped_group_spaces(value.take(start));
    lemma_index_at_end(digits, 0);
    lemma_byte_groups_cover(digits, utf8_len(digits) as int, g);
    assert(digits.take(digits.len() as int) =~= digits);
    if groups.len() > 0 {
        assert forall|j: int| 0 <= j < groups.len() implies count_group_spaces(
            escaped(#[trigger] groups[j]),
        ) == 0 && last_group_space(escaped(groups[j])) is None by {
            lemma_group_in_concat(groups, j);
            let c = concat_groups(groups);
            assert forall|i: int| 0 <= i < groups[j].len() implies !is_group_space(
                #[trigger] groups[j][i],
            ) by {
                let off = concat_groups(groups.take(j)).len() as int;
                assert(groups[j][i] == c[off + i]);
                assert(c[off + i] == value[start + off + i]);
            }
            lemma_escaped_group_spaces(groups[j]);
        }
        lemma_joined_group_spaces(groups, head, settings, groups.len() as int);
    }
}

/// Group `j` stands in the written-out groups right after the groups before it.
proof fn lemma_group_in_concat(gs: Seq<Seq<char>>, j: int)
    requires
        0 <= j < gs.len(),
    ensures
        forall|i: int| 0 <= i < gs[j].len() ==> concat_groups(gs)[concat_groups(gs.take(j)).len() + i]
            == #[trigger] gs[j][i],
        concat_groups(gs.take(j)).len() + gs[j].len() <= concat_groups(gs).len(),
    decreases gs.len(),
{
    let last = gs.len() - 1;
    assert(gs.drop_last() =~= gs.take(last));
    if j == last {
        assert(gs.take(j) =~= gs.drop_last());
    } else {
        lemma_group_in_concat(gs.drop_last(), j);
        assert(gs.drop_last().take(j) =~= gs.take(j));
        assert(gs.drop_last()[j] == gs[j]);
    }
}

/// The byte of an ASCII character is its code.
proof fn lemma_ascii_byte(c: char)
    requires
        (c as u32) < 128,
    ensures
        (c as u8) as nat == c as nat,
{
    let x = c as u32;
    assert(x as u8 == x) by (bit_vector)
        requires
            x < 128,
    ;
    vstd::utf8::char_u32_cast(c, x);
}

/// The value of a hexadecimal digit byte is the digit's value, in either case.
proof fn lemma_hex_digit_byte(c: char)
    requires
        is_radix_digit(c, 16),
    ensures
        hex_byte_digit(c as u8),
        hex_byte_value(c as u8) == char_digit_value(c),
        c as u8 != 43,
{
    lemma_ascii_byte(c);
}

/// A byte written as two hexadecimal digits, or as one, is read as those digits
/// in base 16, whatever their case.
pub proof fn law_hex_byte_reading(a: char, b: char)
    requires
        is_radix_digit(a, 16),
        is_radix_digit(b, 16),
    ensures
        hex_pair_value(encode_utf8(seq![a, b])) == char_digit_value(a) * 16 + char_digit_value(b),
        hex_pair_value(encode_utf8(seq![a])) == char_digit_value(a),
{
    let two = seq![a, b];
    let one = seq![a];
    assert(vstd::utf8::is_ascii_chars(two));
    assert(vstd::utf8::is_ascii_chars(one));
    vstd::utf8::is_ascii_chars_encode_utf8(two);
    vstd::utf8::is_ascii_chars_encode_utf8(one);
    lemma_hex_digit_byte(a);
    lemma_hex_digit_byte(b);
    let e2 = encode_utf8(two);
    let e1 = encode_utf8(one);
    assert(e2[0] == a as u8 && e2[1] == b as u8);
    assert(e1[0] == a as u8);
    assert(hex_pair_digits(e2) == e2);
    assert(hex_pair_digits(e1) == e1);
    assert(e2.drop_last().drop_last() =~= Seq::<u8>::empty());
    assert(e1.drop_last() =~= Seq::<u8>::empty());
    assert(e2.drop_last()[0] == e2[0]);
    assert(hex_bytes_value(Seq::<u8>::empty()) == 0);
    assert(hex_bytes_value(e2.drop_last()) == hex_byte_value(e2[0]));
    assert(hex_bytes_value(e1) == hex_byte_value(e1[0]));
}

} // verus!

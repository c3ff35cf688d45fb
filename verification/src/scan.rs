//! Finding `GENMASK(h, l)`, `BIT(n)` and `SZ_<n>K` macros under the cursor in a
//! line of text.
//!
//! Columns of macros are byte offsets into the line, as the text search reports
//! them; neighbouring characters are then looked up by character index at those
//! offsets.

use crate::bignat::{
    big_from_decimal_str, big_mul, big_shl, big_sub, big_to_str_radix, decimal_biguint, is_dec_digit,
    radix_string, two_pow, BigNat,
};
use crate::bitmacro::{bit_open, format_macro, genmask_open, lemma_two_pow_pos, macro_text, sz_prefix};
use crate::literal::{is_name_char, name_char, LiteralKind};
use crate::text::{
    find_char, find_pattern, first_index_from, find_from, lemma_find_from, lemma_first_index_from,
    parse_u32, std_parse_u32, string_of, trim, trim_chars, utf8_len, LineText,
};
use vstd::prelude::*;

verus! {

/// The largest bit index that a macro may name.
pub const MAX_MACRO_BIT_INDEX: u32 = 4096;

/// A position in a document: line number and column.
#[derive(Clone, Copy, PartialEq, Eq, Debug, Structural)]
pub struct Position {
    pub line: u32,
    pub character: u32,
}

/// A range of a document, from `start` to `end`.
#[derive(Clone, Copy, PartialEq, Eq, Debug, Structural)]
pub struct TextRange {
    pub start: Position,
    pub end: Position,
}

/// A number found under the cursor.
pub struct ParsedNumber {
    /// The text of the literal or macro.
    pub word: String,
    /// Its value.
    pub big_num: BigNat,
    /// Its hexadecimal digits.
    pub hexs: String,
    /// How it was written.
    pub literal_kind: LiteralKind,
    /// Whether a `-` stands right before it.
    pub has_negative_prefix: bool,
    /// The macro that writes the value, if any.
    pub macro_str: Option<String>,
    /// Where it stands.
    pub range: TextRange,
}

/// The mathematical content of a `ParsedNumber`.
pub struct NumberView {
    pub word: Seq<char>,
    pub value: nat,
    pub hexs: Seq<char>,
    pub kind: LiteralKind,
    pub negative: bool,
    pub macro_text: Option<Seq<char>>,
    pub range: TextRange,
}

/// The view of an optional string.
pub open spec fn opt_view(s: Option<String>) -> Option<Seq<char>> {
    match s {
        Some(t) => Some(t@),
        None => None,
    }
}

impl View for ParsedNumber {
    type V = NumberView;

    open spec fn view(&self) -> NumberView {
        NumberView {
            word: self.word@,
            value: self.big_num@,
            hexs: self.hexs@,
            kind: self.literal_kind,
            negative: self.has_negative_prefix,
            macro_text: opt_view(self.macro_str),
            range: self.range,
        }
    }
}

/// What `parse_bit_index` returns: the `u32` that `s` parses as, if at most 4096.
pub open spec fn bit_index(s: Seq<char>) -> Option<u32> {
    match std_parse_u32(s) {
        Some(b) => if b <= MAX_MACRO_BIT_INDEX {
            Some(b)
        } else {
            None
        },
        None => None,
    }
}

fn bit_index_chars(s: &[char]) -> (r: Option<u32>)
    ensures
        r == bit_index(s@),
{
    match parse_u32(s) {
        Some(b) => if b <= MAX_MACRO_BIT_INDEX {
            Some(b)
        } else {
            None
        },
        None => None,
    }
}

/// Parses a macro bit index: a `u32` of at most 4096.
pub fn parse_bit_index(s: &str) -> (r: Option<u32>)
    ensures
        r == bit_index(s@),
{
    let chars = crate::text::chars_of(s);
    bit_index_chars(chars.as_slice())
}

/// The byte offset of character `j` of `line`, as a column.
pub open spec fn column_of(line: Seq<char>, j: int) -> u32 {
    utf8_len(line.take(j)) as u32
}

/// The outcome of checking a macro occurrence against its surroundings and the cursor.
#[derive(Clone, Copy, PartialEq, Eq, Debug, Structural)]
pub enum Gate {
    /// A neighbour lookup fell outside the line: the search ends with nothing.
    Stop,
    /// The occurrence is part of a longer name or not under the cursor: search on.
    Skip,
    /// The occurrence is the one under the cursor.
    Pass,
}

/// The check of the occurrence at characters `j..e`: the characters just before
/// and just after (looked up by index at the byte columns) must not be name
/// characters, and the cursor must lie within the columns.
pub open spec fn gate(line: Seq<char>, pos: Position, j: int, e: int) -> Gate {
    let start_char = column_of(line, j);
    let end_char = column_of(line, e);
    let total = utf8_len(line) as u32;
    let left = if start_char > 0 {
        if (start_char - 1) < line.len() {
            if name_char(line[start_char - 1]) {
                Gate::Skip
            } else {
                Gate::Pass
            }
        } else {
            Gate::Stop
        }
    } else {
        Gate::Pass
    };
    let right = if end_char < total {
        if (end_char as int) < line.len() {
            if name_char(line[end_char as int]) {
                Gate::Skip
            } else {
                Gate::Pass
            }
        } else {
            Gate::Stop
        }
    } else {
        Gate::Pass
    };
    if !(left is Pass) {
        left
    } else if !(right is Pass) {
        right
    } else if start_char <= pos.character && pos.character <= end_char {
        Gate::Pass
    } else {
        Gate::Skip
    }
}

fn gate_exec(text: &LineText, pos: Position, j: usize, e: usize) -> (r: Gate)
    requires
        text.wf(),
        j <= e <= text.chars.len(),
    ensures
        r == gate(text.chars@, pos, j as int, e as int),
{
    let start_char = text.offsets[j] as u32;
    let end_char = text.offsets[e] as u32;
    let total = text.offsets[text.chars.len()] as u32;
    assert(text.chars@.take(text.chars.len() as int) =~= text.chars@);
    if start_char > 0 {
        let k = (start_char - 1) as usize;
        if k >= text.chars.len() {
            return Gate::Stop;
        }
        if is_name_char(text.chars[k]) {
            return Gate::Skip;
        }
    }
    if end_char < total {
        let k = end_char as usize;
        if k >= text.chars.len() {
            return Gate::Stop;
        }
        if is_name_char(text.chars[k]) {
            return Gate::Skip;
        }
    }
    if start_char <= pos.character && pos.character <= end_char {
        Gate::Pass
    } else {
        Gate::Skip
    }
}

/// The number that a macro at characters `j..e` of `line` stands for.
pub open spec fn macro_hit(line: Seq<char>, pos: Position, j: int, e: int, value: nat) -> NumberView {
    NumberView {
        word: line.subrange(j, e),
        value,
        hexs: radix_string(value, 16),
        kind: LiteralKind::Macro,
        negative: false,
        macro_text: macro_text(value),
        range: TextRange {
            start: Position { line: pos.line, character: column_of(line, j) },
            end: Position { line: pos.line, character: column_of(line, e) },
        },
    }
}

fn macro_number(text: &LineText, pos: Position, j: usize, e: usize, value: BigNat) -> (r:
    ParsedNumber)
    requires
        text.wf(),
        j <= e <= text.chars.len(),
    ensures
        r@ == macro_hit(text.chars@, pos, j as int, e as int, value@),
{
    let word = string_of(&text.chars[j..e]);
    let hexs = big_to_str_radix(&value, 16);
    let macro_str = match format_macro(&value) {
        Some(m) => Some(string_of(m.as_slice())),
        None => None,
    };
    ParsedNumber {
        word,
        big_num: value,
        hexs,
        literal_kind: LiteralKind::Macro,
        has_negative_prefix: false,
        macro_str,
        range: TextRange {
            start: Position { line: pos.line, character: text.offsets[j] as u32 },
            end: Position { line: pos.line, character: text.offsets[e] as u32 },
        },
    }
}

/// The value of `GENMASK(high, low)`: bits `low..=high` set.
pub open spec fn genmask_value(high: nat, low: nat) -> nat {
    ((two_pow((high - low + 1) as nat) - 1) * two_pow(low)) as nat
}

/// The two parts of `s` around its first `,` (`splitn(2, ',')`), if it has one.
pub open spec fn split_at_comma(s: Seq<char>) -> Option<(Seq<char>, Seq<char>)> {
    match first_index_from(s, ',', 0) {
        Some(c) => Some((s.take(c), s.skip(c + 1))),
        None => None,
    }
}

/// What `try_parse_genmask` returns when its search starts at character `from`.
pub open spec fn genmask_scan(line: Seq<char>, pos: Position, from: int) -> Option<NumberView>
    decreases line.len() + 1 - from,
{
    if from < 0 || from > line.len() {
        None
    } else {
        match find_from(line, genmask_open(), from) {
            None => None,
            Some(j) => match first_index_from(line, ')', j + 8) {
                None => None,
                Some(k) => match split_at_comma(line.subrange(j + 8, k)) {
                    None => None,
                    Some((a, b)) => match (bit_index(trim(a)), bit_index(trim(b))) {
                        (Some(high), Some(low)) => {
                            proof {
                                lemma_find_from(line, genmask_open(), from);
                                lemma_first_index_from(line, ')', j + 8);
                            }
                            if high < low {
                                genmask_scan(line, pos, k + 1)
                            } else {
                                match gate(line, pos, j, k + 1) {
                                    Gate::Stop => None,
                                    Gate::Skip => genmask_scan(line, pos, k + 1),
                                    Gate::Pass => Some(
                                        macro_hit(
                                            line,
                                            pos,
                                            j,
                                            k + 1,
                                            genmask_value(high as nat, low as nat),
                                        ),
                                    ),
                                }
                            }
                        },
                        _ => None,
                    },
                },
            },
        }
    }
}

fn genmask_open_chars() -> (v: Vec<char>)
    ensures
        v@ == genmask_open(),
{
    let v = vec!['G', 'E', 'N', 'M', 'A', 'S', 'K', '('];
    assert(v@ =~= genmask_open());
    v
}

fn bit_open_chars() -> (v: Vec<char>)
    ensures
        v@ == bit_open(),
{
    let v = vec!['B', 'I', 'T', '('];
    assert(v@ =~= bit_open());
    v
}

fn sz_prefix_chars() -> (v: Vec<char>)
    ensures
        v@ == sz_prefix(),
{
    let v = vec!['S', 'Z', '_'];
    assert(v@ =~= sz_prefix());
    v
}

/// `GENMASK(high, low)` computed with `BigUint`: `((1 << (high - low + 1)) - 1) << low`.
fn genmask_number(high: u32, low: u32) -> (r: BigNat)
    requires
        low <= high <= MAX_MACRO_BIT_INDEX,
    ensures
        r@ == genmask_value(high as nat, low as nat),
{
    let one = BigNat::from_u32(1);
    let ones_top = big_shl(&one, high - low + 1);
    proof {
        lemma_two_pow_pos((high - low + 1) as nat);
    }
    let ones = big_sub(&ones_top, &one);
    big_shl(&ones, low)
}

/// Finds a `GENMASK(high, low)` macro under the cursor.
pub fn try_parse_genmask(text: &LineText, pos: Position) -> (r: Option<ParsedNumber>)
    requires
        text.wf(),
    ensures
        r matches Some(p) ==> genmask_scan(text.chars@, pos, 0) == Some(p@),
        r is None ==> genmask_scan(text.chars@, pos, 0) is None,
{
    let line = text.chars.as_slice();
    let keyword = genmask_open_chars();
    let mut search_start: usize = 0;
    loop
        invariant
            text.wf(),
            line@ == text.chars@,
            keyword@ == genmask_open(),
            search_start <= line.len(),
            genmask_scan(line@, pos, 0) == genmask_scan(line@, pos, search_start as int),
        decreases line.len() + 1 - search_start,
    {
        let j = match find_pattern(line, keyword.as_slice(), search_start) {
            Some(j) => j,
            None => return None,
        };
        proof {
            lemma_find_from(line@, genmask_open(), search_start as int);
        }
        let k = match find_char(line, ')', j + 8) {
            Some(k) => k,
            None => return None,
        };
        proof {
            lemma_first_index_from(line@, ')', j + 8);
        }
        let args = &line[j + 8..k];
        assert(args@ == line@.subrange(j + 8, k as int));
        let comma = match find_char(args, ',', 0) {
            Some(c) => c,
            None => return None,
        };
        proof {
            lemma_first_index_from(args@, ',', 0);
        }
        let high_str = trim_chars(args, 0, comma);
        let low_str = trim_chars(args, comma + 1, args.len());
        assert(args@.subrange(0, comma as int) =~= args@.take(comma as int));
        assert(args@.subrange(comma + 1, args.len() as int) =~= args@.skip(comma + 1));
        let high = match bit_index_chars(high_str.as_slice()) {
            Some(h) => h,
            None => return None,
        };
        let low = match bit_index_chars(low_str.as_slice()) {
            Some(l) => l,
            None => return None,
        };
        if high < low {
            search_start = k + 1;
            continue;
        }
        match gate_exec(text, pos, j, k + 1) {
            Gate::Stop => return None,
            Gate::Skip => {
                search_start = k + 1;
                continue;
            },
            Gate::Pass => {
                let value = genmask_number(high, low);
                return Some(macro_number(text, pos, j, k + 1, value));
            },
        }
    }
}

/// What `try_parse_bit` returns when its search starts at character `from`.
pub open spec fn bit_scan(line: Seq<char>, pos: Position, from: int) -> Option<NumberView>
    decreases line.len() + 1 - from,
{
    if from < 0 || from > line.len() {
        None
    } else {
        match find_from(line, bit_open(), from) {
            None => None,
            Some(j) => match first_index_from(line, ')', j + 4) {
                None => None,
                Some(k) => match bit_index(trim(line.subrange(j + 4, k))) {
                    None => None,
                    Some(bit) => {
                        proof {
                            lemma_find_from(line, bit_open(), from);
                            lemma_first_index_from(line, ')', j + 4);
                        }
                        match gate(line, pos, j, k + 1) {
                            Gate::Stop => None,
                            Gate::Skip => bit_scan(line, pos, k + 1),
                            Gate::Pass => Some(macro_hit(line, pos, j, k + 1, two_pow(bit as nat))),
                        }
                    },
                },
            },
        }
    }
}

/// Finds a `BIT(n)` macro under the cursor.
pub fn try_parse_bit(text: &LineText, pos: Position) -> (r: Option<ParsedNumber>)
    requires
        text.wf(),
    ensures
        r matches Some(p) ==> bit_scan(text.chars@, pos, 0) == Some(p@),
        r is None ==> bit_scan(text.chars@, pos, 0) is None,
{
    let line = text.chars.as_slice();
    let keyword = bit_open_chars();
    let mut search_start: usize = 0;
    loop
        invariant
            text.wf(),
            line@ == text.chars@,
            keyword@ == bit_open(),
            search_start <= line.len(),
            bit_scan(line@, pos, 0) == bit_scan(line@, pos, search_start as int),
        decreases line.len() + 1 - search_start,
    {
        let j = match find_pattern(line, keyword.as_slice(), search_start) {
            Some(j) => j,
            None => return None,
        };
        proof {
            lemma_find_from(line@, bit_open(), search_start as int);
        }
        let k = match find_char(line, ')', j + 4) {
            Some(k) => k,
            None => return None,
        };
        proof {
            lemma_first_index_from(line@, ')', j + 4);
        }
        let arg_str = trim_chars(line, j + 4, k);
        let bit = match bit_index_chars(arg_str.as_slice()) {
            Some(b) => b,
            None => return None,
        };
        match gate_exec(text, pos, j, k + 1) {
            Gate::Stop => return None,
            Gate::Skip => {
                search_start = k + 1;
                continue;
            },
            Gate::Pass => {
                let one = BigNat::from_u32(1);
                let value = big_shl(&one, bit);
                return Some(macro_number(text, pos, j, k + 1, value));
            },
        }
    }
}

/// The index of the first character at or after `i` that is not an ASCII digit,
/// or the length of the line.
pub open spec fn digits_end_from(line: Seq<char>, i: int) -> int
    decreases line.len() - i,
{
    if i < 0 || i >= line.len() || !is_dec_digit(line[i]) {
        i
    } else {
        digits_end_from(line, i + 1)
    }
}

/// The digits run from `i` up to `digits_end_from(line, i)`.
pub proof fn lemma_digits_end_from(line: Seq<char>, i: int)
    requires
        0 <= i <= line.len(),
    ensures
        i <= digits_end_from(line, i) <= line.len(),
        forall|k: int| i <= k < digits_end_from(line, i) ==> is_dec_digit(#[trigger] line[k]),
    decreases line.len() - i,
{
    if i < line.len() && is_dec_digit(line[i]) {
        lemma_digits_end_from(line, i + 1);
    }
}

/// What `try_parse_sz` returns when its search starts at character `from`.
pub open spec fn sz_scan(line: Seq<char>, pos: Position, from: int) -> Option<NumberView>
    decreases line.len() + 1 - from,
{
    if from < 0 || from > line.len() {
        None
    } else {
        match find_from(line, sz_prefix(), from) {
            None => None,
            Some(j) => {
                proof {
                    lemma_find_from(line, sz_prefix(), from);
                    lemma_digits_end_from(line, j + 3);
                }
                let m = digits_end_from(line, j + 3);
                if m == j + 3 {
                    sz_scan(line, pos, j + 3)
                } else {
                    let has_k = m < line.len() && line[m] == 'K';
                    let e = if has_k {
                        m + 1
                    } else {
                        m
                    };
                    match gate(line, pos, j, e) {
                        Gate::Stop => None,
                        Gate::Skip => sz_scan(line, pos, e),
                        Gate::Pass => match decimal_biguint(line.subrange(j + 3, m)) {
                            None => None,
                            Some(base) => if has_k {
                                Some(macro_hit(line, pos, j, e, base * 1024))
                            } else {
                                None
                            },
                        },
                    }
                }
            },
        }
    }
}

/// Finds an `SZ_<n>K` macro under the cursor; an `SZ_<n>` without `K` under the
/// cursor gives nothing.
pub fn try_parse_sz(text: &LineText, pos: Position) -> (r: Option<ParsedNumber>)
    requires
        text.wf(),
    ensures
        r matches Some(p) ==> sz_scan(text.chars@, pos, 0) == Some(p@),
        r is None ==> sz_scan(text.chars@, pos, 0) is None,
{
    let line = text.chars.as_slice();
    let keyword = sz_prefix_chars();
    let mut search_start: usize = 0;
    loop
        invariant
            text.wf(),
            line@ == text.chars@,
            keyword@ == sz_prefix(),
            search_start <= line.len(),
            sz_scan(line@, pos, 0) == sz_scan(line@, pos, search_start as int),
        decreases line.len() + 1 - search_start,
    {
        let j = match find_pattern(line, keyword.as_slice(), search_start) {
            Some(j) => j,
            None => return None,
        };
        proof {
            lemma_find_from(line@, sz_prefix(), search_start as int);
            lemma_digits_end_from(line@, j + 3);
        }
        let mut m = j + 3;
        while m < line.len() && '0' <= line[m] && line[m] <= '9'
            invariant
                j + 3 <= m <= line.len(),
                digits_end_from(line@, j + 3) == digits_end_from(line@, m as int),
            decreases line.len() - m,
        {
            m += 1;
        }
        if m == j + 3 {
            search_start = j + 3;
            continue;
        }
        let has_k = m < line.len() && line[m] == 'K';
        let e = if has_k {
            m + 1
        } else {
            m
        };
        match gate_exec(text, pos, j, e) {
            Gate::Stop => return None,
            Gate::Skip => {
                search_start = e;
                continue;
            },
            Gate::Pass => {
                let digits = string_of(&line[j + 3..m]);
                let base = match big_from_decimal_str(digits.as_str()) {
                    Some(b) => b,
                    None => return None,
                };
                if !has_k {
                    return None;
                }
                let kibi = BigNat::from_u32(1024);
                let value = big_mul(&base, &kibi);
                return Some(macro_number(text, pos, j, e, value));
            },
        }
    }
}

/// What `parse_macro_at_position` returns: the first of a `GENMASK`, `BIT` or
/// `SZ_` macro under the cursor.
pub open spec fn macro_at(line: Seq<char>, pos: Position) -> Option<NumberView> {
    match genmask_scan(line, pos, 0) {
        Some(p) => Some(p),
        None => match bit_scan(line, pos, 0) {
            Some(p) => Some(p),
            None => sz_scan(line, pos, 0),
        },
    }
}

/// Finds a bit macro under the cursor: `GENMASK`, then `BIT`, then `SZ_`.
pub fn parse_macro_at_position(text: &LineText, pos: Position) -> (r: Option<ParsedNumber>)
    requires
        text.wf(),
    ensures
        r matches Some(p) ==> macro_at(text.chars@, pos) == Some(p@),
        r is None ==> macro_at(text.chars@, pos) is None,
{
    if let Some(captured) = try_parse_genmask(text, pos) {
        return Some(captured);
    }
    if let Some(captured) = try_parse_bit(text, pos) {
        return Some(captured);
    }
    if let Some(captured) = try_parse_sz(text, pos) {
        return Some(captured);
    }
    None
}

/// A macro found under the cursor shows its value's hexadecimal form.
pub proof fn lemma_macro_at_hexs(line: Seq<char>, pos: Position)
    requires
        macro_at(line, pos) is Some,
    ensures
        macro_at(line, pos)->0.hexs == radix_string(macro_at(line, pos)->0.value, 16),
{
    if genmask_scan(line, pos, 0) is Some {
        lemma_genmask_scan_hexs(line, pos, 0);
    } else if bit_scan(line, pos, 0) is Some {
        lemma_bit_scan_hexs(line, pos, 0);
    } else {
        lemma_sz_scan_hexs(line, pos, 0);
    }
}

proof fn lemma_genmask_scan_hexs(line: Seq<char>, pos: Position, from: int)
    requires
        genmask_scan(line, pos, from) is Some,
    ensures
        genmask_scan(line, pos, from)->0.hexs == radix_string(genmask_scan(line, pos, from)->0.value, 16),
    decreases line.len() + 1 - from,
{
    let j = find_from(line, genmask_open(), from)->0;
    lemma_find_from(line, genmask_open(), from);
    let k = first_index_from(line, ')', j + 8)->0;
    lemma_first_index_from(line, ')', j + 8);
    if genmask_scan(line, pos, from) == genmask_scan(line, pos, k + 1) {
        if k + 1 > from {
            lemma_genmask_scan_hexs(line, pos, k + 1);
        }
    }
}

proof fn lemma_bit_scan_hexs(line: Seq<char>, pos: Position, from: int)
    requires
        bit_scan(line, pos, from) is Some,
    ensures
        bit_scan(line, pos, from)->0.hexs == radix_string(bit_scan(line, pos, from)->0.value, 16),
    decreases line.len() + 1 - from,
{
    let j = find_from(line, bit_open(), from)->0;
    lemma_find_from(line, bit_open(), from);
    let k = first_index_from(line, ')', j + 4)->0;
    lemma_first_index_from(line, ')', j + 4);
    if bit_scan(line, pos, from) == bit_scan(line, pos, k + 1) {
        if k + 1 > from {
            lemma_bit_scan_hexs(line, pos, k + 1);
        }
    }
}

proof fn lemma_sz_scan_hexs(line: Seq<char>, pos: Position, from: int)
    requires
        sz_scan(line, pos, from) is Some,
    ensures
        sz_scan(line, pos, from)->0.hexs == radix_string(sz_scan(line, pos, from)->0.value, 16),
    decreases line.len() + 1 - from,
{
    let j = find_from(line, sz_prefix(), from)->0;
    lemma_find_from(line, sz_prefix(), from);
    lemma_digits_end_from(line, j + 3);
    let m = digits_end_from(line, j + 3);
    if m == j + 3 {
        lemma_sz_scan_hexs(line, pos, j + 3);
    } else {
        let has_k = m < line.len() && line[m] == 'K';
        let e = if has_k {
            m + 1
        } else {
            m
        };
        if gate(line, pos, j, e) is Skip {
            lemma_sz_scan_hexs(line, pos, e);
        }
    }
}

/// The decimal form of `n`: ASCII digits, at least one, no longer than `n + 1`,
/// reading back as `n`.
proof fn lemma_decimal_text(n: nat)
    ensures
        ({
            let d = radix_string(n, 10);
            &&& 0 < d.len() <= n + 1
            &&& forall|i: int| 0 <= i < d.len() ==> is_dec_digit(#[trigger] d[i])
            &&& crate::bignat::digits_value(d, 10) == n
        }),
    decreases n,
{
    let d = radix_string(n, 10);
    crate::literal::lemma_radix_string_digits(n, 10);
    crate::literal::lemma_radix_string_reads_back(n, 10);
    if n >= 10 {
        lemma_decimal_text(n / 10);
    }
    assert forall|i: int| 0 <= i < d.len() implies is_dec_digit(#[trigger] d[i]) by {
        assert(crate::literal::is_radix_digit(d[i], 10));
    }
}

/// The decimal form of `n` has at most `n + 1` digits.
pub proof fn lemma_decimal_text_len(n: nat)
    ensures
        radix_string(n, 10).len() <= n + 1,
{
    lemma_decimal_text(n);
}

/// The decimal form of a bit index parses back as that index.
proof fn lemma_bit_index_of_text(n: nat)
    requires
        n <= MAX_MACRO_BIT_INDEX,
    ensures
        bit_index(trim(radix_string(n, 10))) == Some(n as u32),
        bit_index(trim(seq![' '] + radix_string(n, 10))) == Some(n as u32),
{
    let d = radix_string(n, 10);
    lemma_decimal_text(n);
    assert(!crate::text::is_white_space(d[0]));
    assert(!crate::text::is_white_space(d.last()));
    assert(crate::text::trim_start(d) == d);
    assert(crate::text::trim_end(d) == d);
    let sp = seq![' '] + d;
    assert(sp.drop_first() =~= d);
    assert(crate::text::trim_start(sp) == crate::text::trim_start(d));
    assert(crate::text::without_plus_sign(d) == d);
}

/// A pattern whose first character does not occur in `s` is not found in it.
proof fn lemma_find_from_absent(s: Seq<char>, pat: Seq<char>, from: int)
    requires
        pat.len() > 0,
        forall|k: int| 0 <= k < s.len() ==> s[k] != pat[0],
    ensures
        find_from(s, pat, from) is None,
    decreases s.len() + 1 - from,
{
    if 0 <= from && from + pat.len() <= s.len() {
        assert(s.subrange(from, from + pat.len())[0] == s[from]);
        lemma_find_from_absent(s, pat, from + 1);
    }
}

/// A macro spanning all of an ASCII line passes the check for any cursor on it.
proof fn lemma_gate_whole_line(line: Seq<char>, pos: Position)
    requires
        all_ascii_line(line),
        line.len() <= u32::MAX,
        pos.character <= line.len(),
    ensures
        gate(line, pos, 0, line.len() as int) is Pass,
        column_of(line, 0) == 0,
        column_of(line, line.len() as int) == line.len(),
{
    assert(line.take(0) =~= Seq::<char>::empty());
    assert(line.take(line.len() as int) =~= line);
    crate::text::lemma_ascii_utf8_len(line);
}

/// Whether every character of `line` is ASCII.
pub open spec fn all_ascii_line(line: Seq<char>) -> bool {
    crate::text::all_ascii(line)
}

/// A whole line read as the macro it holds, standing for `value`: the line is
/// the word, the range spans it from column 0 to its end.
pub open spec fn macro_read(line: Seq<char>, pos: Position, value: nat) -> NumberView {
    NumberView {
        word: line,
        value,
        hexs: radix_string(value, 16),
        kind: LiteralKind::Macro,
        negative: false,
        macro_text: macro_text(value),
        range: TextRange {
            start: Position { line: pos.line, character: 0 },
            end: Position { line: pos.line, character: line.len() as u32 },
        },
    }
}

/// A macro found over a whole ASCII line is the line read as that macro.
proof fn lemma_whole_line_hit(line: Seq<char>, pos: Position, value: nat)
    requires
        all_ascii_line(line),
        line.len() <= u32::MAX,
        pos.character <= line.len(),
    ensures
        macro_hit(line, pos, 0, line.len() as int, value) == macro_read(line, pos, value),
{
    lemma_gate_whole_line(line, pos);
    assert(line.subrange(0, line.len() as int) =~= line);
}

/// `BIT(n)`, for a bit index of at most 4096, read with the cursor anywhere on
/// it, is the whole text read as the number `2^n`, which is written back as a
/// macro that starts with `BIT(n)`.
pub proof fn law_bit_macro_reads_back(n: nat, pos: Position)
    requires
        n <= MAX_MACRO_BIT_INDEX,
        pos.character <= crate::bitmacro::bit_macro_text(n).len(),
    ensures
        bit_scan(crate::bitmacro::bit_macro_text(n), pos, 0) == Some(
            macro_read(crate::bitmacro::bit_macro_text(n), pos, two_pow(n)),
        ),
        macro_at(crate::bitmacro::bit_macro_text(n), pos) == Some(
            macro_read(crate::bitmacro::bit_macro_text(n), pos, two_pow(n)),
        ),
        macro_text(two_pow(n)) matches Some(m) && m.len() >= crate::bitmacro::bit_macro_text(n).len()
            && m.take(crate::bitmacro::bit_macro_text(n).len() as int)
            == crate::bitmacro::bit_macro_text(n),
{
    let d = radix_string(n, 10);
    let line = crate::bitmacro::bit_macro_text(n);
    lemma_decimal_text(n);
    lemma_bit_index_of_text(n);
    let len = line.len() as int;
    assert(len == d.len() + 5);
    assert forall|k: int| #![trigger line[k]] 0 <= k < line.len() implies line[k] != genmask_open()[0]
        && ('\0' <= line[k] && line[k] <= '\u{7f}') && (4 <= k < len - 1 ==> line[k] != ')') by {
        if 4 <= k < len - 1 {
            assert(line[k] == d[k - 4]);
        }
    }
    assert(all_ascii_line(line));
    lemma_find_from_absent(line, genmask_open(), 0);
    assert(genmask_scan(line, pos, 0) is None);
    assert(line.subrange(0, 4) =~= bit_open());
    assert(find_from(line, bit_open(), 0) == Some(0int));
    crate::text::lemma_first_index_at(line, ')', 4, len - 1);
    assert(line.subrange(4, len - 1) =~= d);
    lemma_gate_whole_line(line, pos);
    lemma_whole_line_hit(line, pos, two_pow(n));
    crate::bitmacro::lemma_power_macro(n);
}

/// The arguments `<h>, <l>` of a macro split at the comma after the digits `h`.
proof fn lemma_split_arguments(h: Seq<char>, l: Seq<char>)
    requires
        forall|k: int| 0 <= k < h.len() ==> is_dec_digit(#[trigger] h[k]),
    ensures
        split_at_comma(h + seq![',', ' '] + l) == Some((h, seq![' '] + l)),
{
    let inner = h + seq![',', ' '] + l;
    let hl = h.len() as int;
    assert forall|k: int| 0 <= k < hl implies inner[k] != ',' by {
        assert(inner[k] == h[k]);
    }
    crate::text::lemma_first_index_at(inner, ',', 0, hl);
    assert(inner.take(hl) =~= h);
    assert(inner.skip(hl + 1) =~= seq![' '] + l);
}

/// The text of `GENMASK(high, low)` is ASCII; between its parentheses it holds
/// no `)`, and its first argument no `,`.
proof fn lemma_genmask_text(high: nat, low: nat)
    ensures
        ({
            let line = crate::bitmacro::genmask_macro_text(high, low);
            let h = radix_string(high, 10);
            let l = radix_string(low, 10);
            &&& line.len() == h.len() + l.len() + 11
            &&& all_ascii_line(line)
            &&& forall|k: int| 8 <= k < line.len() - 1 ==> #[trigger] line[k] != ')'
            &&& line.subrange(0, 8) == genmask_open()
            &&& line.subrange(8, line.len() - 1) == h + seq![',', ' '] + l
            &&& line[line.len() - 1] == ')'
        }),
{
    let h = radix_string(high, 10);
    let l = radix_string(low, 10);
    let line = crate::bitmacro::genmask_macro_text(high, low);
    lemma_decimal_text(high);
    lemma_decimal_text(low);
    let len = line.len() as int;
    let hl = h.len() as int;
    assert forall|k: int| #![trigger line[k]] 0 <= k < line.len() implies ('\0' <= line[k] && line[k]
        <= '\u{7f}') && (8 <= k < len - 1 ==> line[k] != ')') by {
        if 8 <= k < 8 + hl {
            assert(line[k] == h[k - 8]);
        } else if 8 + hl + 2 <= k < len - 1 {
            assert(line[k] == l[k - 10 - hl]);
        }
    }
    assert(line.subrange(0, 8) =~= genmask_open());
    assert(line.subrange(8, len - 1) =~= h + seq![',', ' '] + l);
}

/// `GENMASK(high, low)`, for `low <= high <= 4096`, read with the cursor anywhere
/// on it, is the whole text read as the mask of bits `low..=high`. For `low >= 1`
/// that mask is written back as the same text when `high > low`, and as a macro
/// that starts with `BIT(low)` when `high == low`.
pub proof fn law_genmask_macro_reads_back(high: nat, low: nat, pos: Position)
    requires
        low <= high <= MAX_MACRO_BIT_INDEX,
        pos.character <= crate::bitmacro::genmask_macro_text(high, low).len(),
    ensures
        genmask_scan(crate::bitmacro::genmask_macro_text(high, low), pos, 0) == Some(
            macro_read(crate::bitmacro::genmask_macro_text(high, low), pos, genmask_value(high, low)),
        ),
        macro_at(crate::bitmacro::genmask_macro_text(high, low), pos) == Some(
            macro_read(crate::bitmacro::genmask_macro_text(high, low), pos, genmask_value(high, low)),
        ),
        1 <= low < high ==> macro_text(genmask_value(high, low)) == Some(
            crate::bitmacro::genmask_macro_text(high, low),
        ),
        1 <= low == high ==> (macro_text(genmask_value(high, low)) matches Some(m) && m.len()
            >= crate::bitmacro::bit_macro_text(low).len() && m.take(
            crate::bitmacro::bit_macro_text(low).len() as int,
        ) == crate::bitmacro::bit_macro_text(low)),
{
    let h = radix_string(high, 10);
    let l = radix_string(low, 10);
    let line = crate::bitmacro::genmask_macro_text(high, low);
    lemma_genmask_text(high, low);
    lemma_decimal_text(high);
    lemma_decimal_text(low);
    lemma_bit_index_of_text(high);
    lemma_bit_index_of_text(low);
    let len = line.len() as int;
    assert(find_from(line, genmask_open(), 0) == Some(0int));
    crate::text::lemma_first_index_at(line, ')', 8, len - 1);
    lemma_split_arguments(h, l);
    lemma_gate_whole_line(line, pos);
    lemma_whole_line_hit(line, pos, genmask_value(high, low));
    if 1 <= low {
        crate::bitmacro::lemma_genmask_value_macro(high, low);
        if low == high {
            crate::bitmacro::lemma_power_macro(low);
        }
    }
}

/// The digits from `i` end at `k` when `line[i..k]` are digits and `line[k]`,
/// if any, is not.
proof fn lemma_digits_end_at(line: Seq<char>, i: int, k: int)
    requires
        0 <= i <= k <= line.len(),
        forall|j: int| i <= j < k ==> is_dec_digit(#[trigger] line[j]),
        k == line.len() || !is_dec_digit(line[k]),
    ensures
        digits_end_from(line, i) == k,
    decreases k - i,
{
    if i < k {
        lemma_digits_end_at(line, i + 1, k);
    }
}

/// `SZ_<n>K`, read with the cursor anywhere on it, is the whole text read as the
/// number `n * 1024`.
pub proof fn law_kibibyte_macro_reads_back(n: nat, pos: Position)
    requires
        (sz_prefix() + radix_string(n, 10) + seq!['K']).len() <= u32::MAX,
        pos.character <= (sz_prefix() + radix_string(n, 10) + seq!['K']).len(),
    ensures
        sz_scan(sz_prefix() + radix_string(n, 10) + seq!['K'], pos, 0) == Some(
            macro_read(sz_prefix() + radix_string(n, 10) + seq!['K'], pos, n * 1024),
        ),
        macro_at(sz_prefix() + radix_string(n, 10) + seq!['K'], pos) == Some(
            macro_read(sz_prefix() + radix_string(n, 10) + seq!['K'], pos, n * 1024),
        ),
{
    let d = radix_string(n, 10);
    let line = sz_prefix() + d + seq!['K'];
    lemma_decimal_text(n);
    let len = line.len() as int;
    assert(len == d.len() + 4);
    assert forall|k: int| #![trigger line[k]] 0 <= k < line.len() implies ('\0' <= line[k] && line[k]
        <= '\u{7f}') && line[k] != genmask_open()[0] && line[k] != bit_open()[0] && (3 <= k < len - 1 ==> is_dec_digit(line[k])) by {
        if 3 <= k < len - 1 {
            assert(line[k] == d[k - 3]);
        }
    }
    assert(all_ascii_line(line));
    lemma_find_from_absent(line, genmask_open(), 0);
    lemma_find_from_absent(line, bit_open(), 0);
    assert(line.subrange(0, 3) =~= sz_prefix());
    assert(find_from(line, sz_prefix(), 0) == Some(0int));
    lemma_digits_end_at(line, 3, len - 1);
    assert(line.subrange(3, len - 1) =~= d);
    assert(decimal_biguint(d) == Some(n)) by {
        assert(d[0] != '+' && d[0] != '_');
        assert forall|k: int| 0 <= k < d.len() implies is_dec_digit(#[trigger] d[k]) || d[k] == '_' by {}
    }
    lemma_gate_whole_line(line, pos);
    lemma_whole_line_hit(line, pos, n * 1024);
}

/// A macro found under the cursor is marked as a macro.
pub proof fn lemma_macro_at_kind(line: Seq<char>, pos: Position)
    requires
        macro_at(line, pos) is Some,
    ensures
        macro_at(line, pos)->0.kind is Macro,
{
    if genmask_scan(line, pos, 0) is Some {
        lemma_genmask_scan_kind(line, pos, 0);
    } else if bit_scan(line, pos, 0) is Some {
        lemma_bit_scan_kind(line, pos, 0);
    } else {
        lemma_sz_scan_kind(line, pos, 0);
    }
}

proof fn lemma_genmask_scan_kind(line: Seq<char>, pos: Position, from: int)
    requires
        genmask_scan(line, pos, from) is Some,
    ensures
        genmask_scan(line, pos, from)->0.kind is Macro,
    decreases line.len() + 1 - from,
{
    let j = find_from(line, genmask_open(), from)->0;
    lemma_find_from(line, genmask_open(), from);
    let k = first_index_from(line, ')', j + 8)->0;
    lemma_first_index_from(line, ')', j + 8);
    if genmask_scan(line, pos, from) == genmask_scan(line, pos, k + 1) {
        if k + 1 > from {
            lemma_genmask_scan_kind(line, pos, k + 1);
        }
    }
}

proof fn lemma_bit_scan_kind(line: Seq<char>, pos: Position, from: int)
    requires
        bit_scan(line, pos, from) is Some,
    ensures
        bit_scan(line, pos, from)->0.kind is Macro,
    decreases line.len() + 1 - from,
{
    let j = find_from(line, bit_open(), from)->0;
    lemma_find_from(line, bit_open(), from);
    let k = first_index_from(line, ')', j + 4)->0;
    lemma_first_index_from(line, ')', j + 4);
    if bit_scan(line, pos, from) == bit_scan(line, pos, k + 1) {
        if k + 1 > from {
            lemma_bit_scan_kind(line, pos, k + 1);
        }
    }
}

proof fn lemma_sz_scan_kind(line: Seq<char>, pos: Position, from: int)
    requires
        sz_scan(line, pos, from) is Some,
    ensures
        sz_scan(line, pos, from)->0.kind is Macro,
    decreases line.len() + 1 - from,
{
    let j = find_from(line, sz_prefix(), from)->0;
    lemma_find_from(line, sz_prefix(), from);
    lemma_digits_end_from(line, j + 3);
    let m = digits_end_from(line, j + 3);
    if m == j + 3 {
        lemma_sz_scan_kind(line, pos, j + 3);
    } else {
        let has_k = m < line.len() && line[m] == 'K';
        let e = if has_k {
            m + 1
        } else {
            m
        };
        if gate(line, pos, j, e) is Skip {
            lemma_sz_scan_kind(line, pos, e);
        }
    }
}

/// The byte offset of character `k` of an ASCII line is `k`.
proof fn lemma_ascii_column(line: Seq<char>, k: int)
    requires
        all_ascii_line(line),
        0 <= k <= line.len(),
        line.len() <= u32::MAX,
    ensures
        column_of(line, k) == k,
{
    crate::text::lemma_ascii_offsets(line, k);
}

/// A `GENMASK(high, low)` under the cursor is found after another `GENMASK`
/// that is not under it: on the line `GENMASK(h1, l1)`, a character `c` that is
/// not a name character, then `GENMASK(high, low)`, with the cursor on the
/// second macro, the scan skips the first and gives the mask of bits
/// `low..=high` with the range of the second.
pub proof fn law_genmask_after_another(
    h1: nat,
    l1: nat,
    c: char,
    high: nat,
    low: nat,
    pos: Position,
)
    requires
        l1 <= h1 <= MAX_MACRO_BIT_INDEX,
        low <= high <= MAX_MACRO_BIT_INDEX,
        !name_char(c),
        (c as u32) < 128,
        crate::bitmacro::genmask_macro_text(h1, l1).len() + 1 <= pos.character,
        pos.character <= crate::bitmacro::genmask_macro_text(h1, l1).len() + 1
            + crate::bitmacro::genmask_macro_text(high, low).len(),
    ensures
        ({
            let first = crate::bitmacro::genmask_macro_text(h1, l1);
            let line = first + seq![c] + crate::bitmacro::genmask_macro_text(high, low);
            &&& genmask_scan(line, pos, 0) matches Some(q)
            &&& q.value == genmask_value(high, low)
            &&& q.word == crate::bitmacro::genmask_macro_text(high, low)
            &&& q.range.start == Position { line: pos.line, character: (first.len() + 1) as u32 }
            &&& q.range.end == Position { line: pos.line, character: line.len() as u32 }
        }),
{
    let g1 = crate::bitmacro::genmask_macro_text(h1, l1);
    let g2 = crate::bitmacro::genmask_macro_text(high, low);
    let line = g1 + seq![c] + g2;
    let n1 = g1.len() as int;
    let j = n1 + 1;
    let len = line.len() as int;
    lemma_genmask_text(h1, l1);
    lemma_genmask_text(high, low);
    lemma_decimal_text(h1);
    lemma_decimal_text(l1);
    lemma_decimal_text(high);
    lemma_decimal_text(low);
    lemma_bit_index_of_text(h1);
    lemma_bit_index_of_text(l1);
    lemma_bit_index_of_text(high);
    lemma_bit_index_of_text(low);
    assert(len == n1 + 1 + g2.len());
    assert forall|k: int| #![trigger line[k]] 0 <= k < len implies '\0' <= line[k] && line[k] <= '\u{7f}' by {
        if k < n1 {
            assert(line[k] == g1[k]);
        } else if k > n1 {
            assert(line[k] == g2[k - j]);
        }
    }
    assert(all_ascii_line(line));
    // The first macro: found at 0, closed at its end, arguments read.
    assert(line.subrange(0, 8) =~= g1.subrange(0, 8));
    assert(find_from(line, genmask_open(), 0) == Some(0int));
    assert forall|k: int| 8 <= k < n1 - 1 implies line[k] != ')' by {
        assert(line[k] == g1[k]);
    }
    assert(line[n1 - 1] == g1[n1 - 1]);
    crate::text::lemma_first_index_at(line, ')', 8, n1 - 1);
    assert(line.subrange(8, n1 - 1) =~= g1.subrange(8, n1 - 1));
    lemma_split_arguments(radix_string(h1, 10), radix_string(l1, 10));
    // It passes its neighbour checks but the cursor is past it: skipped.
    lemma_ascii_column(line, 0);
    lemma_ascii_column(line, n1);
    lemma_ascii_column(line, j);
    lemma_ascii_column(line, len);
    assert(line[n1] == c);
    assert(gate(line, pos, 0, n1) is Skip);
    assert(genmask_scan(line, pos, 0) == genmask_scan(line, pos, n1));
    // The second macro: not at `c`, found right after it.
    assert(!matches_at_start(line, n1)) by {
        if line.subrange(n1, n1 + 8) == genmask_open() {
            assert(line.subrange(n1, n1 + 8)[0] == line[n1]);
        }
    }
    assert(line.subrange(j, j + 8) =~= g2.subrange(0, 8));
    assert(find_from(line, genmask_open(), j) == Some(j));
    assert(find_from(line, genmask_open(), n1) == Some(j));
    assert forall|k: int| j + 8 <= k < len - 1 implies line[k] != ')' by {
        assert(line[k] == g2[k - j]);
    }
    assert(line[len - 1] == g2[g2.len() - 1]);
    crate::text::lemma_first_index_at(line, ')', j + 8, len - 1);
    assert(line.subrange(j + 8, len - 1) =~= g2.subrange(8, g2.len() - 1));
    lemma_split_arguments(radix_string(high, 10), radix_string(low, 10));
    crate::text::lemma_ascii_utf8_len(line);
    assert(column_of(line, j) == j && column_of(line, len) == len);
    assert((utf8_len(line) as u32) == len);
    assert(((column_of(line, j) - 1) as int) == n1);
    assert(!name_char(line[n1]));
    assert(gate(line, pos, j, len) is Pass);
    assert(line.subrange(j, len) =~= g2);
}

/// Whether `GENMASK(` stands at `n` in `line`.
spec fn matches_at_start(line: Seq<char>, n: int) -> bool {
    crate::text::matches_at(line, genmask_open(), n)
}

} // verus!

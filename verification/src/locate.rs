//! Finding the number under the cursor in a document.

use crate::bignat::{big_to_str_radix, radix_string};
use crate::bitmacro::{format_macro, macro_text};
use crate::literal::{
    drop_separators, literal_value, name_char, parse_binary, parse_decimal, parse_hex, parse_octal,
    remove_separators, is_name_char, strip_integer_suffix, stripped_integer, LiteralKind,
    ParseResult,
};
use crate::scan::{macro_at, parse_macro_at_position, NumberView, ParsedNumber, Position, TextRange};
use crate::text::{chars_of, find_char, first_index_from, lemma_first_index_from, string_of, LineText};
use vstd::prelude::*;

verus! {

/// `s` without one trailing carriage return.
pub open spec fn strip_cr(s: Seq<char>) -> Seq<char> {
    if s.len() > 0 && s.last() == '\r' {
        s.drop_last()
    } else {
        s
    }
}

/// The lines of `s` from character `start` on, as `str::lines` yields them:
/// split after each `\n`, with that `\n` and a `\r` right before it removed; no
/// empty line after a final `\n`.
pub open spec fn lines_from(s: Seq<char>, start: int) -> Seq<Seq<char>>
    decreases s.len() - start,
{
    if start < 0 || start >= s.len() {
        Seq::empty()
    } else {
        match first_index_from(s, '\n', start) {
            None => seq![s.subrange(start, s.len() as int)],
            Some(i) => {
                proof {
                    lemma_first_index_from(s, '\n', start);
                }
                seq![strip_cr(s.subrange(start, i))] + lines_from(s, i + 1)
            },
        }
    }
}

/// The lines of `s` (`str::lines`).
pub open spec fn text_lines(s: Seq<char>) -> Seq<Seq<char>> {
    lines_from(s, 0)
}

/// What `get_line` returns: line `n` of `s`, if there is one.
pub open spec fn line_of(s: Seq<char>, n: int) -> Option<Seq<char>> {
    if 0 <= n < text_lines(s).len() {
        Some(text_lines(s)[n])
    } else {
        None
    }
}

/// Line `line_number` of `text` (`text.lines().nth(line_number)`).
pub fn get_line(text: &str, line_number: usize) -> (r: Option<&str>)
    ensures
        r matches Some(l) ==> line_of(text@, line_number as int) == Some(l@),
        r is None ==> line_of(text@, line_number as int) is None,
{
    let chars = chars_of(text);
    let ghost s = text@;
    let mut start: usize = 0;
    let mut idx: usize = 0;
    loop
        invariant
            chars@ == s,
            s == text@,
            start <= chars.len(),
            idx <= line_number,
            idx <= text_lines(s).len(),
            text_lines(s).skip(idx as int) == lines_from(s, start as int),
        decreases chars.len() - start,
    {
        if start >= chars.len() {
            assert(text_lines(s).skip(idx as int).len() == 0);
            return None;
        }
        match find_char(chars.as_slice(), '\n', start) {
            None => {
                assert(lines_from(s, start as int) == seq![s.subrange(start as int, s.len() as int)]);
                assert(text_lines(s).skip(idx as int).len() == 1);
                if idx == line_number {
                    assert(text_lines(s).skip(idx as int)[0] == text_lines(s)[idx as int]);
                    return Some(text.substring_char(start, chars.len()));
                } else {
                    assert(text_lines(s).skip(idx as int).len() == 1);
                    return None;
                }
            },
            Some(e) => {
                proof {
                    lemma_first_index_from(s, '\n', start as int);
                }
                let ghost rest = lines_from(s, e + 1);
                assert(lines_from(s, start as int) == seq![strip_cr(s.subrange(start as int, e as int))]
                    + rest);
                assert(text_lines(s).skip(idx as int).len() >= 1);
                if idx == line_number {
                    assert(text_lines(s).skip(idx as int)[0] == text_lines(s)[idx as int]);
                    let line_end = if e > start && chars[e - 1] == '\r' {
                        e - 1
                    } else {
                        e
                    };
                    assert(s.subrange(start as int, line_end as int) =~= strip_cr(
                        s.subrange(start as int, e as int),
                    ));
                    return Some(text.substring_char(start, line_end));
                }
                assert(text_lines(s).skip(idx + 1) =~= text_lines(s).skip(idx as int).drop_first());
                assert((seq![strip_cr(s.subrange(start as int, e as int))] + rest).drop_first() =~= rest);
                assert(text_lines(s).skip(idx + 1) =~= rest);
                start = e + 1;
                idx += 1;
            },
        }
    }
}

/// The start of the word that ends at `col`: the first of the name characters
/// right before `col`.
pub open spec fn word_start_of(chars: Seq<char>, col: int) -> int
    decreases col,
{
    if 0 < col <= chars.len() && name_char(chars[col - 1]) {
        word_start_of(chars, col - 1)
    } else {
        col
    }
}

/// The end of the word that starts at `col`: just after the name characters from `col` on.
pub open spec fn word_end_of(chars: Seq<char>, col: int) -> int
    decreases chars.len() - col,
{
    if 0 <= col < chars.len() && name_char(chars[col]) {
        word_end_of(chars, col + 1)
    } else {
        col
    }
}

/// The number that the literal word under the cursor in `line` stands for.
pub open spec fn literal_at(line: Seq<char>, pos: Position) -> Option<NumberView> {
    let col = pos.character as int;
    let start = word_start_of(line, col);
    let end = word_end_of(line, col);
    if start >= end {
        None
    } else {
        let found = line.subrange(start, end);
        let minus_before = start > 0 && line[start - 1] == '-';
        let leading_minus = found[0] == '-' && !minus_before;
        let word = if leading_minus {
            found.drop_first()
        } else {
            found
        };
        let word_begin = if leading_minus {
            start + 1
        } else {
            start
        };
        let numeric = stripped_integer(word);
        match literal_value(numeric) {
            None => None,
            Some((value, kind)) => Some(
                NumberView {
                    word,
                    value,
                    hexs: if kind is Hex {
                        drop_separators(numeric.skip(2))
                    } else {
                        radix_string(value, 16)
                    },
                    kind,
                    negative: minus_before || leading_minus,
                    macro_text: macro_text(value),
                    range: TextRange {
                        start: Position { line: pos.line, character: word_begin as u32 },
                        end: Position { line: pos.line, character: end as u32 },
                    },
                },
            ),
        }
    }
}

/// What `parse_number_at_position` returns: on the cursor's line, a macro under
/// the cursor, else the literal word under the cursor.
pub open spec fn number_at(doc: Seq<char>, pos: Position) -> Option<NumberView> {
    match line_of(doc, pos.line as int) {
        None => None,
        Some(line) => match macro_at(line, pos) {
            Some(p) => Some(p),
            None => literal_at(line, pos),
        },
    }
}

/// The inputs on which `parse_number_at_position` does not index past the end of
/// the line: the cursor column lies within the line, unless a macro is found first.
pub open spec fn number_lookup_in_bounds(doc: Seq<char>, pos: Position) -> bool {
    match line_of(doc, pos.line as int) {
        None => true,
        Some(line) => macro_at(line, pos) is Some || pos.character <= line.len(),
    }
}

fn literal_of(chars: &[char]) -> (r: Option<ParseResult>)
    ensures
        r matches Some(p) ==> literal_value(chars@) == Some((p.big_num@, p.literal_kind)),
        r is None ==> literal_value(chars@) is None,
{
    if let Some(r) = parse_binary(chars) {
        Some(r)
    } else if let Some(r) = parse_octal(chars) {
        Some(r)
    } else if let Some(r) = parse_hex(chars) {
        Some(r)
    } else if let Some(r) = parse_decimal(chars) {
        Some(r)
    } else {
        None
    }
}

/// Finds the number under the cursor: a macro, else a literal word.
pub fn parse_number_at_position(doc_text: &str, pos: Position) -> (r: Option<ParsedNumber>)
    requires
        number_lookup_in_bounds(doc_text@, pos),
    ensures
        r matches Some(p) ==> number_at(doc_text@, pos) == Some(p@),
        r is None ==> number_at(doc_text@, pos) is None,
{
    let line = match get_line(doc_text, pos.line as usize) {
        Some(l) => l,
        None => return None,
    };
    let text = LineText::new(line);
    if let Some(parsed) = parse_macro_at_position(&text, pos) {
        return Some(parsed);
    }
    let chars = text.chars.as_slice();
    let col = pos.character as usize;
    let mut word_start: usize = col;
    while word_start > 0 && is_name_char(chars[word_start - 1])
        invariant
            word_start <= col <= chars.len(),
            word_start_of(chars@, col as int) == word_start_of(chars@, word_start as int),
        decreases word_start,
    {
        word_start -= 1;
    }
    let mut word_end: usize = col;
    while word_end < chars.len() && is_name_char(chars[word_end])
        invariant
            col <= word_end <= chars.len(),
            word_end_of(chars@, col as int) == word_end_of(chars@, word_end as int),
        decreases chars.len() - word_end,
    {
        word_end += 1;
    }
    if word_start >= word_end {
        return None;
    }
    let found = &chars[word_start..word_end];
    let minus_before = word_start > 0 && chars[word_start - 1] == '-';
    let leading_minus = found[0] == '-' && !minus_before;
    let has_negative_prefix = minus_before || leading_minus;
    let word_begin = if leading_minus {
        word_start + 1
    } else {
        word_start
    };
    let word = string_of(&chars[word_begin..word_end]);
    assert(word@ =~= (if leading_minus {
        found@.drop_first()
    } else {
        found@
    }));
    let numeric_word = strip_integer_suffix(word.as_str());
    let numeric_chars = chars_of(numeric_word);
    let result = match literal_of(numeric_chars.as_slice()) {
        Some(r) => r,
        None => return None,
    };
    let hexs = match result.literal_kind {
        LiteralKind::Hex => {
            proof {
                assert(numeric_chars@.len() >= 3);
            }
            let digits = remove_separators(&numeric_chars[2..numeric_chars.len()]);
            assert(numeric_chars@.skip(2) =~= numeric_chars@.subrange(2, numeric_chars@.len() as int));
            string_of(digits.as_slice())
        },
        _ => big_to_str_radix(&result.big_num, 16),
    };
    let macro_str = match format_macro(&result.big_num) {
        Some(m) => Some(string_of(m.as_slice())),
        None => None,
    };
    Some(
        ParsedNumber {
            word,
            big_num: result.big_num,
            hexs,
            literal_kind: result.literal_kind,
            has_negative_prefix,
            macro_str,
            range: TextRange {
                start: Position { line: pos.line, character: word_begin as u32 },
                end: Position { line: pos.line, character: word_end as u32 },
            },
        },
    )
}

/// The hexadecimal digits of a number found under the cursor are hex digit text.
pub proof fn lemma_number_hexs(doc: Seq<char>, pos: Position)
    requires
        number_at(doc, pos) is Some,
    ensures
        crate::literal::hex_digit_text(number_at(doc, pos)->0.hexs),
{
    let line = line_of(doc, pos.line as int)->0;
    let p = number_at(doc, pos)->0;
    if macro_at(line, pos) is Some {
        crate::scan::lemma_macro_at_hexs(line, pos);
        crate::literal::lemma_radix_string_digits(p.value, 16);
    } else {
        let col = pos.character as int;
        let start = word_start_of(line, col);
        let end = word_end_of(line, col);
        let found = line.subrange(start, end);
        let minus_before = start > 0 && line[start - 1] == '-';
        let leading_minus = found[0] == '-' && !minus_before;
        let word = if leading_minus {
            found.drop_first()
        } else {
            found
        };
        let numeric = stripped_integer(word);
        if p.kind is Hex {
            assert(crate::literal::binary_literal(numeric) is None);
            assert(crate::literal::octal_literal(numeric) is None);
            assert(crate::literal::hex_literal(numeric) is Some);
            crate::literal::lemma_drop_separators_digits(numeric.skip(2), 16);
        } else {
            crate::literal::lemma_radix_string_digits(p.value, 16);
        }
    }
}

/// Whether `parse_number_at_position` stays within the line for `pos`.
pub fn lookup_in_bounds(doc_text: &str, pos: Position) -> (r: bool)
    ensures
        r == number_lookup_in_bounds(doc_text@, pos),
{
    let line = match get_line(doc_text, pos.line as usize) {
        Some(l) => l,
        None => return true,
    };
    let text = LineText::new(line);
    if parse_macro_at_position(&text, pos).is_some() {
        return true;
    }
    (pos.character as usize) <= text.chars.len()
}

/// The word starts after the name characters right before `col`.
proof fn lemma_word_start_of(chars: Seq<char>, col: int)
    requires
        0 <= col <= chars.len(),
    ensures
        0 <= word_start_of(chars, col) <= col,
        forall|k: int| word_start_of(chars, col) <= k < col ==> name_char(#[trigger] chars[k]),
        word_start_of(chars, col) == 0 || !name_char(chars[word_start_of(chars, col) - 1]),
    decreases col,
{
    if 0 < col && name_char(chars[col - 1]) {
        lemma_word_start_of(chars, col - 1);
    }
}

/// The word ends before the first character from `col` on that is not a name character.
proof fn lemma_word_end_of(chars: Seq<char>, col: int)
    requires
        0 <= col <= chars.len(),
    ensures
        col <= word_end_of(chars, col) <= chars.len(),
        forall|k: int| col <= k < word_end_of(chars, col) ==> name_char(#[trigger] chars[k]),
        word_end_of(chars, col) == chars.len() || !name_char(chars[word_end_of(chars, col)]),
    decreases chars.len() - col,
{
    if col < chars.len() && name_char(chars[col]) {
        lemma_word_end_of(chars, col + 1);
    }
}

/// The literal found under the cursor is the whole word of name characters
/// around the cursor's column on its line: its range lies on that line and
/// holds the column, it spans exactly the word, no name character stands right
/// before or after it, and it counts as negative exactly when a `-` stands
/// right before it.
pub proof fn law_literal_word_under_cursor(doc: Seq<char>, pos: Position)
    requires
        number_at(doc, pos) matches Some(p) && !(p.kind is Macro),
        line_of(doc, pos.line as int) matches Some(l) && l.len() <= u32::MAX,
    ensures
        ({
            let line = line_of(doc, pos.line as int)->0;
            let p = number_at(doc, pos)->0;
            let s = p.range.start.character as int;
            let e = p.range.end.character as int;
            &&& p.range.start.line == pos.line
            &&& p.range.end.line == pos.line
            &&& 0 <= s <= pos.character <= e <= line.len()
            &&& line.subrange(s, e) == p.word
            &&& forall|k: int| s <= k < e ==> name_char(#[trigger] line[k])
            &&& s == 0 || !name_char(line[s - 1])
            &&& e == line.len() || !name_char(line[e])
            &&& p.negative == (s > 0 && line[s - 1] == '-')
        }),
{
    let line = line_of(doc, pos.line as int)->0;
    let p = number_at(doc, pos)->0;
    if let Some(q) = macro_at(line, pos) {
        crate::scan::lemma_macro_at_kind(line, pos);
        assert(false);
    }
    let col = pos.character as int;
    if col > line.len() {
        assert(word_start_of(line, col) == col && word_end_of(line, col) == col);
        assert(false);
    }
    lemma_word_start_of(line, col);
    lemma_word_end_of(line, col);
    let start = word_start_of(line, col);
    let end = word_end_of(line, col);
    let found = line.subrange(start, end);
    assert(name_char(found[0]));
    assert(found[0] != '-');
}

} // verus!

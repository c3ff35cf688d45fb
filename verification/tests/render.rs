use hexpeek::render::{
    compute_ascii, compute_num_le, escape_md, formatted_hover_value, formatted_macro_value,
    from_char_code, group_separator, grouped_code_spans, hover_table_header, hover_table_row,
    label_chars, Row, Settings,
};

const ON: Settings = Settings { group_spacing: true };
const OFF: Settings = Settings { group_spacing: false };

fn row(label: &str, value: &str) -> Row {
    Row::new(label.to_string(), value.to_string())
}

#[test]
fn markdown_escapes() {
    assert_eq!(escape_md("a|b*c_d`e\\f"), "a\\|b\\*c\\_d\\`e\\\\f");
    assert_eq!(escape_md("plain 123"), "plain 123");
    assert_eq!(escape_md(""), "");
}

#[test]
fn char_code_symbols() {
    assert_eq!(from_char_code(0), "\u{2400}");
    assert_eq!(from_char_code(31), "\u{241f}");
    assert_eq!(from_char_code(32), " ");
    assert_eq!(from_char_code(65), "A");
    assert_eq!(from_char_code(126), "~");
    assert_eq!(from_char_code(127), "\u{2421}");
    assert_eq!(from_char_code(128), "\u{80}");
    assert_eq!(from_char_code(200), "\u{c8}");
    assert_eq!(from_char_code(255), "\u{ff}");
}

#[test]
fn little_endian_values() {
    assert_eq!(compute_num_le("1234").to_decimal_string(), "13330");
    assert_eq!(compute_num_le("123").to_decimal_string(), "8961");
    assert_eq!(compute_num_le("ff").to_decimal_string(), "255");
    assert_eq!(compute_num_le("").to_decimal_string(), "0");
    assert_eq!(compute_num_le("f").to_decimal_string(), "15");
}

#[test]
fn byte_text() {
    assert_eq!(compute_ascii("41"), "A");
    assert_eq!(compute_ascii("141"), "\u{2401}A");
    assert_eq!(compute_ascii("48690a"), "Hi\u{240a}");
    assert_eq!(compute_ascii("7f"), "\u{2421}");
    assert_eq!(compute_ascii(""), "");
}

#[test]
fn separators() {
    assert_eq!(group_separator(0, 3, &ON), "\u{2004}");
    assert_eq!(group_separator(1, 3, &ON), "\u{2005}");
    assert_eq!(group_separator(0, 2, &ON), "\u{2005}");
    assert_eq!(group_separator(0, 3, &OFF), "");
    assert!(Settings::default().group_spacing);
}

#[test]
fn grouped_digits() {
    assert_eq!(grouped_code_spans("0b10110", "0b", 4, &ON), "0b1\u{2005}0110");
    assert_eq!(grouped_code_spans("0b10110", "0b", 4, &OFF), "0b10110");
    assert_eq!(grouped_code_spans("1234567", "", 3, &ON), "1\u{2004}234\u{2005}567");
    assert_eq!(grouped_code_spans("0B101", "0b", 4, &ON), "0B101");
    assert_eq!(grouped_code_spans("0x", "0x", 4, &ON), "0x");
    assert_eq!(grouped_code_spans("", "", 3, &ON), "");
    assert_eq!(grouped_code_spans("1f", "0x", 4, &ON), "1f");
}

#[test]
fn grouping_without_spacing_is_the_escaped_value() {
    let value = "0b1010_1010";
    assert_eq!(grouped_code_spans(value, "0b", 4, &OFF), escape_md(value));
    assert_eq!(grouped_code_spans(value, "0b", 4, &OFF), "0b1010\\_1010");
    assert_eq!(grouped_code_spans("123456789", "", 3, &OFF), escape_md("123456789"));
}

#[test]
fn macro_values() {
    assert_eq!(
        formatted_macro_value("BIT(4)  /* SZ_16 */"),
        "BIT(4)\u{a0}\u{a0}/\\* SZ\\_16 \\*/"
    );
    assert_eq!(formatted_macro_value("  GENMASK(7, 4) "), "GENMASK(7, 4)");
}

#[test]
fn row_values() {
    assert_eq!(formatted_hover_value(&row("Binary", "0b10000"), &ON), "0b1\u{2005}0000");
    assert_eq!(formatted_hover_value(&row("Octal", "0o1234"), &ON), "0o1\u{2005}234");
    assert_eq!(formatted_hover_value(&row("Dec (LE)", "1000"), &ON), "1\u{2005}000");
    assert_eq!(formatted_hover_value(&row("Hex", "0xdeadbeef"), &ON), "0xdead\u{2005}beef");
    assert_eq!(formatted_hover_value(&row("Ascii", "a|b"), &ON), "a\\|b");
    assert_eq!(formatted_hover_value(&row("Other", ""), &ON), "");
    assert_eq!(formatted_hover_value(&row("Other", "x_y"), &ON), "x\\_y");
}

#[test]
fn table_lines() {
    assert_eq!(hover_table_header(&row("Hex", "0x10"), &ON), "| Hex | 0x10 |");
    assert_eq!(hover_table_row(&row("Dec (BE)", "16"), &ON), "| Dec (BE) | 16 |");
    assert_eq!(hover_table_row(&row("Bin|ary", "x"), &ON), "| Bin\\|ary | x |");
}

#[test]
fn labels() {
    let names: Vec<String> = (0u8..7).map(|k| label_chars(k).into_iter().collect()).collect();
    assert_eq!(names, vec!["Binary", "Octal", "Dec (BE)", "Dec (LE)", "Hex", "Macro", "Ascii"]);
}

#[test]
fn grouping_adds_only_separators() {
    let strip = |s: String| s.chars().filter(|c| *c != '\u{2004}' && *c != '\u{2005}').collect::<String>();
    for (value, prefix, g) in [("0b1010_1010", "0b", 4usize), ("1234567", "", 3), ("0xdeadbeef", "0x", 4)] {
        assert_eq!(strip(grouped_code_spans(value, prefix, g, &ON)), escape_md(value));
    }
}

#[test]
fn separators_between_groups() {
    let count = |s: &str| s.chars().filter(|c| *c == '\u{2004}' || *c == '\u{2005}').count();
    let last = |s: &str| s.chars().filter(|c| *c == '\u{2004}' || *c == '\u{2005}').last();
    // 9 binary digits in groups of 4: 3 groups, 2 separators, the last U+2005.
    let out = grouped_code_spans("0b101010101", "0b", 4, &ON);
    assert_eq!(count(&out), 2);
    assert_eq!(last(&out), Some('\u{2005}'));
    let out = grouped_code_spans("1234567890", "", 3, &ON);
    assert_eq!(count(&out), 3);
    assert_eq!(last(&out), Some('\u{2005}'));
    assert_eq!(count(&grouped_code_spans("123", "", 3, &ON)), 0);
}

#[test]
fn escapes_come_out_again() {
    let unescape = |s: &str| {
        let mut out = String::new();
        let mut it = s.chars();
        while let Some(c) = it.next() {
            if c == '\\' {
                if let Some(d) = it.next() {
                    out.push(d);
                    continue;
                }
            }
            out.push(c);
        }
        out
    };
    for v in ["a|b*c_d`e\\f", "plain", "\\\\", ""] {
        assert_eq!(unescape(&escape_md(v)), v);
    }
}

#[test]
fn zero_group_length_without_digits() {
    assert_eq!(grouped_code_spans("0x", "0x", 0, &ON), "0x");
    assert_eq!(grouped_code_spans("", "", 0, &ON), "");
}

#[test]
fn little_endian_weights() {
    // Byte k from the left is worth 256^k: 0x01 + 0x02 * 256 + 0x03 * 65536.
    assert_eq!(compute_num_le("010203").to_decimal_string(), "197121");
    // An odd count: the lone first digit is byte 0.
    assert_eq!(compute_num_le("10203").to_decimal_string(), "197121");
    assert_eq!(compute_ascii("10203"), "\u{2401}\u{2402}\u{2403}");
}

use hexpeek::bignat::BigNat;
use hexpeek::bitmacro::{
    bit_macro_chars, consecutive_set_bit_range, format_macro, format_size_macro,
    genmask_macro_chars, highest_set_bit, is_power_of_two, BitRange,
};
use hexpeek::literal::{parse_hex, LiteralKind};
use hexpeek::scan::{
    parse_bit_index, parse_macro_at_position, try_parse_bit, try_parse_genmask, try_parse_sz,
    ParsedNumber, Position, TextRange, MAX_MACRO_BIT_INDEX,
};
use hexpeek::text::LineText;

fn num(hex: &str) -> BigNat {
    let c: Vec<char> = hex.chars().collect();
    parse_hex(&c).unwrap().big_num
}

fn text(v: Option<Vec<char>>) -> Option<String> {
    v.map(|c| c.into_iter().collect())
}

fn at(character: u32) -> Position {
    Position { line: 3, character }
}

fn summary(p: &ParsedNumber) -> (String, String, String, LiteralKind, bool, Option<String>, TextRange) {
    (
        p.word.clone(),
        p.big_num.to_decimal_string(),
        p.hexs.clone(),
        p.literal_kind,
        p.has_negative_prefix,
        p.macro_str.clone(),
        p.range,
    )
}

fn range(start: u32, end: u32) -> TextRange {
    TextRange { start: at(start), end: at(end) }
}

#[test]
fn powers_of_two() {
    assert!(is_power_of_two(&num("0x8")));
    assert!(is_power_of_two(&num("0x1")));
    assert!(!is_power_of_two(&num("0x0")));
    assert!(!is_power_of_two(&num("0x6")));
    assert_eq!(highest_set_bit(&num("0x8")), 3);
    assert_eq!(highest_set_bit(&num("0x1000")), 12);
    assert_eq!(highest_set_bit(&num("0x1")), 0);
}

#[test]
fn set_bit_ranges() {
    assert_eq!(consecutive_set_bit_range(&num("0xF0")), Some(BitRange { highest: 7, lowest: 4 }));
    assert_eq!(consecutive_set_bit_range(&num("0x6")), Some(BitRange { highest: 2, lowest: 1 }));
    assert_eq!(consecutive_set_bit_range(&num("0xF")), None);
    assert_eq!(consecutive_set_bit_range(&num("0xB")), None);
    // The mask of bits 4..=7 is (2^4 - 1) * 2^4 = 240.
    assert_eq!(num("0xF0").to_decimal_string(), "240");
}

#[test]
fn size_macros() {
    assert_eq!(text(format_size_macro(&num("0x200"))), Some("SZ_512".to_string()));
    assert_eq!(text(format_size_macro(&num("0x0"))), Some("SZ_0".to_string()));
    assert_eq!(text(format_size_macro(&num("0x400"))), Some("SZ_1K".to_string()));
    assert_eq!(text(format_size_macro(&num("0x100000"))), Some("SZ_1M".to_string()));
    assert_eq!(text(format_size_macro(&num("0x80000"))), Some("SZ_512K".to_string()));
    assert_eq!(text(format_size_macro(&num("0x3000000000"))), Some("SZ_192G".to_string()));
    assert_eq!(text(format_size_macro(&num("0x600"))), None);
    assert_eq!(text(format_size_macro(&num("0x401"))), None);
}

#[test]
fn macro_texts() {
    assert_eq!(text(format_macro(&num("0x0"))), None);
    assert_eq!(text(format_macro(&num("0x1"))), Some("BIT(0)  /* SZ_1 */".to_string()));
    assert_eq!(text(format_macro(&num("0x1000"))), Some("BIT(12)  /* SZ_4K */".to_string()));
    assert_eq!(text(format_macro(&num("0x400000000000000000"))), Some("BIT(70)".to_string()));
    assert_eq!(text(format_macro(&num("0xF0"))), Some("GENMASK(7, 4)".to_string()));
    assert_eq!(text(format_macro(&num("0xF"))), None);
    assert_eq!(text(format_macro(&num("0x5"))), None);
    assert_eq!(bit_macro_chars(12).into_iter().collect::<String>(), "BIT(12)");
    assert_eq!(genmask_macro_chars(31, 0).into_iter().collect::<String>(), "GENMASK(31, 0)");
}

#[test]
fn bit_indices() {
    assert_eq!(parse_bit_index("4096"), Some(4096));
    assert_eq!(MAX_MACRO_BIT_INDEX, 4096);
    assert_eq!(parse_bit_index("4097"), None);
    assert_eq!(parse_bit_index("+5"), Some(5));
    assert_eq!(parse_bit_index(" 5"), None);
    assert_eq!(parse_bit_index("abc"), None);
    assert_eq!(parse_bit_index(""), None);
}

#[test]
fn genmask_under_cursor() {
    let line = LineText::new("x = GENMASK(7, 4);");
    let p = try_parse_genmask(&line, at(6)).unwrap();
    assert_eq!(
        summary(&p),
        (
            "GENMASK(7, 4)".to_string(),
            "240".to_string(),
            "f0".to_string(),
            LiteralKind::Macro,
            false,
            Some("GENMASK(7, 4)".to_string()),
            range(4, 17),
        )
    );
    assert!(try_parse_genmask(&line, at(2)).is_none());
    assert!(try_parse_genmask(&line, at(17)).is_some());
    assert!(try_parse_genmask(&LineText::new("GENMASK(4, 7)"), at(1)).is_none());
    assert!(try_parse_genmask(&LineText::new("GENMASK(7)"), at(1)).is_none());
    assert!(try_parse_genmask(&LineText::new("XGENMASK(7, 4)"), at(3)).is_none());
}

#[test]
fn bit_under_cursor() {
    let line = LineText::new("BIT(3) | BIT(12)");
    let p = try_parse_bit(&line, at(0)).unwrap();
    assert_eq!(
        summary(&p),
        (
            "BIT(3)".to_string(),
            "8".to_string(),
            "8".to_string(),
            LiteralKind::Macro,
            false,
            Some("BIT(3)  /* SZ_8 */".to_string()),
            range(0, 6),
        )
    );
    let q = try_parse_bit(&line, at(12)).unwrap();
    assert_eq!(q.big_num.to_decimal_string(), "4096");
    assert_eq!(q.range, range(9, 16));
    assert!(try_parse_bit(&LineText::new("BIT(5000)"), at(1)).is_none());
    assert!(try_parse_bit(&LineText::new("XBIT(3)"), at(2)).is_none());
}

#[test]
fn sizes_under_cursor() {
    let p = try_parse_sz(&LineText::new("len = SZ_4K;"), at(8)).unwrap();
    assert_eq!(p.big_num.to_decimal_string(), "4096");
    assert_eq!(p.word, "SZ_4K");
    assert_eq!(p.range, range(6, 11));
    assert!(try_parse_sz(&LineText::new("SZ_4"), at(1)).is_none());
    assert!(try_parse_sz(&LineText::new("SZ_4M"), at(1)).is_none());
    assert!(try_parse_sz(&LineText::new("SZ_K"), at(1)).is_none());
}

#[test]
fn macros_read_back() {
    // What format_macro writes for 0x1000 and 0xF0 reads back as the same number.
    let b = parse_macro_at_position(&LineText::new("BIT(12)"), at(3)).unwrap();
    assert_eq!(b.big_num.to_decimal_string(), "4096");
    let g = parse_macro_at_position(&LineText::new("GENMASK(7, 4)"), at(0)).unwrap();
    assert_eq!(g.big_num.to_decimal_string(), "240");
    let s = parse_macro_at_position(&LineText::new("SZ_512K"), at(0)).unwrap();
    assert_eq!(s.big_num.to_decimal_string(), "524288");
    assert!(parse_macro_at_position(&LineText::new("plain text"), at(0)).is_none());
}

#[test]
fn macro_columns_are_byte_offsets() {
    // Each "é" takes two bytes: the macro starts at byte 9 and ends at byte 15.
    let line = LineText::new("éééé BIT(2)");
    let p = parse_macro_at_position(&line, at(10)).unwrap();
    assert_eq!(p.range, range(9, 15));
    assert_eq!(p.big_num.to_decimal_string(), "4");
    // The neighbour before the macro is looked up by character index at the
    // byte column: after one "é" that is the `B` itself, a name character.
    assert!(parse_macro_at_position(&LineText::new("é BIT(2)"), at(4)).is_none());
}

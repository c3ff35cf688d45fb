use hexpeek::literal::{
    digit_value, is_name_char, parse_binary, parse_decimal, parse_hex, parse_octal,
    remove_separators, strip_integer_suffix, LiteralKind, ParseResult,
};
use hexpeek::text::chars_of;

fn value_of(r: Option<ParseResult>) -> Option<(String, LiteralKind)> {
    r.map(|p| (p.big_num.to_decimal_string(), p.literal_kind))
}

fn chars(s: &str) -> Vec<char> {
    s.chars().collect()
}

#[test]
fn binary_literals() {
    assert_eq!(value_of(parse_binary(&chars("0b1010"))), Some(("10".to_string(), LiteralKind::Binary)));
    assert_eq!(value_of(parse_binary(&chars("0B1_0'1"))), Some(("5".to_string(), LiteralKind::Binary)));
    assert_eq!(value_of(parse_binary(&chars("0b"))), None);
    assert_eq!(value_of(parse_binary(&chars("0b12"))), None);
    assert_eq!(value_of(parse_binary(&chars("0b__"))), None);
    assert_eq!(value_of(parse_binary(&chars("1b01"))), None);
}

#[test]
fn octal_literals() {
    assert_eq!(value_of(parse_octal(&chars("017"))), Some(("15".to_string(), LiteralKind::Octal)));
    assert_eq!(value_of(parse_octal(&chars("0o17"))), Some(("15".to_string(), LiteralKind::Octal)));
    assert_eq!(value_of(parse_octal(&chars("0O7_7"))), Some(("63".to_string(), LiteralKind::Octal)));
    assert_eq!(value_of(parse_octal(&chars("00"))), Some(("0".to_string(), LiteralKind::Octal)));
    assert_eq!(value_of(parse_octal(&chars("0"))), None);
    assert_eq!(value_of(parse_octal(&chars("08"))), None);
    assert_eq!(value_of(parse_octal(&chars("0o"))), None);
    assert_eq!(value_of(parse_octal(&chars("17"))), None);
}

#[test]
fn hex_literals() {
    assert_eq!(value_of(parse_hex(&chars("0xFF"))), Some(("255".to_string(), LiteralKind::Hex)));
    assert_eq!(value_of(parse_hex(&chars("0X10"))), Some(("16".to_string(), LiteralKind::Hex)));
    assert_eq!(value_of(parse_hex(&chars("0x1f_ff"))), Some(("8191".to_string(), LiteralKind::Hex)));
    assert_eq!(
        value_of(parse_hex(&chars("0xffff_ffff_ffff_ffff_ffff"))),
        Some(("1208925819614629174706175".to_string(), LiteralKind::Hex))
    );
    assert_eq!(value_of(parse_hex(&chars("0xG"))), None);
    assert_eq!(value_of(parse_hex(&chars("0x"))), None);
    assert_eq!(value_of(parse_hex(&chars("0x_"))), None);
}

#[test]
fn decimal_literals() {
    assert_eq!(value_of(parse_decimal(&chars("1'000"))), Some(("1000".to_string(), LiteralKind::Decimal)));
    assert_eq!(value_of(parse_decimal(&chars("42"))), Some(("42".to_string(), LiteralKind::Decimal)));
    assert_eq!(
        value_of(parse_decimal(&chars("123456789012345678901234567890"))),
        Some(("123456789012345678901234567890".to_string(), LiteralKind::Decimal))
    );
    assert_eq!(value_of(parse_decimal(&chars(""))), None);
    assert_eq!(value_of(parse_decimal(&chars("12a"))), None);
    assert_eq!(value_of(parse_decimal(&chars("_"))), None);
}

#[test]
fn round_trips_of_shown_forms() {
    // 1234 shown as 0b10011010010, 0o2322, 1234 and 0x4d2 reads back as 1234.
    assert_eq!(value_of(parse_binary(&chars("0b10011010010"))).unwrap().0, "1234");
    assert_eq!(value_of(parse_octal(&chars("0o2322"))).unwrap().0, "1234");
    assert_eq!(value_of(parse_decimal(&chars("1234"))).unwrap().0, "1234");
    assert_eq!(value_of(parse_hex(&chars("0x4d2"))).unwrap().0, "1234");
}

#[test]
fn integer_suffixes() {
    assert_eq!(strip_integer_suffix("10ull"), "10");
    assert_eq!(strip_integer_suffix("10llu"), "10");
    assert_eq!(strip_integer_suffix("10UL"), "10");
    assert_eq!(strip_integer_suffix("0x1Fu"), "0x1F");
    assert_eq!(strip_integer_suffix("10Lu"), "10L");
    assert_eq!(strip_integer_suffix("42"), "42");
    assert_eq!(strip_integer_suffix("u"), "");
}

#[test]
fn name_characters() {
    assert!(is_name_char('a'));
    assert!(is_name_char('Z'));
    assert!(is_name_char('7'));
    assert!(is_name_char('_'));
    assert!(is_name_char('\''));
    assert!(!is_name_char('-'));
    assert!(!is_name_char(' '));
    assert!(!is_name_char('é'));
}

#[test]
fn digits_and_separators() {
    assert_eq!(digit_value('7'), 7);
    assert_eq!(digit_value('b'), 11);
    assert_eq!(digit_value('F'), 15);
    assert_eq!(remove_separators(&chars("1_000'000")), chars("1000000"));
    assert_eq!(chars_of("héllo"), chars("héllo"));
}

#[test]
fn hex_spellings_read_alike() {
    for t in ["0xabcd", "0XABCD", "0xAb_Cd", "0x'ab'cd'", "0X_a_B_c_D"] {
        assert_eq!(value_of(parse_hex(&chars(t))).unwrap().0, "43981");
    }
}

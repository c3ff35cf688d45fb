use hexpeek::normalize::{
    normalize_heading_value, normalize_hovered_value, normalize_macro_value,
    normalize_prefixed_integer, normalize_translated_value, promoted_heading_value,
    promoted_hover_rows, rfind_chars, strip_macro_comment,
};
use hexpeek::render::Row;

fn row(label: &str, value: &str) -> Row {
    Row::new(label.to_string(), value.to_string())
}

fn pairs(rows: &[Row]) -> Vec<(String, String)> {
    rows.iter().map(|r| (r.label.clone(), r.value.clone())).collect()
}

#[test]
fn macro_comments() {
    assert_eq!(strip_macro_comment("BIT(3)  /* SZ_8 */"), "BIT(3)");
    assert_eq!(strip_macro_comment("  0x10 "), "0x10");
    assert_eq!(strip_macro_comment("a /* b */ c /* d */"), "a /* b */ c");
    assert_eq!(strip_macro_comment(""), "");
    let s: Vec<char> = "ab/*cd/*".chars().collect();
    let pat: Vec<char> = "/*".chars().collect();
    assert_eq!(rfind_chars(&s, &pat), Some(6));
    assert_eq!(rfind_chars(&s[..3], &pat), None);
}

#[test]
fn normalized_macro_values() {
    assert_eq!(normalize_macro_value("bit( 3 )"), Some("BIT(3)".to_string()));
    assert_eq!(normalize_macro_value("genmask(7,4)"), Some("GENMASK(7, 4)".to_string()));
    assert_eq!(normalize_macro_value("GENMASK( 31 ,  0 )"), Some("GENMASK(31, 0)".to_string()));
    assert_eq!(normalize_macro_value("BIT(x)"), None);
    assert_eq!(normalize_macro_value("GENMASK(7)"), None);
    assert_eq!(normalize_macro_value("BIT(3"), None);
    assert_eq!(normalize_macro_value("0x10"), None);
    assert_eq!(normalize_macro_value("BIT(99999999999)"), None);
}

#[test]
fn prefixed_integers() {
    assert_eq!(normalize_prefixed_integer("0X00FF"), "0xff");
    assert_eq!(normalize_prefixed_integer("0b000"), "0b0");
    assert_eq!(normalize_prefixed_integer("0x10"), "0x10");
    assert_eq!(normalize_prefixed_integer("0b101"), "0b101");
    assert_eq!(normalize_prefixed_integer("0x0010"), "0x10");
    assert_eq!(normalize_prefixed_integer("0O707"), "0o707");
    assert_eq!(normalize_prefixed_integer("123"), "123");
    assert_eq!(normalize_prefixed_integer("0o"), "0o");
}

#[test]
fn headings() {
    assert_eq!(normalize_heading_value("0x1_0"), "0x10");
    assert_eq!(normalize_heading_value("BIT(3)  /* SZ_8 */"), "BIT(3)");
    assert_eq!(normalize_heading_value("1'000"), "1000");
    assert_eq!(normalize_hovered_value("0x10UL"), "0x10");
    assert_eq!(normalize_hovered_value("BIT(3)"), "bit(3)");
    assert_eq!(normalize_hovered_value("0XAB"), "0xab");
    assert_eq!(normalize_translated_value("GENMASK(7, 4)"), "genmask(7, 4)");
    assert_eq!(normalize_translated_value("0xAB"), "0xab");
}

#[test]
fn promoted_values() {
    assert_eq!(promoted_heading_value(&row("Macro", "  BIT(3)  /* SZ_8 */ ")), "BIT(3)  /* SZ_8 */");
    assert_eq!(promoted_heading_value(&row("Hex", "0x10")), "0x10");
    assert_eq!(promoted_heading_value(&row("Hex", "0x00AB")), "0xab");
    assert_eq!(promoted_heading_value(&row("Dec (BE)", "16")), "16");
}

#[test]
fn promoted_rows() {
    let rows = vec![
        row("Binary", "0b10000"),
        row("Octal", "0o20"),
        row("Dec (BE)", "16"),
        row("Hex", "0x10"),
    ];
    let (head, rest) = promoted_hover_rows("0x10", &rows);
    let head = head.unwrap();
    assert_eq!((head.label.as_str(), head.value.as_str()), ("Hex", "0x10"));
    assert_eq!(
        pairs(&rest),
        vec![
            ("Binary".to_string(), "0b10000".to_string()),
            ("Octal".to_string(), "0o20".to_string()),
            ("Dec (BE)".to_string(), "16".to_string()),
        ]
    );

    let (head, rest) = promoted_hover_rows("16u", &rows);
    assert_eq!(head.unwrap().label, "Dec (BE)");
    assert_eq!(rest.len(), 3);

    let small = vec![row("Dec (BE)", "16"), row("Hex", "0x10")];
    let (head, rest) = promoted_hover_rows("0x10", &small);
    let head = head.unwrap();
    assert_eq!((head.label.as_str(), head.value.as_str()), ("Hex", "0x10"));
    assert_eq!(pairs(&rest), vec![("Dec (BE)".to_string(), "16".to_string())]);

    let (head, rest) = promoted_hover_rows("zzz", &rows);
    assert!(head.is_none());
    assert_eq!(pairs(&rest), pairs(&rows));
}

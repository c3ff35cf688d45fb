use hexpeek::literal::{parse_binary, parse_decimal, parse_hex, parse_octal, LiteralKind};
use hexpeek::locate::{get_line, lookup_in_bounds, parse_number_at_position};
use hexpeek::scan::{parse_macro_at_position, Position, TextRange};
use hexpeek::server::{
    classify_notification, classify_request, macro_replacement_actions,
    method_not_found_message, normalize_settings, replacement_action, DocumentStore, JsonValue,
    Notification, NotificationKind, RequestKind, Server,
};
use hexpeek::text::LineText;

fn pos(line: u32, character: u32) -> Position {
    Position { line, character }
}

fn range(line: u32, start: u32, end: u32) -> TextRange {
    TextRange { start: pos(line, start), end: pos(line, end) }
}

fn object(members: Vec<(&str, JsonValue)>) -> JsonValue {
    JsonValue::Object(members.into_iter().map(|(k, v)| (k.to_string(), v)).collect())
}

fn open(server: &mut Server, uri: &str, text: &str) {
    server.handle_notification(Notification::DidOpen { uri: uri.to_string(), text: text.to_string() });
}

fn chars(s: &str) -> Vec<char> {
    s.chars().collect()
}

const URI: &str = "file:///tmp/a.c";

const HOVER_0X10: &str = "| Hex | 0x10 |\n| :--- | :--- |\n| Binary | 0b1\u{2005}0000 |\n| Octal | 0o20 |\n| Dec (BE) | 16 |\n| Dec (LE) | 16 |\n| Macro | BIT(4)\u{a0}\u{a0}/\\* SZ\\_16 \\*/ |\n| Ascii | \u{2410} |\n";

#[test]
fn lines_of_a_document() {
    assert_eq!(get_line("a\nb\r\nc", 1), Some("b"));
    assert_eq!(get_line("a\nb\r\nc", 2), Some("c"));
    assert_eq!(get_line("a\n", 1), None);
    assert_eq!(get_line("", 0), None);
    assert_eq!(get_line("\n\nx", 2), Some("x"));
}

#[test]
fn numbers_under_the_cursor() {
    let doc = "int a = 0x10;\nint b = -42;\nint c = GENMASK(3, 0) | x;";
    let p = parse_number_at_position(doc, pos(0, 9)).unwrap();
    assert_eq!(p.word, "0x10");
    assert_eq!(p.big_num.to_decimal_string(), "16");
    assert_eq!(p.hexs, "10");
    assert_eq!(p.literal_kind, LiteralKind::Hex);
    assert!(!p.has_negative_prefix);
    assert_eq!(p.macro_str, Some("BIT(4)  /* SZ_16 */".to_string()));
    assert_eq!(p.range, range(0, 8, 12));

    let q = parse_number_at_position(doc, pos(1, 9)).unwrap();
    assert_eq!(q.word, "42");
    assert_eq!(q.hexs, "2a");
    assert_eq!(q.literal_kind, LiteralKind::Decimal);
    assert!(q.has_negative_prefix);
    assert_eq!(q.macro_str, None);
    assert_eq!(q.range, range(1, 9, 11));

    let m = parse_number_at_position(doc, pos(2, 10)).unwrap();
    assert_eq!(m.literal_kind, LiteralKind::Macro);
    assert_eq!(m.big_num.to_decimal_string(), "15");

    assert!(parse_number_at_position(doc, pos(0, 1)).is_none());
    assert!(parse_number_at_position(doc, pos(0, 7)).is_none());
    assert!(parse_number_at_position(doc, pos(9, 0)).is_none());
}

#[test]
fn hex_digits_keep_their_spelling() {
    let p = parse_number_at_position("0xAB_CDull", pos(0, 3)).unwrap();
    assert_eq!(p.word, "0xAB_CDull");
    assert_eq!(p.hexs, "ABCD");
    assert_eq!(p.big_num.to_decimal_string(), "43981");
}

#[test]
fn leading_minus_in_the_word() {
    // `-` is not a name character: it stands before the word and marks it negative.
    let p = parse_number_at_position("x=-7", pos(0, 3)).unwrap();
    assert!(p.has_negative_prefix);
    assert_eq!(p.range, range(0, 3, 4));
}

#[test]
fn cursor_bounds() {
    assert!(lookup_in_bounds("ab", pos(0, 2)));
    assert!(!lookup_in_bounds("ab", pos(0, 5)));
    assert!(lookup_in_bounds("BIT(1)", pos(0, 3)));
    assert!(lookup_in_bounds("ab", pos(4, 50)));
}

#[test]
fn settings_from_configuration() {
    let nested = object(vec![("settings", object(vec![("groupSpacing", JsonValue::Bool(false))]))]);
    assert_eq!(normalize_settings(&nested).group_spacing, Some(false));
    let flat = object(vec![("groupSpacing", JsonValue::Bool(true))]);
    assert_eq!(normalize_settings(&flat).group_spacing, Some(true));
    assert_eq!(normalize_settings(&JsonValue::Bool(true)).group_spacing, None);
    let wrong = object(vec![("groupSpacing", JsonValue::Other)]);
    assert_eq!(normalize_settings(&wrong).group_spacing, None);
    let not_object = object(vec![("settings", JsonValue::Bool(true)), ("groupSpacing", JsonValue::Bool(false))]);
    assert_eq!(normalize_settings(&not_object).group_spacing, Some(false));
    let inner_wins = object(vec![
        ("groupSpacing", JsonValue::Bool(true)),
        ("settings", object(vec![])),
    ]);
    assert_eq!(normalize_settings(&inner_wins).group_spacing, None);

    let mut server = Server::new();
    assert!(server.settings.group_spacing);
    server.apply_settings_from_value(&nested);
    assert!(!server.settings.group_spacing);
    server.apply_settings_from_value(&JsonValue::Other);
    assert!(!server.settings.group_spacing);
    server.handle_notification(Notification::DidChangeConfiguration { settings: flat });
    assert!(server.settings.group_spacing);
}

#[test]
fn document_store() {
    let mut docs = DocumentStore::new();
    assert!(docs.get(URI).is_none());
    docs.insert(URI.to_string(), "one".to_string());
    docs.insert("file:///b".to_string(), "two".to_string());
    assert_eq!(docs.get(URI).map(|s| s.as_str()), Some("one"));
    docs.insert(URI.to_string(), "three".to_string());
    assert_eq!(docs.get(URI).map(|s| s.as_str()), Some("three"));
    docs.remove(URI);
    assert!(docs.get(URI).is_none());
    assert_eq!(docs.get("file:///b").map(|s| s.as_str()), Some("two"));
    docs.remove("file:///missing");
    assert_eq!(docs.get("file:///b").map(|s| s.as_str()), Some("two"));
}

#[test]
fn hover_on_a_hex_literal() {
    let mut server = Server::new();
    open(&mut server, URI, "x = 0x10;");
    assert!(server.hover_position_in_bounds(URI, pos(0, 5)));
    let h = server.hover(URI, pos(0, 5)).unwrap();
    assert_eq!(h.markdown, HOVER_0X10);
    assert_eq!(h.range, range(0, 4, 8));
}

#[test]
fn hover_forms_read_back() {
    // The Binary, Octal, Dec (BE) and Hex rows of a hover all denote the number.
    let mut server = Server::new();
    server.apply_settings_from_value(&object(vec![("groupSpacing", JsonValue::Bool(false))]));
    open(&mut server, URI, "v = 1234;");
    let h = server.hover(URI, pos(0, 5)).unwrap();
    assert!(h.markdown.contains("| Binary | 0b10011010010 |"));
    assert!(h.markdown.contains("| Octal | 0o2322 |"));
    assert!(h.markdown.contains("| Hex | 0x4d2 |"));
    assert!(h.markdown.starts_with("| Dec (BE) | 1234 |"));
    for form in ["0b10011010010", "0o2322", "1234", "0x4d2"] {
        let c = chars(form);
        let parsed = parse_binary(&c).or(parse_octal(&c)).or(parse_hex(&c)).or(parse_decimal(&c));
        assert_eq!(parsed.unwrap().big_num.to_decimal_string(), "1234");
    }
}

#[test]
fn hover_without_spacing() {
    let mut server = Server::new();
    server.handle_notification(Notification::DidChangeConfiguration {
        settings: object(vec![("groupSpacing", JsonValue::Bool(false))]),
    });
    open(&mut server, URI, "0xdeadbeef");
    let h = server.hover(URI, pos(0, 0)).unwrap();
    assert!(h.markdown.starts_with("| Hex | 0xdeadbeef |\n"));
    assert!(h.markdown.contains("| Dec (BE) | 3735928559 |"));
    assert!(h.markdown.contains("| Dec (LE) | 4022250974 |"));
    assert!(h.markdown.contains("| Ascii | \u{de}\u{ad}\u{be}\u{ef} |"));
}

#[test]
fn requests_follow_notifications() {
    let mut server = Server::new();
    assert!(server.hover(URI, pos(0, 0)).is_none());
    open(&mut server, URI, "0x10");
    open(&mut server, "file:///other", "0x20");
    assert!(server.hover(URI, pos(0, 0)).is_some());
    server.handle_notification(Notification::DidChange {
        uri: URI.to_string(),
        change: Some("word".to_string()),
    });
    assert!(server.hover(URI, pos(0, 0)).is_none());
    server.handle_notification(Notification::DidChange { uri: URI.to_string(), change: None });
    assert!(server.hover(URI, pos(0, 0)).is_none());
    server.handle_notification(Notification::DidChange {
        uri: URI.to_string(),
        change: Some("0x8".to_string()),
    });
    assert_eq!(server.code_actions(URI, pos(0, 0)).len(), 2);
    server.handle_notification(Notification::DidClose { uri: URI.to_string() });
    assert!(server.hover(URI, pos(0, 0)).is_none());
    assert!(server.code_actions(URI, pos(0, 0)).is_empty());
    server.handle_notification(Notification::Other);
    let other = server.hover("file:///other", pos(0, 1)).unwrap();
    assert_eq!(other.range, range(0, 0, 4));
}

#[test]
fn code_actions_offer_macros() {
    let mut server = Server::new();
    open(&mut server, URI, "a = 0x1000; b = 0xF0; c = 4096; d = -0x10; e = 0x0; f = 0x5;");
    let bit = server.code_actions(URI, pos(0, 6));
    let titles: Vec<&str> = bit.iter().map(|a| a.title.as_str()).collect();
    assert_eq!(titles, vec!["Replace with BIT(12)", "Replace with SZ_4K"]);
    assert_eq!(bit[0].new_text, "BIT(12)");
    assert_eq!(bit[0].range, range(0, 4, 10));
    let mask = server.code_actions(URI, pos(0, 17));
    assert_eq!(mask.len(), 1);
    assert_eq!(mask[0].new_text, "GENMASK(7, 4)");
    assert!(server.code_actions(URI, pos(0, 28)).is_empty());
    assert!(server.code_actions(URI, pos(0, 39)).is_empty());
    assert!(server.code_actions(URI, pos(0, 49)).is_empty());
    assert!(server.code_actions(URI, pos(0, 58)).is_empty());
}

#[test]
fn replacements_read_back() {
    let doc = "0x1000 0xF0";
    for (at, value) in [(1u32, "4096"), (8, "240")] {
        let p = parse_number_at_position(doc, pos(0, at)).unwrap();
        let actions = macro_replacement_actions(&p);
        let read = parse_macro_at_position(&LineText::new(&actions[0].new_text), pos(0, 0)).unwrap();
        assert_eq!(read.big_num.to_decimal_string(), value);
    }
    // The size macro offered for 0x1000 counts kibibytes and reads back too.
    let p = parse_number_at_position(doc, pos(0, 1)).unwrap();
    let actions = macro_replacement_actions(&p);
    assert_eq!(actions[1].new_text, "SZ_4K");
    let read = parse_macro_at_position(&LineText::new(&actions[1].new_text), pos(0, 5)).unwrap();
    assert_eq!(read.big_num.to_decimal_string(), "4096");
    // A size macro in larger units is not read back: `SZ_1M` gives nothing.
    let q = parse_number_at_position("0x100000", pos(0, 0)).unwrap();
    let actions = macro_replacement_actions(&q);
    assert_eq!(actions[1].new_text, "SZ_1M");
    assert!(parse_macro_at_position(&LineText::new(&actions[1].new_text), pos(0, 0)).is_none());
}

#[test]
fn replacement_titles() {
    let r = replacement_action(&range(2, 1, 5), &chars("BIT(3)"));
    assert_eq!(r.title, "Replace with BIT(3)");
    assert_eq!(r.new_text, "BIT(3)");
    assert_eq!(r.range, range(2, 1, 5));
}

#[test]
fn request_and_notification_kinds() {
    assert_eq!(classify_request("textDocument/hover"), RequestKind::Hover);
    assert_eq!(classify_request("textDocument/codeAction"), RequestKind::CodeAction);
    assert_eq!(classify_request("shutdown"), RequestKind::Unknown);
    assert_eq!(method_not_found_message("foo/bar"), "Method not found: foo/bar");
    assert_eq!(classify_notification("textDocument/didOpen"), NotificationKind::DidOpen);
    assert_eq!(classify_notification("textDocument/didChange"), NotificationKind::DidChange);
    assert_eq!(classify_notification("textDocument/didClose"), NotificationKind::DidClose);
    assert_eq!(
        classify_notification("workspace/didChangeConfiguration"),
        NotificationKind::DidChangeConfiguration
    );
    assert_eq!(classify_notification("initialized"), NotificationKind::Other);
}

#[test]
fn heading_shows_the_hovered_number() {
    let mut server = Server::new();
    open(&mut server, URI, "a = 0b101; b = 0X00F0;");
    let h = server.hover(URI, pos(0, 6)).unwrap();
    assert!(h.markdown.starts_with("| Binary | 0b101 |\n"));
    let h = server.hover(URI, pos(0, 17)).unwrap();
    assert!(h.markdown.starts_with("| Hex | 0xf0 |\n"));
}

#[test]
fn word_around_the_cursor() {
    let line = "x = -0x1F_u + y";
    let p = parse_number_at_position(line, pos(0, 7)).unwrap();
    let chars: Vec<char> = line.chars().collect();
    let (s, e) = (p.range.start.character as usize, p.range.end.character as usize);
    assert_eq!((s, e), (5, 11));
    assert_eq!(chars[s..e].iter().collect::<String>(), p.word);
    assert!(s <= 7 && 7 <= e);
    assert!(!chars[s - 1].is_ascii_alphanumeric() && chars[s - 1] == '-');
    assert!(p.has_negative_prefix);
    assert_eq!(chars[e], ' ');
}

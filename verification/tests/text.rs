use hexpeek::text::{
    chars_of, chars_equal, chars_start_with, char_len_utf8, decimal_chars, digit_to_char,
    find_char, find_pattern, is_whitespace, occurs_at, parse_u32, string_of, trim_chars,
    LineText,
};

fn chars(s: &str) -> Vec<char> {
    s.chars().collect()
}

#[test]
fn u32_parsing() {
    assert_eq!(parse_u32(&chars("4294967295")), Some(u32::MAX));
    assert_eq!(parse_u32(&chars("4294967296")), None);
    assert_eq!(parse_u32(&chars("+7")), Some(7));
    assert_eq!(parse_u32(&chars("007")), Some(7));
    assert_eq!(parse_u32(&chars("+")), None);
    assert_eq!(parse_u32(&chars("")), None);
    assert_eq!(parse_u32(&chars("-1")), None);
    assert_eq!(parse_u32(&chars("1_0")), None);
}

#[test]
fn white_space_and_trimming() {
    assert!(is_whitespace(' '));
    assert!(is_whitespace('\u{3000}'));
    assert!(is_whitespace('\u{a0}'));
    assert!(!is_whitespace('x'));
    let s = chars("\t a b \u{2003}");
    assert_eq!(trim_chars(&s, 0, s.len()), chars("a b"));
    assert_eq!(trim_chars(&s, 2, 3), chars("a"));
}

#[test]
fn searching() {
    let s = chars("abcabc");
    assert_eq!(find_pattern(&s, &chars("bc"), 0), Some(1));
    assert_eq!(find_pattern(&s, &chars("bc"), 2), Some(4));
    assert_eq!(find_pattern(&s, &chars("x"), 0), None);
    assert_eq!(find_char(&s, 'c', 3), Some(5));
    assert_eq!(find_char(&s, 'z', 0), None);
    assert!(occurs_at(&s, &chars("ca"), 2));
    assert!(!occurs_at(&s, &chars("ca"), 5));
    assert!(chars_start_with(&s, &chars("abc")));
    assert!(!chars_start_with(&s, &chars("b")));
    assert!(chars_equal(&chars("xy"), &chars("xy")));
    assert!(!chars_equal(&chars("xy"), &chars("x")));
}

#[test]
fn characters_and_strings() {
    assert_eq!(string_of(&chars("héllo")), "héllo");
    assert_eq!(chars_of("añb"), vec!['a', 'ñ', 'b']);
    assert_eq!(decimal_chars(0), vec!['0']);
    assert_eq!(decimal_chars(907), vec!['9', '0', '7']);
    assert_eq!(digit_to_char(11), 'b');
    assert_eq!(char_len_utf8('a'), 1);
    assert_eq!(char_len_utf8('é'), 2);
    assert_eq!(char_len_utf8('€'), 3);
    assert_eq!(char_len_utf8('😀'), 4);
}

#[test]
fn byte_offsets_of_a_line() {
    let t = LineText::new("aé€😀");
    assert_eq!(t.chars, chars("aé€😀"));
    assert_eq!(t.offsets, vec![0, 1, 3, 6, 10]);
}

use waybar_virtual_desktops::text::{
    chars_of, decimal_chars, ends_with, find_char, is_whitespace, occurs_at, parse_u32,
    push_all, push_decimal, push_str, replace, same_chars, slice_of, split_lines, starts_with,
    trim,
};

fn chars(text: &str) -> Vec<char> {
    text.chars().collect()
}

fn text(chars: &Vec<char>) -> String {
    chars.iter().collect()
}

#[test]
fn chars_are_taken_in_order() {
    assert_eq!(chars_of("héllo"), vec!['h', 'é', 'l', 'l', 'o']);
    assert_eq!(chars_of(""), Vec::<char>::new());
}

#[test]
fn decimal_is_the_shortest_form() {
    for n in [0u64, 1, 9, 10, 11, 99, 100, 101, 4294967295, u64::MAX] {
        assert_eq!(text(&decimal_chars(n)), n.to_string());
    }
    let mut out = chars("n=");
    push_decimal(&mut out, 120);
    push_str(&mut out, "!");
    push_all(&mut out, &chars("?"));
    assert_eq!(text(&out), "n=120!?");
}

#[test]
fn replace_agrees_with_std() {
    let cases = [
        ("{name}", "{name}", "x"),
        ("a{name}b{name}", "{name}", ""),
        ("{{name}}", "{name}", "{name}"),
        ("aaa", "aa", "b"),
        ("aaaa", "aa", "b"),
        ("abc", "abcd", "x"),
        ("", "a", "b"),
        ("{nam}{name", "{name}", "x"),
        ("é{id}é", "{id}", "ü"),
        ("ababab", "ab", "ba"),
    ];
    for (source, from, to) in cases {
        assert_eq!(
            text(&replace(&chars(source), from, &chars(to))),
            source.replace(from, to),
            "{:?} {:?} {:?}",
            source,
            from,
            to
        );
    }
}

#[test]
fn trim_agrees_with_std() {
    for source in
        ["", " ", "a", " a ", "\t a b \r\n", "\u{a0}x\u{2003}", "\u{3000}", "x\u{200b}", "\u{85}y"]
    {
        assert_eq!(text(&trim(&chars(source))), source.trim(), "{:?}", source);
    }
}

#[test]
fn whitespace_agrees_with_std() {
    for code in 0u32..0x3100 {
        if let Some(c) = char::from_u32(code) {
            assert_eq!(is_whitespace(c), c.is_whitespace(), "U+{:04X}", code);
        }
    }
    assert!(!is_whitespace('\u{feff}'));
}

#[test]
fn numbers_parse_like_std() {
    for source in [
        "0", "7", "007", "+7", "+", "", "-1", "-0", "4294967295", "4294967296",
        "99999999999999999999999", "1 ", " 1", "1a", "++1", "٣", "1_000", "+0",
    ] {
        assert_eq!(parse_u32(&chars(source)), source.parse::<u32>().ok(), "{:?}", source);
    }
}

#[test]
fn prefixes_and_suffixes() {
    let line = chars("Focused: true");
    assert!(starts_with(&line, "Focused: "));
    assert!(starts_with(&line, ""));
    assert!(!starts_with(&line, "focused"));
    assert!(!starts_with(&chars("Foc"), "Focused"));
    assert!(ends_with(&line, "true"));
    assert!(ends_with(&line, ""));
    assert!(!ends_with(&line, "True"));
    assert!(!ends_with(&chars("rue"), "true"));
    assert!(occurs_at(&line, &chars("used"), 3));
    assert!(!occurs_at(&line, &chars("used"), 4));
    assert!(!occurs_at(&line, &chars("true"), 10));
    assert!(occurs_at(&line, &chars(""), 13));
    assert!(!occurs_at(&line, &chars(""), 14));
}

#[test]
fn first_occurrence_is_found() {
    assert_eq!(find_char(&chars("a:b:c"), ':'), Some(1));
    assert_eq!(find_char(&chars(":"), ':'), Some(0));
    assert_eq!(find_char(&chars("abc"), ':'), None);
    assert_eq!(find_char(&chars(""), ':'), None);
}

#[test]
fn lines_are_split_at_line_feeds() {
    let split = |source: &str| -> Vec<String> {
        split_lines(&chars(source)).iter().map(text).collect()
    };
    assert_eq!(split(""), vec![""]);
    assert_eq!(split("a"), vec!["a"]);
    assert_eq!(split("a\nb"), vec!["a", "b"]);
    assert_eq!(split("a\n"), vec!["a", ""]);
    assert_eq!(split("\n\n"), vec!["", "", ""]);
    assert_eq!(split("a\r\nb"), vec!["a\r", "b"]);
}

#[test]
fn slices_and_equality() {
    let source = chars("abcdef");
    assert_eq!(text(&slice_of(&source, 1, 4)), "bcd");
    assert_eq!(text(&slice_of(&source, 6, 6)), "");
    assert_eq!(text(&slice_of(&source, 0, 6)), "abcdef");
    assert!(same_chars(&chars("abc"), &chars("abc")));
    assert!(!same_chars(&chars("abc"), &chars("abd")));
    assert!(!same_chars(&chars("abc"), &chars("ab")));
    assert!(same_chars(&chars(""), &chars("")));
}

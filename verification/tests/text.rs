use deckliste_rs::text::{
    char_width, find_class, find_in, has_suffix, parse_decimal, range_bytes, same_text,
    split_lines, to_chars, trim_range, CharClass,
};

fn chars(s: &str) -> Vec<char> {
    s.chars().collect()
}

#[test]
fn characters_are_classed() {
    for c in [' ', '\t', '\n', '\r', '\u{b}', '\u{c}', '\u{85}', '\u{a0}', '\u{1680}', '\u{2000}',
        '\u{200a}', '\u{2028}', '\u{2029}', '\u{202f}', '\u{205f}', '\u{3000}']
    {
        assert!(CharClass::Space.holds(c));
        assert!(c.is_whitespace());
    }
    for c in ['a', '0', 'x', '\u{8}', '\u{e}', '\u{200b}', '\u{feff}', '\u{1f}'] {
        assert!(!CharClass::Space.holds(c));
        assert!(!c.is_whitespace());
    }
    for c in '0'..='9' {
        assert!(CharClass::Digit.holds(c));
    }
    for c in ['/', ':', 'a', '\u{661}', '\u{ff11}'] {
        assert!(!CharClass::Digit.holds(c));
    }
    assert!(CharClass::Times.holds('x'));
    assert!(!CharClass::Times.holds('X'));
    assert!(!CharClass::Times.holds('\u{d7}'));
    assert!(CharClass::LineFeed.holds('\n'));
    assert!(!CharClass::LineFeed.holds('\r'));
}

#[test]
fn widths_are_those_of_utf8() {
    for c in ['\0', 'a', '\u{7f}', '\u{80}', '\u{7ff}', '\u{800}', '\u{d7ff}', '\u{e000}',
        '\u{ffff}', '\u{10000}', '\u{10ffff}']
    {
        assert_eq!(char_width(c), c.len_utf8());
    }
    let v = chars("a\u{e9}\u{20ac}\u{1f0cf}z");
    assert_eq!(range_bytes(&v, 0, 5), 11);
    assert_eq!(range_bytes(&v, 1, 3), 5);
    assert_eq!(range_bytes(&v, 2, 2), 0);
}

#[test]
fn to_chars_keeps_every_character() {
    assert_eq!(to_chars("J\u{f6}tun 2"), chars("J\u{f6}tun 2"));
    assert_eq!(to_chars(""), Vec::<char>::new());
}

#[test]
fn trimming_cuts_both_ends() {
    let v = chars("  xx4x \t");
    assert_eq!(trim_range(&v, 0, 8, CharClass::Space), (2, 6));
    assert_eq!(trim_range(&v, 2, 6, CharClass::Times), (4, 5));
    assert_eq!(trim_range(&v, 0, 8, CharClass::Times), (0, 8));
    assert_eq!(trim_range(&v, 0, 2, CharClass::Space), (2, 2));
    assert_eq!(trim_range(&v, 3, 3, CharClass::Space), (3, 3));
    let w = chars("xxxx");
    assert_eq!(trim_range(&w, 0, 4, CharClass::Times), (4, 4));
    let inner = chars("x a x b x");
    assert_eq!(trim_range(&inner, 0, 9, CharClass::Times), (1, 8));
}

#[test]
fn searching_finds_the_first() {
    let v = chars("ab 12 cd 34");
    assert_eq!(find_class(&v, CharClass::Digit, 0), Some(3));
    assert_eq!(find_class(&v, CharClass::Digit, 4), Some(4));
    assert_eq!(find_class(&v, CharClass::Digit, 5), Some(9));
    assert_eq!(find_class(&v, CharClass::Space, 0), Some(2));
    assert_eq!(find_class(&v, CharClass::Times, 0), None);
    assert_eq!(find_class(&v, CharClass::Digit, 11), None);
    assert_eq!(find_class(&v, CharClass::Digit, 40), None);
    assert_eq!(find_in(&chars("aaab aab"), &chars("aab")), Some(1));
    assert_eq!(find_in(&chars("aaab"), &chars("b")), Some(3));
    assert_eq!(find_in(&chars("aaab"), &chars("ba")), None);
    assert_eq!(find_in(&chars("ab"), &chars("abc")), None);
    assert_eq!(find_in(&chars("ab"), &chars("ab")), Some(0));
    assert_eq!(find_in(&chars("ab"), &chars("")), Some(0));
    assert_eq!(find_in(&chars(""), &chars("")), Some(0));
    assert_eq!(find_in(&chars(""), &chars("a")), None);
}

#[test]
fn numbers_are_read_as_u32() {
    let read = |s: &str| {
        let v = chars(s);
        parse_decimal(&v, 0, v.len())
    };
    for s in ["0", "7", "42", "+42", "0042", "4294967295", "+0004294967295", "4294967296",
        "99999999999999999999999", "", "+", "-1", "++1", "1+", "4 2", " 42", "42 ", "4x",
        "\u{664}", "1_000", "0x10"]
    {
        assert_eq!(read(s), s.parse::<u32>().ok());
    }
    assert_eq!(read("42"), Some(42));
    assert_eq!(read("4294967295"), Some(u32::MAX));
    assert_eq!(read("4294967296"), None);
    let v = chars("ab123cd");
    assert_eq!(parse_decimal(&v, 2, 5), Some(123));
    assert_eq!(parse_decimal(&v, 2, 6), None);
    assert_eq!(parse_decimal(&v, 3, 3), None);
}

#[test]
fn texts_are_compared_by_content() {
    assert!(same_text("legal", "legal"));
    assert!(!same_text("legal", "Legal"));
    assert!(!same_text("legal", "legal "));
    assert!(!same_text("", "a"));
    assert!(same_text("", ""));
    assert!(same_text("J\u{f6}tun", "J\u{f6}tun"));
    assert!(!same_text("J\u{f6}tun", "Jotun"));
}

#[test]
fn suffixes_are_found() {
    assert!(has_suffix("deck.dk", ".dk"));
    assert!(has_suffix(".dk", ".dk"));
    assert!(!has_suffix("dk", ".dk"));
    assert!(!has_suffix("deck.dk.txt", ".dk"));
    assert!(!has_suffix("deck.DK", ".dk"));
    assert!(has_suffix("deck", ""));
}

#[test]
fn lines_are_split_at_line_feeds() {
    let all = |s: &str| split_lines(s);
    assert_eq!(all("a\r\nb\n\nc"), vec!["a", "b", "", "c"]);
    assert_eq!(all("a\n"), vec!["a"]);
    assert_eq!(all("a\n\n"), vec!["a", ""]);
    assert_eq!(all("\n"), vec![""]);
    assert_eq!(all(""), Vec::<String>::new());
    assert_eq!(all("a\r"), vec!["a\r"]);
    assert_eq!(all("a\r\r\nb"), vec!["a\r", "b"]);
    assert_eq!(all("\r\n"), vec![""]);
    assert_eq!(all("no feed"), vec!["no feed"]);
    for s in ["a\r\nb\n\nc", "a\n", "\n\n", "", "x\ry\r\n", "J\u{f6}tun\n2 Opt\r\n"] {
        let expected: Vec<String> = s.lines().map(String::from).collect();
        assert_eq!(all(s), expected);
    }
}

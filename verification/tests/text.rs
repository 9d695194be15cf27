use lithium::ldn::text::{
    char_is_space, find_char, format_integer, format_natural, parse_integer, parse_natural,
    same_text, strip_comment, text_contains, trim_text,
};

#[test]
fn white_space_characters() {
    for c in "\t\n\u{b}\u{c}\r \u{85}\u{a0}\u{1680}\u{2000}\u{200a}\u{2028}\u{2029}\u{202f}\u{205f}\u{3000}".chars() {
        assert!(char_is_space(c), "{:?}", c);
        assert!(c.is_whitespace());
    }
    for c in "a0;\u{8}\u{e}\u{1f}\u{84}\u{86}\u{200b}\u{2060}\u{feff}\u{180e}".chars() {
        assert!(!char_is_space(c), "{:?}", c);
        assert!(!c.is_whitespace());
    }
}

#[test]
fn white_space_agrees_with_std_everywhere() {
    for u in 0..=0x10ffffu32 {
        if let Some(c) = char::from_u32(u) {
            assert_eq!(c.is_whitespace(), char_is_space(c), "{:x}", u);
        }
    }
}

#[test]
fn trim_both_ends() {
    assert_eq!("a b", trim_text("  a b \n"));
    assert_eq!("a", trim_text("a"));
    assert_eq!("", trim_text(""));
    assert_eq!("", trim_text(" \t\r\n"));
    assert_eq!("\u{e9}", trim_text("\u{a0}\u{e9}\u{3000}"));
}

#[test]
fn strip_comment_marks_and_space() {
    assert_eq!("foo", strip_comment(";; foo"));
    assert_eq!("foo bar", strip_comment("; foo bar  "));
    assert_eq!("; quux ;", strip_comment(";; ; quux ;"));
    assert_eq!("", strip_comment(";;;"));
    assert_eq!("", strip_comment(""));
    assert_eq!("x ;", strip_comment("x ;"));
}

#[test]
fn find_first_character() {
    assert_eq!(Some(1), find_char("a:b:c", ':'));
    assert_eq!(Some(0), find_char(":", ':'));
    assert_eq!(None, find_char("abc", ':'));
    assert_eq!(None, find_char("", ':'));
    // Indices count characters, not bytes.
    assert_eq!(Some(2), find_char("\u{e9}\u{e9}:", ':'));
}

#[test]
fn contains_pattern() {
    assert!(text_contains("Content-Length: 3", "Content-Length"));
    assert!(text_contains("xContent-Length", "Content-Length"));
    assert!(text_contains("abc", ""));
    assert!(text_contains("", ""));
    assert!(!text_contains("Content-Lengt", "Content-Length"));
    assert!(!text_contains("content-length", "Content-Length"));
    assert!(!text_contains("", "a"));
    assert!(text_contains("aab", "ab"));
}

#[test]
fn same_text_compares_characters() {
    assert!(same_text("", ""));
    assert!(same_text("file:///a", "file:///a"));
    assert!(!same_text("file:///a", "file:///b"));
    assert!(!same_text("a", "ab"));
    assert!(!same_text("\u{e9}", "e"));
}

#[test]
fn integers_from_tokens() {
    assert_eq!(Some(0), parse_integer(b"0"));
    assert_eq!(Some(-25), parse_integer(b"-25"));
    assert_eq!(Some(25), parse_integer(b"+25"));
    assert_eq!(Some(7), parse_integer(b"007"));
    assert_eq!(Some(isize::MAX), parse_integer(isize::MAX.to_string().as_bytes()));
    assert_eq!(Some(isize::MIN), parse_integer(isize::MIN.to_string().as_bytes()));
    assert_eq!(None, parse_integer(b""));
    assert_eq!(None, parse_integer(b"-"));
    assert_eq!(None, parse_integer(b"+"));
    assert_eq!(None, parse_integer(b"1 "));
    assert_eq!(None, parse_integer(b"1-"));
    assert_eq!(None, parse_integer(b"0x10"));
    let above = (isize::MAX as i128 + 1).to_string();
    let below = (isize::MIN as i128 - 1).to_string();
    assert_eq!(None, parse_integer(above.as_bytes()));
    assert_eq!(None, parse_integer(below.as_bytes()));
}

#[test]
fn integers_agree_with_std() {
    let tokens = [
        "0", "-0", "+0", "00", "1", "-1", "+1", "12345", "-", "+", "", "--1", "+-1", "1a", "a1",
        "9223372036854775807", "9223372036854775808", "-9223372036854775808",
        "-9223372036854775809", "2147483647", "2147483648", "-2147483648", "-2147483649",
        "000000000000000000000000000000000000000001", "340282366920938463463374607431768211456",
    ];
    for token in tokens.iter() {
        assert_eq!(token.parse::<isize>().ok(), parse_integer(token.as_bytes()), "{}", token);
        assert_eq!(token.parse::<usize>().ok(), parse_natural(token.as_bytes()), "{}", token);
    }
}

#[test]
fn naturals_from_tokens() {
    assert_eq!(Some(42), parse_natural(b"42"));
    assert_eq!(Some(42), parse_natural(b"+42"));
    assert_eq!(Some(usize::MAX), parse_natural(usize::MAX.to_string().as_bytes()));
    assert_eq!(None, parse_natural((usize::MAX as u128 + 1).to_string().as_bytes()));
    assert_eq!(None, parse_natural(b"-1"));
    assert_eq!(None, parse_natural(b""));
    assert_eq!(None, parse_natural(b"4 2"));
}

#[test]
fn numerals() {
    assert_eq!("0", format_natural(0));
    assert_eq!("9", format_natural(9));
    assert_eq!("10", format_natural(10));
    assert_eq!(u128::MAX.to_string(), format_natural(u128::MAX));
    assert_eq!("0", format_integer(0));
    assert_eq!("-1", format_integer(-1));
    assert_eq!("1200", format_integer(1200));
    assert_eq!(isize::MAX.to_string(), format_integer(isize::MAX));
    assert_eq!(isize::MIN.to_string(), format_integer(isize::MIN));
}

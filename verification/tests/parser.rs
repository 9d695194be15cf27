use lithium::ldn::pos::{pos, span};
use lithium::ldn::{Atom, Error, Item, Parser};

#[test]
fn parse_empty() {
    assert!(Parser::from("").parse().unwrap().is_empty());
}

#[test]
fn parse_unknown() {
    assert_eq!(
        Err(Error::UnknownCharacter(b'\r', pos(0, 1))),
        Parser::from(" \r").parse()
    );
}

#[test]
fn parse_comment() {
    assert_eq!(
        vec![
            Item::Comment("foo bar".into(), span(0, 2, 0, 11)),
            Item::Comment("baz".into(), span(1, 0, 1, 5)),
            Item::Comment("qux".into(), span(2, 0, 2, 6)),
            Item::Comment("; quux ;".into(), span(3, 0, 3, 11))
        ],
        Parser::from("  ; foo bar\n; baz\n;; qux\n;; ; quux ;")
            .parse()
            .unwrap()
    )
}

#[test]
fn parse_int_valid() {
    assert_eq!(
        vec![
            Item::Atom(Atom::Integer(0, span(0, 0, 0, 1))),
            Item::Atom(Atom::Integer(5, span(0, 2, 0, 3))),
            Item::Atom(Atom::Integer(-25, span(0, 4, 0, 7))),
        ],
        Parser::from("0 5 -25").parse().unwrap()
    );
}

#[test]
fn parse_int_invalid() {
    assert_eq!(
        Err(Error::IntegerLeadingZero("01".into(), span(0, 0, 0, 2))),
        Parser::from("01").parse()
    );

    assert_eq!(
        Err(Error::IntegerLeadingZero("-0".into(), span(0, 0, 0, 2))),
        Parser::from("-0").parse()
    );
}

#[test]
fn parse_string() {
    assert_eq!(
        vec![Item::Atom(Atom::String(
            r#"foo "bar" baz"#.into(),
            span(0, 0, 0, 16)
        ))],
        Parser::from(r#""foo \"bar\" baz""#).parse().unwrap()
    );

    assert_eq!(
        vec![Item::Atom(Atom::String(
            "foo\nbar".into(),
            span(0, 0, 1, 3)
        ))],
        Parser::from("\"foo\nbar\"").parse().unwrap()
    );
}

#[test]
fn parse_keyword() {
    assert_eq!(
        vec![Item::Atom(Atom::Keyword("foobar".into(), span(0, 0, 0, 7)))],
        Parser::from(":foobar").parse().unwrap()
    );
}

#[test]
fn parse_symbol_valid() {
    assert_eq!(
        vec![Item::Atom(Atom::Symbol(
            "string->int".into(),
            span(0, 0, 0, 11)
        ))],
        Parser::from("string->int").parse().unwrap()
    );

    // "-" by itself is a symbol.
    assert_eq!(
        vec![Item::Atom(Atom::Symbol("-".into(), span(0, 0, 0, 1)))],
        Parser::from("-").parse().unwrap()
    );
}

#[test]
fn parse_symbol_invalid() {
    assert_eq!(
        Err(Error::SymbolParseError("a$b".into(), span(0, 0, 0, 3))),
        Parser::from("a$b").parse()
    );
}

#[test]
fn parse_list_empty() {
    assert_eq!(
        vec![Item::List(vec![], span(0, 0, 0, 2))],
        Parser::from("()").parse().unwrap()
    );
}

#[test]
fn parse_list_balanced() {
    assert_eq!(
        vec![Item::List(
            vec![
                Item::Atom(Atom::Integer(1, span(0, 1, 0, 2))),
                Item::List(
                    vec![
                        Item::Atom(Atom::Integer(2, span(0, 4, 0, 5))),
                        Item::Atom(Atom::Integer(3, span(0, 6, 0, 7))),
                    ],
                    span(0, 3, 0, 8)
                ),
                Item::Atom(Atom::Integer(4, span(0, 9, 0, 10))),
                Item::List(
                    vec![Item::Atom(Atom::String("foo".into(), span(0, 12, 0, 16)))],
                    span(0, 11, 0, 18)
                ),
            ],
            span(0, 0, 0, 19)
        )],
        Parser::from("(1 (2 3) 4 (\"foo\"))").parse().unwrap()
    );
}

#[test]
fn parse_list_unbalanced() {
    assert_eq!(
        Err(Error::UnbalancedParentheses(pos(0, 8))),
        Parser::from("(1 (2) 3").parse()
    );
}

#[test]
fn parse_zero_alone() {
    assert_eq!(
        vec![Item::Atom(Atom::Integer(0, span(0, 0, 0, 1)))],
        Parser::from("0").parse().unwrap()
    );
}

#[test]
fn parse_int_limits() {
    let max = isize::MAX.to_string();
    let min = isize::MIN.to_string();
    assert_eq!(
        vec![Item::Atom(Atom::Integer(isize::MAX, span(0, 0, 0, max.len())))],
        Parser::from(max.as_str()).parse().unwrap()
    );
    assert_eq!(
        vec![Item::Atom(Atom::Integer(isize::MIN, span(0, 0, 0, min.len())))],
        Parser::from(min.as_str()).parse().unwrap()
    );
}

#[test]
fn parse_int_overflow() {
    assert_eq!(
        Err(Error::IntegerParseError(
            "99999999999999999999999999".into(),
            span(0, 0, 0, 26)
        )),
        Parser::from("99999999999999999999999999").parse()
    );
    assert_eq!(
        Err(Error::IntegerParseError(
            "-99999999999999999999999999".into(),
            span(0, 0, 0, 27)
        )),
        Parser::from("-99999999999999999999999999").parse()
    );
}

#[test]
fn parse_int_malformed() {
    assert_eq!(
        Err(Error::IntegerParseError("12a".into(), span(0, 0, 0, 3))),
        Parser::from("12a").parse()
    );
    assert_eq!(
        Err(Error::IntegerParseError("-a".into(), span(0, 0, 0, 2))),
        Parser::from("-a").parse()
    );
    assert_eq!(
        Err(Error::IntegerParseError("--1".into(), span(0, 0, 0, 3))),
        Parser::from("--1").parse()
    );
    assert_eq!(
        Err(Error::IntegerLeadingZero("007".into(), span(1, 1, 1, 4))),
        Parser::from("\n 007").parse()
    );
}

#[test]
fn parse_token_reports_whole_token() {
    // A token runs to the next white space or closing parenthesis, whatever
    // it holds in between.
    assert_eq!(
        Err(Error::SymbolParseError("ab(c\"d".into(), span(0, 1, 0, 7))),
        Parser::from("(ab(c\"d)").parse()
    );
}

#[test]
fn parse_close_paren_at_top_level() {
    assert_eq!(
        Err(Error::UnknownCharacter(b')', pos(0, 2))),
        Parser::from("1 )").parse()
    );
}

#[test]
fn parse_tab_is_unknown() {
    assert_eq!(
        Err(Error::UnknownCharacter(b'\t', pos(1, 0))),
        Parser::from("a\n\tb").parse()
    );
}

#[test]
fn parse_keyword_empty_name() {
    assert_eq!(
        vec![Item::Atom(Atom::Keyword("".into(), span(0, 0, 0, 1)))],
        Parser::from(":").parse().unwrap()
    );
    assert_eq!(
        vec![Item::List(
            vec![Item::Atom(Atom::Keyword("".into(), span(0, 1, 0, 2)))],
            span(0, 0, 0, 3)
        )],
        Parser::from("(:)").parse().unwrap()
    );
}

#[test]
fn parse_keyword_invalid() {
    assert_eq!(
        Err(Error::SymbolParseError("a1".into(), span(0, 1, 0, 3))),
        Parser::from(":a1").parse()
    );
}

#[test]
fn parse_string_unterminated() {
    assert_eq!(
        vec![Item::Atom(Atom::String("foo".into(), span(0, 0, 0, 4)))],
        Parser::from("\"foo").parse().unwrap()
    );
    // A final backslash still stands for a quotation mark.
    assert_eq!(
        vec![Item::Atom(Atom::String("foo\"".into(), span(0, 0, 0, 5)))],
        Parser::from("\"foo\\").parse().unwrap()
    );
}

#[test]
fn parse_string_keeps_other_backslashes() {
    assert_eq!(
        vec![Item::Atom(Atom::String("a\\nb\\\"".into(), span(0, 0, 0, 8)))],
        Parser::from("\"a\\nb\\\\\"\"").parse().unwrap()
    );
}

#[test]
fn parse_string_invalid_utf8() {
    let bytes: &[u8] = &[b'"', b'a', 0xc3, b'"'];
    assert_eq!(
        Err(Error::Utf8Error(span(0, 1, 0, 3))),
        Parser::new(bytes).parse()
    );
}

#[test]
fn parse_comment_invalid_utf8() {
    let bytes: &[u8] = &[b';', 0x80, b'\n', b'a'];
    assert_eq!(
        Err(Error::Utf8Error(span(0, 0, 0, 2))),
        Parser::new(bytes).parse()
    );
}

#[test]
fn parse_comment_unicode_space() {
    assert_eq!(
        vec![Item::Comment("caf\u{e9}".into(), span(0, 0, 0, 13))],
        Parser::from(";\u{a0}\tcaf\u{e9}\u{3000}\r").parse().unwrap()
    );
}

#[test]
fn parse_comment_only_marks() {
    assert_eq!(
        vec![
            Item::Comment("".into(), span(0, 0, 0, 3)),
            Item::Comment(";".into(), span(1, 0, 1, 4)),
            Item::Comment("".into(), span(2, 0, 2, 2)),
        ],
        Parser::from(";;;\n;  ;\n; ").parse().unwrap()
    );
}

#[test]
fn parse_nested_multiline() {
    assert_eq!(
        vec![
            Item::List(
                vec![
                    Item::Atom(Atom::Symbol("def".into(), span(0, 1, 0, 4))),
                    Item::Atom(Atom::Keyword("x".into(), span(1, 2, 1, 4))),
                    Item::Comment("c".into(), span(1, 5, 1, 8)),
                    Item::List(vec![], span(2, 2, 2, 4)),
                ],
                span(0, 0, 2, 5)
            ),
            Item::Atom(Atom::Integer(7, span(3, 0, 3, 1))),
        ],
        Parser::from("(def\n  :x ; c\n  ())\n7").parse().unwrap()
    );
}

#[test]
fn parse_twice_continues() {
    let mut p = Parser::from("a b");
    assert_eq!(2, p.parse().unwrap().len());
    assert!(p.parse().unwrap().is_empty());
}

#[test]
fn recognizers() {
    assert!(Parser::is_whitespace(b' '));
    assert!(Parser::is_whitespace(b'\n'));
    assert!(!Parser::is_whitespace(b'\t'));
    assert!(!Parser::is_whitespace(b'\r'));
    assert!(Parser::is_digit_1_9(b'1'));
    assert!(Parser::is_digit_1_9(b'9'));
    assert!(!Parser::is_digit_1_9(b'0'));
    for ch in b"+-*/%=<>?!azAZ" {
        assert!(Parser::is_symbol(*ch));
    }
    for ch in b"09$_.,:;()\"" {
        assert!(!Parser::is_symbol(*ch));
    }
    assert!(Parser::is_alpha(b'q'));
    assert!(!Parser::is_alpha(b'@'));
    assert!(!Parser::is_alpha(b'['));
    assert!(!Parser::is_alpha(b'`'));
    assert!(!Parser::is_alpha(b'{'));
}

use lithium::ldn::pos::{pos, span};
use lithium::ldn::{Error, Parser};

#[test]
fn position_is_shown_one_based() {
    assert_eq!("1:1", pos(0, 0).to_string());
    assert_eq!("13:101", pos(12, 100).to_string());
}

#[test]
fn span_is_shown_as_start_and_end() {
    assert_eq!("1:1:1:3", span(0, 0, 0, 2).to_string());
    assert_eq!("3:10:10:1", span(2, 9, 9, 0).to_string());
}

#[test]
fn position_at_the_limit() {
    assert_eq!(
        format!("{}:1", usize::MAX as u128 + 1),
        pos(usize::MAX, 0).to_string()
    );
}

#[test]
fn error_messages() {
    assert_eq!(
        "1:1:1:3 found leading zero while parsing integer constant '01'",
        Error::IntegerLeadingZero("01".into(), span(0, 0, 0, 2)).to_string()
    );
    assert_eq!(
        "1:1:1:4 cannot parse '12a' as integer",
        Error::IntegerParseError("12a".into(), span(0, 0, 0, 3)).to_string()
    );
    assert_eq!(
        "1:2 invalid character '13'",
        Error::UnknownCharacter(b'\r', pos(0, 1)).to_string()
    );
    assert_eq!(
        "2:1:2:4 cannot parse 'a$b' as symbol",
        Error::SymbolParseError("a$b".into(), span(1, 0, 1, 3)).to_string()
    );
    assert_eq!(
        "1:9 unbalanced parentheses in list`",
        Error::UnbalancedParentheses(pos(0, 8)).to_string()
    );
    assert_eq!(
        "1:1:1:3 utf-8 decode error",
        Error::Utf8Error(span(0, 0, 0, 2)).to_string()
    );
}

#[test]
fn error_message_of_a_parse() {
    let err = Parser::from("(a\n  b").parse().unwrap_err();
    assert_eq!("2:4 unbalanced parentheses in list`", err.to_string());
}

use lithium::ldn::pos::{pos, span};
use lithium::ldn::tokenizer::Tokenizer;
use lithium::ldn::{Error, Position, Span};

#[test]
fn take_until_empty() {
    let mut t = Tokenizer::from("");
    let s = t.take_until(|_| true).unwrap();

    assert_eq!(("".to_string(), Span::default()), s);
    assert_eq!(&Position::default(), t.pos());
}

#[test]
fn take_until_everything() {
    let mut t = Tokenizer::from("foo bar");
    let s = t.take_until(|_| true).unwrap();

    assert_eq!(("foo bar".to_string(), span(0, 0, 0, 7)), s);
    assert_eq!(&pos(0, 7), t.pos());
}

#[test]
fn take_until_nothing() {
    let mut t = Tokenizer::from("foo bar");
    let s = t.take_until(|_| false).unwrap();

    assert_eq!(("".to_string(), Span::default()), s);
    assert_eq!(&Position::default(), t.pos());
}

#[test]
fn take_until() {
    let mut t = Tokenizer::from("foo bar");

    let s1 = t.take_until(|ch| *ch != b' ').unwrap();
    assert_eq!(("foo".to_string(), span(0, 0, 0, 3)), s1);
    assert_eq!(&pos(0, 3), t.pos());

    assert_eq!(Some(b' '), t.next_ch());
    assert_eq!(&pos(0, 4), t.pos());

    let s2 = t.take_until(|ch| *ch != b' ').unwrap();
    assert_eq!(("bar".to_string(), span(0, 4, 0, 7)), s2);
    assert_eq!(&pos(0, 7), t.pos());

    assert_eq!(None, t.next_ch());
    assert_eq!(&pos(0, 7), t.pos());
}

#[test]
fn peek_ch_empty() {
    let mut t = Tokenizer::from("");

    assert_eq!(None, t.peek_ch());
    assert_eq!(&Position::default(), t.pos());
    assert_eq!(None, t.next_ch());
    assert_eq!(&Position::default(), t.pos());
}

#[test]
fn peek_ch() {
    let mut t = Tokenizer::from("foo");

    assert_eq!(Some(&b'f'), t.peek_ch());
    assert_eq!(&Position::default(), t.pos());
    // Repeated peeks always return the previous peek and pos
    assert_eq!(Some(&b'f'), t.peek_ch());
    assert_eq!(&Position::default(), t.pos());
    // Advance
    assert_eq!(Some(b'f'), t.next_ch());
    assert_eq!(Some(b'o'), t.next_ch());
    assert_eq!(&pos(0, 2), t.pos());
    // Peek again
    assert_eq!(Some(&b'o'), t.peek_ch());
    assert_eq!(&pos(0, 2), t.pos());
    // Advance again
    assert_eq!(Some(b'o'), t.next_ch());
    assert_eq!(&pos(0, 3), t.pos());
    // End
    assert_eq!(None, t.next_ch());
    assert_eq!(&pos(0, 3), t.pos());
}

#[test]
fn next_ch_empty() {
    let mut t = Tokenizer::from("");

    assert_eq!(None, t.next_ch());
    assert_eq!(&Position::default(), t.pos());
}

#[test]
fn next_ch() {
    let mut t = Tokenizer::from("foo");

    assert_eq!(Some(b'f'), t.next_ch());
    assert_eq!(Some(b'o'), t.next_ch());
    assert_eq!(Some(b'o'), t.next_ch());
    assert_eq!(None, t.next_ch());
    assert_eq!(&pos(0, 3), t.pos());
}

#[test]
fn peek_at_end_keeps_position() {
    let mut t = Tokenizer::from("a\n");

    assert_eq!(Some(b'a'), t.next_ch());
    assert_eq!(Some(b'\n'), t.next_ch());
    assert_eq!(None, t.peek_ch());
    assert_eq!(&pos(1, 0), t.pos());
    assert_eq!(None, t.peek_ch());
    assert_eq!(&pos(1, 0), t.pos());
}

#[test]
fn take_until_across_lines() {
    let mut t = Tokenizer::from("ab\ncd e");
    let s = t.take_until(|ch| *ch != b' ').unwrap();

    assert_eq!(("ab\ncd".to_string(), span(0, 0, 1, 2)), s);
    assert_eq!(&pos(1, 2), t.pos());
}

#[test]
fn take_until_decodes_utf8() {
    let mut t = Tokenizer::from("h\u{e9}llo \u{4e16}");
    let s = t.take_until(|ch| *ch != b' ').unwrap();

    // Columns count bytes: the accented letter takes two.
    assert_eq!(("h\u{e9}llo".to_string(), span(0, 0, 0, 6)), s);
}

#[test]
fn take_until_invalid_utf8() {
    let bytes: &[u8] = &[b'a', 0xff, b'b', b' ', b'c'];
    let mut t = Tokenizer::new(lithium::ldn::iter::PositionIterator::new(bytes));
    let s = t.take_until(|ch| *ch != b' ');

    assert_eq!(Err(Error::Utf8Error(span(0, 0, 0, 3))), s);
    // The bytes are consumed all the same.
    assert_eq!(&pos(0, 3), t.pos());
    assert_eq!(Some(b' '), t.next_ch());
}

#[test]
fn take_until_split_character() {
    // The predicate stops inside a two-byte character: the run is cut short
    // and is no valid text.
    let bytes = "\u{e9}".as_bytes();
    let mut t = Tokenizer::new(lithium::ldn::iter::PositionIterator::new(bytes));
    let s = t.take_until(|ch| *ch != 0xa9);

    assert_eq!(Err(Error::Utf8Error(span(0, 0, 0, 1))), s);
}

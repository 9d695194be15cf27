use lithium::ldn::pos::span;
use lithium::ldn::{fmt, Atom, Item, Parser};

fn reformat(source: &str) -> String {
    fmt(&Parser::from(source).parse().unwrap())
}

#[test]
fn fmt_empty_document() {
    assert_eq!("\n", fmt(&[]));
}

#[test]
fn fmt_atoms() {
    assert_eq!(
        "12\n\n-7\n\n:key\n\n\"text\"\n\nsym\n",
        reformat("12 -7 :key \"text\" sym")
    );
}

#[test]
fn fmt_top_level_forces_blank_line() {
    assert_eq!("a\n\nb\n\nc\n", reformat("a b\nc"));
    assert_eq!("a\n\nb\n", reformat("a\n\n\n\n\nb"));
}

#[test]
fn fmt_top_level_comments_keep_lines() {
    assert_eq!("; one\n; two\na\n", reformat(";one\n;;two\na"));
    assert_eq!("; one\n\n; two\n\na ; three\n", reformat("; one\n\n\n\n; two\n\na ;three"));
}

#[test]
fn fmt_nested_same_line() {
    assert_eq!("(a b (c d) ())\n", reformat("(a   b (c    d) (   ))"));
}

#[test]
fn fmt_nested_indents() {
    assert_eq!(
        "(def f\n    (x y)\n    (+ x\n        y))\n",
        reformat("(def f\n  (x y)\n\n\n  (+ x\n y))")
    );
}

#[test]
fn fmt_nested_comment() {
    assert_eq!(
        "(a ; note\n    b)\n",
        reformat("(a ; note\nb)")
    );
}

#[test]
fn fmt_integers_in_decimal() {
    let items = vec![
        Item::Atom(Atom::Integer(0, span(0, 0, 0, 0))),
        Item::Atom(Atom::Integer(isize::MAX, span(0, 0, 0, 0))),
        Item::Atom(Atom::Integer(isize::MIN, span(0, 0, 0, 0))),
        Item::Atom(Atom::Integer(-1, span(0, 0, 0, 0))),
        Item::Atom(Atom::Integer(1000, span(0, 0, 0, 0))),
    ];
    assert_eq!(
        format!("0\n\n{}\n\n{}\n\n-1\n\n1000\n", isize::MAX, isize::MIN),
        fmt(&items)
    );
}

#[test]
fn fmt_string_is_not_escaped_again() {
    assert_eq!("\"a \"b\" c\"\n", reformat("\"a \\\"b\\\" c\""));
}

#[test]
fn fmt_looks_at_source_lines_only() {
    // Same items, same shape of text, other lines in the spans.
    let same_line = vec![Item::List(
        vec![
            Item::Atom(Atom::Symbol("a".into(), span(3, 0, 3, 1))),
            Item::Atom(Atom::Symbol("b".into(), span(3, 9, 3, 10))),
        ],
        span(3, 0, 3, 11),
    )];
    let two_lines = vec![Item::List(
        vec![
            Item::Atom(Atom::Symbol("a".into(), span(3, 0, 3, 1))),
            Item::Atom(Atom::Symbol("b".into(), span(9, 0, 9, 1))),
        ],
        span(3, 0, 9, 2),
    )];
    assert_eq!("(a b)\n", fmt(&same_line));
    assert_eq!("(a\n    b)\n", fmt(&two_lines));
}

#[test]
fn fmt_earlier_line_gets_no_separator() {
    let items = vec![
        Item::Comment("x".into(), span(5, 0, 5, 3)),
        Item::Comment("y".into(), span(2, 0, 2, 3)),
    ];
    assert_eq!("; x; y\n", fmt(&items));
}

#[test]
fn fmt_round_trip() {
    let source = "; header\n\n(def pi 3)\n(def (area r) ; circle\n  (* pi (* r r))\n  :done \"ok\")\n-12";
    let tree = Parser::from(source).parse().unwrap();
    let text = fmt(&tree);
    assert_eq!(
        "; header\n\n(def pi 3)\n\n(def (area r) ; circle\n    (* pi (* r r))\n    :done \"ok\")\n\n-12\n",
        text
    );
    let again = Parser::from(text.as_str()).parse().unwrap();
    assert_eq!(text, fmt(&again));
    assert_eq!(tree.len(), again.len());
}

#[test]
fn print_plain() {
    let tree = Parser::from("; note\n(a   (b\n 1) \"s\")\n:k").parse().unwrap();
    assert_eq!("note\n\n\n(a (b 1) \"s\")\n\n:k", lithium::ldn::print(&tree));
    assert_eq!("", lithium::ldn::print(&[]));
}

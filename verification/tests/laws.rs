use lithium::ldn::iter::PositionIterator;
use lithium::ldn::{fmt, Atom, Item, Parser};

/// Two trees are equal but for their spans.
fn same_content(a: &[Item], b: &[Item]) -> bool {
    a.len() == b.len()
        && a.iter().zip(b.iter()).all(|pair| match pair {
            (Item::Atom(Atom::Integer(x, _)), Item::Atom(Atom::Integer(y, _))) => x == y,
            (Item::Atom(Atom::Keyword(x, _)), Item::Atom(Atom::Keyword(y, _))) => x == y,
            (Item::Atom(Atom::String(x, _)), Item::Atom(Atom::String(y, _))) => x == y,
            (Item::Atom(Atom::Symbol(x, _)), Item::Atom(Atom::Symbol(y, _))) => x == y,
            (Item::Comment(x, _), Item::Comment(y, _)) => x == y,
            (Item::List(x, _), Item::List(y, _)) => same_content(x, y),
            _ => false,
        })
}

const SOURCES: [&str; 8] = [
    "",
    "0 -1 9223372036854775807 -9223372036854775808",
    "- a-b :k : (:) ()",
    "\"two\nlines\" \"back\\slash\" \"\u{e9}\u{4e16}\" \"\"",
    ";;; heading  \n\n\n(def x ; why\n     1)\n; tail",
    "(a (b (c (d\n e)\n f)\n g) h)",
    "(\"x\ny\" z)\n(p\n\n\n q)",
    "a ; one\n; two\n\n\n\n; three\nb",
];

#[test]
fn round_trip_keeps_content() {
    for source in SOURCES.iter() {
        let tree = Parser::from(*source).parse().unwrap();
        let text = fmt(&tree);
        let again = Parser::from(text.as_str()).parse().unwrap();
        assert!(same_content(&tree, &again), "{:?} became {:?}", source, text);
    }
}

#[test]
fn formatting_is_idempotent() {
    for source in SOURCES.iter() {
        let tree = Parser::from(*source).parse().unwrap();
        let text = fmt(&tree);
        let again = Parser::from(text.as_str()).parse().unwrap();
        assert_eq!(text, fmt(&again), "from {:?}", source);
    }
}

#[test]
fn round_trip_fails_on_quotation_mark_in_string() {
    let tree = Parser::from("\"a\\\"b\"").parse().unwrap();
    assert_eq!("\"a\"b\"\n", fmt(&tree));
    assert!(Parser::from("\"a\"b\"\n").parse().is_err());
}

#[test]
fn round_trip_fails_on_list_that_ends_with_comment() {
    let tree = Parser::from("(a ; c\n)").parse().unwrap();
    assert_eq!("(a ; c)\n", fmt(&tree));
    assert!(Parser::from("(a ; c)\n").parse().is_err());
}

#[test]
fn idempotence_fails_on_comment_below_first_line_of_tall_item() {
    let tree = Parser::from("(a\nb) ; c").parse().unwrap();
    let text = fmt(&tree);
    assert_eq!("(a\n    b)\n; c\n", text);
    let again = Parser::from(text.as_str()).parse().unwrap();
    assert!(same_content(&tree, &again));
    assert_eq!("(a\n    b)\n\n; c\n", fmt(&again));
}

#[test]
fn positions_never_go_back() {
    let mut p = PositionIterator::from("ab\n\ncd\ne");
    let mut line = 0;
    let mut column = 0;
    loop {
        let before = *p.pos();
        assert!(before.line > line || (before.line == line && before.column >= column));
        line = before.line;
        column = before.column;
        match p.next() {
            Some(b'\n') => {
                assert_eq!(before.line + 1, p.pos().line);
                assert_eq!(0, p.pos().column);
            }
            Some(_) => {
                assert_eq!(before.line, p.pos().line);
                assert_eq!(before.column + 1, p.pos().column);
            }
            None => {
                assert_eq!(before, *p.pos());
                break;
            }
        }
    }
    assert_eq!(3, line);
    assert_eq!(1, column);
}

/// Whether the formatter's text for the items can stand for them: no string
/// holds a quotation mark and no list ends with a comment.
fn legible(items: &[Item]) -> bool {
    items.iter().all(|item| match item {
        Item::Atom(Atom::String(value, _)) => !value.contains('"'),
        Item::List(children, _) => {
            legible(children) && !children.last().map_or(false, |last| last.is_comment())
        }
        _ => true,
    })
}

/// Whether no top-level comment starts on the line after the first line of
/// an item that takes several lines.
fn settled(items: &[Item]) -> bool {
    items.windows(2).all(|pair| {
        let tall = fmt(&pair[..1]).trim_end_matches('\n').contains('\n');
        !(pair[1].is_comment()
            && pair[1].span().start.line == pair[0].span().start.line + 1
            && tall)
    })
}

/// A small deterministic generator of documents, valid or not.
struct Source(u64);

impl Source {
    fn next(&mut self) -> u64 {
        self.0 = self
            .0
            .wrapping_mul(6364136223846793005)
            .wrapping_add(1442695040888963407);
        self.0 >> 33
    }

    fn document(&mut self) -> String {
        const PIECES: [&str; 18] = [
            "(", ")", " ", " ", "\n", "\n", "a", "bc", "-", "12", "-7", ":k", ";c", "; d e",
            "\"s\"", "\"t\nu\"", "\"q\\\"r\"", "\u{e9}",
        ];
        let length = self.next() % 24;
        let mut text = String::new();
        let mut depth = 0;
        for _ in 0..length {
            let piece = PIECES[(self.next() % PIECES.len() as u64) as usize];
            match piece {
                "(" => depth += 1,
                ")" if depth == 0 => continue,
                ")" => depth -= 1,
                _ => {}
            }
            text.push_str(piece);
            if self.next() % 3 == 0 {
                text.push(' ');
            }
        }
        for _ in 0..depth {
            if self.next() % 4 == 0 {
                text.push('\n');
            }
            text.push(')');
        }
        text
    }
}

#[test]
fn laws_hold_on_generated_documents() {
    let mut source = Source(2018);
    let mut parsed = 0;
    let mut round_trips = 0;
    let mut idempotent = 0;
    for _ in 0..4000 {
        let text = source.document();
        let tree = match Parser::from(text.as_str()).parse() {
            Ok(tree) => tree,
            Err(_) => continue,
        };
        parsed += 1;
        let written = fmt(&tree);
        if !legible(&tree) {
            continue;
        }
        let again = Parser::from(written.as_str())
            .parse()
            .unwrap_or_else(|e| panic!("{:?} became {:?}: {:?}", text, written, e));
        assert!(same_content(&tree, &again), "{:?} became {:?}", text, written);
        round_trips += 1;
        if settled(&tree) {
            assert_eq!(written, fmt(&again), "from {:?}", text);
            idempotent += 1;
        } else {
            assert_ne!(written, fmt(&again), "from {:?}", text);
        }
    }
    assert!(parsed > 1000, "{}", parsed);
    assert!(round_trips > 500, "{}", round_trips);
    assert!(idempotent > 400, "{}", idempotent);
}

#[test]
fn illegible_documents_do_not_round_trip() {
    let mut source = Source(7);
    let mut seen = 0;
    for _ in 0..4000 {
        let text = source.document();
        let tree = match Parser::from(text.as_str()).parse() {
            Ok(tree) => tree,
            Err(_) => continue,
        };
        if legible(&tree) {
            continue;
        }
        seen += 1;
        let written = fmt(&tree);
        match Parser::from(written.as_str()).parse() {
            Ok(again) => assert!(!same_content(&tree, &again), "{:?}", text),
            Err(_) => {}
        }
    }
    assert!(seen > 100, "{}", seen);
}

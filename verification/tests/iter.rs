use lithium::ldn::iter::PositionIterator;

fn drain(p: &mut PositionIterator) {
    while p.next().is_some() {}
}

#[test]
fn empty() {
    let mut p = PositionIterator::from("");
    drain(&mut p);

    assert_eq!(0, p.pos().line);
    assert_eq!(0, p.pos().column);
}

#[test]
fn one() {
    let mut p = PositionIterator::from("foo");
    drain(&mut p);

    assert_eq!(0, p.pos().line);
    assert_eq!(3, p.pos().column);
}

#[test]
fn trailing_newline() {
    let mut p = PositionIterator::from("foo\n");
    drain(&mut p);

    assert_eq!(1, p.pos().line);
    assert_eq!(0, p.pos().column);
}

#[test]
fn two_lines() {
    let mut p = PositionIterator::from("foo\nbar");
    drain(&mut p);

    assert_eq!(1, p.pos().line);
    assert_eq!(3, p.pos().column);
}

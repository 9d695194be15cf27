use lithium::languageserver::server::{diagnostic, Severity, Workspace};
use lithium::languageserver::stdio_transport::{read_request, write_response, Event, Next};
use lithium::ldn::pos::{pos, span};
use lithium::ldn::Error;

#[test]
fn diagnostic_for_each_error() {
    let d = diagnostic(&Error::IntegerLeadingZero("01".into(), span(0, 0, 0, 2)));
    assert_eq!("Found leading zero while parsing integer constant", d.message);
    assert_eq!(span(0, 0, 0, 2), d.range);
    assert_eq!(Severity::Error, d.severity);

    let d = diagnostic(&Error::IntegerParseError("1x".into(), span(1, 2, 1, 4)));
    assert_eq!("Invalid integer constant", d.message);
    assert_eq!(span(1, 2, 1, 4), d.range);
    assert_eq!(Severity::Error, d.severity);

    let d = diagnostic(&Error::UnknownCharacter(b'\r', pos(0, 1)));
    assert_eq!("Invalid character", d.message);
    assert_eq!(span(0, 1, 0, 1), d.range);
    assert_eq!(Severity::Error, d.severity);

    let d = diagnostic(&Error::SymbolParseError("a$".into(), span(3, 0, 3, 2)));
    assert_eq!("Symbol parse error", d.message);
    assert_eq!(span(3, 0, 3, 2), d.range);

    let d = diagnostic(&Error::UnbalancedParentheses(pos(7, 8)));
    assert_eq!("Unbalanced parentheses", d.message);
    assert_eq!(span(7, 8, 7, 8), d.range);

    let d = diagnostic(&Error::Utf8Error(span(0, 0, 2, 2)));
    assert_eq!("UTF-8 decode error", d.message);
    assert_eq!(span(0, 0, 2, 2), d.range);
}

#[test]
fn workspace_open_and_format() {
    let mut w = Workspace::new();
    assert_eq!(None, w.format("file:///a"));

    assert!(w.update("file:///a".to_string(), "(a   b)").is_empty());
    assert_eq!(Some("(a b)\n".to_string()), w.format("file:///a"));
    assert_eq!(None, w.format("file:///b"));
}

#[test]
fn workspace_change_replaces() {
    let mut w = Workspace::new();
    assert!(w.update("file:///a".to_string(), "1").is_empty());
    assert!(w.update("file:///b".to_string(), "2").is_empty());
    assert!(w.update("file:///a".to_string(), "3 4").is_empty());

    assert_eq!(Some("3\n\n4\n".to_string()), w.format("file:///a"));
    assert_eq!(Some("2\n".to_string()), w.format("file:///b"));
}

#[test]
fn workspace_error_removes_and_reports() {
    let mut w = Workspace::new();
    assert!(w.update("file:///a".to_string(), "1").is_empty());
    assert!(w.update("file:///b".to_string(), "2").is_empty());

    let report = w.update("file:///a".to_string(), "(1");
    assert_eq!(1, report.len());
    assert_eq!("Unbalanced parentheses", report[0].message);
    assert_eq!(span(0, 2, 0, 2), report[0].range);
    assert_eq!(Severity::Error, report[0].severity);

    assert_eq!(None, w.format("file:///a"));
    assert_eq!(Some("2\n".to_string()), w.format("file:///b"));
}

#[test]
fn workspace_close() {
    let mut w = Workspace::new();
    assert!(w.update("file:///a".to_string(), "1").is_empty());
    assert!(w.update("file:///b".to_string(), "2").is_empty());
    w.close("file:///a");
    w.close("file:///none");

    assert_eq!(None, w.format("file:///a"));
    assert_eq!(Some("2\n".to_string()), w.format("file:///b"));
}

#[test]
fn header_lines() {
    assert_eq!(
        Next::ReadLine(42),
        read_request(0, Event::Line("Content-Length: 42\r\n"))
    );
    assert_eq!(
        Next::ReadLine(7),
        read_request(42, Event::Line("  Content-Length:+7  \n"))
    );
    assert_eq!(
        Next::ReadLine(42),
        read_request(42, Event::Line("Content-Type: application/json\r\n"))
    );
    // The name may stand anywhere in the line, and only the first colon
    // counts.
    assert_eq!(
        Next::ReadLine(9),
        read_request(0, Event::Line("X-Content-Length-Hint:\u{a0}9\r\n"))
    );
    assert_eq!(
        Next::ReadLine(0),
        read_request(5, Event::Line("Content-Length: 1:2\r\n"))
    );
}

#[test]
fn header_length_that_is_no_number() {
    assert_eq!(
        Next::ReadLine(0),
        read_request(5, Event::Line("Content-Length: many\r\n"))
    );
    assert_eq!(
        Next::ReadLine(0),
        read_request(5, Event::Line("Content-Length: -3\r\n"))
    );
    assert_eq!(
        Next::ReadLine(0),
        read_request(5, Event::Line("Content-Length:\r\n"))
    );
    assert_eq!(
        Next::ReadLine(0),
        read_request(
            5,
            Event::Line("Content-Length: 99999999999999999999999999999999999999999\r\n")
        )
    );
    assert_eq!(
        Next::ReadLine(usize::MAX),
        read_request(
            5,
            Event::Line(format!("Content-Length: {}\r\n", usize::MAX).as_str())
        )
    );
}

#[test]
fn header_without_colon_is_invalid() {
    assert_eq!(Next::Invalid, read_request(0, Event::Line("Content-Length 42\r\n")));
    assert_eq!(Next::Invalid, read_request(9, Event::Line("nonsense\n")));
}

#[test]
fn blank_line_ends_headers() {
    assert_eq!(Next::ReadBody(42), read_request(42, Event::Line("\r\n")));
    assert_eq!(Next::ReadBody(1), read_request(1, Event::Line("")));
    assert_eq!(Next::Invalid, read_request(0, Event::Line("\r\n")));
    assert_eq!(Next::Invalid, read_request(0, Event::Line("   ")));
}

#[test]
fn body_must_be_utf8() {
    assert_eq!(
        Next::Done("{\"a\":\"\u{e9}\"}".to_string()),
        read_request(10, Event::Body("{\"a\":\"\u{e9}\"}".as_bytes().to_vec()))
    );
    assert_eq!(Next::Invalid, read_request(2, Event::Body(vec![b'a', 0xff])));
}

#[test]
fn whole_request() {
    let lines = ["Content-Type: x\r\n", "Content-Length: 2\r\n", "\r\n"];
    let mut length = 0;
    let mut body = None;
    for line in lines.iter() {
        match read_request(length, Event::Line(line)) {
            Next::ReadLine(n) => length = n,
            Next::ReadBody(n) => body = Some(n),
            other => panic!("unexpected {:?}", other),
        }
    }
    assert_eq!(Some(2), body);
    assert_eq!(
        Next::Done("{}".to_string()),
        read_request(length, Event::Body(b"{}".to_vec()))
    );
}

#[test]
fn response_frame() {
    assert_eq!("Content-Length: 5\r\n\r\nhello", write_response("hello"));
    assert_eq!("Content-Length: 0\r\n\r\n", write_response(""));
    // The length counts bytes, not characters.
    assert_eq!("Content-Length: 6\r\n\r\nh\u{e9}llo", write_response("h\u{e9}llo"));
}

//! How requests and responses are framed on a byte stream: header lines, a
//! blank line, then as many bytes of content as the `Content-Length` header
//! announced.
//!
//! Nothing here reads or writes. `read_request` says, for each thing that
//! was read, what is to be read next; `write_response` gives the text that is
//! to be written.

use vstd::prelude::*;
use vstd::string::{StrSliceExecFns, StringExecFns};
use vstd::utf8::{valid_utf8, decode_utf8, encode_utf8};
use super::super::ldn::text::{
    contains_text,
    decimal,
    find_char,
    format_natural,
    natural_value,
    parse_natural,
    string_from_utf8,
    text_contains,
    trim,
    trim_text,
};

verus! {

/// What was read last while a request is being received.
pub enum Event<'a> {
    /// A header line, with or without its line ending; empty at the end of
    /// the stream.
    Line(&'a str),
    /// The bytes of the content.
    Body(Vec<u8>),
}

/// What to do next while a request is being received.
#[derive(Debug, PartialEq)]
pub enum Next {
    /// Read another header line; the content length known so far is given.
    ReadLine(usize),
    /// Read exactly this many bytes of content.
    ReadBody(usize),
    /// The request is complete: this is its text.
    Done(String),
    /// What was read is no request.
    Invalid,
}

/// The content length that a `Content-Length` header line announces: what
/// follows its first colon, without the white space around it, read as a
/// number; 0 if that is no number that fits.
pub open spec fn announced_length(header: Seq<char>) -> nat {
    let colon = choose|i: int|
        0 <= i < header.len() && header[i] == ':' && forall|k: int|
            0 <= k < i ==> header[k] != ':';
    let value = trim(header.subrange(colon + 1, header.len() as int));
    match natural_value(encode_utf8(value)) {
        Some(n) => n,
        None => 0,
    }
}

/// What follows a header line, given the content length known before it.
/// The line counts without the white space at its ends. An empty line ends
/// the headers: the content follows, unless its length is still 0, which is
/// invalid. Any other line must hold a colon. A line that holds
/// `Content-Length` anywhere sets the content length; any other header is
/// passed over.
pub open spec fn after_line(line: Seq<char>, content_length: usize) -> Next {
    let header = trim(line);
    if header.len() == 0 {
        if content_length == 0 {
            Next::Invalid
        } else {
            Next::ReadBody(content_length)
        }
    } else if !header.contains(':') {
        Next::Invalid
    } else if !contains_text(header, "Content-Length"@) {
        Next::ReadLine(content_length)
    } else {
        Next::ReadLine(announced_length(header) as usize)
    }
}

/// Says what to do next while a request is being received, given the
/// content length known so far (0 at the start) and what was read last.
///
/// After a header line, see `after_line`. After the content, the request is
/// complete if the content is valid UTF-8, and invalid if not.
pub fn read_request(content_length: usize, event: Event) -> (next: Next)
    ensures
        match event {
            Event::Line(line) => next == after_line(line@, content_length),
            Event::Body(bytes) => match next {
                Next::Done(text) => valid_utf8(bytes@) && text@ == decode_utf8(bytes@),
                Next::Invalid => !valid_utf8(bytes@),
                _ => false,
            }},
{
    match event {
        Event::Line(line) => {
            let header = trim_text(line);
            if header.unicode_len() == 0 {
                if content_length == 0 {
                    return Next::Invalid;
                }
                return Next::ReadBody(content_length);
            }
            let colon = match find_char(header, ':') {
                Some(i) => i,
                None => {
                    return Next::Invalid;
                },
            };
            assert(header@.contains(':'));
            if !text_contains(header, "Content-Length") {
                return Next::ReadLine(content_length);
            }
            let n = header.unicode_len();
            let value = trim_text(header.substring_char(colon + 1, n));
            match parse_natural(value.as_bytes()) {
                Some(length) => Next::ReadLine(length),
                None => Next::ReadLine(0),
            }
        },
        Event::Body(bytes) => match string_from_utf8(bytes) {
            Some(text) => Next::Done(text),
            None => Next::Invalid,
        }}
}

/// The frame of a response: the header that announces how many bytes the
/// content takes, a blank line, and the content.
pub open spec fn response_frame(data: Seq<char>) -> Seq<char> {
    "Content-Length: "@ + decimal(encode_utf8(data).len()) + "\r\n\r\n"@ + data
}

/// Frames a response for the byte stream.
pub fn write_response(data: &str) -> (frame: String)
    ensures
        frame@ == response_frame(data@),
{
    let mut frame = String::from_str("Content-Length: ");
    frame.append(format_natural(data.as_bytes().len() as u128).as_str());
    frame.append("\r\n\r\n");
    frame.append(data);
    assert(frame@ =~= response_frame(data@));
    frame
}

} // verus!

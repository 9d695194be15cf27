//! Zero-based positions and spans in a text document.

use vstd::prelude::*;
use vstd::string::StringExecFns;
use super::text::{decimal, format_natural};

verus! {

/// Position in a text document expressed as zero-based line and column offsets.
#[derive(Clone, Copy, Debug, PartialEq, Eq, Structural)]
pub struct Position {
    pub line: usize,
    pub column: usize,
}

impl Position {
    /// Creates a new position with the given zero-based line and column offsets.
    pub fn new(line: usize, column: usize) -> (p: Self)
        ensures
            p == (Position { line, column }),
    {
        Position { line, column }
    }

    /// Renders the position for people, who count lines and columns from one:
    /// `line + 1`, a colon, `column + 1`.
    pub fn to_string(&self) -> (text: String)
        ensures
            text@ == position_text(*self),
    {
        proof {
            reveal_strlit(":");
        }
        let mut text = format_natural(self.line as u128 + 1);
        text.append(":");
        text.append(format_natural(self.column as u128 + 1).as_str());
        text
    }
}

/// How a position is shown: one-based line and column with a colon between.
pub open spec fn position_text(p: Position) -> Seq<char> {
    decimal((p.line + 1) as nat) + seq![':'] + decimal((p.column + 1) as nat)
}

/// How a span is shown: its start and its end with a colon between.
pub open spec fn span_text(s: Span) -> Seq<char> {
    position_text(s.start) + seq![':'] + position_text(s.end)
}

impl Default for Position {
    fn default() -> (p: Self)
        ensures
            p == (Position { line: 0, column: 0 }),
    {
        Position { line: 0, column: 0 }
    }
}

/// Convenience function to create a position from raw offsets.
pub fn pos(line: usize, column: usize) -> (p: Position)
    ensures
        p == (Position { line, column }),
{
    Position::new(line, column)
}

/// A span in a text document expressed as zero-based start and end positions.
#[derive(Clone, Copy, Debug, PartialEq, Eq, Structural)]
pub struct Span {
    pub start: Position,
    pub end: Position,
}

impl Span {
    /// Creates a new span from the given zero-based start and end positions.
    pub fn new(start: Position, end: Position) -> (s: Self)
        ensures
            s == (Span { start, end }),
    {
        Span { start, end }
    }

    /// Creates a new span from raw start/end lines and columns.
    pub fn from_parts(
        start_line: usize,
        start_column: usize,
        end_line: usize,
        end_column: usize,
    ) -> (s: Self)
        ensures
            s == (Span {
                start: Position { line: start_line, column: start_column },
                end: Position { line: end_line, column: end_column },
            }),
    {
        Span {
            start: Position::new(start_line, start_column),
            end: Position::new(end_line, end_column),
        }
    }

    /// Renders the span for people: start and end, each as a one-based
    /// position, with a colon between.
    pub fn to_string(&self) -> (text: String)
        ensures
            text@ == span_text(*self),
    {
        proof {
            reveal_strlit(":");
        }
        let mut text = self.start.to_string();
        text.append(":");
        text.append(self.end.to_string().as_str());
        text
    }
}

impl Default for Span {
    fn default() -> (s: Self)
        ensures
            s == (Span {
                start: Position { line: 0, column: 0 },
                end: Position { line: 0, column: 0 },
            }),
    {
        Span { start: Position::default(), end: Position::default() }
    }
}

/// Convenience function to create a `Span` from raw offsets.
pub fn span(start_line: usize, start_column: usize, end_line: usize, end_column: usize) -> (s: Span)
    ensures
        s == (Span {
            start: Position { line: start_line, column: start_column },
            end: Position { line: end_line, column: end_column },
        }),
{
    Span::from_parts(start_line, start_column, end_line, end_column)
}

/// The byte of a line feed, which ends a line.
pub const LINE_FEED: u8 = 0x0a;

/// Number of line feeds among the first `i` bytes of `input`: the zero-based
/// line of the byte at offset `i`.
pub open spec fn line_at(input: Seq<u8>, i: int) -> nat
    decreases i,
{
    if i <= 0 || i > input.len() {
        0
    } else if input[i - 1] == LINE_FEED {
        line_at(input, i - 1) + 1
    } else {
        line_at(input, i - 1)
    }
}

/// Number of bytes between the last line feed before offset `i` and offset
/// `i`: the zero-based column of the byte at offset `i`.
pub open spec fn column_at(input: Seq<u8>, i: int) -> nat
    decreases i,
{
    if i <= 0 || i > input.len() {
        0
    } else if input[i - 1] == LINE_FEED {
        0
    } else {
        column_at(input, i - 1) + 1
    }
}

/// The position of the byte at offset `i` of `input`, which is also the
/// position reached after consuming the first `i` bytes.
pub open spec fn position_at(input: Seq<u8>, i: int) -> Position {
    Position { line: line_at(input, i) as usize, column: column_at(input, i) as usize }
}

/// The span between the offsets `i` and `j` of `input`.
pub open spec fn span_at(input: Seq<u8>, i: int, j: int) -> Span {
    Span { start: position_at(input, i), end: position_at(input, j) }
}

/// Line and column never count more bytes than were consumed, so both fit
/// in a `usize` whenever the input does.
pub proof fn lemma_position_bounds(input: Seq<u8>, i: int)
    requires
        0 <= i <= input.len(),
    ensures
        line_at(input, i) + column_at(input, i) <= i,
    decreases i,
{
    if i > 0 {
        lemma_position_bounds(input, i - 1);
    }
}

/// Consuming bytes never moves the position backwards: the line never
/// decreases, on an unchanged line the column never decreases, and the byte
/// after a line feed is always at column 0 of the next line.
pub proof fn lemma_position_monotonic(input: Seq<u8>, i: int, j: int)
    requires
        0 <= i <= j <= input.len(),
    ensures
        line_at(input, i) <= line_at(input, j),
        line_at(input, i) == line_at(input, j) ==> column_at(input, j) == column_at(input, i) + (j
            - i),
        0 < j && input[j - 1] == LINE_FEED ==> column_at(input, j) == 0 && line_at(input, j)
            == line_at(input, j - 1) + 1,
    decreases j - i,
{
    if i < j {
        lemma_position_monotonic(input, i, j - 1);
    }
}

} // verus!

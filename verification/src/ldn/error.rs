//! The closed set of ways in which parsing can fail.

use vstd::prelude::*;
use vstd::string::StringExecFns;
use super::pos::{Position, Span, position_text, span_text};
use super::text::{decimal, format_natural};

verus! {

/// The error type for parsing operations.
#[derive(Debug, PartialEq)]
pub enum Error {
    /// A numeric token has a disallowed leading zero.
    IntegerLeadingZero(String, Span),
    /// A token looked numeric but is no integer that fits.
    IntegerParseError(String, Span),
    /// A byte that cannot start any item.
    UnknownCharacter(u8, Position),
    /// A token holds a byte that cannot be part of a symbol.
    SymbolParseError(String, Span),
    /// A list was opened but the input ended before it was closed.
    UnbalancedParentheses(Position),
    /// A run of consumed bytes is not valid UTF-8.
    Utf8Error(Span),
}

/// What an `Error` stands for, with token texts as sequences of characters.
pub enum ErrorView {
    IntegerLeadingZero(Seq<char>, Span),
    IntegerParseError(Seq<char>, Span),
    UnknownCharacter(u8, Position),
    SymbolParseError(Seq<char>, Span),
    UnbalancedParentheses(Position),
    Utf8Error(Span),
}

impl View for Error {
    type V = ErrorView;

    open spec fn view(&self) -> ErrorView {
        match self {
            Error::IntegerLeadingZero(token, span) => ErrorView::IntegerLeadingZero(token@, *span),
            Error::IntegerParseError(token, span) => ErrorView::IntegerParseError(token@, *span),
            Error::UnknownCharacter(ch, pos) => ErrorView::UnknownCharacter(*ch, *pos),
            Error::SymbolParseError(token, span) => ErrorView::SymbolParseError(token@, *span),
            Error::UnbalancedParentheses(pos) => ErrorView::UnbalancedParentheses(*pos),
            Error::Utf8Error(span) => ErrorView::Utf8Error(*span),
        }
    }
}

/// The message of an error: where it is, then what is wrong, with the
/// offending token or the number of the offending byte between quotes.
pub open spec fn error_text(e: ErrorView) -> Seq<char> {
    match e {
        ErrorView::IntegerLeadingZero(token, span) => span_text(span)
            + " found leading zero while parsing integer constant '"@ + token + "'"@,
        ErrorView::IntegerParseError(token, span) => span_text(span) + " cannot parse '"@ + token
            + "' as integer"@,
        ErrorView::UnknownCharacter(ch, pos) => position_text(pos) + " invalid character '"@
            + decimal(ch as nat) + "'"@,
        ErrorView::SymbolParseError(token, span) => span_text(span) + " cannot parse '"@ + token
            + "' as symbol"@,
        ErrorView::UnbalancedParentheses(pos) => position_text(pos)
            + " unbalanced parentheses in list`"@,
        ErrorView::Utf8Error(span) => span_text(span) + " utf-8 decode error"@,
    }
}

impl Error {
    /// Renders the error for people: the position or span, one-based, then
    /// the message.
    pub fn to_string(&self) -> (text: String)
        ensures
            text@ == error_text(self@),
    {
        match self {
            Error::IntegerLeadingZero(token, span) => {
                let mut text = span.to_string();
                text.append(" found leading zero while parsing integer constant '");
                text.append(token.as_str());
                text.append("'");
                text
            },
            Error::IntegerParseError(token, span) => {
                let mut text = span.to_string();
                text.append(" cannot parse '");
                text.append(token.as_str());
                text.append("' as integer");
                text
            },
            Error::UnknownCharacter(ch, pos) => {
                let mut text = pos.to_string();
                text.append(" invalid character '");
                text.append(format_natural(*ch as u128).as_str());
                text.append("'");
                text
            },
            Error::SymbolParseError(token, span) => {
                let mut text = span.to_string();
                text.append(" cannot parse '");
                text.append(token.as_str());
                text.append("' as symbol");
                text
            },
            Error::UnbalancedParentheses(pos) => {
                let mut text = pos.to_string();
                text.append(" unbalanced parentheses in list`");
                text
            },
            Error::Utf8Error(span) => {
                let mut text = span.to_string();
                text.append(" utf-8 decode error");
                text
            },
        }
    }
}

/// A specialized `Result` type for parser operations.
pub type Result<T> = core::result::Result<T, Error>;

} // verus!

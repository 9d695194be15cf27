//! The grammar of the notation, as a function from input bytes to the
//! document tree or the error that parsing must produce.
//!
//! Every function here takes the whole input and the offset at which a
//! production starts, and gives the production's result together with the
//! offset of the first byte that it did not consume.

use vstd::prelude::*;
use vstd::utf8::{valid_utf8, decode_utf8};
use super::ast::{AtomView, ItemView};
use super::error::ErrorView;
use super::pos::{LINE_FEED, Span, position_at, span_at};
use super::text::{run_len, comment_text, integer_value};

verus! {

/// The byte of a space.
pub const SPACE: u8 = 0x20;

/// The byte of `"`, which opens and closes a string.
pub const QUOTATION_MARK: u8 = 0x22;

/// The byte of `(`, which opens a list.
pub const OPENING: u8 = 0x28;

/// The byte of `)`, which closes a list.
pub const CLOSING: u8 = 0x29;

/// The byte of `-`, the sign of a negative integer.
pub const MINUS: u8 = 0x2d;

/// The byte of the digit `0`.
pub const ZERO: u8 = 0x30;

/// The byte of `:`, which opens a keyword.
pub const COLON: u8 = 0x3a;

/// The byte of `;`, which opens a comment.
pub const SEMICOLON: u8 = 0x3b;

/// Whether `ch` separates items: a space or a line feed, nothing else.
pub open spec fn is_whitespace(ch: u8) -> bool {
    ch == SPACE || ch == LINE_FEED
}

/// Whether `ch` is a digit between 1 and 9.
pub open spec fn is_digit_1_9(ch: u8) -> bool {
    // 1 to 9
    0x31 <= ch <= 0x39
}

/// Whether `ch` is an ASCII letter.
pub open spec fn is_alpha(ch: u8) -> bool {
    // a to z, A to Z
    (0x61 <= ch <= 0x7a) || (0x41 <= ch <= 0x5a)
}

/// Whether `ch` may be part of a symbol: a letter or one of `+ - * / % = < > ? !`.
pub open spec fn is_symbol(ch: u8) -> bool {
    ||| ch == 0x2b  // +
    ||| ch == 0x2d  // -
    ||| ch == 0x2a  // *
    ||| ch == 0x2f  // /
    ||| ch == 0x25  // %
    ||| ch == 0x3d  // =
    ||| ch == 0x3c  // <
    ||| ch == 0x3e  // >
    ||| ch == 0x3f  // ?
    ||| ch == 0x21  // !
    ||| is_alpha(ch)
}

/// Whether every byte of `token` may be part of a symbol.
pub open spec fn all_symbol(token: Seq<u8>) -> bool {
    forall|k: int| 0 <= k < token.len() ==> is_symbol(#[trigger] token[k])
}

/// A token ends before white space or a closing parenthesis.
pub open spec fn token_stop() -> spec_fn(u8) -> bool {
    |ch: u8| is_whitespace(ch) || ch == CLOSING
}

/// A comment ends before a line feed.
pub open spec fn line_stop() -> spec_fn(u8) -> bool {
    |ch: u8| ch == LINE_FEED
}

/// A chunk of a string ends before a quotation mark.
pub open spec fn quote_stop() -> spec_fn(u8) -> bool {
    |ch: u8| ch == QUOTATION_MARK
}

/// The run of bytes from offset `i` up to the first byte at which `stop`
/// holds, decoded as text, and the offset where it ends; `Utf8Error` with
/// the run's span if the run is not valid UTF-8.
pub open spec fn take_run(input: Seq<u8>, i: int, stop: spec_fn(u8) -> bool) -> Result<
    (Seq<char>, int),
    ErrorView,
> {
    let j = i + run_len(input, i, stop);
    let run = input.subrange(i, j);
    if valid_utf8(run) {
        Ok((decode_utf8(run), j))
    } else {
        Err(ErrorView::Utf8Error(span_at(input, i, j)))
    }
}

/// A comment: the rest of the line, without its markers and the white space
/// around its text. Its span covers the whole rest of the line.
pub open spec fn comment_at(input: Seq<u8>, i: int) -> Result<(ItemView, int), ErrorView> {
    match take_run(input, i, line_stop()) {
        Ok((line, j)) => Ok((ItemView::Comment(comment_text(line), span_at(input, i, j)), j)),
        Err(e) => Err(e),
    }
}

/// Whether a token starts with `0` without being `0`, or starts with `-0`.
pub open spec fn has_leading_zero(token: Seq<u8>) -> bool {
    ||| token.len() > 1 && token[0] == ZERO
    ||| token.len() > 1 && token[0] == MINUS && token[1] == ZERO
}

/// A token that starts like a number: a leading zero is an error, a lone
/// `-` is a symbol, anything else must be an integer that fits.
pub open spec fn integer_or_symbol_at(input: Seq<u8>, i: int) -> Result<
    (ItemView, int),
    ErrorView,
> {
    match take_run(input, i, token_stop()) {
        Ok((text, j)) => {
            let token = input.subrange(i, j);
            let span = span_at(input, i, j);
            if has_leading_zero(token) {
                Err(ErrorView::IntegerLeadingZero(text, span))
            } else if token == seq![MINUS] {
                Ok((ItemView::Atom(AtomView::Symbol(text, span)), j))
            } else {
                match integer_value(token) {
                    Some(value) => Ok((ItemView::Atom(AtomView::Integer(value, span)), j)),
                    None => Err(ErrorView::IntegerParseError(text, span)),
                }
            }
        },
        Err(e) => Err(e),
    }
}

/// A symbol: a token all of whose bytes may be part of a symbol.
pub open spec fn symbol_at(input: Seq<u8>, i: int) -> Result<(ItemView, int), ErrorView> {
    match take_run(input, i, token_stop()) {
        Ok((text, j)) => {
            let span = span_at(input, i, j);
            if all_symbol(input.subrange(i, j)) {
                Ok((ItemView::Atom(AtomView::Symbol(text, span)), j))
            } else {
                Err(ErrorView::SymbolParseError(text, span))
            }
        },
        Err(e) => Err(e),
    }
}

/// A keyword: a colon at offset `i`, then a symbol. The name is the
/// symbol's text and the span starts at the colon.
pub open spec fn keyword_at(input: Seq<u8>, i: int) -> Result<(ItemView, int), ErrorView> {
    match symbol_at(input, i + 1) {
        Ok((ItemView::Atom(AtomView::Symbol(name, span)), j)) => Ok(
            (
                ItemView::Atom(
                    AtomView::Keyword(name, Span { start: position_at(input, i), end: span.end }),
                ),
                j,
            ),
        ),
        other => other,
    }
}

/// The value of a string whose text starts at offset `k`, just after a
/// quotation mark: the chunk up to the next quotation mark, where a chunk
/// that ends in a backslash stands for its text without the backslash,
/// followed by a quotation mark and by the value of what comes after. Also
/// gives the offset where the last chunk ends and the offset after the
/// closing quotation mark. A string that the end of the input cuts short
/// ends there: after a final backslash it still gets its quotation mark.
pub open spec fn string_body(input: Seq<u8>, k: int) -> Result<(Seq<char>, int, int), ErrorView>
    decreases input.len() - k,
{
    let j = k + run_len(input, k, quote_stop());
    let run = input.subrange(k, j);
    if !valid_utf8(run) {
        Err(ErrorView::Utf8Error(span_at(input, k, j)))
    } else if j >= input.len() {
        if j > k && decode_utf8(run).last() == '\\' {
            Ok((decode_utf8(run).drop_last().push('"'), j, j))
        } else {
            Ok((decode_utf8(run), j, j))
        }
    } else if j > k && decode_utf8(run).last() == '\\' {
        match string_body(input, j + 1) {
            Ok((rest, end, after)) => Ok(
                (decode_utf8(run).drop_last().push('"') + rest, end, after),
            ),
            Err(e) => Err(e),
        }
    } else {
        Ok((decode_utf8(run), j, j + 1))
    }
}

/// A string: a quotation mark at offset `i`, then the string's text. The
/// span runs from the opening quotation mark to the end of the last chunk,
/// so it does not cover the closing quotation mark.
pub open spec fn string_at(input: Seq<u8>, i: int) -> Result<(ItemView, int), ErrorView> {
    match string_body(input, i + 1) {
        Ok((value, end, after)) => Ok(
            (
                ItemView::Atom(
                    AtomView::String(
                        value,
                        Span { start: position_at(input, i), end: position_at(input, end) },
                    ),
                ),
                after,
            ),
        ),
        Err(e) => Err(e),
    }
}

/// The item that starts at offset `i`, chosen by its first byte, which is
/// neither white space nor a closing parenthesis.
pub open spec fn item_at(input: Seq<u8>, i: int) -> Result<(ItemView, int), ErrorView>
    decreases input.len() - i, 0int,
    when 0 <= i < input.len()
{
    let ch = input[i];
    if ch == SEMICOLON {
        comment_at(input, i)
    } else if ch == ZERO || ch == MINUS || is_digit_1_9(ch) {
        integer_or_symbol_at(input, i)
    } else if ch == QUOTATION_MARK {
        string_at(input, i)
    } else if ch == COLON {
        keyword_at(input, i)
    } else if is_symbol(ch) {
        symbol_at(input, i)
    } else if ch == OPENING {
        match items_at(input, i + 1, false) {
            Ok((children, j)) => Ok((ItemView::List(children, span_at(input, i, j)), j)),
            Err(e) => Err(e),
        }
    } else {
        Err(ErrorView::UnknownCharacter(ch, position_at(input, i)))
    }
}

/// The items from offset `i` on. At top level they run to the end of the
/// input, and a closing parenthesis is an unknown character; inside a list
/// they run to the closing parenthesis, which is consumed, and the end of
/// the input means that the parentheses are unbalanced.
///
/// Every item consumes at least one byte and none beyond the end of the
/// input (`shape::lemma_item_progress`), so the test `i < j <= input.len()`
/// always succeeds; it is what makes the definition well-founded.
pub open spec fn items_at(input: Seq<u8>, i: int, is_top_level: bool) -> Result<
    (Seq<ItemView>, int),
    ErrorView,
>
    decreases input.len() - i, 1int,
{
    if i < 0 || i >= input.len() {
        if is_top_level {
            Ok((Seq::empty(), i))
        } else {
            Err(ErrorView::UnbalancedParentheses(position_at(input, i)))
        }
    } else if is_whitespace(input[i]) {
        items_at(input, i + 1, is_top_level)
    } else if input[i] == CLOSING {
        if is_top_level {
            Err(ErrorView::UnknownCharacter(input[i], position_at(input, i)))
        } else {
            Ok((Seq::empty(), i + 1))
        }
    } else {
        match item_at(input, i) {
            Ok((item, j)) => if i < j <= input.len() {
                match items_at(input, j, is_top_level) {
                    Ok((rest, k)) => Ok((seq![item] + rest, k)),
                    Err(e) => Err(e),
                }
            } else {
                Err(ErrorView::UnknownCharacter(input[i], position_at(input, i)))
            },
            Err(e) => Err(e),
        }
    }
}

/// The document that the whole input denotes, or the first error in it.
pub open spec fn document(input: Seq<u8>) -> Result<Seq<ItemView>, ErrorView> {
    match items_at(input, 0, true) {
        Ok((items, _)) => Ok(items),
        Err(e) => Err(e),
    }
}

} // verus!

//! What holds of every tree that the parser produces, beyond its type: which
//! characters its texts can hold and how the spans of neighbours lie.
//!
//! The formatter's output can be parsed again only because of these facts, so
//! they are stated here over the views and proved from the grammar.

use vstd::prelude::*;
use vstd::utf8::{valid_utf8, decode_utf8};
use super::ast::{AtomView, ItemView};
use super::encoding::{
    all_ascii,
    ascii_text,
    has_byte,
    has_char,
    lemma_ascii,
    lemma_decode_encode,
    lemma_encode_has_byte,
};
use super::fmt::{item_text, separator, siblings_text, indent_level};
use super::grammar::{
    CLOSING,
    COLON,
    MINUS,
    OPENING,
    QUOTATION_MARK,
    SEMICOLON,
    ZERO,
    all_symbol,
    comment_at,
    is_digit_1_9,
    is_symbol,
    is_whitespace,
    item_at,
    items_at,
    line_stop,
    quote_stop,
    string_at,
    string_body,
    symbol_at,
    token_stop,
};
use super::pos::{LINE_FEED, column_at, line_at, position_at, lemma_position_bounds};
use super::text::{
    back_run_len,
    comment_text,
    trim,
    decimal,
    is_space,
    lemma_run_len_elements,
    lemma_back_run_len_elements,
    lemma_decimal_digits,
    not_semicolon,
    not_space,
    run_len,
};

verus! {

/// Whether `c` is a character that a symbol can hold.
pub open spec fn is_symbol_char(c: char) -> bool {
    (c as u32) < 0x80 && is_symbol(c as u8)
}

/// Whether every character of `name` can be part of a symbol.
pub open spec fn symbol_name(name: Seq<char>) -> bool {
    forall|i: int| 0 <= i < name.len() ==> is_symbol_char(#[trigger] name[i])
}

/// Whether `text` has no white space at either end.
pub open spec fn trimmed(text: Seq<char>) -> bool {
    text.len() > 0 ==> !is_space(text[0]) && !is_space(text.last())
}

/// Whether `text` holds no line feed.
pub open spec fn one_line(text: Seq<char>) -> bool {
    forall|i: int| 0 <= i < text.len() ==> (#[trigger] text[i]) != '\n'
}

/// Whether the formatter writes `item` on a single line.
pub open spec fn flat(item: ItemView, lhs: nat) -> bool {
    one_line(item_text(item, lhs))
}

/// How the spans of two neighbours lie when the parser produced them: the
/// second does not start on an earlier line than the first; it starts on
/// the same line only if the first is written on one line; and it starts on
/// a later line if the first is a comment.
pub open spec fn in_order(prev: ItemView, item: ItemView, lhs: nat) -> bool {
    &&& prev.span().start.line <= item.span().start.line
    &&& prev.span().start.line == item.span().start.line ==> flat(prev, lhs)
    &&& prev.is_comment() ==> prev.span().start.line < item.span().start.line
}

/// What holds of an atom that the parser produced.
pub open spec fn sound_atom(atom: AtomView) -> bool {
    match atom {
        AtomView::Integer(value, _) => isize::MIN <= value <= isize::MAX,
        AtomView::Keyword(name, _) => symbol_name(name),
        AtomView::String(value, _) => value.len() > 0 ==> value.last() != '\\',
        AtomView::Symbol(name, _) => name == seq!['-'] || (name.len() > 0 && symbol_name(name)
            && name[0] != '-'),
    }
}

/// What holds of an item that the parser produced, written at indentation
/// `lhs`.
pub open spec fn sound_item(item: ItemView, lhs: nat) -> bool
    decreases item, 0int,
{
    match item {
        ItemView::Atom(atom) => sound_atom(atom),
        ItemView::Comment(text, _) => one_line(text) && trimmed(text),
        ItemView::List(children, _) => sound_items(children, lhs + indent_level()),
    }
}

/// What holds of neighbouring items that the parser produced.
pub open spec fn sound_items(items: Seq<ItemView>, lhs: nat) -> bool
    decreases items, 1int,
{
    &&& forall|k: int| 0 <= k < items.len() ==> sound_item(#[trigger] items[k], lhs)
    &&& forall|k: int|
        0 <= k < items.len() - 1 ==> in_order(#[trigger] items[k], items[k + 1], lhs)
}

/// Two offsets are on the same line exactly if no line feed lies between
/// them.
pub proof fn lemma_same_line(input: Seq<u8>, a: int, b: int)
    requires
        0 <= a <= b <= input.len(),
    ensures
        line_at(input, a) <= line_at(input, b),
        (line_at(input, a) == line_at(input, b)) == (forall|k: int|
            a <= k < b ==> (#[trigger] input[k]) != LINE_FEED),
    decreases b - a,
{
    if a < b {
        lemma_same_line(input, a, b - 1);
        if line_at(input, a) == line_at(input, b) {
            assert forall|k: int| a <= k < b implies (#[trigger] input[k]) != LINE_FEED by {}
        }
    }
}

/// A text without line feeds, followed by another, is one without.
pub proof fn lemma_one_line_concat(a: Seq<char>, b: Seq<char>)
    ensures
        one_line(a + b) == (one_line(a) && one_line(b)),
{
    if one_line(a + b) {
        assert forall|i: int| 0 <= i < a.len() implies (#[trigger] a[i]) != '\n' by {
            assert((a + b)[i] == a[i]);
        }
        assert forall|i: int| 0 <= i < b.len() implies (#[trigger] b[i]) != '\n' by {
            assert((a + b)[a.len() + i] == b[i]);
        }
    }
}

/// A valid run of bytes without line feeds decodes to a text without.
pub proof fn lemma_decoded_one_line(run: Seq<u8>)
    requires
        valid_utf8(run),
        forall|k: int| 0 <= k < run.len() ==> (#[trigger] run[k]) != LINE_FEED,
    ensures
        one_line(decode_utf8(run)),
{
    let text = decode_utf8(run);
    lemma_decode_encode(run);
    lemma_encode_has_byte(text, LINE_FEED);
    assert(!has_byte(run, LINE_FEED));
    assert forall|i: int| 0 <= i < text.len() implies (#[trigger] text[i]) != '\n' by {
        if text[i] == '\n' {
            assert(text[i] as u32 == LINE_FEED as u32);
            assert(has_char(text, LINE_FEED));
        }
    }
}

/// A text without the white space at its ends is a part of the text, and
/// has no white space at its ends.
pub proof fn lemma_trim(text: Seq<char>)
    ensures
        trimmed(trim(text)),
        one_line(text) ==> one_line(trim(text)),
{
    lemma_run_len_elements(text, 0, not_space());
    lemma_back_run_len_elements(text, text.len() as int, not_space());
    let first = run_len(text, 0, not_space()) as int;
    let last = text.len() - back_run_len(text, text.len() as int, not_space());
    let inner = trim(text);
    if first < last {
        assert(inner[0] == text[first]);
        assert(inner.last() == text[last - 1]);
    }
    if one_line(text) {
        assert forall|i: int| 0 <= i < inner.len() implies (#[trigger] inner[i]) != '\n' by {
            assert(inner[i] == text[first + i]);
        }
    }
}

/// The text of a comment is a part of its line, without white space at
/// either end.
pub proof fn lemma_comment_text(line: Seq<char>)
    ensures
        trimmed(comment_text(line)),
        one_line(line) ==> one_line(comment_text(line)),
{
    let marks = run_len(line, 0, not_semicolon()) as int;
    lemma_run_len_elements(line, 0, not_semicolon());
    let rest = line.skip(marks);
    lemma_trim(rest);
    if one_line(line) {
        assert forall|i: int| 0 <= i < rest.len() implies (#[trigger] rest[i]) != '\n' by {
            assert(rest[i] == line[marks + i]);
        }
    }
}

/// What holds of a comment that the grammar accepts: its text has no line
/// feed and no white space at either end, and it runs to the end of its line.
pub proof fn lemma_parsed_comment(input: Seq<u8>, i: int)
    requires
        0 <= i <= input.len(),
        comment_at(input, i).is_ok(),
    ensures
        ({
            let (item, j) = comment_at(input, i)->Ok_0;
            &&& item matches ItemView::Comment(text, span)
            &&& one_line(text) && trimmed(text)
            &&& span.start == position_at(input, i)
            &&& i <= j <= input.len()
            &&& j == i + run_len(input, i, line_stop())
            &&& j == input.len() || input[j] == LINE_FEED
        }),
{
    let j = i + run_len(input, i, line_stop());
    lemma_run_len_elements(input, i, line_stop());
    let run = input.subrange(i, j);
    assert forall|k: int| 0 <= k < run.len() implies (#[trigger] run[k]) != LINE_FEED by {
        assert(run[k] == input[i + k]);
    }
    lemma_decoded_one_line(run);
    lemma_comment_text(decode_utf8(run));
}

/// What holds of a token that the grammar accepts as a symbol: its text is
/// made of the characters with the numbers of its bytes, all of which can be
/// part of a symbol.
pub proof fn lemma_parsed_symbol(input: Seq<u8>, i: int)
    requires
        0 <= i <= input.len(),
        symbol_at(input, i).is_ok(),
    ensures
        ({
            let (item, j) = symbol_at(input, i)->Ok_0;
            &&& item matches ItemView::Atom(AtomView::Symbol(name, span))
            &&& symbol_name(name)
            &&& name == ascii_text(input.subrange(i, j))
            &&& span.start == position_at(input, i)
            &&& span.end == position_at(input, j)
            &&& i <= j <= input.len()
            &&& j == i + run_len(input, i, token_stop())
        }),
{
    let j = i + run_len(input, i, token_stop());
    lemma_run_len_elements(input, i, token_stop());
    let run = input.subrange(i, j);
    assert(all_symbol(run));
    assert(all_ascii(run)) by {
        assert forall|k: int| 0 <= k < run.len() implies (#[trigger] run[k]) < 0x80 by {
            assert(is_symbol(run[k]));
        }
    }
    lemma_ascii(run);
    let name = ascii_text(run);
    assert forall|k: int| 0 <= k < name.len() implies is_symbol_char(#[trigger] name[k]) by {
        assert(is_symbol(run[k]));
        assert(name[k] == run[k] as char);
        assert((run[k] as char) as u8 == run[k]);
    }
}

/// What holds of a string body that the grammar accepts.
pub proof fn lemma_parsed_string_body(input: Seq<u8>, k: int)
    requires
        0 <= k <= input.len(),
        string_body(input, k).is_ok(),
    ensures
        ({
            let (value, end, after) = string_body(input, k)->Ok_0;
            &&& k <= end <= input.len()
            &&& after == end || (after == end + 1 && end < input.len() && input[end] == QUOTATION_MARK)
            &&& value.len() > 0 ==> value.last() != '\\'
            &&& line_at(input, end) == line_at(input, k) ==> one_line(value)
        }),
    decreases input.len() - k,
{
    let j = k + run_len(input, k, quote_stop());
    lemma_run_len_elements(input, k, quote_stop());
    let run = input.subrange(k, j);
    let chunk = decode_utf8(run);
    lemma_same_line(input, k, j);
    if line_at(input, j) == line_at(input, k) {
        assert forall|m: int| 0 <= m < run.len() implies (#[trigger] run[m]) != LINE_FEED by {
            assert(run[m] == input[k + m]);
        }
        lemma_decoded_one_line(run);
    }
    if j > k && chunk.last() == '\\' {
        let piece = chunk.drop_last().push('"');
        if one_line(chunk) {
            assert forall|m: int| 0 <= m < piece.len() implies (#[trigger] piece[m]) != '\n' by {
                if m < piece.len() - 1 {
                    assert(piece[m] == chunk[m]);
                }
            }
        }
        if j < input.len() {
            lemma_parsed_string_body(input, j + 1);
            let (rest, end, after) = string_body(input, j + 1)->Ok_0;
            let value = piece + rest;
            assert(string_body(input, k)->Ok_0.0 == value);
            lemma_same_line(input, j, j + 1);
            lemma_same_line(input, j + 1, end);
            lemma_one_line_concat(piece, rest);
            if rest.len() > 0 {
                assert(value.last() == rest.last());
            } else {
                assert(value.last() == piece.last());
            }
        } else {
            assert(piece.last() == '"');
        }
    }
}

/// What holds of a string that the grammar accepts.
pub proof fn lemma_parsed_string(input: Seq<u8>, i: int)
    requires
        0 <= i < input.len(),
        string_at(input, i).is_ok(),
    ensures
        ({
            let (item, j) = string_at(input, i)->Ok_0;
            &&& item matches ItemView::Atom(AtomView::String(value, span))
            &&& value.len() > 0 ==> value.last() != '\\'
            &&& span.start == position_at(input, i)
            &&& i < j <= input.len()
            &&& line_at(input, j) == line_at(input, i) ==> one_line(value)
        }),
{
    lemma_parsed_string_body(input, i + 1);
    let (value, end, after) = string_body(input, i + 1)->Ok_0;
    lemma_same_line(input, i, i + 1);
    lemma_same_line(input, i + 1, end);
    lemma_same_line(input, end, after);
}

/// Every item that the grammar accepts takes at least one byte and ends
/// within the input.
pub proof fn lemma_item_progress(input: Seq<u8>, i: int)
    requires
        0 <= i < input.len(),
        !is_whitespace(input[i]),
        input[i] != CLOSING,
        item_at(input, i).is_ok(),
    ensures
        i < (item_at(input, i)->Ok_0).1 <= input.len(),
    decreases input.len() - i, 0int,
{
    let ch = input[i];
    if ch == SEMICOLON {
        lemma_run_len_elements(input, i, line_stop());
    } else if ch == ZERO || ch == MINUS || is_digit_1_9(ch) {
        lemma_run_len_elements(input, i, token_stop());
    } else if ch == QUOTATION_MARK {
        lemma_parsed_string(input, i);
    } else if ch == COLON {
        lemma_run_len_elements(input, i + 1, token_stop());
    } else if is_symbol(ch) {
        lemma_run_len_elements(input, i, token_stop());
    } else {
        lemma_items_progress(input, i + 1, false);
    }
}

/// The items that the grammar accepts end within the input, and inside a
/// list they take at least the closing parenthesis.
pub proof fn lemma_items_progress(input: Seq<u8>, i: int, is_top_level: bool)
    requires
        0 <= i <= input.len(),
        items_at(input, i, is_top_level).is_ok(),
    ensures
        i <= (items_at(input, i, is_top_level)->Ok_0).1 <= input.len(),
        !is_top_level ==> i < (items_at(input, i, is_top_level)->Ok_0).1,
    decreases input.len() - i, 1int,
{
    if i >= input.len() {
    } else if is_whitespace(input[i]) {
        lemma_items_progress(input, i + 1, is_top_level);
    } else if input[i] == CLOSING {
    } else {
        lemma_item_progress(input, i);
        lemma_items_progress(input, (item_at(input, i)->Ok_0).1, is_top_level);
    }
}

/// The line of a position in an input that fits in memory is the number of
/// line feeds before it, exactly.
pub proof fn lemma_position_line(input: Seq<u8>, i: int)
    requires
        0 <= i <= input.len() <= usize::MAX,
    ensures
        position_at(input, i).line == line_at(input, i),
        position_at(input, i).column == column_at(input, i),
{
    lemma_position_bounds(input, i);
}

/// The formatter writes every atom but a string on one line, and a string
/// on one line if its value holds no line feed.
pub proof fn lemma_atom_flat(atom: AtomView, lhs: nat)
    requires
        sound_atom(atom),
        atom matches AtomView::String(value, _) ==> one_line(value),
    ensures
        flat(ItemView::Atom(atom), lhs),
{
    let text = item_text(ItemView::Atom(atom), lhs);
    match atom {
        AtomView::Integer(value, _) => {
            if value < 0 {
                lemma_decimal_digits((-value) as nat);
                lemma_one_line_concat(seq!['-'], decimal((-value) as nat));
            } else {
                lemma_decimal_digits(value as nat);
            }
        },
        AtomView::Keyword(name, _) => {
            lemma_one_line_concat(seq![':'], name);
            assert forall|i: int| 0 <= i < name.len() implies (#[trigger] name[i]) != '\n' by {
                assert(is_symbol_char(name[i]));
            }
        },
        AtomView::String(value, _) => {
            lemma_one_line_concat(seq!['"'], value);
            lemma_one_line_concat(seq!['"'] + value, seq!['"']);
        },
        AtomView::Symbol(name, _) => {
            assert forall|i: int| 0 <= i < name.len() implies (#[trigger] name[i]) != '\n' by {
                if name != seq!['-'] {
                    assert(is_symbol_char(name[i]));
                }
            }
        },
    }
}

/// What holds of an item that the grammar accepts at offset `i`: it is
/// sound, it starts at the position of offset `i`, it is written on one line
/// if it lay on one line, and a comment runs to the end of its line.
pub proof fn lemma_parsed_item(input: Seq<u8>, i: int, lhs: nat)
    requires
        0 <= i < input.len() <= usize::MAX,
        !is_whitespace(input[i]),
        input[i] != CLOSING,
        item_at(input, i).is_ok(),
    ensures
        ({
            let (item, j) = item_at(input, i)->Ok_0;
            &&& i < j <= input.len()
            &&& sound_item(item, lhs)
            &&& item.span().start == position_at(input, i)
            &&& line_at(input, j) == line_at(input, i) ==> flat(item, lhs)
            &&& item.is_comment() ==> (j == input.len() || input[j] == LINE_FEED)
        }),
    decreases input.len() - i, 0int,
{
    let ch = input[i];
    let (item, j) = item_at(input, i)->Ok_0;
    lemma_item_progress(input, i);
    if ch == SEMICOLON {
        lemma_parsed_comment(input, i);
        let text = item->Comment_0;
        lemma_one_line_concat(seq![';', ' '], text);
    } else if ch == ZERO || ch == MINUS || is_digit_1_9(ch) {
        lemma_run_len_elements(input, i, token_stop());
        let token = input.subrange(i, j);
        if token == seq![MINUS] {
            lemma_ascii(token);
            assert(ascii_text(token) =~= seq!['-']);
        }
        lemma_atom_flat(item->Atom_0, lhs);
    } else if ch == QUOTATION_MARK {
        lemma_parsed_string(input, i);
        if line_at(input, j) == line_at(input, i) {
            lemma_atom_flat(item->Atom_0, lhs);
        }
    } else if ch == COLON {
        lemma_parsed_symbol(input, i + 1);
        lemma_atom_flat(item->Atom_0, lhs);
    } else if is_symbol(ch) {
        lemma_parsed_symbol(input, i);
        let name = item->Atom_0->Symbol_0;
        assert(input.subrange(i, j)[0] == ch);
        assert(name[0] == ch as char);
        lemma_atom_flat(item->Atom_0, lhs);
    } else {
        assert(ch == OPENING);
        lemma_parsed_items(input, i + 1, false, lhs + indent_level());
        let children = item->List_0;
        lemma_same_line(input, i, i + 1);
        lemma_same_line(input, i + 1, j);
        if line_at(input, j) == line_at(input, i) {
            lemma_one_line_concat(
                seq!['('],
                siblings_text(children, false, lhs + indent_level()),
            );
            lemma_one_line_concat(
                seq!['('] + siblings_text(children, false, lhs + indent_level()),
                seq![')'],
            );
        }
    }
}

/// What holds of the items that the grammar accepts from offset `i` on: they
/// are sound, the first of them starts between the lines of `i` and of the
/// end, and inside a list they are written on one line if they lay on one
/// line.
pub proof fn lemma_parsed_items(input: Seq<u8>, i: int, is_top_level: bool, lhs: nat)
    requires
        0 <= i <= input.len() <= usize::MAX,
        items_at(input, i, is_top_level).is_ok(),
    ensures
        ({
            let (items, j) = items_at(input, i, is_top_level)->Ok_0;
            &&& i <= j <= input.len()
            &&& sound_items(items, lhs)
            &&& items.len() > 0 ==> line_at(input, i) <= items[0].span().start.line <= line_at(
                input,
                j,
            )
            &&& items.len() > 0 && i < input.len() && input[i] == LINE_FEED ==> line_at(input, i)
                < items[0].span().start.line
            &&& !is_top_level && line_at(input, j) == line_at(input, i) ==> one_line(
                siblings_text(items, false, lhs),
            )
        }),
    decreases input.len() - i, 1int,
{
    let (items, j) = items_at(input, i, is_top_level)->Ok_0;
    if i >= input.len() {
    } else if is_whitespace(input[i]) {
        lemma_parsed_items(input, i + 1, is_top_level, lhs);
        lemma_same_line(input, i, i + 1);
        lemma_same_line(input, i + 1, j);
    } else if input[i] == CLOSING {
        assert(items =~= Seq::<ItemView>::empty());
    } else {
        lemma_parsed_item(input, i, lhs);
        let (first, next) = item_at(input, i)->Ok_0;
        lemma_parsed_items(input, next, is_top_level, lhs);
        let (rest, end) = items_at(input, next, is_top_level)->Ok_0;
        assert(items == seq![first] + rest);
        assert(end == j);
        lemma_position_line(input, i);
        lemma_same_line(input, i, next);
        lemma_same_line(input, next, j);
        assert(items[0] == first);
        assert forall|k: int| 0 <= k < items.len() implies sound_item(#[trigger] items[k], lhs) by {
            if k > 0 {
                assert(items[k] == rest[k - 1]);
            }
        }
        assert forall|k: int| 0 <= k < items.len() - 1 implies in_order(
            #[trigger] items[k],
            items[k + 1],
            lhs,
        ) by {
            if k > 0 {
                assert(items[k] == rest[k - 1]);
                assert(items[k + 1] == rest[k]);
            } else {
                assert(items[1] == rest[0]);
            }
        }
        if !is_top_level && line_at(input, j) == line_at(input, i) {
            assert(items.drop_first() =~= rest);
            if rest.len() > 0 {
                assert(items[1] == rest[0]);
                assert(separator(first, rest[0], false, lhs) =~= seq![' ']);
                lemma_one_line_concat(item_text(first, lhs), seq![' ']);
                lemma_one_line_concat(
                    item_text(first, lhs) + seq![' '],
                    siblings_text(rest, false, lhs),
                );
            }
        }
    }
}

} // verus!

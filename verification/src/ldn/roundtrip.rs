//! Formatting and parsing undo each other: the text that the formatter
//! writes for a parsed document is parsed into the same document again, and
//! formatting that one gives the same text.

use vstd::prelude::*;
use vstd::utf8::{valid_utf8, decode_utf8, encode_utf8};
use super::ast::{AtomView, ItemView};
use super::encoding::{
    all_ascii,
    has_byte,
    has_char,
    lemma_ascii_casts,
    lemma_char_of_byte,
    lemma_encode_concat,
    lemma_encode_decode,
    lemma_encode_has_byte,
    lemma_encode_one,
    lemma_encode_scalar,
};
use super::fmt::{
    document_text,
    indent_level,
    item_text,
    line_delta,
    separator,
    siblings_text,
    spaces,
};
use super::grammar::{
    CLOSING,
    COLON,
    MINUS,
    OPENING,
    QUOTATION_MARK,
    SEMICOLON,
    SPACE,
    ZERO,
    all_symbol,
    document,
    has_leading_zero,
    integer_or_symbol_at,
    is_digit_1_9,
    is_symbol,
    is_whitespace,
    item_at,
    items_at,
    line_stop,
    quote_stop,
    string_body,
    token_stop,
};
use super::pos::{LINE_FEED, line_at, position_at, span_at};
use super::shape::{
    flat,
    in_order,
    is_symbol_char,
    lemma_one_line_concat,
    lemma_parsed_items,
    lemma_position_line,
    lemma_same_line,
    one_line,
    sound_atom,
    sound_item,
    sound_items,
    symbol_name,
    trimmed,
};
use super::text::{
    all_digits,
    comment_text,
    trim,
    decimal,
    decimal_int,
    digit_char,
    digits_value,
    integer_value,
    is_digit,
    lemma_back_run_len,
    lemma_decimal_digits,
    lemma_run_len,
    not_semicolon,
    not_space,
    run_len,
};

verus! {

/// Whether two atoms are of the same kind and hold the same value; their
/// spans may differ.
pub open spec fn same_atom(a: AtomView, b: AtomView) -> bool {
    match a {
        AtomView::Integer(x, _) => b matches AtomView::Integer(y, _) && x == y,
        AtomView::Keyword(x, _) => b matches AtomView::Keyword(y, _) && x == y,
        AtomView::String(x, _) => b matches AtomView::String(y, _) && x == y,
        AtomView::Symbol(x, _) => b matches AtomView::Symbol(y, _) && x == y,
    }
}

/// Whether two items are equal but for their spans: the same atom, the same
/// comment, or lists of items that are equal but for their spans.
pub open spec fn same_content(a: ItemView, b: ItemView) -> bool
    decreases a, 0int,
{
    match a {
        ItemView::Atom(x) => b matches ItemView::Atom(y) && same_atom(x, y),
        ItemView::Comment(x, _) => b matches ItemView::Comment(y, _) && x == y,
        ItemView::List(x, _) => b matches ItemView::List(y, _) && same_contents(x, y),
    }
}

/// Whether two sequences of items are equal but for their spans.
pub open spec fn same_contents(a: Seq<ItemView>, b: Seq<ItemView>) -> bool
    decreases a, 1int,
{
    &&& a.len() == b.len()
    &&& forall|k: int| 0 <= k < a.len() ==> same_content(#[trigger] a[k], b[k])
}

/// Whether the formatter's text for `item` can stand for it: no string in it
/// holds a quotation mark, which the formatter writes unescaped, and no list
/// in it ends with a comment, which would swallow the closing parenthesis.
pub open spec fn legible(item: ItemView) -> bool
    decreases item, 0int,
{
    match item {
        ItemView::Atom(AtomView::String(value, _)) => forall|i: int|
            0 <= i < value.len() ==> (#[trigger] value[i]) != '"',
        ItemView::Atom(_) => true,
        ItemView::Comment(_, _) => true,
        ItemView::List(children, _) => {
            &&& all_legible(children)
            &&& children.len() > 0 ==> !children.last().is_comment()
        },
    }
}

/// Whether the formatter's text for each of `items` can stand for it.
pub open spec fn all_legible(items: Seq<ItemView>) -> bool
    decreases items, 1int,
{
    forall|k: int| 0 <= k < items.len() ==> legible(#[trigger] items[k])
}

/// Whether the formatter keeps the lines of `items` as they are: no comment
/// starts on the line after the first line of a neighbour that takes more
/// than one line. (The formatter puts such a comment on the line after the
/// neighbour's last line, and would then see a blank line between them.)
pub open spec fn settled(items: Seq<ItemView>, lhs: nat) -> bool {
    forall|k: int|
        0 <= k < items.len() - 1 ==> ((#[trigger] items[k + 1]).is_comment() && items[k
            + 1].span().start.line == items[k].span().start.line + 1 ==> flat(items[k], lhs))
}

/// A run of bytes that are no token ends, followed by one, is a token.
pub proof fn lemma_token_run(s: Seq<u8>, i: int, n: int)
    requires
        0 <= i,
        0 <= n,
        i + n < s.len(),
        forall|k: int| i <= k < i + n ==> !token_stop()(#[trigger] s[k]),
        token_stop()(s[i + n]),
    ensures
        run_len(s, i, token_stop()) == n,
{
    lemma_run_len(s, i, i + n, token_stop());
}

/// The bytes of an ASCII text are the numbers of its characters.
pub proof fn lemma_ascii_bytes(text: Seq<char>)
    requires
        forall|i: int| 0 <= i < text.len() ==> ((#[trigger] text[i]) as u32) < 0x80,
    ensures
        encode_utf8(text).len() == text.len(),
        forall|i: int| 0 <= i < text.len() ==> (#[trigger] encode_utf8(text)[i]) == text[i] as u8,
        all_ascii(encode_utf8(text)),
    decreases text.len(),
{
    if text.len() > 0 {
        let rest = text.drop_first();
        lemma_ascii_bytes(rest);
        lemma_encode_scalar(text[0]);
        lemma_ascii_casts(text[0]);
        assert forall|i: int| 0 <= i < text.len() implies (#[trigger] encode_utf8(text)[i])
            == text[i] as u8 by {
            if i > 0 {
                assert(encode_utf8(text)[i] == encode_utf8(rest)[i - 1]);
                assert(rest[i - 1] == text[i]);
            }
        }
        assert forall|i: int| 0 <= i < encode_utf8(text).len() implies (#[trigger] encode_utf8(
            text,
        )[i]) < 0x80 by {
            lemma_ascii_casts(text[i]);
        }
    }
}

/// The bytes of a name made of symbol characters are symbol bytes, and they
/// decode to the name.
pub proof fn lemma_name_bytes(name: Seq<char>)
    requires
        symbol_name(name),
    ensures
        encode_utf8(name).len() == name.len(),
        forall|i: int| 0 <= i < name.len() ==> (#[trigger] encode_utf8(name)[i]) == name[i] as u8,
        all_symbol(encode_utf8(name)),
        valid_utf8(encode_utf8(name)),
        decode_utf8(encode_utf8(name)) == name,
        forall|i: int|
            0 <= i < name.len() ==> !token_stop()(#[trigger] encode_utf8(name)[i]),
{
    assert forall|i: int| 0 <= i < name.len() implies ((#[trigger] name[i]) as u32) < 0x80 by {
        assert(is_symbol_char(name[i]));
    }
    lemma_ascii_bytes(name);
    lemma_encode_decode(name);
    assert forall|i: int| 0 <= i < name.len() implies is_symbol(#[trigger] encode_utf8(name)[i]) by {
        assert(is_symbol_char(name[i]));
    }
}

/// The digits of a decimal numeral denote the number.
pub proof fn lemma_decimal_value(n: nat)
    ensures
        encode_utf8(decimal(n)).len() == decimal(n).len(),
        all_digits(encode_utf8(decimal(n))),
        digits_value(encode_utf8(decimal(n))) == n,
        n > 0 ==> encode_utf8(decimal(n))[0] != ZERO,
        n == 0 ==> encode_utf8(decimal(n)) == seq![ZERO],
    decreases n,
{
    lemma_decimal_digits(n);
    let text = decimal(n);
    assert forall|i: int| 0 <= i < text.len() implies ((#[trigger] text[i]) as u32) < 0x80 by {}
    lemma_ascii_bytes(text);
    let bytes = encode_utf8(text);
    assert forall|k: int| 0 <= k < bytes.len() implies is_digit(#[trigger] bytes[k]) by {
        assert('0' <= text[k] && text[k] <= '9');
    }
    if n < 10 {
        assert(text =~= seq![digit_char(n)]);
        assert(bytes =~= seq![(0x30 + n) as u8]);
        assert(bytes.drop_last() =~= Seq::<u8>::empty());
        assert(digits_value(bytes.drop_last()) == 0);
    } else {
        lemma_decimal_value(n / 10);
        let shorter = decimal(n / 10);
        lemma_decimal_digits(n / 10);
        assert forall|i: int| 0 <= i < shorter.len() implies ((#[trigger] shorter[i]) as u32)
            < 0x80 by {}
        lemma_ascii_bytes(shorter);
        assert(text == shorter.push(digit_char(n % 10)));
        assert(bytes.drop_last() =~= encode_utf8(shorter)) by {
            assert forall|k: int| 0 <= k < shorter.len() implies bytes.drop_last()[k]
                == encode_utf8(shorter)[k] by {
                assert(text[k] == shorter[k]);
            }
        }
        assert(bytes.last() == (0x30 + n % 10) as u8);
        assert(text[0] == shorter[0]);
    }
}

/// The numeral that the formatter writes for an integer is a token that
/// denotes the integer: it has no leading zero, it is not a lone `-`, and it
/// starts with a digit or with `-`.
pub proof fn lemma_integer_bytes(v: int)
    requires
        isize::MIN <= v <= isize::MAX,
    ensures
        ({
            let bytes = encode_utf8(decimal_int(v));
            &&& bytes.len() >= 1
            &&& integer_value(bytes) == Some(v)
            &&& !has_leading_zero(bytes)
            &&& bytes != seq![MINUS]
            &&& bytes[0] == ZERO || bytes[0] == MINUS || is_digit_1_9(bytes[0])
            &&& forall|k: int| 0 <= k < bytes.len() ==> !token_stop()(#[trigger] bytes[k])
            &&& valid_utf8(bytes)
            &&& decode_utf8(bytes) == decimal_int(v)
        }),
{
    let bytes = encode_utf8(decimal_int(v));
    lemma_encode_decode(decimal_int(v));
    if v < 0 {
        let n = (-v) as nat;
        lemma_decimal_value(n);
        lemma_encode_concat(seq!['-'], decimal(n));
        lemma_encode_one('-');
        lemma_encode_scalar('-');
        let digits = encode_utf8(decimal(n));
        assert(bytes == seq![MINUS] + digits);
        assert(bytes.subrange(1, bytes.len() as int) =~= digits);
        assert(bytes[1] == digits[0]);
        assert forall|k: int| 0 <= k < bytes.len() implies !token_stop()(#[trigger] bytes[k]) by {
            if k > 0 {
                assert(bytes[k] == digits[k - 1]);
                assert(is_digit(digits[k - 1]));
            }
        }
    } else {
        let n = v as nat;
        lemma_decimal_value(n);
        assert(is_digit(bytes[0]));
        assert forall|k: int| 0 <= k < bytes.len() implies !token_stop()(#[trigger] bytes[k]) by {
            assert(is_digit(bytes[k]));
        }
    }
}

/// A text without white space at its ends stays as it is when white space
/// before it is taken away.
pub proof fn lemma_trim_padded(text: Seq<char>)
    requires
        trimmed(text),
    ensures
        trim(seq![' '] + text) == text,
{
    let padded = seq![' '] + text;
    let n = padded.len() as int;
    assert(padded[0] == ' ');
    if text.len() > 0 {
        assert(padded[1] == text[0]);
        assert(padded[n - 1] == text.last());
        lemma_run_len(padded, 0, 1, not_space());
        lemma_back_run_len(padded, n, n, not_space());
        assert(padded.subrange(1, n) =~= text);
    } else {
        lemma_run_len(padded, 0, 1, not_space());
        lemma_back_run_len(padded, 0, 1, not_space());
        assert(text =~= Seq::<char>::empty());
    }
}

/// The line that the formatter writes for a comment gives the comment's
/// text back.
pub proof fn lemma_comment_line(text: Seq<char>)
    requires
        trimmed(text),
    ensures
        comment_text(seq![';', ' '] + text) == text,
{
    let line = seq![';', ' '] + text;
    assert(line[0] == ';' && line[1] == ' ');
    lemma_run_len(line, 0, 1, not_semicolon());
    assert(line.skip(1) =~= seq![' '] + text);
    lemma_trim_padded(text);
}

/// Whether the bytes of `s` from offset `i` on start with the formatter's
/// text for `item`, followed by white space or a closing parenthesis, and by
/// a line feed if the item is a comment.
pub open spec fn written_at(s: Seq<u8>, i: int, item: ItemView, lhs: nat) -> bool {
    let body = encode_utf8(item_text(item, lhs));
    let e = i + body.len();
    &&& 0 <= i
    &&& e < s.len()
    &&& s.subrange(i, e) == body
    &&& token_stop()(s[e])
    &&& item.is_comment() ==> s[e] == LINE_FEED
}

/// Whether the grammar reads the formatter's text for `item` at offset `i`
/// as an item that is equal to it but for its span, that starts at the
/// position of `i`, that ends where the text ends, and for which the
/// formatter writes the same text.
pub open spec fn read_back(s: Seq<u8>, i: int, item: ItemView, lhs: nat) -> bool {
    let e = i + encode_utf8(item_text(item, lhs)).len();
    &&& i < e
    &&& !is_whitespace(s[i])
    &&& s[i] != CLOSING
    &&& item_at(s, i) matches Ok((again, j))
    &&& j == e
    &&& same_content(item, again)
    &&& again.span().start == position_at(s, i)
    &&& (s.len() <= usize::MAX ==> item_text(again, lhs) == item_text(item, lhs))
}

/// The grammar reads back an integer, a keyword or a symbol.
pub proof fn lemma_read_back_token(s: Seq<u8>, i: int, atom: AtomView, lhs: nat)
    requires
        !(atom is String),
        sound_atom(atom),
        written_at(s, i, ItemView::Atom(atom), lhs),
    ensures
        read_back(s, i, ItemView::Atom(atom), lhs),
{
    let item = ItemView::Atom(atom);
    let body = encode_utf8(item_text(item, lhs));
    let e = i + body.len();
    assert forall|k: int| 0 <= k < body.len() implies s[i + k] == #[trigger] body[k] by {
        assert(s.subrange(i, e)[k] == s[i + k]);
    }
    match atom {
        AtomView::Integer(v, _) => {
            lemma_integer_bytes(v);
            assert forall|k: int| i <= k < e implies !token_stop()(#[trigger] s[k]) by {
                assert(s[k] == body[k - i]);
            }
            lemma_token_run(s, i, body.len() as int);
            assert(s[i] == body[0]);
        },
        AtomView::Keyword(name, _) => {
            lemma_name_bytes(name);
            lemma_encode_concat(seq![':'], name);
            lemma_encode_one(':');
            lemma_encode_scalar(':');
            let bytes = encode_utf8(name);
            assert(body == seq![COLON] + bytes);
            assert(s[i] == body[0]);
            assert forall|k: int| i + 1 <= k < e implies !token_stop()(#[trigger] s[k]) by {
                assert(s[k] == body[k - i]);
                assert(body[k - i] == bytes[k - i - 1]);
            }
            lemma_token_run(s, i + 1, bytes.len() as int);
            assert(s.subrange(i + 1, e) =~= bytes) by {
                assert forall|k: int| 0 <= k < bytes.len() implies s.subrange(i + 1, e)[k]
                    == bytes[k] by {
                    assert(s[i + 1 + k] == body[k + 1]);
                }
            }
        },
        AtomView::Symbol(name, _) => {
            if name == seq!['-'] {
                lemma_encode_one('-');
                lemma_encode_scalar('-');
                lemma_encode_decode(name);
                assert(body == seq![MINUS]);
                assert(s[i] == body[0]);
                assert forall|k: int| i <= k < e implies !token_stop()(#[trigger] s[k]) by {
                    assert(s[k] == body[k - i]);
                }
                lemma_token_run(s, i, 1);
                assert(integer_or_symbol_at(s, i) == Ok::<(ItemView, int), super::error::ErrorView>(
                    (ItemView::Atom(AtomView::Symbol(name, span_at(s, i, e))), e),
                ));
            } else {
                lemma_name_bytes(name);
                assert(s[i] == body[0]);
                assert(is_symbol_char(name[0]));
                assert(body[0] == name[0] as u8);
                assert(body[0] != MINUS);
                assert forall|k: int| i <= k < e implies !token_stop()(#[trigger] s[k]) by {
                    assert(s[k] == body[k - i]);
                }
                lemma_token_run(s, i, body.len() as int);
            }
        },
        AtomView::String(_, _) => {},
    }
}

/// The grammar reads back a string without quotation marks.
pub proof fn lemma_read_back_string(s: Seq<u8>, i: int, atom: AtomView, lhs: nat)
    requires
        atom is String,
        sound_atom(atom),
        legible(ItemView::Atom(atom)),
        written_at(s, i, ItemView::Atom(atom), lhs),
    ensures
        read_back(s, i, ItemView::Atom(atom), lhs),
{
    let item = ItemView::Atom(atom);
    let value = atom->String_0;
    let body = encode_utf8(item_text(item, lhs));
    let e = i + body.len();
    let bytes = encode_utf8(value);
    lemma_encode_concat(seq!['"'], value);
    lemma_encode_concat(seq!['"'] + value, seq!['"']);
    lemma_encode_one('"');
    lemma_encode_scalar('"');
    lemma_encode_decode(value);
    assert(body == seq![QUOTATION_MARK] + bytes + seq![QUOTATION_MARK]);
    assert forall|k: int| 0 <= k < body.len() implies s[i + k] == #[trigger] body[k] by {
        assert(s.subrange(i, e)[k] == s[i + k]);
    }
    assert(s[i] == body[0]);
    let k0 = i + 1;
    let j = k0 + bytes.len();
    assert(s[j] == body[j - i]);
    lemma_encode_has_byte(value, QUOTATION_MARK);
    assert(!has_char(value, QUOTATION_MARK)) by {
        if has_char(value, QUOTATION_MARK) {
            let m = choose|m: int| 0 <= m < value.len() && value[m] as u32 == QUOTATION_MARK as u32;
            lemma_char_of_byte(value[m], QUOTATION_MARK);
        }
    }
    assert forall|k: int| k0 <= k < j implies !quote_stop()(#[trigger] s[k]) by {
        assert(s[k] == body[k - i]);
        assert(body[k - i] == bytes[k - k0]);
        if s[k] == QUOTATION_MARK {
            assert(has_byte(bytes, QUOTATION_MARK));
        }
    }
    lemma_run_len(s, k0, j, quote_stop());
    assert(s.subrange(k0, j) =~= bytes) by {
        assert forall|k: int| 0 <= k < bytes.len() implies s.subrange(k0, j)[k] == bytes[k] by {
            assert(s[k0 + k] == body[k + 1]);
        }
    }
    if j > k0 {
        assert(value.len() > 0) by {
            if value.len() == 0 {
                assert(encode_utf8(value) =~= Seq::<u8>::empty());
            }
        }
    }
    assert(string_body(s, k0) == Ok::<(Seq<char>, int, int), super::error::ErrorView>(
        (value, j, j + 1),
    ));
}

/// The grammar reads back a comment that is followed by a line feed.
pub proof fn lemma_read_back_comment(s: Seq<u8>, i: int, item: ItemView, lhs: nat)
    requires
        item is Comment,
        sound_item(item, lhs),
        written_at(s, i, item, lhs),
    ensures
        read_back(s, i, item, lhs),
{
    let text = item->Comment_0;
    let line = seq![';', ' '] + text;
    let body = encode_utf8(line);
    let e = i + body.len();
    lemma_encode_concat(seq![';', ' '], text);
    lemma_encode_concat(seq![';'], seq![' ']);
    assert(seq![';'] + seq![' '] =~= seq![';', ' ']);
    lemma_encode_one(';');
    lemma_encode_scalar(';');
    lemma_encode_one(' ');
    lemma_encode_scalar(' ');
    lemma_encode_decode(line);
    assert(body == seq![SEMICOLON] + seq![SPACE] + encode_utf8(text));
    assert forall|k: int| 0 <= k < body.len() implies s[i + k] == #[trigger] body[k] by {
        assert(s.subrange(i, e)[k] == s[i + k]);
    }
    assert(s[i] == body[0]);
    lemma_encode_has_byte(line, LINE_FEED);
    lemma_one_line_concat(seq![';', ' '], text);
    assert(!has_char(line, LINE_FEED)) by {
        if has_char(line, LINE_FEED) {
            let m = choose|m: int| 0 <= m < line.len() && line[m] as u32 == LINE_FEED as u32;
            lemma_char_of_byte(line[m], LINE_FEED);
        }
    }
    assert forall|k: int| i <= k < e implies !line_stop()(#[trigger] s[k]) by {
        assert(s[k] == body[k - i]);
        if s[k] == LINE_FEED {
            assert(has_byte(body, LINE_FEED));
        }
    }
    lemma_run_len(s, i, e, line_stop());
    lemma_comment_line(text);
}

/// White space between items is skipped.
pub proof fn lemma_skip_whitespace(s: Seq<u8>, i: int, b: int, is_top_level: bool)
    requires
        0 <= i <= b <= s.len(),
        forall|k: int| i <= k < b ==> is_whitespace(#[trigger] s[k]),
    ensures
        items_at(s, i, is_top_level) == items_at(s, b, is_top_level),
    decreases b - i,
{
    if i < b {
        assert(is_whitespace(s[i]));
        lemma_skip_whitespace(s, i + 1, b, is_top_level);
    }
}

/// What the formatter writes between two neighbours that lie in order, as
/// bytes: white space only, and at least one byte of it; a single space if
/// they started on the same line; else a line feed first, which at top
/// level is all unless a second line feed follows, and which inside a list
/// is followed by spaces.
pub proof fn lemma_separator_bytes(prev: ItemView, item: ItemView, is_top_level: bool, lhs: nat)
    requires
        prev.span().start.line <= item.span().start.line,
    ensures
        ({
            let sep = encode_utf8(separator(prev, item, is_top_level, lhs));
            let delta = line_delta(prev, item, is_top_level);
            &&& sep.len() >= 1
            &&& forall|k: int| 0 <= k < sep.len() ==> is_whitespace(#[trigger] sep[k])
            &&& delta == 0 ==> sep == seq![SPACE]
            &&& delta >= 1 ==> sep[0] == LINE_FEED
            &&& is_top_level && delta == 1 ==> sep == seq![LINE_FEED]
            &&& is_top_level && delta > 1 ==> sep == seq![LINE_FEED, LINE_FEED]
            &&& !is_top_level && delta >= 1 ==> forall|k: int|
                1 <= k < sep.len() ==> (#[trigger] sep[k]) == SPACE
        }),
{
    let text = separator(prev, item, is_top_level, lhs);
    let delta = line_delta(prev, item, is_top_level);
    assert forall|i: int| 0 <= i < text.len() implies ((#[trigger] text[i]) as u32) < 0x80 by {
        assert(text[i] == ' ' || text[i] == '\n');
    }
    lemma_ascii_bytes(text);
    let sep = encode_utf8(text);
    assert forall|k: int| 0 <= k < sep.len() implies is_whitespace(#[trigger] sep[k]) by {
        assert(text[k] == ' ' || text[k] == '\n');
    }
    if delta == 0 {
        assert(text =~= seq![' ']);
        assert(sep =~= seq![SPACE]);
    } else {
        assert(text[0] == '\n');
        if is_top_level {
            if delta == 1 {
                assert(text =~= seq!['\n']);
                assert(sep =~= seq![LINE_FEED]);
            } else {
                assert(text =~= seq!['\n', '\n']);
                assert(sep =~= seq![LINE_FEED, LINE_FEED]);
            }
        } else {
            assert forall|k: int| 1 <= k < sep.len() implies (#[trigger] sep[k]) == SPACE by {
                assert(text[k] == ' ');
            }
        }
    }
}

/// A text on one line is encoded without a line feed.
pub proof fn lemma_one_line_bytes(text: Seq<char>)
    requires
        one_line(text),
    ensures
        forall|k: int| 0 <= k < encode_utf8(text).len() ==> (#[trigger] encode_utf8(text)[k])
            != LINE_FEED,
{
    lemma_encode_has_byte(text, LINE_FEED);
    if has_char(text, LINE_FEED) {
        let m = choose|m: int| 0 <= m < text.len() && text[m] as u32 == LINE_FEED as u32;
        lemma_char_of_byte(text[m], LINE_FEED);
    }
    assert forall|k: int| 0 <= k < encode_utf8(text).len() implies (#[trigger] encode_utf8(
        text,
    )[k]) != LINE_FEED by {
        if encode_utf8(text)[k] == LINE_FEED {
            assert(has_byte(encode_utf8(text), LINE_FEED));
        }
    }
}

/// The line after a line feed is the next line.
pub proof fn lemma_line_feed(s: Seq<u8>, a: int)
    requires
        0 <= a < s.len(),
        s[a] == LINE_FEED,
    ensures
        line_at(s, a + 1) == line_at(s, a) + 1,
{
}

/// When two neighbours are read back from the formatter's text, the
/// formatter writes between them what it wrote before: their lines in the
/// text differ as their lines in the source did, as far as the formatter
/// tells.
pub proof fn lemma_separator_again(
    s: Seq<u8>,
    b: int,
    j0: int,
    b1: int,
    prev: ItemView,
    item: ItemView,
    prev2: ItemView,
    item2: ItemView,
    is_top_level: bool,
    lhs: nat,
)
    requires
        0 <= b <= j0 <= b1 <= s.len() <= usize::MAX,
        in_order(prev, item, lhs),
        s.subrange(b, j0) == encode_utf8(item_text(prev, lhs)),
        s.subrange(j0, b1) == encode_utf8(separator(prev, item, is_top_level, lhs)),
        prev2.span().start == position_at(s, b),
        item2.span().start == position_at(s, b1),
        prev2.is_comment() == prev.is_comment(),
        item2.is_comment() == item.is_comment(),
        is_top_level && item.is_comment() && item.span().start.line == prev.span().start.line + 1
            ==> flat(prev, lhs),
        prev.is_comment() ==> flat(prev, lhs),
    ensures
        separator(prev2, item2, is_top_level, lhs) == separator(prev, item, is_top_level, lhs),
{
    let delta = line_delta(prev, item, is_top_level);
    let sep = encode_utf8(separator(prev, item, is_top_level, lhs));
    lemma_separator_bytes(prev, item, is_top_level, lhs);
    lemma_position_line(s, b);
    lemma_position_line(s, b1);
    lemma_same_line(s, b, j0);
    lemma_same_line(s, j0, b1);
    assert forall|k: int| 0 <= k < sep.len() implies s[j0 + k] == #[trigger] sep[k] by {
        assert(s.subrange(j0, b1)[k] == s[j0 + k]);
    }
    let forced = is_top_level && !item.is_comment() && !prev.is_comment();
    if !forced {
        if flat(prev, lhs) {
            lemma_one_line_bytes(item_text(prev, lhs));
            assert forall|k: int| b <= k < j0 implies (#[trigger] s[k]) != LINE_FEED by {
                assert(s.subrange(b, j0)[k - b] == s[k]);
            }
            assert(line_at(s, j0) == line_at(s, b));
        }
        if delta == 0 {
            assert(s[j0] == sep[0]);
            assert(b1 == j0 + 1);
            assert(line_at(s, b1) == line_at(s, b));
        } else {
            assert(s[j0] == sep[0]);
            lemma_line_feed(s, j0);
            lemma_same_line(s, j0 + 1, b1);
            if is_top_level {
                if delta == 1 {
                    assert(b1 == j0 + 1);
                } else {
                    assert(s[j0 + 1] == sep[1]);
                    lemma_line_feed(s, j0 + 1);
                    assert(b1 == j0 + 2);
                }
            } else {
                assert forall|k: int| j0 + 1 <= k < b1 implies (#[trigger] s[k]) != LINE_FEED by {
                    assert(s[k] == sep[k - j0]);
                }
            }
        }
    }
}

/// Whether the bytes of `s` from offset `b` on start with the formatter's
/// text for `items`, followed by what closes the sequence: at top level a
/// line feed and the end of `s`, inside a list a closing parenthesis.
pub open spec fn siblings_written_at(
    s: Seq<u8>,
    b: int,
    items: Seq<ItemView>,
    is_top_level: bool,
    lhs: nat,
) -> bool {
    let body = encode_utf8(siblings_text(items, is_top_level, lhs));
    let e = b + body.len();
    &&& 0 <= b
    &&& e < s.len()
    &&& s.subrange(b, e) == body
    &&& if is_top_level {
        s[e] == LINE_FEED && e + 1 == s.len()
    } else {
        s[e] == CLOSING
    }
}

/// Whether the grammar reads the formatter's text for `items`, which starts
/// at offset `b` after white space from offset `i` on, as items that are
/// equal to them but for their spans, the first of which starts at the
/// position of `b`, and for which the formatter writes the same text (at top
/// level if the items are settled).
pub open spec fn siblings_read_back(
    s: Seq<u8>,
    i: int,
    b: int,
    items: Seq<ItemView>,
    is_top_level: bool,
    lhs: nat,
) -> bool {
    let e = b + encode_utf8(siblings_text(items, is_top_level, lhs)).len();
    &&& items_at(s, i, is_top_level) matches Ok((again, j))
    &&& j == e + 1
    &&& same_contents(items, again)
    &&& (items.len() > 0 ==> again[0].span().start == position_at(s, b))
    &&& (s.len() <= usize::MAX && (is_top_level ==> settled(items, lhs)) ==> siblings_text(
        again,
        is_top_level,
        lhs,
    ) == siblings_text(items, is_top_level, lhs))
}

/// The formatter's text for neighbours, as bytes: the first item, then what
/// separates it from the second, then the others.
pub proof fn lemma_siblings_bytes(items: Seq<ItemView>, is_top_level: bool, lhs: nat)
    requires
        items.len() > 0,
    ensures
        items.len() == 1 ==> encode_utf8(siblings_text(items, is_top_level, lhs)) == encode_utf8(
            item_text(items[0], lhs),
        ),
        items.len() > 1 ==> encode_utf8(siblings_text(items, is_top_level, lhs)) == encode_utf8(
            item_text(items[0], lhs),
        ) + encode_utf8(separator(items[0], items[1], is_top_level, lhs)) + encode_utf8(
            siblings_text(items.drop_first(), is_top_level, lhs),
        ),
{
    if items.len() > 1 {
        let first = item_text(items[0], lhs);
        let sep = separator(items[0], items[1], is_top_level, lhs);
        let rest = siblings_text(items.drop_first(), is_top_level, lhs);
        lemma_encode_concat(first, sep);
        lemma_encode_concat(first + sep, rest);
    }
}

/// The grammar reads back an item from the formatter's text for it.
pub proof fn lemma_read_back_item(s: Seq<u8>, i: int, item: ItemView, lhs: nat)
    requires
        sound_item(item, lhs),
        legible(item),
        written_at(s, i, item, lhs),
    ensures
        read_back(s, i, item, lhs),
    decreases item, 0int,
{
    match item {
        ItemView::Atom(atom) => {
            if atom is String {
                lemma_read_back_string(s, i, atom, lhs);
            } else {
                lemma_read_back_token(s, i, atom, lhs);
            }
        },
        ItemView::Comment(_, _) => {
            lemma_read_back_comment(s, i, item, lhs);
        },
        ItemView::List(children, span) => {
            let deeper = lhs + indent_level();
            let inner = siblings_text(children, false, deeper);
            let bytes = encode_utf8(inner);
            let body = encode_utf8(item_text(item, lhs));
            let e = i + body.len();
            lemma_encode_concat(seq!['('], inner);
            lemma_encode_concat(seq!['('] + inner, seq![')']);
            lemma_encode_one('(');
            lemma_encode_scalar('(');
            lemma_encode_one(')');
            lemma_encode_scalar(')');
            assert(body == seq![OPENING] + bytes + seq![CLOSING]);
            assert forall|k: int| 0 <= k < body.len() implies s[i + k] == #[trigger] body[k] by {
                assert(s.subrange(i, e)[k] == s[i + k]);
            }
            assert(s[i] == body[0]);
            let close = i + 1 + bytes.len();
            assert(s[close] == body[close - i]);
            assert(s.subrange(i + 1, close) =~= bytes) by {
                assert forall|k: int| 0 <= k < bytes.len() implies s.subrange(i + 1, close)[k]
                    == bytes[k] by {
                    assert(s[i + 1 + k] == body[k + 1]);
                }
            }
            assert(siblings_written_at(s, i + 1, children, false, deeper));
            lemma_read_back_items(s, i + 1, i + 1, children, false, deeper);
            assert(siblings_read_back(s, i + 1, i + 1, children, false, deeper));
        },
    }
}

/// The grammar reads back neighbouring items from the formatter's text for
/// them.
#[verifier::rlimit(40)]
pub proof fn lemma_read_back_items(
    s: Seq<u8>,
    i: int,
    b: int,
    items: Seq<ItemView>,
    is_top_level: bool,
    lhs: nat,
)
    requires
        0 <= i <= b,
        forall|k: int| i <= k < b ==> is_whitespace(#[trigger] s[k]),
        siblings_written_at(s, b, items, is_top_level, lhs),
        sound_items(items, lhs),
        all_legible(items),
        !is_top_level && items.len() > 0 ==> !items.last().is_comment(),
    ensures
        siblings_read_back(s, i, b, items, is_top_level, lhs),
    decreases items, 1int,
{
    let body = encode_utf8(siblings_text(items, is_top_level, lhs));
    let e = b + body.len();
    lemma_skip_whitespace(s, i, b, is_top_level);
    if items.len() == 0 {
        assert(siblings_text(items, is_top_level, lhs) =~= Seq::<char>::empty());
        assert(body =~= Seq::<u8>::empty());
        if is_top_level {
            assert(is_whitespace(s[b]));
            assert(items_at(s, b, true) == items_at(s, b + 1, true));
        }
        let again = items_at(s, i, is_top_level)->Ok_0.0;
        assert(again =~= Seq::<ItemView>::empty());
        assert(siblings_text(again, is_top_level, lhs) =~= Seq::<char>::empty());
    } else {
        let first = items[0];
        let rest = items.drop_first();
        let body0 = encode_utf8(item_text(first, lhs));
        let j0 = b + body0.len();
        lemma_siblings_bytes(items, is_top_level, lhs);
        assert forall|k: int| 0 <= k < body.len() implies s[b + k] == #[trigger] body[k] by {
            assert(s.subrange(b, e)[k] == s[b + k]);
        }
        assert(sound_item(first, lhs));
        assert(legible(first));
        assert(first.is_comment() ==> flat(first, lhs)) by {
            if first is Comment {
                lemma_one_line_concat(seq![';', ' '], first->Comment_0);
            }
        }
        let sepb = if rest.len() > 0 {
            encode_utf8(separator(first, items[1], is_top_level, lhs))
        } else {
            Seq::<u8>::empty()
        };
        let b1 = j0 + sepb.len();
        if rest.len() > 0 {
            assert(in_order(items[0], items[1], lhs));
            lemma_separator_bytes(first, items[1], is_top_level, lhs);
            assert(s[j0] == body[body0.len() as int]);
            assert(body[body0.len() as int] == sepb[0]);
            assert(rest[0] == items[1]);
        } else {
            assert(items.last() == first);
            assert(j0 == e);
        }
        assert(s.subrange(b, j0) =~= body0) by {
            assert forall|k: int| 0 <= k < body0.len() implies s.subrange(b, j0)[k]
                == body0[k] by {
                assert(s[b + k] == body[k]);
            }
        }
        assert(written_at(s, b, first, lhs));
        lemma_read_back_item(s, b, first, lhs);
        assert(read_back(s, b, first, lhs));
        let (again0, next) = item_at(s, b)->Ok_0;
        assert(next == j0);
        // What follows the first item: white space, then the other items.
        assert forall|k: int| j0 <= k < b1 implies is_whitespace(#[trigger] s[k]) by {
            assert(s[k] == body[k - b]);
            assert(body[k - b] == sepb[k - j0]);
        }
        let restb = encode_utf8(siblings_text(rest, is_top_level, lhs));
        if rest.len() == 0 {
            assert(siblings_text(rest, is_top_level, lhs) =~= Seq::<char>::empty());
            assert(restb =~= Seq::<u8>::empty());
        }
        assert(b1 + restb.len() == e);
        assert(s.subrange(b1, e) =~= restb) by {
            assert forall|k: int| 0 <= k < restb.len() implies s.subrange(b1, e)[k]
                == restb[k] by {
                assert(s[b1 + k] == body[b1 + k - b]);
            }
        }
        assert(siblings_written_at(s, b1, rest, is_top_level, lhs));
        assert(sound_items(rest, lhs)) by {
            assert forall|k: int| 0 <= k < rest.len() implies sound_item(
                #[trigger] rest[k],
                lhs,
            ) by {
                assert(rest[k] == items[k + 1]);
            }
            assert forall|k: int| 0 <= k < rest.len() - 1 implies in_order(
                #[trigger] rest[k],
                rest[k + 1],
                lhs,
            ) by {
                assert(rest[k] == items[k + 1]);
                assert(rest[k + 1] == items[k + 2]);
                assert(in_order(items[k + 1], items[k + 2], lhs));
            }
        }
        assert(all_legible(rest)) by {
            assert forall|k: int| 0 <= k < rest.len() implies legible(#[trigger] rest[k]) by {
                assert(rest[k] == items[k + 1]);
            }
        }
        if rest.len() > 0 {
            assert(rest.last() == items.last());
        }
        lemma_read_back_items(s, j0, b1, rest, is_top_level, lhs);
        assert(siblings_read_back(s, j0, b1, rest, is_top_level, lhs));
        let (rest_again, end) = items_at(s, j0, is_top_level)->Ok_0;
        let again = seq![again0] + rest_again;
        assert(items_at(s, b, is_top_level) == Ok::<(Seq<ItemView>, int), super::error::ErrorView>(
            (again, end),
        ));
        assert(again[0] == again0);
        assert(same_contents(items, again)) by {
            assert forall|k: int| 0 <= k < items.len() implies same_content(
                #[trigger] items[k],
                again[k],
            ) by {
                if k > 0 {
                    assert(items[k] == rest[k - 1]);
                    assert(again[k] == rest_again[k - 1]);
                    assert(same_content(rest[k - 1], rest_again[k - 1]));
                }
            }
        }
        if s.len() <= usize::MAX && (is_top_level ==> settled(items, lhs)) {
            assert(again.drop_first() =~= rest_again);
            if rest.len() > 0 {
                assert(again[1] == rest_again[0]);
                assert(is_top_level ==> settled(rest, lhs)) by {
                    if is_top_level {
                        assert forall|k: int|
                            0 <= k < rest.len() - 1 && (#[trigger] rest[k + 1]).is_comment()
                                && rest[k + 1].span().start.line == rest[k].span().start.line
                                + 1 implies flat(rest[k], lhs) by {
                            assert(rest[k] == items[k + 1]);
                            assert(rest[k + 1] == items[k + 2]);
                            assert(items[k + 1 + 1] == items[k + 2]);
                        }
                    }
                }
                assert(s.subrange(j0, b1) =~= sepb) by {
                    assert forall|k: int| 0 <= k < sepb.len() implies s.subrange(j0, b1)[k]
                        == sepb[k] by {
                        assert(s[j0 + k] == body[j0 + k - b]);
                    }
                }
                assert(same_content(items[0], again[0]));
                assert(same_content(items[1], again[1])) by {
                    assert(same_content(rest[0], rest_again[0]));
                }
                assert(is_top_level && items[1].is_comment() && items[1].span().start.line
                    == items[0].span().start.line + 1 ==> flat(first, lhs)) by {
                    if is_top_level {
                        assert(items[0int + 1] == items[1]);
                    }
                }
                lemma_separator_again(
                    s,
                    b,
                    j0,
                    b1,
                    first,
                    items[1],
                    again0,
                    rest_again[0],
                    is_top_level,
                    lhs,
                );
                assert(siblings_text(again, is_top_level, lhs) == item_text(again0, lhs)
                    + separator(again0, again[1], is_top_level, lhs) + siblings_text(
                    again.drop_first(),
                    is_top_level,
                    lhs,
                ));
            } else {
                assert(rest_again =~= Seq::<ItemView>::empty());
                assert(again =~= seq![again0]);
            }
        }
    }
}

/// The formatter's text for a parsed document, as the bytes that a parser
/// would read, is the items' text followed by a line feed.
pub proof fn lemma_document_bytes(doc: Seq<ItemView>)
    ensures
        encode_utf8(document_text(doc)) == encode_utf8(siblings_text(doc, true, 0)) + seq![
            LINE_FEED,
        ],
{
    lemma_encode_concat(siblings_text(doc, true, 0), seq!['\n']);
    lemma_encode_one('\n');
    lemma_encode_scalar('\n');
}

/// Parsing what the formatter wrote for a parsed document gives the
/// document back, but for the spans: the same atoms, comments and lists with
/// the same values, in the same order and nesting.
///
/// This holds of every document that the grammar gives for an input that
/// fits in memory, provided the formatter's text can stand for its items: no
/// string holds a quotation mark and no list ends with a comment.
pub proof fn lemma_format_round_trip(input: Seq<u8>, doc: Seq<ItemView>)
    requires
        input.len() <= usize::MAX,
        document(input) == Ok::<Seq<ItemView>, super::error::ErrorView>(doc),
        all_legible(doc),
    ensures
        document(encode_utf8(document_text(doc))) matches Ok(again) && same_contents(doc, again),
{
    let s = encode_utf8(document_text(doc));
    let body = encode_utf8(siblings_text(doc, true, 0));
    lemma_parsed_items(input, 0, true, 0);
    lemma_document_bytes(doc);
    assert(s.subrange(0, body.len() as int) =~= body);
    assert(s[body.len() as int] == LINE_FEED);
    lemma_read_back_items(s, 0, 0, doc, true, 0);
}

/// Formatting is idempotent: the text that the formatter writes for a
/// parsed document is parsed into a document for which the formatter writes
/// the same text.
///
/// This holds of every document that the grammar gives for an input that
/// fits in memory, provided the text fits in memory too, the text can stand
/// for the items, and the document is settled: no top-level comment starts
/// on the line after the first line of an item that takes several lines.
pub proof fn lemma_format_idempotent(input: Seq<u8>, doc: Seq<ItemView>)
    requires
        input.len() <= usize::MAX,
        encode_utf8(document_text(doc)).len() <= usize::MAX,
        document(input) == Ok::<Seq<ItemView>, super::error::ErrorView>(doc),
        all_legible(doc),
        settled(doc, 0),
    ensures
        document(encode_utf8(document_text(doc))) matches Ok(again) && document_text(again)
            == document_text(doc),
{
    let s = encode_utf8(document_text(doc));
    let body = encode_utf8(siblings_text(doc, true, 0));
    lemma_parsed_items(input, 0, true, 0);
    lemma_document_bytes(doc);
    assert(s.subrange(0, body.len() as int) =~= body);
    assert(s[body.len() as int] == LINE_FEED);
    lemma_read_back_items(s, 0, 0, doc, true, 0);
}

} // verus!

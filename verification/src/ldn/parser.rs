//! The recursive-descent parser.

use vstd::prelude::*;
use vstd::std_specs::convert::FromSpecImpl;
use vstd::string::{StrSliceExecFns, StringExecFns, StringSliceAdditionalSpecFns};
use vstd::utf8::{valid_utf8, decode_utf8, decode_utf8_encode_utf8};
use super::ast::{Atom, Item, ItemView, items_view, lemma_items_view_push};
use super::error::{Error, ErrorView};
use super::grammar::{
    CLOSING,
    COLON,
    MINUS,
    OPENING,
    QUOTATION_MARK,
    SEMICOLON,
    SPACE,
    ZERO,
    is_whitespace,
    is_digit_1_9,
    is_alpha,
    is_symbol,
    all_symbol,
    token_stop,
    line_stop,
    quote_stop,
    take_run,
    comment_at,
    integer_or_symbol_at,
    symbol_at,
    keyword_at,
    string_body,
    string_at,
    item_at,
    items_at,
    document,
};
use super::pos::{LINE_FEED, Span, position_at, span_at};
use super::text::{run_len, lemma_run_len, strip_comment, parse_integer};
use super::iter::PositionIterator;
use super::tokenizer::Tokenizer;

verus! {

/// Whether what a production returned is what the grammar says of it: the
/// same item and the cursor where the grammar stops, or the same error.
pub open spec fn item_agrees(
    res: Result<Item, Error>,
    cursor: int,
    expected: Result<(ItemView, int), ErrorView>,
) -> bool {
    match expected {
        Ok((item, j)) => res matches Ok(it) && it@ == item && cursor == j,
        Err(e) => res matches Err(err) && err@ == e,
    }
}

/// Whether the items that the parser returned are those that the grammar
/// gives, with the cursor where the grammar stops, or the same error.
pub open spec fn items_agree(
    res: Result<Vec<Item>, Error>,
    cursor: int,
    expected: Result<(Seq<ItemView>, int), ErrorView>,
) -> bool {
    match expected {
        Ok((items, j)) => res matches Ok(list) && items_view(list@) == items && cursor == j,
        Err(e) => res matches Err(err) && err@ == e,
    }
}

/// Whether a run of text that the tokenizer returned is the one that the
/// grammar gives, or the same error.
pub open spec fn run_agrees(
    res: Result<(String, Span), Error>,
    span: Span,
    expected: Result<(Seq<char>, int), ErrorView>,
) -> bool {
    match expected {
        Ok((text, _)) => res matches Ok((t, s)) && t@ == text && s == span,
        Err(e) => res matches Err(err) && err@ == e,
    }
}

/// `items` in front of the items of `rest`, where `rest` succeeded.
pub open spec fn prepend_items(
    items: Seq<ItemView>,
    rest: Result<(Seq<ItemView>, int), ErrorView>,
) -> Result<(Seq<ItemView>, int), ErrorView> {
    match rest {
        Ok((more, j)) => Ok((items + more, j)),
        Err(e) => Err(e),
    }
}

/// `text` in front of the value of `rest`, where `rest` succeeded.
pub open spec fn prepend_text(
    text: Seq<char>,
    rest: Result<(Seq<char>, int, int), ErrorView>,
) -> Result<(Seq<char>, int, int), ErrorView> {
    match rest {
        Ok((more, end, after)) => Ok((text + more, end, after)),
        Err(e) => Err(e),
    }
}

/// Lithium Data Notation parser.
pub struct Parser<'a> {
    tokenizer: Tokenizer<'a>,
}

impl<'a> Parser<'a> {
    /// The whole byte sequence that the parser reads.
    pub closed spec fn input(&self) -> Seq<u8> {
        self.tokenizer.input()
    }

    /// How many bytes the parser has consumed.
    pub closed spec fn cursor(&self) -> int {
        self.tokenizer.cursor()
    }

    /// Creates a new parser at the start of the given bytes.
    pub fn new(bytes: &'a [u8]) -> (p: Self)
        ensures
            p.input() == bytes@,
            p.cursor() == 0,
    {
        Parser { tokenizer: Tokenizer::new(PositionIterator::new(bytes)) }
    }

    /// Parses the rest of the input as a sequence of top-level items. On a
    /// new parser this is the whole document: the result is `document` of
    /// the input.
    pub fn parse(&mut self) -> (res: Result<Vec<Item>, Error>)
        ensures
            final(self).input() == old(self).input(),
            items_agree(
                res,
                final(self).cursor(),
                items_at(old(self).input(), old(self).cursor(), true),
            ),
            old(self).cursor() == 0 ==> match document(old(self).input()) {
                Ok(items) => res matches Ok(list) && items_view(list@) == items,
                Err(e) => res matches Err(err) && err@ == e,
            },
    {
        self.parse_items(true)
    }

    /// Parses items up to the end of the input (at top level) or up to the
    /// closing parenthesis of the list that they are in.
    fn parse_items(&mut self, is_top_level: bool) -> (res: Result<Vec<Item>, Error>)
        ensures
            final(self).input() == old(self).input(),
            items_agree(
                res,
                final(self).cursor(),
                items_at(old(self).input(), old(self).cursor(), is_top_level),
            ),
            res.is_ok() ==> old(self).cursor() <= final(self).cursor() <= old(self).input().len(),
        decreases old(self).input().len() - old(self).cursor(),
    {
        let mut ret: Vec<Item> = Vec::new();
        let ghost input = self.input();
        let ghost begin = self.cursor();
        loop
            invariant
                input == old(self).input(),
                begin == old(self).cursor(),
                self.input() == input,
                begin <= self.cursor(),
                items_at(input, begin, is_top_level) == prepend_items(
                    items_view(ret@),
                    items_at(input, self.cursor(), is_top_level),
                ),
            decreases input.len() - self.cursor(),
        {
            let ghost here = self.cursor();
            let ghost before = items_view(ret@);
            let ch = match self.tokenizer.peek_ch() {
                Some(ch) => *ch,
                None => {
                    assert(items_view(ret@) + Seq::<ItemView>::empty() =~= items_view(ret@));
                    if !is_top_level {
                        return Err(Error::UnbalancedParentheses(*self.tokenizer.pos()));
                    }
                    return Ok(ret);
                },
            };
            if Self::is_whitespace(ch) {
                self.tokenizer.next_ch();
                continue ;
            }
            if ch == CLOSING {
                assert(items_view(ret@) + Seq::<ItemView>::empty() =~= items_view(ret@));
                if is_top_level {
                    return Err(Error::UnknownCharacter(ch, *self.tokenizer.pos()));
                }
                self.tokenizer.next_ch();
                return Ok(ret);
            }
            let parsed = if ch == SEMICOLON {
                self.parse_comment()
            } else if ch == ZERO || ch == MINUS || Self::is_digit_1_9(ch) {
                self.parse_integer_or_symbol()
            } else if ch == QUOTATION_MARK {
                self.parse_string()
            } else if ch == COLON {
                self.parse_keyword()
            } else if Self::is_symbol(ch) {
                self.parse_symbol()
            } else if ch == OPENING {
                let list_start = *self.tokenizer.pos();
                self.tokenizer.next_ch();
                match self.parse_items(false) {
                    Ok(children) => Ok(
                        Item::List(children, Span::new(list_start, *self.tokenizer.pos())),
                    ),
                    Err(e) => Err(e),
                }
            } else {
                return Err(Error::UnknownCharacter(ch, *self.tokenizer.pos()));
            };
            assert(item_agrees(parsed, self.cursor(), item_at(input, here)));
            match parsed {
                Ok(item) => {
                    proof {
                        lemma_items_view_push(ret@, item);
                        let rest = items_at(input, self.cursor(), is_top_level);
                        if let Ok((more, _)) = rest {
                            assert(before.push(item@) + more =~= before + (seq![item@] + more));
                        }
                    }
                    ret.push(item);
                },
                Err(e) => {
                    return Err(e);
                },
            }
        }
    }

    /// Parses a comment. Called at the semicolon's position.
    fn parse_comment(&mut self) -> (res: Result<Item, Error>)
        ensures
            final(self).input() == old(self).input(),
            item_agrees(res, final(self).cursor(), comment_at(old(self).input(), old(self).cursor())),
            res.is_ok() && old(self).cursor() < old(self).input().len() && !line_stop()(
                old(self).input()[old(self).cursor()],
            ) ==> old(self).cursor() < final(self).cursor(),
            final(self).cursor() <= old(self).input().len(),
    {
        let ghost input = self.input();
        let ghost begin = self.cursor();
        let not_line_feed = |ch: &u8| -> (r: bool)
            ensures
                r == !line_stop()(*ch),
            { *ch != LINE_FEED };
        let taken = self.tokenizer.take_until(not_line_feed);
        proof {
            lemma_run_len(input, begin, self.cursor(), line_stop());
        }
        match taken {
            Ok((line, span)) => Ok(Item::Comment(strip_comment(line.as_str()), span)),
            Err(e) => Err(e),
        }
    }

    /// Parses an integer, or the symbol `-`. Called at the position of the
    /// first digit or of the sign.
    fn parse_integer_or_symbol(&mut self) -> (res: Result<Item, Error>)
        ensures
            final(self).input() == old(self).input(),
            item_agrees(
                res,
                final(self).cursor(),
                integer_or_symbol_at(old(self).input(), old(self).cursor()),
            ),
            res.is_ok() && old(self).cursor() < old(self).input().len() && !token_stop()(
                old(self).input()[old(self).cursor()],
            ) ==> old(self).cursor() < final(self).cursor(),
            final(self).cursor() <= old(self).input().len(),
    {
        let ghost input = self.input();
        let ghost begin = self.cursor();
        let (token, span) = match self.next_token() {
            Ok(found) => found,
            Err(e) => {
                return Err(e);
            },
        };
        let ghost run = input.subrange(begin, self.cursor());
        proof {
            decode_utf8_encode_utf8(run);
        }
        let bytes = token.as_str().as_bytes();
        assert(bytes@ == run);
        let n = bytes.len();
        let leading_zero = (n > 1 && bytes[0] == ZERO) || (n > 1 && bytes[0] == MINUS && bytes[1]
            == ZERO);
        let lone_minus = n == 1 && bytes[0] == MINUS;
        let value = parse_integer(bytes);
        assert(lone_minus == (run == seq![MINUS])) by {
            if lone_minus {
                assert(run =~= seq![MINUS]);
            }
        }
        if leading_zero {
            Err(Error::IntegerLeadingZero(token, span))
        } else if lone_minus {
            Ok(Item::Atom(Atom::Symbol(token, span)))
        } else {
            match value {
                Some(v) => Ok(Item::Atom(Atom::Integer(v, span))),
                None => Err(Error::IntegerParseError(token, span)),
            }
        }
    }

    /// Parses a string. Called at the opening quotation mark's position.
    fn parse_string(&mut self) -> (res: Result<Item, Error>)
        requires
            old(self).cursor() < old(self).input().len(),
        ensures
            final(self).input() == old(self).input(),
            item_agrees(res, final(self).cursor(), string_at(old(self).input(), old(self).cursor())),
            res.is_ok() ==> old(self).cursor() < final(self).cursor() <= old(self).input().len(),
    {
        let ghost input = self.input();
        let ghost begin = self.cursor();
        let string_start = *self.tokenizer.pos();
        self.tokenizer.next_ch();
        let mut string = String::new();
        let mut string_last_span: Span;
        loop
            invariant_except_break
                string_body(input, begin + 1) == prepend_text(
                    string@,
                    string_body(input, self.cursor()),
                ),
            invariant
                input == old(self).input(),
                begin == old(self).cursor(),
                self.input() == input,
                begin < self.cursor() <= input.len(),
            ensures
                self.input() == input,
                begin < self.cursor() <= input.len(),
                match string_body(input, begin + 1) {
                    Ok((value, end, after)) => string@ == value && string_last_span.end
                        == position_at(input, end) && self.cursor() == after,
                    Err(_) => false,
                },
            decreases input.len() - self.cursor(),
        {
            let ghost here = self.cursor();
            let ghost so_far = string@;
            let not_quote = |ch: &u8| -> (r: bool)
                ensures
                    r == !quote_stop()(*ch),
                { *ch != QUOTATION_MARK };
            let (chunk, span) = match self.tokenizer.take_until(not_quote) {
                Ok(found) => {
                    proof {
                        lemma_run_len(input, here, self.cursor(), quote_stop());
                    }
                    found
                },
                Err(e) => {
                    proof {
                        lemma_run_len(input, here, self.cursor(), quote_stop());
                    }
                    return Err(e);
                },
            };
            let ghost stop = self.cursor();
            let ghost run = input.subrange(here, stop);
            self.tokenizer.next_ch();
            string_last_span = span;
            let n = chunk.as_str().unicode_len();
            proof {
                lemma_decoded_len(run);
            }
            if n > 0 && chunk.as_str().get_char(n - 1) == '\\' {
                string.append(chunk.as_str().substring_char(0, n - 1));
                proof {
                    reveal_strlit("\"");
                }
                string.append("\"");
                proof {
                    let piece = decode_utf8(run).drop_last().push('"');
                    assert(string@ =~= so_far + piece);
                    if stop < input.len() {
                        let rest = string_body(input, stop + 1);
                        if let Ok((more, _, _)) = rest {
                            assert(so_far + (piece + more) =~= string@ + more);
                        }
                    } else {
                        lemma_run_len(input, stop, stop, quote_stop());
                        assert(input.subrange(stop, stop) =~= Seq::<u8>::empty());
                        assert(string@ + Seq::<char>::empty() =~= string@);
                    }
                }
            } else {
                string.append(chunk.as_str());
                proof {
                    assert(so_far + decode_utf8(run) =~= string@);
                }
                break ;
            }
        }
        Ok(Item::Atom(Atom::String(string, Span::new(string_start, string_last_span.end))))
    }

    /// Parses a keyword. Called at the colon's position.
    fn parse_keyword(&mut self) -> (res: Result<Item, Error>)
        requires
            old(self).cursor() < old(self).input().len(),
        ensures
            final(self).input() == old(self).input(),
            item_agrees(res, final(self).cursor(), keyword_at(old(self).input(), old(self).cursor())),
            res.is_ok() ==> old(self).cursor() < final(self).cursor() <= old(self).input().len(),
    {
        let keyword_start = *self.tokenizer.pos();
        self.tokenizer.next_ch();
        match self.parse_symbol() {
            Ok(Item::Atom(Atom::Symbol(sym, span))) => Ok(
                Item::Atom(Atom::Keyword(sym, Span::new(keyword_start, span.end))),
            ),
            v => v,
        }
    }

    /// Parses a symbol.
    fn parse_symbol(&mut self) -> (res: Result<Item, Error>)
        ensures
            final(self).input() == old(self).input(),
            item_agrees(res, final(self).cursor(), symbol_at(old(self).input(), old(self).cursor())),
            old(self).cursor() <= final(self).cursor(),
            res.is_ok() && old(self).cursor() < old(self).input().len() && !token_stop()(
                old(self).input()[old(self).cursor()],
            ) ==> old(self).cursor() < final(self).cursor(),
            final(self).cursor() <= old(self).input().len(),
    {
        let ghost input = self.input();
        let ghost begin = self.cursor();
        let (token, span) = match self.next_token() {
            Ok(found) => found,
            Err(e) => {
                return Err(e);
            },
        };
        let ghost run = input.subrange(begin, self.cursor());
        proof {
            decode_utf8_encode_utf8(run);
        }
        let bytes = token.as_str().as_bytes();
        let n = bytes.len();
        let mut i: usize = 0;
        let mut all = true;
        while i < n
            invariant
                n == bytes@.len(),
                i <= n,
                all == all_symbol(bytes@.subrange(0, i as int)),
            decreases n - i,
        {
            if !Self::is_symbol(bytes[i]) {
                all = false;
            }
            proof {
                let shorter = bytes@.subrange(0, i as int);
                let longer = bytes@.subrange(0, i + 1);
                if all_symbol(longer) {
                    assert forall|k: int| 0 <= k < shorter.len() implies is_symbol(
                        #[trigger] shorter[k],
                    ) by {
                        assert(longer[k] == shorter[k]);
                    }
                }
                if all_symbol(shorter) && is_symbol(bytes@[i as int]) {
                    assert forall|k: int| 0 <= k < longer.len() implies is_symbol(
                        #[trigger] longer[k],
                    ) by {
                        if k < i {
                            assert(longer[k] == shorter[k]);
                        }
                    }
                }
                if !is_symbol(bytes@[i as int]) {
                    assert(longer[i as int] == bytes@[i as int]);
                }
            }
            i += 1;
        }
        assert(bytes@.subrange(0, n as int) =~= run);
        if !all {
            return Err(Error::SymbolParseError(token, span));
        }
        Ok(Item::Atom(Atom::Symbol(token, span)))
    }

    /// Consumes bytes up to the first white space or closing parenthesis and
    /// returns them as text, with their span.
    fn next_token(&mut self) -> (res: Result<(String, Span), Error>)
        ensures
            final(self).input() == old(self).input(),
            0 <= old(self).cursor() <= final(self).cursor() <= old(self).input().len(),
            final(self).cursor() == old(self).cursor() + run_len(
                old(self).input(),
                old(self).cursor(),
                token_stop(),
            ),
            run_agrees(
                res,
                span_at(old(self).input(), old(self).cursor(), final(self).cursor()),
                take_run(old(self).input(), old(self).cursor(), token_stop()),
            ),
    {
        let ghost input = self.input();
        let ghost begin = self.cursor();
        let in_token = |ch: &u8| -> (r: bool)
            ensures
                r == !token_stop()(*ch),
            { !Self::is_whitespace(*ch) && *ch != CLOSING };
        let taken = self.tokenizer.take_until(in_token);
        proof {
            lemma_run_len(input, begin, self.cursor(), token_stop());
        }
        taken
    }

    /// Returns `true` if `ch` is white space according to the grammar.
    pub fn is_whitespace(ch: u8) -> (b: bool)
        ensures
            b == is_whitespace(ch),
    {
        ch == SPACE || ch == LINE_FEED
    }

    /// Returns `true` if `ch` is a digit between 1 and 9.
    pub fn is_digit_1_9(ch: u8) -> (b: bool)
        ensures
            b == is_digit_1_9(ch),
    {
        // 1 to 9
        ch >= 0x31 && ch <= 0x39
    }

    /// Returns `true` if `ch` may be part of a symbol.
    pub fn is_symbol(ch: u8) -> (b: bool)
        ensures
            b == is_symbol(ch),
    {
        match ch {
            // + - * / % = < > ? !
            0x2b | 0x2d | 0x2a | 0x2f | 0x25 | 0x3d | 0x3c | 0x3e | 0x3f | 0x21 => true,
            _ => Self::is_alpha(ch),
        }
    }

    /// Returns `true` if `ch` is a letter, `a` to `z` in either case.
    pub fn is_alpha(ch: u8) -> (b: bool)
        ensures
            b == is_alpha(ch),
    {
        // a to z, A to Z
        ch >= 0x61 && ch <= 0x7a || ch >= 0x41 && ch <= 0x5a
    }
}

/// A valid run of bytes decodes to no characters exactly if it is empty.
pub proof fn lemma_decoded_len(run: Seq<u8>)
    requires
        valid_utf8(run),
    ensures
        (decode_utf8(run).len() == 0) == (run.len() == 0),
{
}

/// Creates a parser over the UTF-8 bytes of a string.
impl<'a> From<&'a str> for Parser<'a> {
    fn from(v: &'a str) -> (p: Self)
        ensures
            p.input() == v.spec_bytes(),
            p.cursor() == 0,
    {
        Parser::new(v.as_bytes())
    }
}

impl<'a> FromSpecImpl<&'a str> for Parser<'a> {
    open spec fn obeys_from_spec() -> bool {
        false
    }

    open spec fn from_spec(v: &'a str) -> Self {
        arbitrary()
    }
}

} // verus!

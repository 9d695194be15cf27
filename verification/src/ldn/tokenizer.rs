//! A tokenizer with one byte of lookahead on top of the position-tracking
//! cursor.

use vstd::prelude::*;
use vstd::std_specs::convert::FromSpecImpl;
use vstd::string::StringSliceAdditionalSpecFns;
use vstd::utf8::{valid_utf8, decode_utf8};
use super::error::{Error, ErrorView};
use super::iter::PositionIterator;
use super::pos::{Position, Span, position_at, span_at};
use super::text::string_from_utf8;

verus! {

/// Wraps a position-tracking cursor and adds `peek_ch()`, which looks at the
/// next byte without consuming it, and `take_until()`, which consumes a run
/// of bytes as text.
///
/// To its users a tokenizer is a byte sequence, `input()`, and the number of
/// bytes consumed so far, `cursor()`. Peeking changes neither.
pub struct Tokenizer<'a> {
    iter: PositionIterator<'a>,
    peeked_pos: Position,
    peeked: Option<Option<u8>>,
}

impl<'a> Tokenizer<'a> {
    /// The whole byte sequence that the tokenizer reads.
    pub closed spec fn input(&self) -> Seq<u8> {
        self.iter.input()
    }

    /// How many bytes have been consumed; a peeked byte is not consumed.
    pub closed spec fn cursor(&self) -> int {
        match self.peeked {
            Some(Some(_)) => self.iter.consumed() - 1,
            _ => self.iter.consumed(),
        }
    }

    #[verifier::type_invariant]
    spec fn inv(self) -> bool {
        &&& 0 <= self.iter.consumed() <= self.iter.input().len()
        &&& match self.peeked {
            None => true,
            Some(Some(b)) => {
                &&& self.iter.consumed() >= 1
                &&& b == self.iter.input()[self.iter.consumed() - 1]
                &&& self.peeked_pos == position_at(self.iter.input(), self.iter.consumed() - 1)
            },
            Some(None) => {
                &&& self.iter.consumed() == self.iter.input().len()
                &&& self.peeked_pos == position_at(self.iter.input(), self.iter.consumed())
            },
        }
    }

    /// Creates a new tokenizer wrapping the given cursor.
    pub fn new(iter: PositionIterator<'a>) -> (t: Self)
        ensures
            t.input() == iter.input(),
            t.cursor() == iter.consumed(),
    {
        // Called for what it tells of the cursor: it lies within the input.
        let _ = iter.pos();
        Tokenizer { iter, peeked_pos: Position { line: 0, column: 0 }, peeked: None }
    }

    /// Consumes bytes for as long as `predicate` holds of the next one, and
    /// returns them decoded as text, with the span from the position before
    /// the first of them to the position after the last. Stops before the
    /// first byte of which `predicate` does not hold, or at the end of the
    /// input. Fails with `Utf8Error` if the bytes are not valid UTF-8; they
    /// are consumed all the same.
    pub fn take_until<F>(&mut self, predicate: F) -> (res: Result<(String, Span), Error>) where
        F: Fn(&u8) -> bool,

        requires
            forall|b: u8| call_requires(predicate, (&b,)),
        ensures
            final(self).input() == old(self).input(),
            0 <= old(self).cursor() <= final(self).cursor() <= old(self).input().len(),
            forall|i: int|
                old(self).cursor() <= i < final(self).cursor() ==> call_ensures(
                    predicate,
                    (&#[trigger] old(self).input()[i],),
                    true,
                ),
            final(self).cursor() < old(self).input().len() ==> call_ensures(
                predicate,
                (&old(self).input()[final(self).cursor()],),
                false,
            ),
            ({
                let run = old(self).input().subrange(old(self).cursor(), final(self).cursor());
                let span = span_at(old(self).input(), old(self).cursor(), final(self).cursor());
                match res {
                    Ok((text, s)) => valid_utf8(run) && text@ == decode_utf8(run) && s == span,
                    Err(e) => !valid_utf8(run) && e@ == ErrorView::Utf8Error(span),
                }
            }),
    {
        let mut ret: Vec<u8> = Vec::new();
        let start = *self.pos();
        let ghost input = self.input();
        let ghost begin = self.cursor();
        loop
            invariant
                forall|b: u8| call_requires(predicate, (&b,)),
                self.input() == input,
                0 <= begin <= self.cursor() <= input.len(),
                ret@ == input.subrange(begin, self.cursor()),
                forall|i: int|
                    begin <= i < self.cursor() ==> call_ensures(
                        predicate,
                        (&#[trigger] input[i],),
                        true,
                    ),
            ensures
                self.input() == input,
                0 <= begin <= self.cursor() <= input.len(),
                ret@ == input.subrange(begin, self.cursor()),
                forall|i: int|
                    begin <= i < self.cursor() ==> call_ensures(
                        predicate,
                        (&#[trigger] input[i],),
                        true,
                    ),
                self.cursor() < input.len() ==> call_ensures(
                    predicate,
                    (&input[self.cursor()],),
                    false,
                ),
            decreases input.len() - self.cursor(),
        {
            let ch = match self.peek_ch() {
                Some(ch) => *ch,
                None => { break ; },
            };
            if !predicate(&ch) {
                break ;
            }
            ret.push(ch);
            self.next_ch();
            assert(ret@ == input.subrange(begin, self.cursor()));
        }
        let end = *self.pos();
        let span = Span::new(start, end);
        match string_from_utf8(ret) {
            Some(text) => Ok((text, span)),
            None => Err(Error::Utf8Error(span)),
        }
    }

    /// Looks at the next byte without consuming it: neither the cursor nor
    /// the reported position changes, however often it is called.
    pub fn peek_ch(&mut self) -> (ch: Option<&u8>)
        ensures
            final(self).input() == old(self).input(),
            final(self).cursor() == old(self).cursor(),
            0 <= old(self).cursor() <= old(self).input().len(),
            old(self).cursor() < old(self).input().len() ==> ch == Some(
                &old(self).input()[old(self).cursor()],
            ),
            old(self).cursor() == old(self).input().len() ==> ch.is_none(),
    {
        proof {
            use_type_invariant(&*self);
        }
        if self.peeked.is_none() {
            let mut iter = self.iter;
            let p = *iter.pos();
            let b = iter.next();
            self.peeked_pos = p;
            self.iter = iter;
            self.peeked = Some(b);
        }
        match &self.peeked {
            Some(Some(v)) => Some(v),
            _ => None,
        }
    }

    /// Consumes and returns the next byte, or returns `None` at the end of
    /// the input.
    pub fn next_ch(&mut self) -> (ch: Option<u8>)
        ensures
            final(self).input() == old(self).input(),
            0 <= old(self).cursor() <= old(self).input().len(),
            old(self).cursor() < old(self).input().len() ==> {
                &&& ch == Some(old(self).input()[old(self).cursor()])
                &&& final(self).cursor() == old(self).cursor() + 1
            },
            old(self).cursor() == old(self).input().len() ==> {
                &&& ch.is_none()
                &&& final(self).cursor() == old(self).cursor()
            },
    {
        proof {
            use_type_invariant(&*self);
        }
        let peeked = self.peeked;
        self.peeked = None;
        match peeked {
            Some(v) => v,
            None => {
                let mut iter = self.iter;
                let b = iter.next();
                self.iter = iter;
                b
            },
        }
    }

    /// Returns the position of the next byte, whether it was peeked or not.
    pub fn pos(&self) -> (p: &Position)
        ensures
            *p == position_at(self.input(), self.cursor()),
            0 <= self.cursor() <= self.input().len(),
    {
        proof {
            use_type_invariant(self);
        }
        match self.peeked {
            None => self.iter.pos(),
            Some(_) => &self.peeked_pos,
        }
    }
}

/// Creates a tokenizer over the UTF-8 bytes of a string.
impl<'a> From<&'a str> for Tokenizer<'a> {
    fn from(v: &'a str) -> (t: Self)
        ensures
            t.input() == v.spec_bytes(),
            t.cursor() == 0,
    {
        Tokenizer::new(PositionIterator::from(v))
    }
}

impl<'a> FromSpecImpl<&'a str> for Tokenizer<'a> {
    open spec fn obeys_from_spec() -> bool {
        false
    }

    open spec fn from_spec(v: &'a str) -> Self {
        arbitrary()
    }
}

} // verus!

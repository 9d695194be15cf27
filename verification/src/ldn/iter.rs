//! A byte cursor that tracks the line and column of the next byte.

use vstd::prelude::*;
use vstd::std_specs::convert::FromSpecImpl;
use vstd::string::StringSliceAdditionalSpecFns;
use super::pos::{LINE_FEED, Position, position_at, lemma_position_bounds};

verus! {

/// Walks over a byte sequence and keeps track of the position of the byte
/// that `next()` is about to produce.
#[derive(Clone, Copy)]
pub struct PositionIterator<'a> {
    bytes: &'a [u8],
    index: usize,
    pos: Position,
}

impl<'a> PositionIterator<'a> {
    /// The whole byte sequence that the cursor walks over.
    pub closed spec fn input(&self) -> Seq<u8> {
        self.bytes@
    }

    /// How many bytes `next()` has already handed out.
    pub closed spec fn consumed(&self) -> int {
        self.index as int
    }

    /// The position that `pos()` reports.
    pub closed spec fn position(&self) -> Position {
        self.pos
    }

    #[verifier::type_invariant]
    spec fn inv(self) -> bool {
        &&& self.index <= self.bytes@.len()
        &&& self.pos == position_at(self.bytes@, self.index as int)
    }

    /// Creates a new position-tracking cursor at the start of `bytes`.
    pub fn new(bytes: &'a [u8]) -> (it: Self)
        ensures
            it.input() == bytes@,
            it.consumed() == 0,
    {
        PositionIterator { bytes, index: 0, pos: Position { line: 0, column: 0 } }
    }

    /// Returns the position of the byte that `next()` is about to produce.
    pub fn pos(&self) -> (p: &Position)
        ensures
            *p == self.position(),
            *p == position_at(self.input(), self.consumed()),
            0 <= self.consumed() <= self.input().len(),
    {
        proof {
            use_type_invariant(self);
        }
        &self.pos
    }

    /// Hands out the next byte, or `None` once the input is exhausted. A line
    /// feed moves the position to column 0 of the next line, any other byte
    /// moves it one column to the right.
    pub fn next(&mut self) -> (ch: Option<u8>)
        ensures
            final(self).input() == old(self).input(),
            0 <= old(self).consumed() <= old(self).input().len(),
            old(self).consumed() < old(self).input().len() ==> {
                &&& ch == Some(old(self).input()[old(self).consumed()])
                &&& final(self).consumed() == old(self).consumed() + 1
            },
            old(self).consumed() == old(self).input().len() ==> {
                &&& ch.is_none()
                &&& final(self).consumed() == old(self).consumed()
            },
            ch.is_none() ==> final(self).position() == old(self).position(),
            ch == Some(LINE_FEED) ==> {
                &&& final(self).position().line == old(self).position().line + 1
                &&& final(self).position().column == 0
            },
            ch.is_some() && ch != Some(LINE_FEED) ==> {
                &&& final(self).position().line == old(self).position().line
                &&& final(self).position().column == old(self).position().column + 1
            },
    {
        proof {
            use_type_invariant(&*self);
        }
        if self.index < self.bytes.len() {
            let b = self.bytes[self.index];
            proof {
                lemma_position_bounds(self.bytes@, self.index as int);
                lemma_position_bounds(self.bytes@, self.index as int + 1);
            }
            let p = if b == LINE_FEED {
                Position { line: self.pos.line + 1, column: 0 }
            } else {
                Position { line: self.pos.line, column: self.pos.column + 1 }
            };
            *self = PositionIterator { bytes: self.bytes, index: self.index + 1, pos: p };
            Some(b)
        } else {
            None
        }
    }
}

/// Creates a position-tracking cursor over the UTF-8 bytes of a string.
impl<'a> From<&'a str> for PositionIterator<'a> {
    fn from(v: &'a str) -> (it: Self)
        ensures
            it.input() == v.spec_bytes(),
            it.consumed() == 0,
    {
        PositionIterator::new(v.as_bytes())
    }
}

impl<'a> FromSpecImpl<&'a str> for PositionIterator<'a> {
    open spec fn obeys_from_spec() -> bool {
        false
    }

    open spec fn from_spec(v: &'a str) -> Self {
        arbitrary()
    }
}

} // verus!

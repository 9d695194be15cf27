//! Parser and formatter for Lithium Data Notation.

pub mod ast;
pub mod encoding;
pub mod error;
pub mod fmt;
pub mod grammar;
pub mod iter;
pub mod parser;
pub mod pos;
pub mod pretty;
pub mod roundtrip;
pub mod shape;
pub mod text;
pub mod tokenizer;

pub use self::ast::{Atom, Item, List};
pub use self::error::{Error, Result};
pub use self::fmt::fmt;
pub use self::parser::Parser;
pub use self::pos::{Position, Span};
pub use self::pretty::print;

//! Lithium data notation: a parser and a layout-preserving formatter for a
//! small S-expression notation, with every function verified against a
//! mathematical model of the grammar.

pub mod languageserver;
pub mod ldn;

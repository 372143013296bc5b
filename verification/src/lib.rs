//! A strict JSON parser and canonical printer.
//!
//! Parsing turns text into a [`Json`] tree, collecting every lexical or
//! syntax error together with the character range it covers in the original
//! input, rather than stopping at the first problem. Printing renders a tree
//! back to text under a chosen [`Spacing`] policy, deterministically.

use vstd::prelude::*;

pub mod laws;
pub mod lexer;
pub mod number;
pub mod parser;
pub mod printer;
pub mod string;
pub mod token;
pub mod value;

pub use number::try_get_number;
pub use printer::Spacing;
pub use string::try_get_string;
pub use token::Token;
pub use value::JVal;
pub use value::Json;

verus! {

/// The kinds of problem the parser reports.
#[derive(Debug, PartialEq, Eq, Structural, Clone, Copy)]
pub enum ErrorKind {
    InvalidUnicode,
    UnterminatedString,
    InvalidNumber,
    UnexpectedToken,
    UnterminatedObject,
    UnterminatedArray,
    TrailingComma,
}

/// A half-open range `[start, end)` of byte offsets into the original
/// input, pinpointing where an error was found.
#[derive(Debug, PartialEq, Eq, Structural, Clone, Copy)]
pub struct Span {
    pub start: usize,
    pub end: usize,
}

} // verus!

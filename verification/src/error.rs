//! Errors of lexing and parsing.
use vstd::prelude::*;
use crate::token::{Token, TokenView};

verus! {

/// Why an input could not be read as a dice expression.
#[derive(Debug, Clone)]
pub enum ParseError {
    /// A character that starts no token, with the byte offset of that character.
    UnexpectedChar { ch: char, index: usize },
    /// A token other than the one the grammar requires at that place.
    UnexpectedToken { expected: &'static str, found: Token },
    /// The input ended where an expression should start.
    ExpectedExpression,
    /// A function call whose name is none of `min`, `max`, `floor` and `ceil`.
    InvalidFunctionName(String),
    /// A `kh` modifier whose count is not a whole number in the range of `u32`.
    InvalidDiceModifier(String),
    /// No expression was given at all.
    MissingInput,
}

/// The mathematical value of a [`ParseError`].
pub enum ParseErrorView {
    UnexpectedChar { ch: char, index: usize },
    UnexpectedToken { expected: Seq<char>, found: TokenView },
    ExpectedExpression,
    InvalidFunctionName(Seq<char>),
    InvalidDiceModifier(Seq<char>),
    MissingInput,
}

impl View for ParseError {
    type V = ParseErrorView;

    open spec fn view(&self) -> ParseErrorView {
        match self {
            ParseError::UnexpectedChar { ch, index } => ParseErrorView::UnexpectedChar {
                ch: *ch,
                index: *index,
            },
            ParseError::UnexpectedToken { expected, found } => ParseErrorView::UnexpectedToken {
                expected: expected@,
                found: found@,
            },
            ParseError::ExpectedExpression => ParseErrorView::ExpectedExpression,
            ParseError::InvalidFunctionName(s) => ParseErrorView::InvalidFunctionName(s@),
            ParseError::InvalidDiceModifier(s) => ParseErrorView::InvalidDiceModifier(s@),
            ParseError::MissingInput => ParseErrorView::MissingInput,
        }
    }
}

} // verus!

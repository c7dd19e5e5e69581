//! Dice expressions such as `4d6kh3 + 2`: lexing, parsing, the course of an evaluation
//! (its order, its errors and its rolls), and the dice mechanics (rolling dice and keeping
//! the highest ones).
use vstd::prelude::*;

pub mod token;
pub mod error;
pub mod lexer;
pub mod ast;
pub mod text;
pub mod parser;
pub mod dice;
pub mod decimal;
pub mod eval;

pub use token::Token;
pub use error::ParseError;
pub use lexer::Lexer;
pub use ast::{Expr, UnaryOp, BinaryOp, FunctionName, DiceModifier};
pub use parser::{Parser, parse_dice_expression, numerals_well_formed};
pub use dice::{DieRoller, ThreadRoller, roll_dice, keep_dice};
pub use eval::{Evaluation, Action, Answer, EvalFailure};

verus! {

} // verus!

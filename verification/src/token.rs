//! Tokens produced by the lexer and read by the parser.
use vstd::prelude::*;

verus! {

/// A lexical token of a dice expression.
#[derive(Debug, Clone, PartialEq)]
pub enum Token {
    /// A numeral exactly as written: decimal digits with at most one `.`.
    Number(String),
    /// An identifier: a letter or `_`, then letters, digits and `_`.
    Ident(String),
    Plus,
    Minus,
    Star,
    Slash,
    Caret,
    D,
    Comma,
    LParen,
    RParen,
    Eof,
}

/// The mathematical value of a [`Token`]: its text taken as a character sequence.
pub enum TokenView {
    Number(Seq<char>),
    Ident(Seq<char>),
    Plus,
    Minus,
    Star,
    Slash,
    Caret,
    D,
    Comma,
    LParen,
    RParen,
    Eof,
}

impl View for Token {
    type V = TokenView;

    open spec fn view(&self) -> TokenView {
        match self {
            Token::Number(s) => TokenView::Number(s@),
            Token::Ident(s) => TokenView::Ident(s@),
            Token::Plus => TokenView::Plus,
            Token::Minus => TokenView::Minus,
            Token::Star => TokenView::Star,
            Token::Slash => TokenView::Slash,
            Token::Caret => TokenView::Caret,
            Token::D => TokenView::D,
            Token::Comma => TokenView::Comma,
            Token::LParen => TokenView::LParen,
            Token::RParen => TokenView::RParen,
            Token::Eof => TokenView::Eof,
        }
    }
}

/// The views of a sequence of tokens.
pub open spec fn tokens_view(ts: Seq<Token>) -> Seq<TokenView> {
    ts.map_values(|t: Token| t@)
}

impl Token {
    /// A copy of this token with the same text.
    pub fn duplicate(&self) -> (t: Token)
        ensures
            t@ == self@,
    {
        match self {
            Token::Number(s) => Token::Number(s.clone()),
            Token::Ident(s) => Token::Ident(s.clone()),
            Token::Plus => Token::Plus,
            Token::Minus => Token::Minus,
            Token::Star => Token::Star,
            Token::Slash => Token::Slash,
            Token::Caret => Token::Caret,
            Token::D => Token::D,
            Token::Comma => Token::Comma,
            Token::LParen => Token::LParen,
            Token::RParen => Token::RParen,
            Token::Eof => Token::Eof,
        }
    }
}

/// Builds a `String` holding the given characters in order.
///
/// Calls `FromIterator<char>` for `String` (through `Iterator::collect`);
/// the contract claims that the string holds exactly these characters.
#[verifier::external_body]
pub(crate) fn string_from_chars(chars: &Vec<char>) -> (s: String)
    ensures
        s@ == chars@,
{
    chars.iter().collect::<String>()
}

} // verus!

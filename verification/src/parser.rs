//! Recursive-descent parsing of tokens into an expression.
//!
//! Grammar, loosest binding first:
//! `expr := mul (('+' | '-') mul)*`,
//! `mul := power (('*' | '/') power | power)*` (juxtaposition multiplies),
//! `power := unary ('^' power)?` (right associative),
//! `unary := ('+' | '-') unary | dice`,
//! `dice := ('d' primary modifier | primary) ('d' primary modifier)*`,
//! `primary := number | '(' expr ')' | name '(' (expr (',' expr)*)? ')'`.
use vstd::prelude::*;
use crate::token::{Token, TokenView, tokens_view};
use crate::error::{ParseError, ParseErrorView};
use crate::ast::{Expr, ExprView, UnaryOp, BinaryOp, FunctionName, DiceModifier, exprs_view, lemma_call_view};
use crate::text::{lower_seq, ident_keep_count, numeral_keep_count, lowercase_chars, str_chars, numeral_count, ident_tail_count};
use crate::lexer::{Lexer, spec_tokenize, is_numeral, is_digit, lemma_tokenize_shape};

verus! {

/// The outcome of parsing a phrase that starts at some position:
/// the phrase and the position after it, or an error.
pub type Parsed<T> = Result<(T, int), ParseErrorView>;

/// The token at position `p`; `Eof` past the end.
pub open spec fn peek_at(t: Seq<TokenView>, p: int) -> TokenView {
    if 0 <= p < t.len() {
        t[p]
    } else {
        TokenView::Eof
    }
}

/// The position after `p`; it stays at the end.
pub open spec fn next_pos(t: Seq<TokenView>, p: int) -> int {
    if p < t.len() {
        p + 1
    } else {
        p
    }
}

/// A token that starts a factor of an implicit multiplication.
pub open spec fn starts_implicit_mul(tok: TokenView) -> bool {
    tok is Number || tok is LParen || tok is Ident || tok is D
}

/// A position after `p` within the tokens. Parsing never moves back, so this
/// always holds where the grammar functions below test it.
pub open spec fn moved_on(t: Seq<TokenView>, p: int, q: int) -> bool {
    p <= q <= t.len()
}

/// The error that stands where parsing would not have moved on; it is never produced.
pub open spec fn stalled<T>() -> Parsed<T> {
    Err(ParseErrorView::ExpectedExpression)
}

/// The function that a lowercased name calls.
pub open spec fn function_of(name: Seq<char>) -> Option<FunctionName> {
    if name == seq!['m', 'i', 'n'] {
        Some(FunctionName::Min)
    } else if name == seq!['m', 'a', 'x'] {
        Some(FunctionName::Max)
    } else if name == seq!['f', 'l', 'o', 'o', 'r'] {
        Some(FunctionName::Floor)
    } else if name == seq!['c', 'e', 'i', 'l'] {
        Some(FunctionName::Ceil)
    } else {
        None
    }
}

/// The numeral `1`, the count of a roll written without one.
pub open spec fn one_numeral() -> Seq<char> {
    seq!['1']
}

/// `expr` at position `p`.
pub open spec fn parse_expr_at(t: Seq<TokenView>, p: int) -> Parsed<ExprView>
    decreases t.len() - p, 12int,
{
    parse_add_sub_at(t, p)
}

/// A sum or difference of products, left associative.
pub open spec fn parse_add_sub_at(t: Seq<TokenView>, p: int) -> Parsed<ExprView>
    decreases t.len() - p, 11int,
{
    match parse_mul_div_at(t, p) {
        Err(e) => Err(e),
        Ok((e, q)) => if moved_on(t, p, q) {
            add_rest(t, q, e)
        } else {
            stalled()
        },
    }
}

/// The `+` and `-` terms that follow `acc` at position `q`.
pub open spec fn add_rest(t: Seq<TokenView>, q: int, acc: ExprView) -> Parsed<ExprView>
    decreases t.len() - q, 10int,
{
    let tok = peek_at(t, q);
    if tok is Plus || tok is Minus {
        let op = if tok is Plus {
            BinaryOp::Add
        } else {
            BinaryOp::Sub
        };
        match parse_mul_div_at(t, next_pos(t, q)) {
            Err(e) => Err(e),
            Ok((r, q2)) => if q < q2 <= t.len() {
                add_rest(
                    t,
                    q2,
                    ExprView::Binary { left: Box::new(acc), op, right: Box::new(r) },
                )
            } else {
                stalled()
            },
        }
    } else {
        Ok((acc, q))
    }
}

/// A product or quotient of powers, left associative; juxtaposition multiplies.
pub open spec fn parse_mul_div_at(t: Seq<TokenView>, p: int) -> Parsed<ExprView>
    decreases t.len() - p, 9int,
{
    match parse_power_at(t, p) {
        Err(e) => Err(e),
        Ok((e, q)) => if moved_on(t, p, q) {
            mul_rest(t, q, e)
        } else {
            stalled()
        },
    }
}

/// The `*`, `/` and juxtaposed factors that follow `acc` at position `q`.
pub open spec fn mul_rest(t: Seq<TokenView>, q: int, acc: ExprView) -> Parsed<ExprView>
    decreases t.len() - q, 8int,
{
    let tok = peek_at(t, q);
    if tok is Star || tok is Slash || starts_implicit_mul(tok) {
        let op = if tok is Slash {
            BinaryOp::Div
        } else {
            BinaryOp::Mul
        };
        let start = if tok is Star || tok is Slash {
            next_pos(t, q)
        } else {
            q
        };
        match parse_power_at(t, start) {
            Err(e) => Err(e),
            Ok((r, q2)) => if q < q2 <= t.len() {
                mul_rest(
                    t,
                    q2,
                    ExprView::Binary { left: Box::new(acc), op, right: Box::new(r) },
                )
            } else {
                stalled()
            },
        }
    } else {
        Ok((acc, q))
    }
}

/// A unary expression, raised to a power if `^` follows (right associative).
pub open spec fn parse_power_at(t: Seq<TokenView>, p: int) -> Parsed<ExprView>
    decreases t.len() - p, 7int,
{
    match parse_unary_at(t, p) {
        Err(e) => Err(e),
        Ok((l, q)) => if peek_at(t, q) is Caret {
            if p <= q {
                match parse_power_at(t, next_pos(t, q)) {
                    Err(e) => Err(e),
                    Ok((r, q2)) => Ok(
                        (ExprView::Binary { left: Box::new(l), op: BinaryOp::Pow, right: Box::new(r) }, q2),
                    ),
                }
            } else {
                stalled()
            }
        } else {
            Ok((l, q))
        },
    }
}

/// Signs in front of a dice expression.
pub open spec fn parse_unary_at(t: Seq<TokenView>, p: int) -> Parsed<ExprView>
    decreases t.len() - p, 6int,
{
    let tok = peek_at(t, p);
    if tok is Plus || tok is Minus {
        let op = if tok is Plus {
            UnaryOp::Plus
        } else {
            UnaryOp::Minus
        };
        match parse_unary_at(t, next_pos(t, p)) {
            Err(e) => Err(e),
            Ok((e, q)) => Ok((ExprView::Unary { op, expr: Box::new(e) }, q)),
        }
    } else {
        parse_dice_at(t, p)
    }
}

/// A primary, or a roll of dice: `d sides` counts one die; `count d sides` rolls are left associative.
pub open spec fn parse_dice_at(t: Seq<TokenView>, p: int) -> Parsed<ExprView>
    decreases t.len() - p, 5int,
{
    let first = if peek_at(t, p) is D {
        roll_at(t, p, ExprView::Number(one_numeral()))
    } else {
        parse_primary_at(t, p)
    };
    match first {
        Err(e) => Err(e),
        Ok((e, q)) => if moved_on(t, p, q) {
            dice_rest(t, q, e)
        } else {
            stalled()
        },
    }
}

/// The rolls `d sides modifier` that follow `acc` at position `q`.
pub open spec fn dice_rest(t: Seq<TokenView>, q: int, acc: ExprView) -> Parsed<ExprView>
    decreases t.len() - q, 4int,
{
    if peek_at(t, q) is D {
        match roll_at(t, q, acc) {
            Err(e) => Err(e),
            Ok((e, q2)) => if q < q2 <= t.len() {
                dice_rest(t, q2, e)
            } else {
                stalled()
            },
        }
    } else {
        Ok((acc, q))
    }
}

/// A roll of `count` dice at the `d` at position `q`: the sides, then an optional modifier.
pub open spec fn roll_at(t: Seq<TokenView>, q: int, count: ExprView) -> Parsed<ExprView>
    decreases t.len() - q, 3int,
{
    if peek_at(t, q) is D {
        match parse_primary_at(t, next_pos(t, q)) {
            Err(e) => Err(e),
            Ok((s, q1)) => match parse_modifier_at(t, q1) {
                Err(e) => Err(e),
                Ok((m, q2)) => Ok(
                    (ExprView::Dice { count: Box::new(count), sides: Box::new(s), modifier: m }, q2),
                ),
            },
        }
    } else {
        stalled()
    }
}

/// The count of a keep-highest modifier: the number token after `kh`, or the rest of its name.
pub open spec fn keep_count_at(t: Seq<TokenView>, q: int, name: Seq<char>) -> Parsed<
    Option<DiceModifier>,
> {
    let rest = lower_seq(name).skip(2);
    let q1 = next_pos(t, q);
    if rest.len() == 0 {
        match peek_at(t, q1) {
            TokenView::Number(n) => match numeral_keep_count(n) {
                Some(k) => Ok((Some(DiceModifier::KeepHighest(k)), next_pos(t, q1))),
                None => Err(ParseErrorView::InvalidDiceModifier(name)),
            },
            other => Err(
                ParseErrorView::UnexpectedToken { expected: "number after kh"@, found: other },
            ),
        }
    } else {
        match ident_keep_count(rest) {
            Some(k) => Ok((Some(DiceModifier::KeepHighest(k)), q1)),
            None => Err(ParseErrorView::InvalidDiceModifier(name)),
        }
    }
}

/// An optional modifier after the sides of a roll: a name that starts with `kh` in any case.
#[verifier::opaque]
pub open spec fn parse_modifier_at(t: Seq<TokenView>, q: int) -> Parsed<Option<DiceModifier>> {
    match peek_at(t, q) {
        TokenView::Ident(name) => {
            let lower = lower_seq(name);
            if lower.len() >= 2 && lower[0] == 'k' && lower[1] == 'h' {
                keep_count_at(t, q, name)
            } else {
                Ok((None, q))
            }
        },
        _ => Ok((None, q)),
    }
}

/// A number, a parenthesized expression or a function call.
pub open spec fn parse_primary_at(t: Seq<TokenView>, p: int) -> Parsed<ExprView>
    decreases t.len() - p, 3int,
{
    match peek_at(t, p) {
        TokenView::Number(n) => Ok((ExprView::Number(n), next_pos(t, p))),
        TokenView::LParen => match parse_expr_at(t, next_pos(t, p)) {
            Err(e) => Err(e),
            Ok((e, q)) => if peek_at(t, q) is RParen {
                Ok((e, next_pos(t, q)))
            } else {
                Err(ParseErrorView::UnexpectedToken { expected: "')'"@, found: peek_at(t, q) })
            },
        },
        TokenView::Ident(name) => parse_call_at(t, p, name),
        TokenView::Eof => Err(ParseErrorView::ExpectedExpression),
        other => Err(
            ParseErrorView::UnexpectedToken {
                expected: "number, identifier, or '('"@,
                found: other,
            },
        ),
    }
}

/// A call of the function `name` (the identifier at position `p`).
pub open spec fn parse_call_at(t: Seq<TokenView>, p: int, name: Seq<char>) -> Parsed<ExprView>
    decreases t.len() - p, 2int,
{
    match function_of(lower_seq(name)) {
        None => Err(ParseErrorView::InvalidFunctionName(name)),
        Some(f) => {
            let q = next_pos(t, p);
            if !(peek_at(t, q) is LParen) {
                Err(
                    ParseErrorView::UnexpectedToken {
                        expected: "'(' after function name"@,
                        found: peek_at(t, q),
                    },
                )
            } else {
                let q1 = next_pos(t, q);
                let args = if peek_at(t, q1) is RParen {
                    Ok((Seq::<ExprView>::empty(), q1))
                } else if p < q1 {
                    parse_args_at(t, q1, Seq::empty())
                } else {
                    stalled()
                };
                match args {
                    Err(e) => Err(e),
                    Ok((args, q3)) => if peek_at(t, q3) is RParen {
                        Ok((ExprView::FunctionCall { name: f, args }, next_pos(t, q3)))
                    } else {
                        Err(
                            ParseErrorView::UnexpectedToken {
                                expected: "')' after function arguments"@,
                                found: peek_at(t, q3),
                            },
                        )
                    },
                }
            }
        },
    }
}

/// Comma-separated arguments from position `q` on, after the arguments `acc` already read.
pub open spec fn parse_args_at(t: Seq<TokenView>, q: int, acc: Seq<ExprView>) -> Parsed<
    Seq<ExprView>,
>
    decreases t.len() - q, 13int,
{
    match parse_expr_at(t, q) {
        Err(e) => Err(e),
        Ok((e, q2)) => if peek_at(t, q2) is Comma {
            if q <= q2 {
                parse_args_at(t, next_pos(t, q2), acc.push(e))
            } else {
                stalled()
            }
        } else {
            Ok((acc.push(e), q2))
        },
    }
}

/// A whole expression from position `p` on, which must be followed by the end of input.
pub open spec fn parse_from(t: Seq<TokenView>, p: int) -> Result<ExprView, ParseErrorView> {
    match parse_expr_at(t, p) {
        Err(e) => Err(e),
        Ok((e, q)) => if peek_at(t, q) is Eof {
            Ok(e)
        } else {
            Err(ParseErrorView::UnexpectedToken { expected: "end of input"@, found: peek_at(t, q) })
        },
    }
}

} // verus!

verus! {

/// `r` and the position `pos` are what the specification `s` describes.
pub open spec fn parsed_expr(r: Result<Expr, ParseError>, pos: int, s: Parsed<ExprView>) -> bool {
    match s {
        Ok((e, q)) => r is Ok && r->Ok_0@ == e && pos == q,
        Err(err) => r is Err && r->Err_0@ == err,
    }
}

/// The view of what [`Parser::parse`] returns.
pub open spec fn parse_result_view(r: Result<Expr, ParseError>) -> Result<
    ExprView,
    ParseErrorView,
> {
    match r {
        Ok(e) => Ok(e@),
        Err(e) => Err(e@),
    }
}

/// Whether two tokens are the same.
fn same_token(a: &Token, b: &Token) -> (r: bool)
    ensures
        r == (a@ == b@),
{
    match (a, b) {
        (Token::Number(x), Token::Number(y)) => String::eq(x, y),
        (Token::Ident(x), Token::Ident(y)) => String::eq(x, y),
        (Token::Plus, Token::Plus) => true,
        (Token::Minus, Token::Minus) => true,
        (Token::Star, Token::Star) => true,
        (Token::Slash, Token::Slash) => true,
        (Token::Caret, Token::Caret) => true,
        (Token::D, Token::D) => true,
        (Token::Comma, Token::Comma) => true,
        (Token::LParen, Token::LParen) => true,
        (Token::RParen, Token::RParen) => true,
        (Token::Eof, Token::Eof) => true,
        _ => false,
    }
}

/// The function that a lowercased name calls.
fn function_name_of(lower: &Vec<char>) -> (f: Option<FunctionName>)
    ensures
        f == function_of(lower@),
{
    let n = lower.len();
    if n == 3 && lower[0] == 'm' && lower[1] == 'i' && lower[2] == 'n' {
        assert(lower@ =~= seq!['m', 'i', 'n']);
        Some(FunctionName::Min)
    } else if n == 3 && lower[0] == 'm' && lower[1] == 'a' && lower[2] == 'x' {
        assert(lower@ =~= seq!['m', 'a', 'x']);
        Some(FunctionName::Max)
    } else if n == 5 && lower[0] == 'f' && lower[1] == 'l' && lower[2] == 'o' && lower[3] == 'o'
        && lower[4] == 'r' {
        assert(lower@ =~= seq!['f', 'l', 'o', 'o', 'r']);
        Some(FunctionName::Floor)
    } else if n == 4 && lower[0] == 'c' && lower[1] == 'e' && lower[2] == 'i' && lower[3] == 'l' {
        assert(lower@ =~= seq!['c', 'e', 'i', 'l']);
        Some(FunctionName::Ceil)
    } else {
        None
    }
}

/// The numeral `1`.
fn numeral_one() -> (s: String)
    ensures
        s@ == one_numeral(),
{
    let s = "1".to_string();
    proof {
        reveal_strlit("1");
        assert(s@ =~= one_numeral());
    }
    s
}

/// Recursive-descent parser.
pub struct Parser {
    tokens: Vec<Token>,
    index: usize,
}

impl Parser {
    #[verifier::type_invariant]
    spec fn inv(self) -> bool {
        self.index <= self.tokens.len()
    }

    /// The tokens being parsed.
    pub closed spec fn tokens(self) -> Seq<TokenView> {
        tokens_view(self.tokens@)
    }

    /// The position that the parser has reached.
    pub closed spec fn pos(self) -> int {
        self.index as int
    }

    /// A parser at the start of `tokens`.
    pub fn new(tokens: Vec<Token>) -> (p: Self)
        ensures
            p.tokens() == tokens_view(tokens@),
            p.pos() == 0,
    {
        Self { tokens, index: 0 }
    }

    /// A whole expression from the parser's position on, followed by the end of input.
    pub fn parse(self) -> (r: Result<Expr, ParseError>)
        ensures
            parse_result_view(r) == parse_from(self.tokens(), self.pos()),
    {
        let mut parser = self;
        let expr = match parser.parse_expr() {
            Ok(e) => e,
            Err(e) => return Err(e),
        };
        if !matches!(parser.peek(), Token::Eof) {
            return Err(
                ParseError::UnexpectedToken {
                    expected: "end of input",
                    found: parser.peek().duplicate(),
                },
            );
        }
        Ok(expr)
    }

    fn parse_expr(&mut self) -> (r: Result<Expr, ParseError>)
        ensures
            final(self).tokens() == old(self).tokens(),
            parsed_expr(r, final(self).pos(), parse_expr_at(old(self).tokens(), old(self).pos())),
            r is Ok ==> old(self).pos() < final(self).pos(),
        decreases old(self).tokens().len() - old(self).pos(), 12int,
    {
        self.parse_add_sub()
    }

    fn parse_add_sub(&mut self) -> (r: Result<Expr, ParseError>)
        ensures
            final(self).tokens() == old(self).tokens(),
            parsed_expr(r, final(self).pos(), parse_add_sub_at(old(self).tokens(), old(self).pos())),
            r is Ok ==> old(self).pos() < final(self).pos(),
        decreases old(self).tokens().len() - old(self).pos(), 11int,
    {
        let expr = match self.parse_mul_div() {
            Ok(e) => e,
            Err(e) => return Err(e),
        };
        proof {
            use_type_invariant(&*self);
        }
        self.parse_add_rest(expr)
    }

    /// The `+` and `-` terms that follow `acc`.
    fn parse_add_rest(&mut self, acc: Expr) -> (r: Result<Expr, ParseError>)
        ensures
            final(self).tokens() == old(self).tokens(),
            parsed_expr(r, final(self).pos(), add_rest(old(self).tokens(), old(self).pos(), acc@)),
            r is Ok ==> old(self).pos() <= final(self).pos(),
        decreases old(self).tokens().len() - old(self).pos(), 10int,
    {
        proof {
            use_type_invariant(&*self);
        }
        let op = match self.peek() {
            Token::Plus => BinaryOp::Add,
            Token::Minus => BinaryOp::Sub,
            _ => return Ok(acc),
        };
        self.advance();
        let right = match self.parse_mul_div() {
            Ok(e) => e,
            Err(e) => return Err(e),
        };
        proof {
            use_type_invariant(&*self);
        }
        self.parse_add_rest(Expr::Binary { left: Box::new(acc), op, right: Box::new(right) })
    }

    fn parse_mul_div(&mut self) -> (r: Result<Expr, ParseError>)
        ensures
            final(self).tokens() == old(self).tokens(),
            parsed_expr(r, final(self).pos(), parse_mul_div_at(old(self).tokens(), old(self).pos())),
            r is Ok ==> old(self).pos() < final(self).pos(),
        decreases old(self).tokens().len() - old(self).pos(), 9int,
    {
        let expr = match self.parse_power() {
            Ok(e) => e,
            Err(e) => return Err(e),
        };
        proof {
            use_type_invariant(&*self);
        }
        self.parse_mul_rest(expr)
    }

    /// The `*`, `/` and juxtaposed factors that follow `acc`.
    fn parse_mul_rest(&mut self, acc: Expr) -> (r: Result<Expr, ParseError>)
        ensures
            final(self).tokens() == old(self).tokens(),
            parsed_expr(r, final(self).pos(), mul_rest(old(self).tokens(), old(self).pos(), acc@)),
            r is Ok ==> old(self).pos() <= final(self).pos(),
        decreases old(self).tokens().len() - old(self).pos(), 8int,
    {
        proof {
            use_type_invariant(&*self);
        }
        let op = match self.peek() {
            Token::Star => {
                self.advance();
                BinaryOp::Mul
            },
            Token::Slash => {
                self.advance();
                BinaryOp::Div
            },
            t => if Self::starts_implicit_mul_rhs(t) {
                BinaryOp::Mul
            } else {
                return Ok(acc);
            },
        };
        let right = match self.parse_power() {
            Ok(e) => e,
            Err(e) => return Err(e),
        };
        proof {
            use_type_invariant(&*self);
        }
        self.parse_mul_rest(Expr::Binary { left: Box::new(acc), op, right: Box::new(right) })
    }

    fn parse_power(&mut self) -> (r: Result<Expr, ParseError>)
        ensures
            final(self).tokens() == old(self).tokens(),
            parsed_expr(r, final(self).pos(), parse_power_at(old(self).tokens(), old(self).pos())),
            r is Ok ==> old(self).pos() < final(self).pos(),
        decreases old(self).tokens().len() - old(self).pos(), 7int,
    {
        let left = match self.parse_unary() {
            Ok(e) => e,
            Err(e) => return Err(e),
        };
        proof {
            use_type_invariant(&*self);
        }
        if matches!(self.peek(), Token::Caret) {
            self.advance();
            let right = match self.parse_power() {
                Ok(e) => e,
                Err(e) => return Err(e),
            };
            Ok(Expr::Binary { left: Box::new(left), op: BinaryOp::Pow, right: Box::new(right) })
        } else {
            Ok(left)
        }
    }

    fn parse_unary(&mut self) -> (r: Result<Expr, ParseError>)
        ensures
            final(self).tokens() == old(self).tokens(),
            parsed_expr(r, final(self).pos(), parse_unary_at(old(self).tokens(), old(self).pos())),
            r is Ok ==> old(self).pos() < final(self).pos(),
        decreases old(self).tokens().len() - old(self).pos(), 6int,
    {
        proof {
            use_type_invariant(&*self);
        }
        let op = match self.peek() {
            Token::Plus => UnaryOp::Plus,
            Token::Minus => UnaryOp::Minus,
            _ => return self.parse_dice(),
        };
        self.advance();
        let inner = match self.parse_unary() {
            Ok(e) => e,
            Err(e) => return Err(e),
        };
        Ok(Expr::Unary { op, expr: Box::new(inner) })
    }

    fn parse_dice(&mut self) -> (r: Result<Expr, ParseError>)
        ensures
            final(self).tokens() == old(self).tokens(),
            parsed_expr(r, final(self).pos(), parse_dice_at(old(self).tokens(), old(self).pos())),
            r is Ok ==> old(self).pos() < final(self).pos(),
        decreases old(self).tokens().len() - old(self).pos(), 5int,
    {
        let expr = if matches!(self.peek(), Token::D) {
            match self.parse_roll(Expr::Number(numeral_one())) {
                Ok(e) => e,
                Err(e) => return Err(e),
            }
        } else {
            match self.parse_postfix_primary() {
                Ok(e) => e,
                Err(e) => return Err(e),
            }
        };
        proof {
            use_type_invariant(&*self);
        }
        self.parse_dice_rest(expr)
    }

    /// The rolls `d sides modifier` that follow `acc`.
    fn parse_dice_rest(&mut self, acc: Expr) -> (r: Result<Expr, ParseError>)
        ensures
            final(self).tokens() == old(self).tokens(),
            parsed_expr(r, final(self).pos(), dice_rest(old(self).tokens(), old(self).pos(), acc@)),
            r is Ok ==> old(self).pos() <= final(self).pos(),
        decreases old(self).tokens().len() - old(self).pos(), 4int,
    {
        if !matches!(self.peek(), Token::D) {
            return Ok(acc);
        }
        let expr = match self.parse_roll(acc) {
            Ok(e) => e,
            Err(e) => return Err(e),
        };
        proof {
            use_type_invariant(&*self);
        }
        self.parse_dice_rest(expr)
    }

    /// A roll of `count` dice at a `d`: the sides, then an optional modifier.
    fn parse_roll(&mut self, count: Expr) -> (r: Result<Expr, ParseError>)
        requires
            peek_at(old(self).tokens(), old(self).pos()) is D,
        ensures
            final(self).tokens() == old(self).tokens(),
            parsed_expr(r, final(self).pos(), roll_at(old(self).tokens(), old(self).pos(), count@)),
            r is Ok ==> old(self).pos() < final(self).pos(),
        decreases old(self).tokens().len() - old(self).pos(), 3int,
    {
        proof {
            use_type_invariant(&*self);
        }
        self.advance();
        let sides = match self.parse_postfix_primary() {
            Ok(e) => e,
            Err(e) => return Err(e),
        };
        let modifier = match self.parse_dice_modifier() {
            Ok(m) => m,
            Err(e) => return Err(e),
        };
        Ok(Expr::Dice { count: Box::new(count), sides: Box::new(sides), modifier })
    }

    fn parse_dice_modifier(&mut self) -> (r: Result<Option<DiceModifier>, ParseError>)
        ensures
            final(self).tokens() == old(self).tokens(),
            match parse_modifier_at(old(self).tokens(), old(self).pos()) {
                Ok((m, q)) => r == Ok::<Option<DiceModifier>, ParseError>(m) && final(self).pos() == q,
                Err(err) => r is Err && r->Err_0@ == err,
            },
            r is Ok ==> old(self).pos() <= final(self).pos(),
    {
        proof {
            use_type_invariant(&*self);
            reveal(parse_modifier_at);
        }
        match self.peek().duplicate() {
            Token::Ident(name) => {
                let lower = lowercase_chars(name.as_str());
                if lower.len() >= 2 && lower[0] == 'k' && lower[1] == 'h' {
                    self.advance();
                    let count = if lower.len() == 2 {
                        match self.peek().duplicate() {
                            Token::Number(n) => {
                                self.advance();
                                match numeral_count(&str_chars(n.as_str())) {
                                    Some(c) => c,
                                    None => return Err(ParseError::InvalidDiceModifier(name)),
                                }
                            },
                            other => {
                                return Err(
                                    ParseError::UnexpectedToken {
                                        expected: "number after kh",
                                        found: other,
                                    },
                                )
                            },
                        }
                    } else {
                        let mut lower = lower;
                        let rest = lower.split_off(2);
                        match ident_tail_count(&rest) {
                            Some(c) => c,
                            None => return Err(ParseError::InvalidDiceModifier(name)),
                        }
                    };
                    Ok(Some(DiceModifier::KeepHighest(count)))
                } else {
                    Ok(None)
                }
            },
            _ => Ok(None),
        }
    }

    fn parse_postfix_primary(&mut self) -> (r: Result<Expr, ParseError>)
        ensures
            final(self).tokens() == old(self).tokens(),
            parsed_expr(r, final(self).pos(), parse_primary_at(old(self).tokens(), old(self).pos())),
            r is Ok ==> old(self).pos() < final(self).pos(),
        decreases old(self).tokens().len() - old(self).pos(), 2int,
    {
        self.parse_primary()
    }

    fn parse_primary(&mut self) -> (r: Result<Expr, ParseError>)
        ensures
            final(self).tokens() == old(self).tokens(),
            parsed_expr(r, final(self).pos(), parse_primary_at(old(self).tokens(), old(self).pos())),
            r is Ok ==> old(self).pos() < final(self).pos(),
        decreases old(self).tokens().len() - old(self).pos(), 1int,
    {
        proof {
            use_type_invariant(&*self);
        }
        match self.peek().duplicate() {
            Token::Number(n) => {
                self.advance();
                Ok(Expr::Number(n))
            },
            Token::LParen => {
                self.advance();
                let expr = match self.parse_expr() {
                    Ok(e) => e,
                    Err(e) => return Err(e),
                };
                match self.expect(Token::RParen, "')'") {
                    Ok(()) => Ok(expr),
                    Err(e) => Err(e),
                }
            },
            Token::Ident(name) => self.parse_function_call(name),
            Token::Eof => Err(ParseError::ExpectedExpression),
            other => Err(
                ParseError::UnexpectedToken {
                    expected: "number, identifier, or '('",
                    found: other,
                },
            ),
        }
    }

    fn parse_function_call(&mut self, name: String) -> (r: Result<Expr, ParseError>)
        requires
            peek_at(old(self).tokens(), old(self).pos()) == TokenView::Ident(name@),
        ensures
            final(self).tokens() == old(self).tokens(),
            parsed_expr(
                r,
                final(self).pos(),
                parse_call_at(old(self).tokens(), old(self).pos(), name@),
            ),
            r is Ok ==> old(self).pos() < final(self).pos(),
            function_of(lower_seq(name@)) is None ==> final(self).pos() == old(self).pos(),
        decreases old(self).tokens().len() - old(self).pos(), 0int,
    {
        proof {
            use_type_invariant(&*self);
        }
        let lower = lowercase_chars(name.as_str());
        let function_name = match function_name_of(&lower) {
            Some(f) => f,
            None => return Err(ParseError::InvalidFunctionName(name)),
        };
        self.advance();
        match self.expect(Token::LParen, "'(' after function name") {
            Ok(()) => {},
            Err(e) => return Err(e),
        }
        proof {
            use_type_invariant(&*self);
        }
        let mut args: Vec<Expr> = Vec::new();
        assert(exprs_view(args@) =~= Seq::<ExprView>::empty());
        if !matches!(self.peek(), Token::RParen) {
            match self.parse_args(args) {
                Ok(a) => args = a,
                Err(e) => return Err(e),
            }
        }
        match self.expect(Token::RParen, "')' after function arguments") {
            Ok(()) => {},
            Err(e) => return Err(e),
        }
        proof {
            lemma_call_view(function_name, args);
        }
        Ok(Expr::FunctionCall { name: function_name, args })
    }

    /// Comma-separated arguments, after the arguments `acc` already read.
    fn parse_args(&mut self, acc: Vec<Expr>) -> (r: Result<Vec<Expr>, ParseError>)
        ensures
            final(self).tokens() == old(self).tokens(),
            match parse_args_at(old(self).tokens(), old(self).pos(), exprs_view(acc@)) {
                Ok((a, q)) => r is Ok && exprs_view(r->Ok_0@) == a && final(self).pos() == q,
                Err(err) => r is Err && r->Err_0@ == err,
            },
            r is Ok ==> old(self).pos() < final(self).pos(),
        decreases old(self).tokens().len() - old(self).pos(), 13int,
    {
        let mut acc = acc;
        let ghost before = exprs_view(acc@);
        let e = match self.parse_expr() {
            Ok(e) => e,
            Err(e) => return Err(e),
        };
        acc.push(e);
        assert(exprs_view(acc@) =~= before.push(e@));
        proof {
            use_type_invariant(&*self);
        }
        if matches!(self.peek(), Token::Comma) {
            self.advance();
            self.parse_args(acc)
        } else {
            Ok(acc)
        }
    }

    fn expect(&mut self, expected: Token, expected_name: &'static str) -> (r: Result<(), ParseError>)
        ensures
            final(self).tokens() == old(self).tokens(),
            peek_at(old(self).tokens(), old(self).pos()) == expected@ ==> r is Ok && final(self).pos()
                == next_pos(old(self).tokens(), old(self).pos()),
            peek_at(old(self).tokens(), old(self).pos()) != expected@ ==> r is Err && r->Err_0@
                == (ParseErrorView::UnexpectedToken {
                expected: expected_name@,
                found: peek_at(old(self).tokens(), old(self).pos()),
            }) && final(self).pos() == old(self).pos(),
    {
        if same_token(self.peek(), &expected) {
            self.advance();
            Ok(())
        } else {
            Err(ParseError::UnexpectedToken { expected: expected_name, found: self.peek().duplicate() })
        }
    }

    fn starts_implicit_mul_rhs(token: &Token) -> (r: bool)
        ensures
            r == starts_implicit_mul(token@),
    {
        matches!(token, Token::Number(_) | Token::LParen | Token::Ident(_) | Token::D)
    }

    fn peek(&self) -> (t: &Token)
        ensures
            t@ == peek_at(self.tokens(), self.pos()),
    {
        proof {
            use_type_invariant(self);
        }
        if self.index < self.tokens.len() {
            &self.tokens[self.index]
        } else {
            &Token::Eof
        }
    }

    fn advance(&mut self)
        ensures
            final(self).tokens() == old(self).tokens(),
            final(self).pos() == next_pos(old(self).tokens(), old(self).pos()),
    {
        proof {
            use_type_invariant(&*self);
        }
        if self.index < self.tokens.len() {
            self.index = self.index + 1;
        }
    }
}

/// Lexes and parses a whole input string.
pub fn parse_dice_expression(input: &str) -> (r: Result<Expr, ParseError>)
    ensures
        parse_result_view(r) == match spec_tokenize(input@) {
            Ok(t) => parse_from(t, 0),
            Err(e) => Err(e),
        },
        r matches Ok(e) ==> numerals_ok(e@),
{
    proof {
        lemma_parsed_numerals(input@);
    }
    let tokens = match Lexer::new(input).tokenize() {
        Ok(t) => t,
        Err(e) => return Err(e),
    };
    Parser::new(tokens).parse()
}

} // verus!

verus! {

/// Every numeral in the expression is well formed: digits with at most one `.`.
pub open spec fn numerals_ok(e: ExprView) -> bool
    decreases e,
{
    match e {
        ExprView::Number(n) => is_numeral(n),
        ExprView::Unary { expr, .. } => numerals_ok(*expr),
        ExprView::Binary { left, right, .. } => numerals_ok(*left) && numerals_ok(*right),
        ExprView::Dice { count, sides, .. } => numerals_ok(*count) && numerals_ok(*sides),
        ExprView::FunctionCall { args, .. } => all_numerals_ok(args),
    }
}

/// Every numeral in every one of the expressions is well formed.
pub open spec fn all_numerals_ok(args: Seq<ExprView>) -> bool
    decreases args,
{
    if args.len() == 0 {
        true
    } else {
        all_numerals_ok(args.drop_last()) && numerals_ok(args.last())
    }
}

/// Every numeral token is well formed.
pub open spec fn token_numerals_ok(t: Seq<TokenView>) -> bool {
    forall|j: int| 0 <= j < t.len() ==> (#[trigger] t[j] matches TokenView::Number(n) ==> is_numeral(n))
}

// The lemmas below follow the grammar functions one for one, each by the same measure, and
// show that a phrase parsed from tokens with well-formed numerals has only well-formed numerals.

/// An `expr` has well-formed numerals.
proof fn lemma_expr_at_numerals(t: Seq<TokenView>, p: int)
    requires
        token_numerals_ok(t),
    ensures
        parse_expr_at(t, p) matches Ok((e, _)) ==> numerals_ok(e),
    decreases t.len() - p, 12int,
{
    lemma_add_sub_at_numerals(t, p);
}

/// A sum has well-formed numerals.
proof fn lemma_add_sub_at_numerals(t: Seq<TokenView>, p: int)
    requires
        token_numerals_ok(t),
    ensures
        parse_add_sub_at(t, p) matches Ok((e, _)) ==> numerals_ok(e),
    decreases t.len() - p, 11int,
{
    lemma_mul_div_at_numerals(t, p);
    if let Ok((e, q)) = parse_mul_div_at(t, p) {
        if moved_on(t, p, q) {
            lemma_add_rest_numerals(t, q, e);
        }
    }
}

/// The terms after a sum's first have well-formed numerals.
proof fn lemma_add_rest_numerals(t: Seq<TokenView>, q: int, acc: ExprView)
    requires
        token_numerals_ok(t),
        numerals_ok(acc),
    ensures
        add_rest(t, q, acc) matches Ok((e, _)) ==> numerals_ok(e),
    decreases t.len() - q, 10int,
{
    let tok = peek_at(t, q);
    if tok is Plus || tok is Minus {
        let op = if tok is Plus {
            BinaryOp::Add
        } else {
            BinaryOp::Sub
        };
        lemma_mul_div_at_numerals(t, next_pos(t, q));
        if let Ok((r, q2)) = parse_mul_div_at(t, next_pos(t, q)) {
            if q < q2 <= t.len() {
                lemma_add_rest_numerals(
                    t,
                    q2,
                    ExprView::Binary { left: Box::new(acc), op, right: Box::new(r) },
                );
            }
        }
    }
}

/// A product has well-formed numerals.
proof fn lemma_mul_div_at_numerals(t: Seq<TokenView>, p: int)
    requires
        token_numerals_ok(t),
    ensures
        parse_mul_div_at(t, p) matches Ok((e, _)) ==> numerals_ok(e),
    decreases t.len() - p, 9int,
{
    lemma_power_at_numerals(t, p);
    if let Ok((e, q)) = parse_power_at(t, p) {
        if moved_on(t, p, q) {
            lemma_mul_rest_numerals(t, q, e);
        }
    }
}

/// The factors after a product's first have well-formed numerals.
proof fn lemma_mul_rest_numerals(t: Seq<TokenView>, q: int, acc: ExprView)
    requires
        token_numerals_ok(t),
        numerals_ok(acc),
    ensures
        mul_rest(t, q, acc) matches Ok((e, _)) ==> numerals_ok(e),
    decreases t.len() - q, 8int,
{
    let tok = peek_at(t, q);
    if tok is Star || tok is Slash || starts_implicit_mul(tok) {
        let op = if tok is Slash {
            BinaryOp::Div
        } else {
            BinaryOp::Mul
        };
        let start = if tok is Star || tok is Slash {
            next_pos(t, q)
        } else {
            q
        };
        lemma_power_at_numerals(t, start);
        if let Ok((r, q2)) = parse_power_at(t, start) {
            if q < q2 <= t.len() {
                lemma_mul_rest_numerals(
                    t,
                    q2,
                    ExprView::Binary { left: Box::new(acc), op, right: Box::new(r) },
                );
            }
        }
    }
}

/// A power has well-formed numerals.
proof fn lemma_power_at_numerals(t: Seq<TokenView>, p: int)
    requires
        token_numerals_ok(t),
    ensures
        parse_power_at(t, p) matches Ok((e, _)) ==> numerals_ok(e),
    decreases t.len() - p, 7int,
{
    lemma_unary_at_numerals(t, p);
    if let Ok((l, q)) = parse_unary_at(t, p) {
        if peek_at(t, q) is Caret && p <= q {
            lemma_power_at_numerals(t, next_pos(t, q));
        }
    }
}

/// A signed expression has well-formed numerals.
proof fn lemma_unary_at_numerals(t: Seq<TokenView>, p: int)
    requires
        token_numerals_ok(t),
    ensures
        parse_unary_at(t, p) matches Ok((e, _)) ==> numerals_ok(e),
    decreases t.len() - p, 6int,
{
    let tok = peek_at(t, p);
    if tok is Plus || tok is Minus {
        lemma_unary_at_numerals(t, next_pos(t, p));
    } else {
        lemma_dice_at_numerals(t, p);
    }
}

/// A dice expression has well-formed numerals.
proof fn lemma_dice_at_numerals(t: Seq<TokenView>, p: int)
    requires
        token_numerals_ok(t),
    ensures
        parse_dice_at(t, p) matches Ok((e, _)) ==> numerals_ok(e),
    decreases t.len() - p, 5int,
{
    let one = ExprView::Number(one_numeral());
    assert(numerals_ok(one)) by {
        assert(one_numeral()[0] == '1');
    }
    if peek_at(t, p) is D {
        lemma_roll_at_numerals(t, p, one);
    } else {
        lemma_primary_at_numerals(t, p);
    }
    let first = if peek_at(t, p) is D {
        roll_at(t, p, one)
    } else {
        parse_primary_at(t, p)
    };
    if let Ok((e, q)) = first {
        if moved_on(t, p, q) {
            lemma_dice_rest_numerals(t, q, e);
        }
    }
}

/// The rolls after a dice expression's first have well-formed numerals.
proof fn lemma_dice_rest_numerals(t: Seq<TokenView>, q: int, acc: ExprView)
    requires
        token_numerals_ok(t),
        numerals_ok(acc),
    ensures
        dice_rest(t, q, acc) matches Ok((e, _)) ==> numerals_ok(e),
    decreases t.len() - q, 4int,
{
    if peek_at(t, q) is D {
        lemma_roll_at_numerals(t, q, acc);
        if let Ok((e, q2)) = roll_at(t, q, acc) {
            if q < q2 <= t.len() {
                lemma_dice_rest_numerals(t, q2, e);
            }
        }
    }
}

/// A roll has well-formed numerals.
proof fn lemma_roll_at_numerals(t: Seq<TokenView>, q: int, count: ExprView)
    requires
        token_numerals_ok(t),
        numerals_ok(count),
    ensures
        roll_at(t, q, count) matches Ok((e, _)) ==> numerals_ok(e),
    decreases t.len() - q, 3int,
{
    if peek_at(t, q) is D {
        lemma_primary_at_numerals(t, next_pos(t, q));
    }
}

/// A primary has well-formed numerals.
proof fn lemma_primary_at_numerals(t: Seq<TokenView>, p: int)
    requires
        token_numerals_ok(t),
    ensures
        parse_primary_at(t, p) matches Ok((e, _)) ==> numerals_ok(e),
    decreases t.len() - p, 3int,
{
    match peek_at(t, p) {
        TokenView::Number(n) => {
            assert(t[p] matches TokenView::Number(n) ==> is_numeral(n));
        },
        TokenView::LParen => {
            lemma_expr_at_numerals(t, next_pos(t, p));
        },
        TokenView::Ident(name) => {
            lemma_call_at_numerals(t, p, name);
        },
        _ => {},
    }
}

/// A call has well-formed numerals.
proof fn lemma_call_at_numerals(t: Seq<TokenView>, p: int, name: Seq<char>)
    requires
        token_numerals_ok(t),
    ensures
        parse_call_at(t, p, name) matches Ok((e, _)) ==> numerals_ok(e),
    decreases t.len() - p, 2int,
{
    let q1 = next_pos(t, next_pos(t, p));
    assert(all_numerals_ok(Seq::<ExprView>::empty()));
    if !(peek_at(t, q1) is RParen) && p < q1 {
        lemma_args_at_numerals(t, q1, Seq::empty());
    }
    if let Ok((e, _)) = parse_call_at(t, p, name) {
        assert(e matches ExprView::FunctionCall { args, .. } && all_numerals_ok(args));
    }
}

/// The arguments of a call have well-formed numerals.
proof fn lemma_args_at_numerals(t: Seq<TokenView>, q: int, acc: Seq<ExprView>)
    requires
        token_numerals_ok(t),
        all_numerals_ok(acc),
    ensures
        parse_args_at(t, q, acc) matches Ok((args, _)) ==> all_numerals_ok(args),
    decreases t.len() - q, 13int,
{
    lemma_expr_at_numerals(t, q);
    if let Ok((e, q2)) = parse_expr_at(t, q) {
        assert(acc.push(e).drop_last() =~= acc);
        if peek_at(t, q2) is Comma && q <= q2 {
            lemma_args_at_numerals(t, next_pos(t, q2), acc.push(e));
        }
    }
}

/// Every numeral in an expression that the parser reads from a lexed input is well formed:
/// digits with at most one `.`, never a lone `.`. So each is a decimal literal with a value.
pub proof fn lemma_parsed_numerals(s: Seq<char>)
    ensures
        spec_tokenize(s) matches Ok(t) ==> (parse_from(t, 0) matches Ok(e) ==> numerals_ok(e)),
{
    lemma_tokenize_shape(s, 0);
    if let Ok(t) = spec_tokenize(s) {
        assert(token_numerals_ok(t));
        lemma_expr_at_numerals(t, 0);
    }
}

} // verus!

verus! {

/// Whether the text is a well-formed numeral: digits with at most one `.`, not a lone `.`.
fn numeral_text_ok(text: &String) -> (r: bool)
    ensures
        r == is_numeral(text@),
{
    let cs = str_chars(text.as_str());
    let n = cs.len();
    if n == 0 {
        return false;
    }
    if n == 1 && cs[0] == '.' {
        assert(cs@ =~= seq!['.']);
        return false;
    }
    let mut dots: usize = 0;
    let mut first_dot: usize = 0;
    let mut k: usize = 0;
    while k < n
        invariant
            n == cs@.len(),
            cs@ == text@,
            k <= n,
            dots <= 1,
            forall|j: int| 0 <= j < k ==> is_digit(#[trigger] cs@[j]) || cs@[j] == '.',
            dots == 0 ==> forall|j: int| 0 <= j < k ==> #[trigger] cs@[j] != '.',
            dots == 1 ==> first_dot < k && cs@[first_dot as int] == '.',
            dots == 1 ==> forall|j: int| 0 <= j < k && j != first_dot ==> #[trigger] cs@[j] != '.',
        decreases n - k,
    {
        let c = cs[k];
        if c == '.' {
            if dots == 1 {
                assert(cs@[first_dot as int] == '.' && first_dot < k);
                return false;
            }
            dots = 1;
            first_dot = k;
        } else if !('0' <= c && c <= '9') {
            return false;
        }
        k = k + 1;
    }
    proof {
        if cs@ == seq!['.'] {
            assert(cs@.len() == 1 && cs@[0] == '.');
        }
    }
    true
}

/// Whether every numeral in the expression is well formed.
pub fn numerals_well_formed(expr: &Expr) -> (r: bool)
    ensures
        r == numerals_ok(expr@),
    decreases expr,
{
    match expr {
        Expr::Number(n) => numeral_text_ok(n),
        Expr::Unary { expr: inner, .. } => numerals_well_formed(inner),
        Expr::Binary { left, right, .. } => numerals_well_formed(left) && numerals_well_formed(right),
        Expr::Dice { count, sides, .. } => numerals_well_formed(count) && numerals_well_formed(sides),
        Expr::FunctionCall { name, args } => {
            proof {
                lemma_call_view(*name, *args);
            }
            let ghost av = exprs_view(args@);
            let mut i: usize = 0;
            assert(av.take(0) =~= Seq::<ExprView>::empty());
            while i < args.len()
                invariant
                    i <= args@.len(),
                    av == exprs_view(args@),
                    expr is FunctionCall,
                    expr->args == *args,
                    expr@ == (ExprView::FunctionCall { name: *name, args: av }),
                    all_numerals_ok(av.take(i as int)),
                decreases args@.len() - i,
            {
                proof {
                    assert(decreases_to!(*expr => expr->args));
                    assert(decreases_to!(expr->args => expr->args@));
                    assert(decreases_to!(expr->args@ => expr->args@[i as int]));
                }
                let ok = numerals_well_formed(&args[i]);
                proof {
                    assert(av.take(i + 1).drop_last() =~= av.take(i as int));
                    assert(av.take(i + 1).last() == args@[i as int]@);
                    if !ok && all_numerals_ok(av) {
                        assert(av.take(av.len() as int) =~= av);
                        lemma_all_numerals_prefix(av, i + 1, av.len() as int);
                    }
                }
                if !ok {
                    return false;
                }
                i = i + 1;
            }
            assert(av.take(args@.len() as int) =~= av);
            true
        },
    }
}

/// Expressions whose numerals are all well formed have well-formed numerals in every prefix.
proof fn lemma_all_numerals_prefix(s: Seq<ExprView>, i: int, j: int)
    requires
        0 <= i <= j <= s.len(),
        all_numerals_ok(s.take(j)),
    ensures
        all_numerals_ok(s.take(i)),
    decreases j - i,
{
    if i < j {
        assert(s.take(j).drop_last() =~= s.take(j - 1));
        lemma_all_numerals_prefix(s, i, j - 1);
    }
}

} // verus!

verus! {

/// The operator that a `*` or `/` token writes.
pub open spec fn product_op(tok: TokenView) -> BinaryOp {
    if tok is Slash {
        BinaryOp::Div
    } else {
        BinaryOp::Mul
    }
}

/// The operator that a `+` or `-` token writes.
pub open spec fn sum_op(tok: TokenView) -> BinaryOp {
    if tok is Minus {
        BinaryOp::Sub
    } else {
        BinaryOp::Add
    }
}

/// Products and quotients group from the left: three powers `a`, `b`, `c` joined by `*` or `/`
/// read as `(a o1 b) o2 c`, each operator as written, and nothing more is taken.
pub proof fn lemma_product_left_assoc(
    t: Seq<TokenView>,
    p0: int,
    a: ExprView,
    q1: int,
    b: ExprView,
    q2: int,
    c: ExprView,
    q3: int,
)
    requires
        0 <= p0 <= q1 < q2 < q3 <= t.len(),
        parse_power_at(t, p0) == Ok::<(ExprView, int), ParseErrorView>((a, q1)),
        peek_at(t, q1) is Star || peek_at(t, q1) is Slash,
        parse_power_at(t, q1 + 1) == Ok::<(ExprView, int), ParseErrorView>((b, q2)),
        peek_at(t, q2) is Star || peek_at(t, q2) is Slash,
        parse_power_at(t, q2 + 1) == Ok::<(ExprView, int), ParseErrorView>((c, q3)),
        !(peek_at(t, q3) is Star || peek_at(t, q3) is Slash || starts_implicit_mul(peek_at(t, q3))),
    ensures
        parse_mul_div_at(t, p0) == Ok::<(ExprView, int), ParseErrorView>(
            (
                ExprView::Binary {
                    left: Box::new(
                        ExprView::Binary {
                            left: Box::new(a),
                            op: product_op(peek_at(t, q1)),
                            right: Box::new(b),
                        },
                    ),
                    op: product_op(peek_at(t, q2)),
                    right: Box::new(c),
                },
                q3,
            ),
        ),
{
    let ab = ExprView::Binary { left: Box::new(a), op: product_op(peek_at(t, q1)), right: Box::new(b) };
    let abc = ExprView::Binary { left: Box::new(ab), op: product_op(peek_at(t, q2)), right: Box::new(c) };
    assert(mul_rest(t, q3, abc) == Ok::<(ExprView, int), ParseErrorView>((abc, q3)));
    assert(mul_rest(t, q2, ab) == mul_rest(t, q3, abc));
    assert(mul_rest(t, q1, a) == mul_rest(t, q2, ab));
}

/// Sums and differences group from the left: three products `a`, `b`, `c` joined by `+` or `-`
/// read as `(a o1 b) o2 c`, each operator as written, and nothing more is taken.
pub proof fn lemma_sum_left_assoc(
    t: Seq<TokenView>,
    p0: int,
    a: ExprView,
    q1: int,
    b: ExprView,
    q2: int,
    c: ExprView,
    q3: int,
)
    requires
        0 <= p0 <= q1 < q2 < q3 <= t.len(),
        parse_mul_div_at(t, p0) == Ok::<(ExprView, int), ParseErrorView>((a, q1)),
        peek_at(t, q1) is Plus || peek_at(t, q1) is Minus,
        parse_mul_div_at(t, q1 + 1) == Ok::<(ExprView, int), ParseErrorView>((b, q2)),
        peek_at(t, q2) is Plus || peek_at(t, q2) is Minus,
        parse_mul_div_at(t, q2 + 1) == Ok::<(ExprView, int), ParseErrorView>((c, q3)),
        !(peek_at(t, q3) is Plus || peek_at(t, q3) is Minus),
    ensures
        parse_add_sub_at(t, p0) == Ok::<(ExprView, int), ParseErrorView>(
            (
                ExprView::Binary {
                    left: Box::new(
                        ExprView::Binary {
                            left: Box::new(a),
                            op: sum_op(peek_at(t, q1)),
                            right: Box::new(b),
                        },
                    ),
                    op: sum_op(peek_at(t, q2)),
                    right: Box::new(c),
                },
                q3,
            ),
        ),
{
    let ab = ExprView::Binary { left: Box::new(a), op: sum_op(peek_at(t, q1)), right: Box::new(b) };
    let abc = ExprView::Binary { left: Box::new(ab), op: sum_op(peek_at(t, q2)), right: Box::new(c) };
    assert(add_rest(t, q3, abc) == Ok::<(ExprView, int), ParseErrorView>((abc, q3)));
    assert(add_rest(t, q2, ab) == add_rest(t, q3, abc));
    assert(add_rest(t, q1, a) == add_rest(t, q2, ab));
}


/// A product grows one power at a time on the right of all that came before: at a `*` or `/`
/// (or a factor written right after, which multiplies) the next power becomes the right operand
/// of a node whose left operand is everything so far; at any other token the product ends there.
pub proof fn lemma_product_step(t: Seq<TokenView>, q: int, acc: ExprView, r: ExprView, q2: int)
    requires
        q < q2 <= t.len(),
    ensures
        (peek_at(t, q) is Star || peek_at(t, q) is Slash) && parse_power_at(t, q + 1) == Ok::<
            (ExprView, int),
            ParseErrorView,
        >((r, q2)) ==> mul_rest(t, q, acc) == mul_rest(
            t,
            q2,
            ExprView::Binary { left: Box::new(acc), op: product_op(peek_at(t, q)), right: Box::new(r) },
        ),
        starts_implicit_mul(peek_at(t, q)) && parse_power_at(t, q) == Ok::<(ExprView, int), ParseErrorView>(
            (r, q2),
        ) ==> mul_rest(t, q, acc) == mul_rest(
            t,
            q2,
            ExprView::Binary { left: Box::new(acc), op: BinaryOp::Mul, right: Box::new(r) },
        ),
        !(peek_at(t, q) is Star || peek_at(t, q) is Slash || starts_implicit_mul(peek_at(t, q)))
            ==> mul_rest(t, q, acc) == Ok::<(ExprView, int), ParseErrorView>((acc, q)),
{
}

/// A sum grows one product at a time on the right of all that came before: at a `+` or `-` the
/// next product becomes the right operand of a node whose left operand is everything so far; at
/// any other token the sum ends there.
pub proof fn lemma_sum_step(t: Seq<TokenView>, q: int, acc: ExprView, r: ExprView, q2: int)
    requires
        q < q2 <= t.len(),
    ensures
        (peek_at(t, q) is Plus || peek_at(t, q) is Minus) && parse_mul_div_at(t, q + 1) == Ok::<
            (ExprView, int),
            ParseErrorView,
        >((r, q2)) ==> add_rest(t, q, acc) == add_rest(
            t,
            q2,
            ExprView::Binary { left: Box::new(acc), op: sum_op(peek_at(t, q)), right: Box::new(r) },
        ),
        !(peek_at(t, q) is Plus || peek_at(t, q) is Minus) ==> add_rest(t, q, acc) == Ok::<
            (ExprView, int),
            ParseErrorView,
        >((acc, q)),
{
}


/// Powers group from the right: three signed operands `a`, `b`, `c` joined by `^` read as
/// `a ^ (b ^ c)`, and nothing more is taken.
pub proof fn lemma_power_right_assoc(
    t: Seq<TokenView>,
    p0: int,
    a: ExprView,
    q1: int,
    b: ExprView,
    q2: int,
    c: ExprView,
    q3: int,
)
    requires
        0 <= p0 <= q1 < q2 < q3 <= t.len(),
        parse_unary_at(t, p0) == Ok::<(ExprView, int), ParseErrorView>((a, q1)),
        peek_at(t, q1) is Caret,
        parse_unary_at(t, q1 + 1) == Ok::<(ExprView, int), ParseErrorView>((b, q2)),
        peek_at(t, q2) is Caret,
        parse_unary_at(t, q2 + 1) == Ok::<(ExprView, int), ParseErrorView>((c, q3)),
        !(peek_at(t, q3) is Caret),
    ensures
        parse_power_at(t, p0) == Ok::<(ExprView, int), ParseErrorView>(
            (
                ExprView::Binary {
                    left: Box::new(a),
                    op: BinaryOp::Pow,
                    right: Box::new(
                        ExprView::Binary { left: Box::new(b), op: BinaryOp::Pow, right: Box::new(c) },
                    ),
                },
                q3,
            ),
        ),
{
    assert(parse_power_at(t, q2 + 1) == Ok::<(ExprView, int), ParseErrorView>((c, q3)));
    assert(parse_power_at(t, q1 + 1) == Ok::<(ExprView, int), ParseErrorView>(
        (ExprView::Binary { left: Box::new(b), op: BinaryOp::Pow, right: Box::new(c) }, q3),
    ));
}

} // verus!

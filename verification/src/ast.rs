//! The syntax tree of a dice expression.
use vstd::prelude::*;

verus! {

/// The operator of a unary expression.
#[derive(Debug, Clone, Copy, PartialEq, Eq, Structural)]
pub enum UnaryOp {
    Plus,
    Minus,
}

/// The operator of a binary expression.
#[derive(Debug, Clone, Copy, PartialEq, Eq, Structural)]
pub enum BinaryOp {
    Add,
    Sub,
    Mul,
    Div,
    Pow,
}

/// The functions that an expression may call.
#[derive(Debug, Clone, Copy, PartialEq, Eq, Structural)]
pub enum FunctionName {
    Min,
    Max,
    Floor,
    Ceil,
}

/// A modifier on a roll of dice: keep only that many of the highest dice.
#[derive(Debug, Clone, Copy, PartialEq, Eq, Structural)]
pub enum DiceModifier {
    KeepHighest(u32),
}

/// A parsed expression node. Numbers are kept as the numerals that were written.
#[derive(Debug)]
pub enum Expr {
    Number(String),
    Unary { op: UnaryOp, expr: Box<Expr> },
    Binary { left: Box<Expr>, op: BinaryOp, right: Box<Expr> },
    Dice { count: Box<Expr>, sides: Box<Expr>, modifier: Option<DiceModifier> },
    FunctionCall { name: FunctionName, args: Vec<Expr> },
}

/// The mathematical value of an [`Expr`].
pub enum ExprView {
    Number(Seq<char>),
    Unary { op: UnaryOp, expr: Box<ExprView> },
    Binary { left: Box<ExprView>, op: BinaryOp, right: Box<ExprView> },
    Dice { count: Box<ExprView>, sides: Box<ExprView>, modifier: Option<DiceModifier> },
    FunctionCall { name: FunctionName, args: Seq<ExprView> },
}

/// The view of an expression.
pub open spec fn expr_view(e: Expr) -> ExprView
    decreases e,
{
    match e {
        Expr::Number(s) => ExprView::Number(s@),
        Expr::Unary { op, expr } => ExprView::Unary { op, expr: Box::new(expr_view(*expr)) },
        Expr::Binary { left, op, right } => ExprView::Binary {
            left: Box::new(expr_view(*left)),
            op,
            right: Box::new(expr_view(*right)),
        },
        Expr::Dice { count, sides, modifier } => ExprView::Dice {
            count: Box::new(expr_view(*count)),
            sides: Box::new(expr_view(*sides)),
            modifier,
        },
        Expr::FunctionCall { name, args } => ExprView::FunctionCall {
            name,
            args: Seq::new(
                args@.len(),
                |i: int|
                    {
                        if 0 <= i < args@.len() {
                            proof {
                                assert(decreases_to!(args => args@));
                            }
                            expr_view(args@[i])
                        } else {
                            ExprView::Number(Seq::empty())
                        }
                    },
            ),
        },
    }
}

/// The views of a sequence of expressions.
pub open spec fn exprs_view(s: Seq<Expr>) -> Seq<ExprView> {
    s.map_values(|e: Expr| e@)
}

/// The view of a call lists the views of its arguments.
pub proof fn lemma_call_view(name: FunctionName, args: Vec<Expr>)
    ensures
        expr_view(Expr::FunctionCall { name, args }) == (ExprView::FunctionCall {
            name,
            args: exprs_view(args@),
        }),
{
    let v = expr_view(Expr::FunctionCall { name, args });
    assert(v->args =~= exprs_view(args@));
}

/// A copy of an expression, node for node.
fn copy_expr(e: &Expr) -> (c: Expr)
    ensures
        c@ == e@,
    decreases e,
{
    match e {
        Expr::Number(n) => Expr::Number(n.clone()),
        Expr::Unary { op, expr } => Expr::Unary { op: *op, expr: Box::new(copy_expr(expr)) },
        Expr::Binary { left, op, right } => Expr::Binary {
            left: Box::new(copy_expr(left)),
            op: *op,
            right: Box::new(copy_expr(right)),
        },
        Expr::Dice { count, sides, modifier } => Expr::Dice {
            count: Box::new(copy_expr(count)),
            sides: Box::new(copy_expr(sides)),
            modifier: *modifier,
        },
        Expr::FunctionCall { name, args } => {
            proof {
                lemma_call_view(*name, *args);
            }
            let mut copies: Vec<Expr> = Vec::new();
            let mut i: usize = 0;
            while i < args.len()
                invariant
                    i <= args@.len(),
                    e is FunctionCall,
                    e->args == *args,
                    copies@.len() == i,
                    forall|j: int| 0 <= j < i ==> (#[trigger] copies@[j])@ == args@[j]@,
                decreases args@.len() - i,
            {
                proof {
                    assert(decreases_to!(*e => e->args));
                    assert(decreases_to!(e->args => e->args@));
                    assert(decreases_to!(e->args@ => e->args@[i as int]));
                }
                let c = copy_expr(&args[i]);
                copies.push(c);
                i = i + 1;
            }
            proof {
                lemma_call_view(*name, copies);
                assert(exprs_view(copies@) =~= exprs_view(args@));
            }
            Expr::FunctionCall { name: *name, args: copies }
        },
    }
}

impl Clone for Expr {
    fn clone(&self) -> (c: Self)
        ensures
            c@ == self@,
    {
        copy_expr(self)
    }
}

impl View for Expr {
    type V = ExprView;

    open spec fn view(&self) -> ExprView {
        expr_view(*self)
    }
}

} // verus!

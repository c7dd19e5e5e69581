//! Evaluation of an expression as a sequence of steps, children before their parent.
//!
//! The values of an expression are floating-point numbers, which this library does not hold.
//! An [`Evaluation`] walks the steps and tells its caller, one [`Action`] at a time, what to do
//! with the values: push a number, combine the top values, test a divisor or the sizes of a
//! roll. The caller keeps the values on a stack and answers the tests; the evaluation makes
//! every decision: the order of the work, which error stops it, and the dice that are rolled.
use vstd::prelude::*;
use crate::ast::{Expr, ExprView, UnaryOp, BinaryOp, FunctionName, DiceModifier, exprs_view};
use crate::dice::{DieRoller, roll_dice, keep_dice, spec_keep, roll_draws};
use crate::lexer::is_numeral;
use crate::parser::{numerals_ok, all_numerals_ok};

verus! {

/// One step of an evaluation.
#[derive(Debug)]
pub enum Step {
    /// Push the value of a numeral.
    Number(String),
    /// Apply a sign to the top value.
    Unary(UnaryOp),
    /// Combine the two top values.
    Binary(BinaryOp),
    /// Roll dice: the two top values are the count and the sides.
    Dice(Option<DiceModifier>),
    /// Call a function on the given number of top values.
    Call(FunctionName, usize),
}

/// The mathematical value of a [`Step`].
pub enum StepView {
    Number(Seq<char>),
    Unary(UnaryOp),
    Binary(BinaryOp),
    Dice(Option<DiceModifier>),
    Call(FunctionName, nat),
}

impl View for Step {
    type V = StepView;

    open spec fn view(&self) -> StepView {
        match self {
            Step::Number(n) => StepView::Number(n@),
            Step::Unary(op) => StepView::Unary(*op),
            Step::Binary(op) => StepView::Binary(*op),
            Step::Dice(m) => StepView::Dice(*m),
            Step::Call(f, n) => StepView::Call(*f, *n as nat),
        }
    }
}

/// The views of a sequence of steps.
pub open spec fn steps_view(s: Seq<Step>) -> Seq<StepView> {
    s.map_values(|st: Step| st@)
}

/// The steps of an expression: those of its parts in order, then its own.
pub open spec fn postfix(e: ExprView) -> Seq<StepView>
    decreases e,
{
    match e {
        ExprView::Number(n) => seq![StepView::Number(n)],
        ExprView::Unary { op, expr } => postfix(*expr).push(StepView::Unary(op)),
        ExprView::Binary { left, op, right } => (postfix(*left) + postfix(*right)).push(
            StepView::Binary(op),
        ),
        ExprView::Dice { count, sides, modifier } => (postfix(*count) + postfix(*sides)).push(
            StepView::Dice(modifier),
        ),
        ExprView::FunctionCall { name, args } => postfix_all(args).push(
            StepView::Call(name, args.len()),
        ),
    }
}

/// The steps of a sequence of expressions, one after the other.
pub open spec fn postfix_all(args: Seq<ExprView>) -> Seq<StepView>
    decreases args,
{
    if args.len() == 0 {
        Seq::empty()
    } else {
        postfix_all(args.drop_last()) + postfix(args.last())
    }
}

/// How many values a step needs on the stack.
pub open spec fn need(s: StepView) -> int {
    match s {
        StepView::Number(_) => 0,
        StepView::Unary(_) => 1,
        StepView::Binary(_) => 2,
        StepView::Dice(_) => 2,
        StepView::Call(_, n) => n as int,
    }
}

/// How a step changes the number of values on the stack.
pub open spec fn effect(s: StepView) -> int {
    match s {
        StepView::Number(_) => 1,
        StepView::Unary(_) => 0,
        StepView::Binary(_) => -1,
        StepView::Dice(_) => -1,
        StepView::Call(_, n) => 1 - n,
    }
}

/// The number of values left after running `p` on a stack of `d` values,
/// or `None` if some step finds too few.
pub open spec fn ends_at(p: Seq<StepView>, d: int) -> Option<int>
    decreases p.len(),
{
    if p.len() == 0 {
        Some(d)
    } else if d < need(p[0]) {
        None
    } else {
        ends_at(p.drop_first(), d + effect(p[0]))
    }
}

/// Running two sequences of steps one after the other.
pub proof fn lemma_ends_at_concat(p: Seq<StepView>, q: Seq<StepView>, d: int)
    ensures
        ends_at(p + q, d) == match ends_at(p, d) {
            Some(d1) => ends_at(q, d1),
            None => None,
        },
    decreases p.len(),
{
    if p.len() == 0 {
        assert(p + q =~= q);
    } else {
        assert((p + q).drop_first() =~= p.drop_first() + q);
        assert((p + q)[0] == p[0]);
        if d >= need(p[0]) {
            lemma_ends_at_concat(p.drop_first(), q, d + effect(p[0]));
        }
    }
}

/// The steps of an expression need no value below the stack they start on and leave one value.
pub proof fn lemma_postfix_stack(e: ExprView, d: int)
    requires
        d >= 0,
    ensures
        ends_at(postfix(e), d) == Some(d + 1),
    decreases e,
{
    match e {
        ExprView::Number(n) => {
            assert(seq![StepView::Number(n)].drop_first() =~= Seq::<StepView>::empty());
            assert(ends_at(Seq::<StepView>::empty(), d + 1) == Some(d + 1));
        },
        ExprView::Unary { op, expr } => {
            lemma_postfix_stack(*expr, d);
            lemma_ends_at_concat(postfix(*expr), seq![StepView::Unary(op)], d);
            assert(postfix(*expr).push(StepView::Unary(op)) =~= postfix(*expr) + seq![
                StepView::Unary(op),
            ]);
            assert(seq![StepView::Unary(op)].drop_first() =~= Seq::<StepView>::empty());
        },
        ExprView::Binary { left, op, right } => {
            lemma_postfix_stack(*left, d);
            lemma_postfix_stack(*right, d + 1);
            lemma_ends_at_concat(postfix(*left), postfix(*right), d);
            lemma_ends_at_concat(postfix(*left) + postfix(*right), seq![StepView::Binary(op)], d);
            assert((postfix(*left) + postfix(*right)).push(StepView::Binary(op)) =~= (postfix(*left)
                + postfix(*right)) + seq![StepView::Binary(op)]);
            assert(seq![StepView::Binary(op)].drop_first() =~= Seq::<StepView>::empty());
        },
        ExprView::Dice { count, sides, modifier } => {
            lemma_postfix_stack(*count, d);
            lemma_postfix_stack(*sides, d + 1);
            lemma_ends_at_concat(postfix(*count), postfix(*sides), d);
            lemma_ends_at_concat(
                postfix(*count) + postfix(*sides),
                seq![StepView::Dice(modifier)],
                d,
            );
            assert((postfix(*count) + postfix(*sides)).push(StepView::Dice(modifier)) =~= (postfix(
                *count,
            ) + postfix(*sides)) + seq![StepView::Dice(modifier)]);
            assert(seq![StepView::Dice(modifier)].drop_first() =~= Seq::<StepView>::empty());
        },
        ExprView::FunctionCall { name, args } => {
            lemma_postfix_all_stack(args, d);
            let c = StepView::Call(name, args.len());
            lemma_ends_at_concat(postfix_all(args), seq![c], d);
            assert(postfix_all(args).push(c) =~= postfix_all(args) + seq![c]);
            assert(seq![c].drop_first() =~= Seq::<StepView>::empty());
        },
    }
}

/// The steps of a sequence of expressions leave one value for each.
pub proof fn lemma_postfix_all_stack(args: Seq<ExprView>, d: int)
    requires
        d >= 0,
    ensures
        ends_at(postfix_all(args), d) == Some(d + args.len()),
    decreases args,
{
    if args.len() == 0 {
    } else {
        lemma_postfix_all_stack(args.drop_last(), d);
        lemma_postfix_stack(args.last(), d + args.len() - 1);
        lemma_ends_at_concat(postfix_all(args.drop_last()), postfix(args.last()), d);
    }
}

/// Appends the steps of `e` to `out`.
fn push_steps(e: &Expr, out: &mut Vec<Step>)
    ensures
        steps_view(final(out)@) == steps_view(old(out)@) + postfix(e@),
    decreases e,
{
    let ghost before = steps_view(out@);
    match e {
        Expr::Number(n) => {
            out.push(Step::Number(n.clone()));
            assert(steps_view(out@) =~= before + seq![StepView::Number(n@)]);
        },
        Expr::Unary { op, expr } => {
            push_steps(expr, out);
            let ghost mid = steps_view(out@);
            out.push(Step::Unary(*op));
            assert(steps_view(out@) =~= mid.push(StepView::Unary(*op)));
        },
        Expr::Binary { left, op, right } => {
            push_steps(left, out);
            push_steps(right, out);
            let ghost mid = steps_view(out@);
            out.push(Step::Binary(*op));
            assert(steps_view(out@) =~= mid.push(StepView::Binary(*op)));
        },
        Expr::Dice { count, sides, modifier } => {
            push_steps(count, out);
            push_steps(sides, out);
            let ghost mid = steps_view(out@);
            out.push(Step::Dice(*modifier));
            assert(steps_view(out@) =~= mid.push(StepView::Dice(*modifier)));
        },
        Expr::FunctionCall { name, args } => {
            proof {
                crate::ast::lemma_call_view(*name, *args);
            }
            let ghost av = exprs_view(args@);
            let mut i: usize = 0;
            assert(av.take(0) =~= Seq::<ExprView>::empty());
            while i < args.len()
                invariant
                    i <= args@.len(),
                    av == exprs_view(args@),
                    e is FunctionCall,
                    e->args == *args,
                    steps_view(out@) == before + postfix_all(av.take(i as int)),
                decreases args@.len() - i,
            {
                proof {
                    assert(decreases_to!(*e => e->args));
                    assert(decreases_to!(e->args => e->args@));
                    assert(decreases_to!(e->args@ => e->args@[i as int]));
                }
                push_steps(&args[i], out);
                proof {
                    assert(av.take(i + 1).drop_last() =~= av.take(i as int));
                    assert(av.take(i + 1).last() == args@[i as int]@);
                }
                i = i + 1;
            }
            assert(av.take(args@.len() as int) =~= av);
            let ghost mid = steps_view(out@);
            out.push(Step::Call(*name, args.len()));
            assert(steps_view(out@) =~= mid.push(StepView::Call(*name, av.len())));
        },
    }
}

/// The steps of an expression, in the order in which they are carried out.
fn evaluation_steps(expr: &Expr) -> (steps: Vec<Step>)
    ensures
        steps_view(steps@) == postfix(expr@),
{
    let mut steps: Vec<Step> = Vec::new();
    assert(steps_view(steps@) =~= Seq::<StepView>::empty());
    push_steps(expr, &mut steps);
    assert(Seq::<StepView>::empty() + postfix(expr@) =~= postfix(expr@));
    steps
}

/// Every numeral step holds a well-formed numeral.
pub open spec fn step_numerals_ok(p: Seq<StepView>) -> bool {
    forall|j: int| 0 <= j < p.len() ==> (#[trigger] p[j] matches StepView::Number(n) ==> is_numeral(n))
}

/// Joining runs of steps whose numerals are well formed.
proof fn lemma_step_numerals_concat(p: Seq<StepView>, q: Seq<StepView>)
    requires
        step_numerals_ok(p),
        step_numerals_ok(q),
    ensures
        step_numerals_ok(p + q),
{
    assert forall|j: int| 0 <= j < (p + q).len() implies ((#[trigger] (p + q)[j]) matches StepView::Number(
        n,
    ) ==> is_numeral(n)) by {
        if j >= p.len() {
            assert((p + q)[j] == q[j - p.len()]);
        } else {
            assert((p + q)[j] == p[j]);
        }
    }
}

/// The steps of an expression whose numerals are well formed hold only well-formed numerals.
pub proof fn lemma_postfix_numerals(e: ExprView)
    requires
        numerals_ok(e),
    ensures
        step_numerals_ok(postfix(e)),
    decreases e,
{
    match e {
        ExprView::Number(n) => {},
        ExprView::Unary { op, expr } => {
            lemma_postfix_numerals(*expr);
            lemma_step_numerals_concat(postfix(*expr), seq![StepView::Unary(op)]);
            assert(postfix(*expr).push(StepView::Unary(op)) =~= postfix(*expr) + seq![StepView::Unary(op)]);
        },
        ExprView::Binary { left, op, right } => {
            lemma_postfix_numerals(*left);
            lemma_postfix_numerals(*right);
            lemma_step_numerals_concat(postfix(*left), postfix(*right));
            lemma_step_numerals_concat(postfix(*left) + postfix(*right), seq![StepView::Binary(op)]);
            assert((postfix(*left) + postfix(*right)).push(StepView::Binary(op)) =~= (postfix(*left)
                + postfix(*right)) + seq![StepView::Binary(op)]);
        },
        ExprView::Dice { count, sides, modifier } => {
            lemma_postfix_numerals(*count);
            lemma_postfix_numerals(*sides);
            lemma_step_numerals_concat(postfix(*count), postfix(*sides));
            lemma_step_numerals_concat(postfix(*count) + postfix(*sides), seq![StepView::Dice(modifier)]);
            assert((postfix(*count) + postfix(*sides)).push(StepView::Dice(modifier)) =~= (postfix(
                *count,
            ) + postfix(*sides)) + seq![StepView::Dice(modifier)]);
        },
        ExprView::FunctionCall { name, args } => {
            lemma_postfix_all_numerals(args);
            let c = StepView::Call(name, args.len());
            lemma_step_numerals_concat(postfix_all(args), seq![c]);
            assert(postfix_all(args).push(c) =~= postfix_all(args) + seq![c]);
        },
    }
}

/// The steps of expressions whose numerals are well formed hold only well-formed numerals.
pub proof fn lemma_postfix_all_numerals(args: Seq<ExprView>)
    requires
        all_numerals_ok(args),
    ensures
        step_numerals_ok(postfix_all(args)),
    decreases args,
{
    if args.len() > 0 {
        lemma_postfix_all_numerals(args.drop_last());
        lemma_postfix_numerals(args.last());
        lemma_step_numerals_concat(postfix_all(args.drop_last()), postfix(args.last()));
    }
}

/// What stops an evaluation.
#[derive(Debug, Clone, Copy, PartialEq, Eq, Structural)]
pub enum EvalFailure {
    /// A division whose divisor is zero.
    DivisionByZero,
    /// A roll whose count is not a positive integer.
    InvalidDiceCount,
    /// A roll whose number of sides is not a positive integer.
    InvalidDiceSides,
    /// `floor` or `ceil` called with other than one argument.
    InvalidFunctionArity { name: FunctionName, got: usize },
    /// `min` called with no argument.
    MinRequiresArgument,
    /// `max` called with no argument.
    MaxRequiresArgument,
}

/// The caller's answer to the last action.
#[derive(Debug, Clone, Copy)]
pub enum Answer {
    /// Nothing was asked: the caller carried out the last action.
    Continue,
    /// Whether the divisor on top of the stack is zero.
    DivisorIsZero(bool),
    /// The count and the sides on top of the stack (the sides topmost), each as the positive
    /// integer it is, or `None` where it is not a positive integer.
    DiceSizes { count: Option<u64>, sides: Option<u64> },
}

/// What the caller is to do next with its stack of values.
#[derive(Debug)]
pub enum Action {
    /// Push the value of this numeral.
    PushNumber(String),
    /// Apply the sign to the top value.
    ApplyUnary(UnaryOp),
    /// Answer whether the top value, a divisor, is zero.
    TestDivisor,
    /// Replace the two top values by the operator applied to them, the lower one on the left.
    Combine(BinaryOp),
    /// Answer with the two top values as the count and the sides of a roll.
    TestDice,
    /// Replace the two top values by the total of `kept`: these dice were rolled.
    Roll { count: u64, sides: u64, rolls: Vec<u64>, kept: Vec<u64>, modifier: Option<DiceModifier> },
    /// Replace the given number of top values by the function applied to them, in order.
    Call(FunctionName, usize),
    /// The evaluation stops with this failure.
    Fail(EvalFailure),
    /// The evaluation is done: the one value on the stack is the result.
    Finish,
}

/// An action as the evaluation decides it, before any die is rolled.
pub enum Outcome {
    PushNumber(Seq<char>),
    ApplyUnary(UnaryOp),
    TestDivisor,
    Combine(BinaryOp),
    TestDice,
    Roll { count: u64, sides: u64, modifier: Option<DiceModifier> },
    Call(FunctionName, nat),
    Fail(EvalFailure),
    Finish,
}

/// The decision behind an action.
pub open spec fn outcome(a: Action) -> Outcome {
    match a {
        Action::PushNumber(t) => Outcome::PushNumber(t@),
        Action::ApplyUnary(op) => Outcome::ApplyUnary(op),
        Action::TestDivisor => Outcome::TestDivisor,
        Action::Combine(op) => Outcome::Combine(op),
        Action::TestDice => Outcome::TestDice,
        Action::Roll { count, sides, modifier, .. } => Outcome::Roll { count, sides, modifier },
        Action::Call(f, n) => Outcome::Call(f, n as nat),
        Action::Fail(f) => Outcome::Fail(f),
        Action::Finish => Outcome::Finish,
    }
}

/// The state of an evaluation: its steps, how many of them are done, whether the step at hand
/// has asked its question, and the failure that stopped it.
pub struct EvalState {
    pub steps: Seq<StepView>,
    pub pc: int,
    pub asked: bool,
    pub failure: Option<EvalFailure>,
}

/// A step that asks the caller a question before it is carried out.
pub open spec fn asks(s: StepView) -> bool {
    s == StepView::Binary(BinaryOp::Div) || s is Dice
}

/// The failure of a call of `name` on `n` arguments, if it fails.
pub open spec fn call_failure(name: FunctionName, n: nat) -> Option<EvalFailure> {
    match name {
        FunctionName::Min => if n == 0 {
            Some(EvalFailure::MinRequiresArgument)
        } else {
            None
        },
        FunctionName::Max => if n == 0 {
            Some(EvalFailure::MaxRequiresArgument)
        } else {
            None
        },
        FunctionName::Floor | FunctionName::Ceil => if n != 1 {
            Some(EvalFailure::InvalidFunctionArity { name, got: n as usize })
        } else {
            None
        },
    }
}

/// The failure of a roll with these sizes, if it fails: the count is checked first.
pub open spec fn dice_failure(count: Option<u64>, sides: Option<u64>) -> Option<EvalFailure> {
    if !(count matches Some(c) && c >= 1) {
        Some(EvalFailure::InvalidDiceCount)
    } else if !(sides matches Some(s) && s >= 1) {
        Some(EvalFailure::InvalidDiceSides)
    } else {
        None
    }
}

/// The state with the step at hand done.
pub open spec fn done(v: EvalState) -> EvalState {
    EvalState { steps: v.steps, pc: v.pc + 1, asked: false, failure: None }
}

/// The state stopped by a failure at the step at hand.
pub open spec fn failed(v: EvalState, f: EvalFailure) -> EvalState {
    EvalState { steps: v.steps, pc: v.pc, asked: false, failure: Some(f) }
}

/// One move of an evaluation on the caller's answer: the next state and what the caller is to do.
/// A failure or the end repeats itself; an answer that does not fit the question repeats it.
pub open spec fn next(v: EvalState, answer: Answer) -> (EvalState, Outcome) {
    if v.failure is Some {
        (v, Outcome::Fail(v.failure->0))
    } else if v.pc >= v.steps.len() {
        (v, Outcome::Finish)
    } else {
        match v.steps[v.pc] {
            StepView::Number(t) => (done(v), Outcome::PushNumber(t)),
            StepView::Unary(op) => (done(v), Outcome::ApplyUnary(op)),
            StepView::Binary(op) => if op != BinaryOp::Div {
                (done(v), Outcome::Combine(op))
            } else if !v.asked {
                (EvalState { asked: true, ..v }, Outcome::TestDivisor)
            } else {
                match answer {
                    Answer::DivisorIsZero(true) => (
                        failed(v, EvalFailure::DivisionByZero),
                        Outcome::Fail(EvalFailure::DivisionByZero),
                    ),
                    Answer::DivisorIsZero(false) => (done(v), Outcome::Combine(BinaryOp::Div)),
                    _ => (v, Outcome::TestDivisor),
                }
            },
            StepView::Dice(m) => if !v.asked {
                (EvalState { asked: true, ..v }, Outcome::TestDice)
            } else {
                match answer {
                    Answer::DiceSizes { count, sides } => match dice_failure(count, sides) {
                        Some(f) => (failed(v, f), Outcome::Fail(f)),
                        None => (
                            done(v),
                            Outcome::Roll { count: count->0, sides: sides->0, modifier: m },
                        ),
                    },
                    _ => (v, Outcome::TestDice),
                }
            },
            StepView::Call(f, n) => match call_failure(f, n) {
                Some(fl) => (failed(v, fl), Outcome::Fail(fl)),
                None => (done(v), Outcome::Call(f, n)),
            },
        }
    }
}

/// A state that an evaluation can be in: its steps leave one value on an empty stack.
pub open spec fn well_formed(v: EvalState) -> bool {
    &&& 0 <= v.pc <= v.steps.len()
    &&& v.asked ==> v.pc < v.steps.len() && asks(v.steps[v.pc])
    &&& v.failure is Some ==> v.pc < v.steps.len() && !v.asked
    &&& ends_at(v.steps, 0) == Some(1int)
    &&& step_numerals_ok(v.steps)
}

/// The number of values on the caller's stack in state `v`.
pub open spec fn depth(v: EvalState) -> int {
    match ends_at(v.steps.take(v.pc), 0) {
        Some(d) => d,
        None => 0,
    }
}

/// How many values the caller needs on its stack to carry out an action.
pub open spec fn outcome_need(o: Outcome) -> int {
    match o {
        Outcome::PushNumber(_) => 0,
        Outcome::ApplyUnary(_) => 1,
        Outcome::TestDivisor => 2,
        Outcome::Combine(_) => 2,
        Outcome::TestDice => 2,
        Outcome::Roll { .. } => 2,
        Outcome::Call(_, n) => n as int,
        Outcome::Fail(_) => 0,
        Outcome::Finish => 1,
    }
}

/// How an action changes the number of values on the caller's stack.
pub open spec fn outcome_effect(o: Outcome) -> int {
    match o {
        Outcome::PushNumber(_) => 1,
        Outcome::ApplyUnary(_) => 0,
        Outcome::TestDivisor => 0,
        Outcome::Combine(_) => -1,
        Outcome::TestDice => 0,
        Outcome::Roll { .. } => -1,
        Outcome::Call(_, n) => 1 - n,
        Outcome::Fail(_) => 0,
        Outcome::Finish => 0,
    }
}

/// A caller that carries out the actions never runs short of values, and when the evaluation
/// finishes, its stack holds exactly one value: the result. Every move keeps the state well formed.
pub proof fn lemma_stack_discipline(v: EvalState, answer: Answer)
    requires
        well_formed(v),
    ensures
        ({
            let (w, o) = next(v, answer);
            &&& well_formed(w)
            &&& depth(v) >= outcome_need(o)
            &&& depth(w) == depth(v) + outcome_effect(o)
            &&& o is Finish ==> depth(v) == 1
        }),
{
    let t = v.steps.take(v.pc);
    let r = v.steps.skip(v.pc);
    assert(t + r =~= v.steps);
    lemma_ends_at_concat(t, r, 0);
    let d = ends_at(t, 0)->0;
    assert(ends_at(t, 0) == Some(d));
    assert(ends_at(r, d) == Some(1int));
    lemma_ends_at_nonneg(t, 0);
    if v.pc < v.steps.len() {
        let s = v.steps[v.pc];
        assert(r[0] == s);
        assert(r.drop_first() =~= v.steps.skip(v.pc + 1));
        assert(v.steps.take(v.pc + 1) =~= t + seq![s]);
        lemma_ends_at_concat(t, seq![s], 0);
        assert(seq![s].drop_first() =~= Seq::<StepView>::empty());
        assert(ends_at(Seq::<StepView>::empty(), d + effect(s)) == Some(d + effect(s)));
        assert(d >= need(s));
        assert(ends_at(v.steps.take(v.pc + 1), 0) == Some(d + effect(s)));
    } else {
        assert(r =~= Seq::<StepView>::empty());
    }
}

/// A run of steps that starts on a stack of `d >= 0` values never leaves a negative number.
proof fn lemma_ends_at_nonneg(p: Seq<StepView>, d: int)
    requires
        d >= 0,
    ensures
        ends_at(p, d) matches Some(e) ==> e >= 0,
    decreases p.len(),
{
    if p.len() > 0 && d >= need(p[0]) {
        lemma_ends_at_nonneg(p.drop_first(), d + effect(p[0]));
    }
}

/// The work left in state `v`: two units for each step not done, less one for a question asked;
/// none once the evaluation has failed.
pub open spec fn work_left(v: EvalState) -> int {
    if v.failure is Some {
        0
    } else {
        2 * (v.steps.len() - v.pc) - (if v.asked {
            1int
        } else {
            0
        }) + 1
    }
}

/// An evaluation never goes back and never stalls: each move either stays where it is, on a
/// failure, at the end, or on an answer that does not fit the question it repeats, or it moves
/// forward and leaves strictly less work.
pub proof fn lemma_progress(v: EvalState, answer: Answer)
    requires
        well_formed(v),
    ensures
        ({
            let (w, o) = next(v, answer);
            ||| w == v && (o is Fail || o is Finish || o is TestDivisor || o is TestDice)
            ||| v.pc <= w.pc && 0 <= work_left(w) < work_left(v)
        }),
{
}

/// Each move carries out the step at hand as the expression writes it: a numeral is pushed as
/// written; a sign, an operator, a modifier and a function are handed on as they stand in the
/// step; a division first asks whether the divisor is zero and fails exactly when it is; a roll
/// first asks for its sizes and fails on a count that is not a positive integer, then on sides
/// that are not one, else rolls that many dice of that many sides; `min` and `max` fail exactly
/// on no argument, `floor` and `ceil` exactly on other than one. Only a move that carries out the
/// step goes on to the next one.
pub proof fn lemma_next_follows_step(v: EvalState, answer: Answer)
    requires
        well_formed(v),
        v.failure is None,
        v.pc < v.steps.len(),
    ensures
        ({
            let (w, o) = next(v, answer);
            let on = EvalState { steps: v.steps, pc: v.pc + 1, asked: false, failure: None };
            let stop = |f: EvalFailure|
                EvalState { steps: v.steps, pc: v.pc, asked: false, failure: Some(f) };
            match v.steps[v.pc] {
                StepView::Number(t) => w == on && o == Outcome::PushNumber(t),
                StepView::Unary(op) => w == on && o == Outcome::ApplyUnary(op),
                StepView::Binary(op) => {
                    &&& op != BinaryOp::Div ==> w == on && o == Outcome::Combine(op)
                    &&& op == BinaryOp::Div && !v.asked ==> w == (EvalState { asked: true, ..v })
                        && o == Outcome::TestDivisor
                    &&& op == BinaryOp::Div && v.asked && answer == Answer::DivisorIsZero(false) ==> w
                        == on && o == Outcome::Combine(BinaryOp::Div)
                    &&& op == BinaryOp::Div && v.asked && answer == Answer::DivisorIsZero(true) ==> w
                        == stop(EvalFailure::DivisionByZero) && o == Outcome::Fail(
                        EvalFailure::DivisionByZero,
                    )
                },
                StepView::Dice(m) => {
                    &&& !v.asked ==> w == (EvalState { asked: true, ..v }) && o == Outcome::TestDice
                    &&& forall|c: u64, s: u64|
                        v.asked && answer == (Answer::DiceSizes { count: Some(c), sides: Some(s) })
                            && c >= 1 && s >= 1 ==> w == on && o == (Outcome::Roll {
                            count: c,
                            sides: s,
                            modifier: m,
                        })
                    &&& forall|c: Option<u64>, s: Option<u64>|
                        v.asked && answer == (Answer::DiceSizes { count: c, sides: s }) && (c is None
                            || c == Some(0u64)) ==> w == stop(EvalFailure::InvalidDiceCount) && o
                            == Outcome::Fail(EvalFailure::InvalidDiceCount)
                    &&& forall|c: u64, s: Option<u64>|
                        v.asked && answer == (Answer::DiceSizes { count: Some(c), sides: s }) && c
                            >= 1 && (s is None || s == Some(0u64)) ==> w == stop(
                            EvalFailure::InvalidDiceSides,
                        ) && o == Outcome::Fail(EvalFailure::InvalidDiceSides)
                },
                StepView::Call(f, n) => {
                    &&& f == FunctionName::Min && n == 0 ==> w == stop(
                        EvalFailure::MinRequiresArgument,
                    ) && o == Outcome::Fail(EvalFailure::MinRequiresArgument)
                    &&& f == FunctionName::Max && n == 0 ==> w == stop(
                        EvalFailure::MaxRequiresArgument,
                    ) && o == Outcome::Fail(EvalFailure::MaxRequiresArgument)
                    &&& (f == FunctionName::Floor || f == FunctionName::Ceil) && n != 1 ==> w == stop(
                        EvalFailure::InvalidFunctionArity { name: f, got: n as usize },
                    ) && o == Outcome::Fail(EvalFailure::InvalidFunctionArity { name: f, got: n as usize })
                    &&& ((f == FunctionName::Min || f == FunctionName::Max) && n >= 1 || (f
                        == FunctionName::Floor || f == FunctionName::Ceil) && n == 1) ==> w == on && o
                        == Outcome::Call(f, n)
                },
            }
        }),
{
}

/// The last step of an expression is its own: a numeral, or its operator, its roll or its call
/// with the number of arguments it was written with.
pub proof fn lemma_postfix_last(e: ExprView)
    ensures
        postfix(e).len() >= 1,
        postfix(e).last() == match e {
            ExprView::Number(n) => StepView::Number(n),
            ExprView::Unary { op, .. } => StepView::Unary(op),
            ExprView::Binary { op, .. } => StepView::Binary(op),
            ExprView::Dice { modifier, .. } => StepView::Dice(modifier),
            ExprView::FunctionCall { name, args } => StepView::Call(name, args.len()),
        },
{
}

/// A failure and the end are final: once a move answers `Fail` or `Finish`, every later move
/// answers the same, whatever the caller says.
pub proof fn lemma_stop_is_final(v: EvalState, answer: Answer, later: Answer)
    requires
        well_formed(v),
        next(v, answer).1 is Fail || next(v, answer).1 is Finish,
    ensures
        next(next(v, answer).0, later) == next(v, answer),
{
}

/// An evaluation of an expression, one action at a time.
pub struct Evaluation {
    steps: Vec<Step>,
    pc: usize,
    asked: bool,
    failure: Option<EvalFailure>,
}

impl View for Evaluation {
    type V = EvalState;

    closed spec fn view(&self) -> EvalState {
        EvalState {
            steps: steps_view(self.steps@),
            pc: self.pc as int,
            asked: self.asked,
            failure: self.failure,
        }
    }
}

impl Evaluation {
    #[verifier::type_invariant]
    spec fn inv(self) -> bool {
        well_formed(self@)
    }

    /// Starts the evaluation of `expr`, whose numerals must be well formed (as those of every
    /// parsed expression are; see `numerals_well_formed`).
    pub fn new(expr: &Expr) -> (ev: Evaluation)
        requires
            numerals_ok(expr@),
        ensures
            ev@ == (EvalState { steps: postfix(expr@), pc: 0, asked: false, failure: None }),
            well_formed(ev@),
            depth(ev@) == 0,
    {
        let steps = evaluation_steps(expr);
        proof {
            lemma_postfix_stack(expr@, 0);
            lemma_postfix_numerals(expr@);
            assert(postfix(expr@).take(0) =~= Seq::<StepView>::empty());
        }
        Evaluation { steps, pc: 0, asked: false, failure: None }
    }

    /// Takes the caller's answer to the last action and says what to do next. Dice are rolled
    /// with `rng` when a roll is due.
    pub fn advance<R: DieRoller>(&mut self, answer: Answer, rng: &mut R) -> (action: Action)
        ensures
            (final(self)@, outcome(action)) == next(old(self)@, answer),
            well_formed(final(self)@),
            !(action is Roll) ==> *final(rng) == *old(rng),
            action matches Action::PushNumber(t) ==> is_numeral(t@),
            action matches Action::Roll { count, sides, rolls, kept, modifier } ==> {
                &&& rolls@.len() == count
                &&& forall|i: int| 0 <= i < rolls@.len() ==> 1 <= #[trigger] rolls@[i] <= sides
                &&& kept@ == spec_keep(rolls@, modifier)
                &&& final(rng).draws() == old(rng).draws() + roll_draws(sides, rolls@)
                &&& final(rng).draws().len() == old(rng).draws().len() + count
                &&& forall|i: int|
                    0 <= i < count ==> #[trigger] final(rng).draws()[old(rng).draws().len() + i] == (
                        sides,
                        rolls@[i],
                    )
            },
    {
        proof {
            use_type_invariant(&*self);
        }
        if self.failure.is_some() {
            let f = self.failure.unwrap();
            return Action::Fail(f);
        }
        if self.pc >= self.steps.len() {
            return Action::Finish;
        }
        let ghost v = self@;
        let ghost s = v.steps[v.pc];
        assert(steps_view(self.steps@)[self.pc as int] == self.steps@[self.pc as int]@);
        match &self.steps[self.pc] {
            Step::Number(t) => {
                let t = t.clone();
                self.pc = self.pc + 1;
                Action::PushNumber(t)
            },
            Step::Unary(op) => {
                let op = *op;
                self.pc = self.pc + 1;
                Action::ApplyUnary(op)
            },
            Step::Binary(op) => {
                let op = *op;
                if op != BinaryOp::Div {
                    self.pc = self.pc + 1;
                    Action::Combine(op)
                } else if !self.asked {
                    self.asked = true;
                    Action::TestDivisor
                } else {
                    match answer {
                        Answer::DivisorIsZero(true) => {
                            self.asked = false;
                            self.failure = Some(EvalFailure::DivisionByZero);
                            Action::Fail(EvalFailure::DivisionByZero)
                        },
                        Answer::DivisorIsZero(false) => {
                            self.asked = false;
                            self.pc = self.pc + 1;
                            Action::Combine(BinaryOp::Div)
                        },
                        _ => Action::TestDivisor,
                    }
                }
            },
            Step::Dice(m) => {
                let m = *m;
                if !self.asked {
                    self.asked = true;
                    Action::TestDice
                } else {
                    match answer {
                        Answer::DiceSizes { count, sides } => {
                            let count_ok = match count {
                                Some(c) => c >= 1,
                                None => false,
                            };
                            let sides_ok = match sides {
                                Some(n) => n >= 1,
                                None => false,
                            };
                            if !count_ok {
                                self.asked = false;
                                self.failure = Some(EvalFailure::InvalidDiceCount);
                                Action::Fail(EvalFailure::InvalidDiceCount)
                            } else if !sides_ok {
                                self.asked = false;
                                self.failure = Some(EvalFailure::InvalidDiceSides);
                                Action::Fail(EvalFailure::InvalidDiceSides)
                            } else {
                                let c = count.unwrap();
                                let n = sides.unwrap();
                                let rolls = roll_dice(rng, c, n);
                                let kept = keep_dice(&rolls, m);
                                self.asked = false;
                                self.pc = self.pc + 1;
                                Action::Roll { count: c, sides: n, rolls, kept, modifier: m }
                            }
                        },
                        _ => Action::TestDice,
                    }
                }
            },
            Step::Call(f, n) => {
                let f = *f;
                let n = *n;
                let fail = match f {
                    FunctionName::Min => if n == 0 {
                        Some(EvalFailure::MinRequiresArgument)
                    } else {
                        None
                    },
                    FunctionName::Max => if n == 0 {
                        Some(EvalFailure::MaxRequiresArgument)
                    } else {
                        None
                    },
                    FunctionName::Floor | FunctionName::Ceil => if n != 1 {
                        Some(EvalFailure::InvalidFunctionArity { name: f, got: n })
                    } else {
                        None
                    },
                };
                match fail {
                    Some(fl) => {
                        self.failure = Some(fl);
                        Action::Fail(fl)
                    },
                    None => {
                        self.pc = self.pc + 1;
                        Action::Call(f, n)
                    },
                }
            },
        }
    }
}

} // verus!

use dice_expr::{
    numerals_well_formed, parse_dice_expression, Action, Answer, BinaryOp, DiceModifier, DieRoller, EvalFailure,
    Evaluation, Expr, FunctionName, UnaryOp,
};
use rand::rngs::mock::StepRng;
use rand::{Rng, RngCore};

/// rand's mock generator, rolling a die with `gen_range(1..=sides)`.
struct Stepper(StepRng);

impl Stepper {
    fn new(initial: u64, increment: u64) -> Stepper {
        Stepper(StepRng::new(initial, increment))
    }
}

impl DieRoller for Stepper {
    // The record of draws is a specification function: only proofs use it, and no test runs it.
    fn draws(&self) -> vstd::seq::Seq<(u64, u64)> {
        unreachable!("the record of draws exists only in proofs")
    }

    fn roll(&mut self, sides: u64) -> u64 {
        self.0.gen_range(1..=sides)
    }
}

#[derive(Debug, Clone, PartialEq)]
struct DiceRollRecord {
    count: u64,
    sides: u64,
    rolls: Vec<u64>,
    kept: Vec<u64>,
    modifier: Option<DiceModifier>,
    total: f64,
}

#[derive(Debug, Clone, PartialEq)]
struct EvalResult {
    value: f64,
    dice_rolls: Vec<DiceRollRecord>,
}

#[derive(Debug, Clone, PartialEq)]
enum EvalError {
    InvalidDiceCount(f64),
    InvalidDiceSides(f64),
    DivisionByZero,
    InvalidFunctionArity { name: &'static str, expected: &'static str, got: usize },
    MinRequiresArgument,
    MaxRequiresArgument,
}

fn positive_integer(value: f64) -> Option<u64> {
    if value <= 0.0 || value.fract() != 0.0 {
        None
    } else {
        Some(value as u64)
    }
}

/// Carries out the actions of an evaluation on a stack of `f64` values.
fn run<R: DieRoller>(expr: &Expr, rng: &mut R) -> Result<EvalResult, EvalError> {
    assert!(numerals_well_formed(expr));
    let mut evaluation = Evaluation::new(expr);
    let mut stack: Vec<f64> = Vec::new();
    let mut dice_rolls = Vec::new();
    let mut answer = Answer::Continue;
    loop {
        let action = evaluation.advance(answer, rng);
        answer = Answer::Continue;
        match action {
            Action::PushNumber(n) => stack.push(n.parse::<f64>().unwrap()),
            Action::ApplyUnary(op) => {
                let v = stack.pop().unwrap();
                stack.push(match op {
                    UnaryOp::Plus => v,
                    UnaryOp::Minus => -v,
                });
            }
            Action::TestDivisor => {
                answer = Answer::DivisorIsZero(*stack.last().unwrap() == 0.0);
            }
            Action::Combine(op) => {
                let r = stack.pop().unwrap();
                let l = stack.pop().unwrap();
                stack.push(match op {
                    BinaryOp::Add => l + r,
                    BinaryOp::Sub => l - r,
                    BinaryOp::Mul => l * r,
                    BinaryOp::Div => l / r,
                    BinaryOp::Pow => l.powf(r),
                });
            }
            Action::TestDice => {
                let n = stack.len();
                answer = Answer::DiceSizes {
                    count: positive_integer(stack[n - 2]),
                    sides: positive_integer(stack[n - 1]),
                };
            }
            Action::Roll { count, sides, rolls, kept, modifier } => {
                stack.pop().unwrap();
                stack.pop().unwrap();
                let total = kept.iter().map(|&r| r as f64).sum::<f64>();
                stack.push(total);
                dice_rolls.push(DiceRollRecord { count, sides, rolls, kept, modifier, total });
            }
            Action::Call(name, n) => {
                let args = stack.split_off(stack.len() - n);
                stack.push(match name {
                    FunctionName::Min => args.into_iter().reduce(f64::min).unwrap(),
                    FunctionName::Max => args.into_iter().reduce(f64::max).unwrap(),
                    FunctionName::Floor => args[0].floor(),
                    FunctionName::Ceil => args[0].ceil(),
                });
            }
            Action::Fail(f) => {
                let n = stack.len();
                return Err(match f {
                    EvalFailure::DivisionByZero => EvalError::DivisionByZero,
                    EvalFailure::InvalidDiceCount => EvalError::InvalidDiceCount(stack[n - 2]),
                    EvalFailure::InvalidDiceSides => EvalError::InvalidDiceSides(stack[n - 1]),
                    EvalFailure::InvalidFunctionArity { name, got } => {
                        EvalError::InvalidFunctionArity {
                            name: if name == FunctionName::Floor { "floor" } else { "ceil" },
                            expected: "1",
                            got,
                        }
                    }
                    EvalFailure::MinRequiresArgument => EvalError::MinRequiresArgument,
                    EvalFailure::MaxRequiresArgument => EvalError::MaxRequiresArgument,
                });
            }
            Action::Finish => {
                assert_eq!(stack.len(), 1);
                return Ok(EvalResult { value: stack[0], dice_rolls });
            }
        }
    }
}

fn eval_with_step_rng(input: &str) -> EvalResult {
    let expr = parse_dice_expression(input).expect("parse should succeed");
    let mut rng = Stepper::new(0, 1);
    run(&expr, &mut rng).expect("eval should succeed")
}

fn eval_error(input: &str) -> EvalError {
    let expr = parse_dice_expression(input).expect("parse should succeed");
    let mut rng = Stepper::new(0, 1);
    run(&expr, &mut rng).unwrap_err()
}

#[test]
fn implicit_multiplication_still_works() {
    let result = eval_with_step_rng("3(2 + 1)");
    assert_eq!(result.value, 9.0);
}

#[test]
fn evaluates_floor_and_ceil() {
    let floor_result = eval_with_step_rng("floor(2.9)");
    let ceil_result = eval_with_step_rng("ceil(2.1)");
    assert_eq!(floor_result.value, 2.0);
    assert_eq!(ceil_result.value, 3.0);
}

#[test]
fn evaluates_min_and_max() {
    let min_result = eval_with_step_rng("min(5, 3, 9)");
    let max_result = eval_with_step_rng("max(5, 3, 9)");
    assert_eq!(min_result.value, 3.0);
    assert_eq!(max_result.value, 9.0);
}

#[test]
fn evaluates_d20() {
    let result = eval_with_step_rng("d20");
    assert_eq!(result.value, 1.0);
    assert_eq!(result.dice_rolls.len(), 1);
    assert_eq!(result.dice_rolls[0].count, 1);
    assert_eq!(result.dice_rolls[0].sides, 20);
    assert_eq!(result.dice_rolls[0].rolls, vec![1]);
}

#[test]
fn evaluates_keep_highest() {
    let result = eval_with_step_rng("4d6kh3");
    assert_eq!(result.dice_rolls.len(), 1);

    let roll = &result.dice_rolls[0];
    assert_eq!(roll.rolls, vec![1, 1, 1, 1]);
    assert_eq!(roll.kept, vec![1, 1, 1]);
    assert_eq!(roll.total, 3.0);
    assert_eq!(result.value, 3.0);
}

#[test]
fn evaluates_complex_expression_shape() {
    let result =
        eval_with_step_rng("1 / (((3(4d2 + 8d100) - 10) * 10) / 2 + 3d2 - 1d3 + 100)^1.5");
    assert!(result.value.is_finite());
    assert_eq!(result.dice_rolls.len(), 4);
}

#[test]
fn division_by_zero_errors() {
    let expr = parse_dice_expression("1 / 0").unwrap();
    let mut rng = Stepper::new(0, 1);
    let err = run(&expr, &mut rng).unwrap_err();
    match err {
        EvalError::DivisionByZero => {}
        _ => panic!("expected division by zero"),
    }
}

#[test]
fn invalid_floor_arity_errors() {
    let expr = parse_dice_expression("floor(1, 2)").unwrap();
    let mut rng = Stepper::new(0, 1);
    let err = run(&expr, &mut rng).unwrap_err();
    match err {
        EvalError::InvalidFunctionArity { name, got, .. } => {
            assert_eq!(name, "floor");
            assert_eq!(got, 2);
        }
        _ => panic!("expected invalid function arity"),
    }
}

#[test]
fn dice_records_follow_the_expression() {
    let result = eval_with_step_rng("2d3 + max(1d4, 3d2kh1) * d6");
    let shapes: Vec<(u64, u64)> = result.dice_rolls.iter().map(|r| (r.count, r.sides)).collect();
    assert_eq!(shapes, vec![(2, 3), (1, 4), (3, 2), (1, 6)]);
    assert_eq!(result.dice_rolls[2].kept, vec![1]);
    assert_eq!(result.value, 2.0 + 1.0 * 1.0);
}

#[test]
fn dice_count_is_checked_before_sides() {
    assert_eq!(eval_error("0d0"), EvalError::InvalidDiceCount(0.0));
    assert_eq!(eval_error("1.5d6"), EvalError::InvalidDiceCount(1.5));
    assert_eq!(eval_error("(-2)d6"), EvalError::InvalidDiceCount(-2.0));
    assert_eq!(eval_error("2d0"), EvalError::InvalidDiceSides(0.0));
    assert_eq!(eval_error("2d(1/2)"), EvalError::InvalidDiceSides(0.5));
}

#[test]
fn function_arity_errors() {
    assert_eq!(eval_error("min()"), EvalError::MinRequiresArgument);
    assert_eq!(eval_error("max()"), EvalError::MaxRequiresArgument);
    assert_eq!(
        eval_error("ceil()"),
        EvalError::InvalidFunctionArity { name: "ceil", expected: "1", got: 0 }
    );
}

#[test]
fn first_failure_in_order_wins() {
    // The division's operands are both evaluated before the divisor is tested.
    assert_eq!(eval_error("(1/0) + floor()"), EvalError::DivisionByZero);
    assert_eq!(eval_error("floor() + 1/0"), EvalError::InvalidFunctionArity {
        name: "floor",
        expected: "1",
        got: 0,
    });
    assert_eq!(eval_error("1 / floor(1, 2)"), EvalError::InvalidFunctionArity {
        name: "floor",
        expected: "1",
        got: 2,
    });
}

#[test]
fn failure_and_finish_repeat() {
    let expr = parse_dice_expression("min()").unwrap();
    let mut ev = Evaluation::new(&expr);
    let mut rng = Stepper::new(0, 1);
    for _ in 0..3 {
        match ev.advance(Answer::Continue, &mut rng) {
            Action::Fail(EvalFailure::MinRequiresArgument) => {}
            other => panic!("unexpected {other:?}"),
        }
    }
    let expr = parse_dice_expression("7").unwrap();
    let mut ev = Evaluation::new(&expr);
    assert!(matches!(ev.advance(Answer::Continue, &mut rng), Action::PushNumber(ref n) if n == "7"));
    for _ in 0..3 {
        assert!(matches!(ev.advance(Answer::Continue, &mut rng), Action::Finish));
    }
}

#[test]
fn unfitting_answer_repeats_the_question() {
    let expr = parse_dice_expression("4 / 2").unwrap();
    let mut ev = Evaluation::new(&expr);
    let mut rng = Stepper::new(0, 1);
    assert!(matches!(ev.advance(Answer::Continue, &mut rng), Action::PushNumber(_)));
    assert!(matches!(ev.advance(Answer::Continue, &mut rng), Action::PushNumber(_)));
    assert!(matches!(ev.advance(Answer::Continue, &mut rng), Action::TestDivisor));
    assert!(matches!(ev.advance(Answer::Continue, &mut rng), Action::TestDivisor));
    assert!(matches!(
        ev.advance(Answer::DiceSizes { count: Some(1), sides: Some(1) }, &mut rng),
        Action::TestDivisor
    ));
    assert!(matches!(
        ev.advance(Answer::DivisorIsZero(false), &mut rng),
        Action::Combine(BinaryOp::Div)
    ));
    assert!(matches!(ev.advance(Answer::Continue, &mut rng), Action::Finish));
}

#[test]
fn unary_minus_and_power() {
    assert_eq!(eval_with_step_rng("-2^2").value, 4.0);
    assert_eq!(eval_with_step_rng("2^3^2").value, 512.0);
    assert_eq!(eval_with_step_rng("10 - 4 - 3").value, 3.0);
}

#[test]
fn numerals_are_checked_before_evaluation() {
    assert!(numerals_well_formed(&parse_dice_expression("max(1.5, 2d6kh1, -(3.))").unwrap()));
    assert!(!numerals_well_formed(&Expr::Number("1.2.3".to_string())));
    assert!(!numerals_well_formed(&Expr::Number(".".to_string())));
    assert!(!numerals_well_formed(&Expr::Number(String::new())));
    let bad = Expr::FunctionCall {
        name: FunctionName::Min,
        args: vec![Expr::Number("4".to_string()), Expr::Number("x".to_string())],
    };
    assert!(!numerals_well_formed(&bad));
}

#[test]
fn only_rolls_draw_from_the_generator() {
    let expr = parse_dice_expression("1 + 2 * 3 / 4").unwrap();
    let mut ev = Evaluation::new(&expr);
    let mut rng = Stepper::new(0, 1);
    let mut answer = Answer::Continue;
    loop {
        match ev.advance(answer, &mut rng) {
            Action::TestDivisor => answer = Answer::DivisorIsZero(false),
            Action::Finish => break,
            _ => answer = Answer::Continue,
        }
    }
    // No die was rolled, so the generator still yields its first value.
    assert_eq!(rng.0.next_u64(), 0);
}

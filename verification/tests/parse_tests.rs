use dice_expr::{parse_dice_expression, DiceModifier, Expr, FunctionName, ParseError};

#[test]
fn parses_plain_number() {
    let expr = parse_dice_expression("42").unwrap();
    match expr {
        Expr::Number(n) => assert_eq!(n.parse::<f64>().unwrap(), 42.0),
        _ => panic!("expected number"),
    }
}

#[test]
fn parses_d20_shorthand() {
    let expr = parse_dice_expression("d20").unwrap();
    match expr {
        Expr::Dice {
            count,
            sides,
            modifier,
        } => {
            match *count {
                Expr::Number(n) => assert_eq!(n.parse::<f64>().unwrap(), 1.0),
                _ => panic!("expected numeric count"),
            }
            match *sides {
                Expr::Number(n) => assert_eq!(n.parse::<f64>().unwrap(), 20.0),
                _ => panic!("expected numeric sides"),
            }
            assert_eq!(modifier, None);
        }
        _ => panic!("expected dice expression"),
    }
}

#[test]
fn parses_keep_highest_modifier() {
    let expr = parse_dice_expression("4d6kh3").unwrap();
    match expr {
        Expr::Dice { modifier, .. } => {
            assert_eq!(modifier, Some(DiceModifier::KeepHighest(3)));
        }
        _ => panic!("expected dice expression"),
    }
}

#[test]
fn parses_keep_highest_with_space() {
    let expr = parse_dice_expression("4d6kh 3").unwrap();
    match expr {
        Expr::Dice { modifier, .. } => {
            assert_eq!(modifier, Some(DiceModifier::KeepHighest(3)));
        }
        _ => panic!("expected dice expression"),
    }
}

#[test]
fn parses_keep_highest_uppercase() {
    let expr = parse_dice_expression("4d6KH3").unwrap();
    match expr {
        Expr::Dice { modifier, .. } => {
            assert_eq!(modifier, Some(DiceModifier::KeepHighest(3)));
        }
        _ => panic!("expected dice expression"),
    }
}

#[test]
fn parses_functions() {
    let expr = parse_dice_expression("max(1, floor(2.9), ceil(3.1))").unwrap();
    match expr {
        Expr::FunctionCall {
            name: FunctionName::Max,
            args,
        } => {
            assert_eq!(args.len(), 3);
        }
        _ => panic!("expected function call"),
    }
}

#[test]
fn invalid_function_name_errors() {
    let err = parse_dice_expression("sqrt(4)").unwrap_err();
    match err {
        ParseError::InvalidFunctionName(name) => assert_eq!(name, "sqrt"),
        _ => panic!("expected invalid function name"),
    }
}

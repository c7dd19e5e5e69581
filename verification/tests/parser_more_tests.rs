use dice_expr::{
    parse_dice_expression, BinaryOp, DiceModifier, Expr, FunctionName, Lexer, ParseError, Parser,
    Token, UnaryOp,
};

/// A compact rendering of an expression tree.
fn show(e: &Expr) -> String {
    match e {
        Expr::Number(n) => n.clone(),
        Expr::Unary { op, expr } => {
            let o = match op {
                UnaryOp::Plus => "+",
                UnaryOp::Minus => "-",
            };
            format!("({o} {})", show(expr))
        }
        Expr::Binary { left, op, right } => {
            let o = match op {
                BinaryOp::Add => "+",
                BinaryOp::Sub => "-",
                BinaryOp::Mul => "*",
                BinaryOp::Div => "/",
                BinaryOp::Pow => "^",
            };
            format!("({o} {} {})", show(left), show(right))
        }
        Expr::Dice {
            count,
            sides,
            modifier,
        } => match modifier {
            None => format!("(d {} {})", show(count), show(sides)),
            Some(DiceModifier::KeepHighest(k)) => {
                format!("(d {} {} kh{k})", show(count), show(sides))
            }
        },
        Expr::FunctionCall { name, args } => {
            let n = match name {
                FunctionName::Min => "min",
                FunctionName::Max => "max",
                FunctionName::Floor => "floor",
                FunctionName::Ceil => "ceil",
            };
            let a: Vec<String> = args.iter().map(show).collect();
            format!("({n} {})", a.join(" "))
        }
    }
}

fn parsed(input: &str) -> String {
    show(&parse_dice_expression(input).unwrap())
}

fn unexpected(input: &str) -> (&'static str, Token) {
    match parse_dice_expression(input).unwrap_err() {
        ParseError::UnexpectedToken { expected, found } => (expected, found),
        e => panic!("unexpected error {e:?}"),
    }
}

#[test]
fn multiplication_binds_tighter_than_addition() {
    assert_eq!(parsed("1 + 2 * 3"), "(+ 1 (* 2 3))");
    assert_eq!(parsed("1 * 2 + 3"), "(+ (* 1 2) 3)");
}

#[test]
fn addition_and_division_are_left_associative() {
    assert_eq!(parsed("8 - 3 - 2"), "(- (- 8 3) 2)");
    assert_eq!(parsed("8 / 4 / 2"), "(/ (/ 8 4) 2)");
}

#[test]
fn power_is_right_associative() {
    assert_eq!(parsed("2^3^2"), "(^ 2 (^ 3 2))");
}

#[test]
fn sign_applies_before_power() {
    assert_eq!(parsed("-2^2"), "(^ (- 2) 2)");
    assert_eq!(parsed("+-1"), "(+ (- 1))");
}

#[test]
fn juxtaposition_multiplies() {
    assert_eq!(parsed("3(2 + 1)"), "(* 3 (+ 2 1))");
    assert_eq!(parsed("2 d6"), "(d 2 6)");
    assert_eq!(parsed("(2)(d6)"), "(* 2 (d 1 6))");
    assert_eq!(parsed("2 min(1)"), "(* 2 (min 1))");
}

#[test]
fn dice_rolls_are_left_associative() {
    assert_eq!(parsed("2d6d4"), "(d (d 2 6) 4)");
    assert_eq!(parsed("D20"), "(d 1 20)");
    assert_eq!(parsed("(1+1)d(3)"), "(d (+ 1 1) 3)");
}

#[test]
fn function_names_ignore_case() {
    assert_eq!(parsed("MIN(1, 2)"), "(min 1 2)");
    assert_eq!(parsed("Floor(2.5)"), "(floor 2.5)");
    assert_eq!(parsed("cEiL(1)"), "(ceil 1)");
    assert_eq!(parsed("max()"), "(max )");
}

#[test]
fn keep_highest_counts() {
    assert_eq!(parsed("4d6kh0"), "(d 4 6 kh0)");
    assert_eq!(parsed("4d6kh1e2"), "(d 4 6 kh100)");
    assert_eq!(parsed("4d6kh 3.0"), "(d 4 6 kh3)");
    assert_eq!(parsed("4d6kh 4294967295"), "(d 4 6 kh4294967295)");
    assert_eq!(parsed("4d6kh0e99999999999999999999"), "(d 4 6 kh0)");
}

#[test]
fn invalid_keep_highest_counts() {
    for input in [
        "4d6kh 1.5",
        "4d6khx",
        "4d6kh4294967296",
        "4d6kh1e10",
        "4d6khinf",
        "4d6khnan",
        "4d6kh_1",
        "4d6kh1e",
    ] {
        match parse_dice_expression(input).unwrap_err() {
            ParseError::InvalidDiceModifier(name) => {
                assert!(name.to_ascii_lowercase().starts_with("kh"), "{input}");
            }
            e => panic!("unexpected error {e:?} for {input}"),
        }
    }
}

/// The count that the numeral after `kh` gives agrees with reading it as a binary64 number.
#[test]
fn keep_highest_numeral_follows_binary64() {
    let mut numerals: Vec<String> = vec![
        "0.99999999999999999".into(),
        "0.9999999999999999".into(),
        "2.0000000000000001".into(),
        "2.0000000000000004".into(),
        "4294967294.99999999999".into(),
        "4294967295.0000001".into(),
        "4294967295.00000000001".into(),
        "4294967295.5".into(),
        "0.5".into(),
        ".0".into(),
        "7.".into(),
        format!("0.{}1", "0".repeat(400)),
        format!("0.{}247", "0".repeat(323)),
        format!("0.{}25", "0".repeat(324)),
    ];
    for e in 0..33u32 {
        for i in [(1u64 << e).saturating_sub(1), 1u64 << e, (1u64 << e) + 1] {
            for f in ["5", "0000000000000001", "9999999999999999", "99999999999999999"] {
                numerals.push(format!("{i}.{f}"));
            }
        }
    }
    for n in numerals {
        let v: f64 = n.parse().unwrap();
        let expected = if v.fract() != 0.0 || v < 0.0 || v > u32::MAX as f64 {
            None
        } else {
            Some(v as u32)
        };
        let got = match parse_dice_expression(&format!("1d6kh {n}")) {
            Ok(Expr::Dice {
                modifier: Some(DiceModifier::KeepHighest(k)),
                ..
            }) => Some(k),
            Err(ParseError::InvalidDiceModifier(_)) => None,
            other => panic!("unexpected result {other:?} for {n}"),
        };
        assert_eq!(got, expected, "numeral {n}");
    }
}

#[test]
fn syntax_errors_name_what_was_expected() {
    assert_eq!(unexpected(")"), ("number, identifier, or '('", Token::RParen));
    assert_eq!(unexpected("1 )"), ("end of input", Token::RParen));
    assert_eq!(
        unexpected("min 1"),
        ("'(' after function name", Token::Number("1".to_string()))
    );
    assert_eq!(unexpected("max(1"), ("')' after function arguments", Token::Eof));
    assert_eq!(unexpected("(1"), ("')'", Token::Eof));
    assert_eq!(unexpected("4d6kh"), ("number after kh", Token::Eof));
    assert_eq!(unexpected("4d6kh +"), ("number after kh", Token::Plus));
}

#[test]
fn missing_expression_errors() {
    assert!(matches!(
        parse_dice_expression("").unwrap_err(),
        ParseError::ExpectedExpression
    ));
    assert!(matches!(
        parse_dice_expression("1 +").unwrap_err(),
        ParseError::ExpectedExpression
    ));
}

#[test]
fn lexical_errors_come_first() {
    assert!(matches!(
        parse_dice_expression("1 + @").unwrap_err(),
        ParseError::UnexpectedChar { ch: '@', index: 4 }
    ));
}

#[test]
fn parser_reads_hand_made_tokens() {
    let tokens = vec![
        Token::Number("2".to_string()),
        Token::Star,
        Token::Number("3".to_string()),
    ];
    let expr = Parser::new(tokens).parse().unwrap();
    assert_eq!(show(&expr), "(* 2 3)");
    let tokens = Lexer::new("1+").tokenize().unwrap();
    assert!(matches!(
        Parser::new(tokens).parse().unwrap_err(),
        ParseError::ExpectedExpression
    ));
}

#[test]
fn cloned_expression_is_the_same_tree() {
    let e = parse_dice_expression("max(1, 2d6kh1, -(3 / 4))^2").unwrap();
    let c = e.clone();
    assert_eq!(format!("{e:?}"), format!("{c:?}"));
}

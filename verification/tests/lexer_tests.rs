use dice_expr::{Lexer, ParseError, Token};

fn lex(input: &str) -> Result<Vec<Token>, ParseError> {
    Lexer::new(input).tokenize()
}

fn num(s: &str) -> Token {
    Token::Number(s.to_string())
}

#[test]
fn tokenizes_dice_expression() {
    assert_eq!(
        lex("4d6kh3 + 2").unwrap(),
        vec![
            num("4"),
            Token::D,
            num("6"),
            Token::Ident("kh3".to_string()),
            Token::Plus,
            num("2"),
            Token::Eof
        ]
    );
}

#[test]
fn tokenizes_every_punctuation_mark() {
    assert_eq!(
        lex("+-*/^,()dD").unwrap(),
        vec![
            Token::Plus,
            Token::Minus,
            Token::Star,
            Token::Slash,
            Token::Caret,
            Token::Comma,
            Token::LParen,
            Token::RParen,
            Token::D,
            Token::D,
            Token::Eof
        ]
    );
}

#[test]
fn empty_input_is_only_eof() {
    assert_eq!(lex("").unwrap(), vec![Token::Eof]);
    assert_eq!(lex(" \t\r\n ").unwrap(), vec![Token::Eof]);
}

#[test]
fn numerals_keep_their_text() {
    assert_eq!(
        lex("1.5 .5 2. 007").unwrap(),
        vec![num("1.5"), num(".5"), num("2."), num("007"), Token::Eof]
    );
}

#[test]
fn second_dot_starts_a_new_numeral() {
    assert_eq!(lex("3.5.2").unwrap(), vec![num("3.5"), num(".2"), Token::Eof]);
}

#[test]
fn identifiers_take_letters_digits_and_underscores() {
    assert_eq!(
        lex("_a1 floor2x").unwrap(),
        vec![
            Token::Ident("_a1".to_string()),
            Token::Ident("floor2x".to_string()),
            Token::Eof
        ]
    );
}

#[test]
fn lone_dot_is_an_error_at_the_dot() {
    match lex(".").unwrap_err() {
        ParseError::UnexpectedChar { ch, index } => {
            assert_eq!(ch, '.');
            assert_eq!(index, 0);
        }
        e => panic!("unexpected error {e:?}"),
    }
    match lex("1 + .").unwrap_err() {
        ParseError::UnexpectedChar { ch, index } => {
            assert_eq!(ch, '.');
            assert_eq!(index, 4);
        }
        e => panic!("unexpected error {e:?}"),
    }
    match lex("\u{e9} .5 .").unwrap_err() {
        ParseError::UnexpectedChar { ch, index } => {
            assert_eq!(ch, '\u{e9}');
            assert_eq!(index, 0);
        }
        e => panic!("unexpected error {e:?}"),
    }
    match lex("12 +\t3 .").unwrap_err() {
        ParseError::UnexpectedChar { ch, index } => {
            assert_eq!(ch, '.');
            assert_eq!(index, 7);
        }
        e => panic!("unexpected error {e:?}"),
    }
}

#[test]
fn unexpected_character_reports_byte_index() {
    match lex("2 $ 3").unwrap_err() {
        ParseError::UnexpectedChar { ch, index } => {
            assert_eq!(ch, '$');
            assert_eq!(index, 2);
        }
        e => panic!("unexpected error {e:?}"),
    }
    match lex("12 \u{e9}").unwrap_err() {
        ParseError::UnexpectedChar { ch, index } => {
            assert_eq!(ch, '\u{e9}');
            assert_eq!(index, 3);
        }
        e => panic!("unexpected error {e:?}"),
    }
}

#[test]
fn fresh_lexer_peeks_first_character() {
    let lexer = Lexer::new("x1");
    assert_eq!(lexer.peek(), Some('x'));
    assert_eq!(lexer.byte_index(), 0);
    let empty = Lexer::new("");
    assert_eq!(empty.peek(), None);
    assert_eq!(empty.byte_index(), 0);
}

#[test]
fn token_stream_has_one_eof_at_the_end() {
    let tokens = lex("min(1d20, 3) * (2 + d4kh1)").unwrap();
    assert_eq!(tokens.last(), Some(&Token::Eof));
    assert_eq!(tokens.iter().filter(|t| **t == Token::Eof).count(), 1);
    for t in &tokens {
        if let Token::Number(n) = t {
            assert!(n.parse::<f64>().is_ok());
        }
    }
}

fn lexed(input: &str) -> String {
    format!("{:?}", lex(input))
}

#[test]
fn spacing_does_not_change_the_tokens() {
    assert_eq!(lexed("1 +\t2d6kh3"), lexed("1\n+ 2d6kh3 \r\n\t"));
    assert_eq!(lexed("max( 4 ,\t.5 )"), lexed("max(\t4\r,\n.5\n)   "));
    assert_eq!(lexed("3 $ 4"), lexed("3\t$\n4  "));
    assert_eq!(lexed("2 + ."), lexed("2\t+\r.\n"));
}

#[test]
fn at_most_one_token_per_character_and_eof() {
    for input in ["", "1+2", "d20", "max(1,2)", "4d6kh3", "   7  ", "abc", "1.5.5"] {
        let tokens = lex(input).unwrap();
        assert!(tokens.len() <= input.chars().count() + 1);
    }
    assert_eq!(lex("1+2").unwrap().len(), 4);
}

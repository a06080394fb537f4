use lexer::{
    run_lexer, Delimiter, Error, ErrorPosition, FloatErrorKind, IntErrorKind, Lexer, Operator,
    Side, Token,
};

fn pos(code_row: &str, row: usize, column: usize) -> ErrorPosition {
    ErrorPosition { file_path: None, code_row: code_row.to_string(), row, column }
}

fn final_row(code: &str) -> usize {
    let mut lexer = Lexer::new(code);
    while lexer.position().index < code.chars().count() {
        if !lexer.advance().unwrap() {
            break;
        }
    }
    lexer.position().row
}

#[test]
fn parentheses() {
    assert_eq!(
        run_lexer("()"),
        Ok(vec![
            Token::Group(Delimiter::Parentheses, Side::Left),
            Token::Group(Delimiter::Parentheses, Side::Right),
        ])
    );
}

#[test]
fn int_plus_float() {
    let tokens = run_lexer("1 + 2.5").unwrap();
    assert_eq!(tokens.len(), 3);
    assert_eq!(tokens[0], Token::LitInt(1));
    assert_eq!(tokens[1], Token::Operator(Operator::Add));
    match &tokens[2] {
        Token::LitFloat(text) => assert_eq!(text.parse::<f64>().unwrap(), 2.5),
        other => panic!("expected a float, got {:?}", other),
    }
}

#[test]
fn identifier_is_invalid_character() {
    assert_eq!(run_lexer("a -> b"), Err(Error::InvalidCharacter(pos("a -> b", 0, 0), 'a')));
}

#[test]
fn block_comment_over_two_lines() {
    assert_eq!(run_lexer("/* hi\nthere */ ,"), Ok(vec![Token::Comma]));
    assert_eq!(final_row("/* hi\nthere */ ,"), 1);
}

#[test]
fn string_literal() {
    assert_eq!(run_lexer("\"abc\""), Ok(vec![Token::LitStr("abc".to_string())]));
}

#[test]
fn char_literal_too_long() {
    assert_eq!(
        run_lexer("'ab'"),
        Err(Error::InvalidLitChar(pos("'ab'", 0, 0), "a char has to have exactly one codepoint"))
    );
}

#[test]
fn hex_literal() {
    assert_eq!(run_lexer("0xFF"), Ok(vec![Token::LitInt(255)]));
}

#[test]
fn range_of_ints() {
    assert_eq!(
        run_lexer("1..5"),
        Ok(vec![Token::LitInt(1), Token::Dot, Token::Dot, Token::LitInt(5)])
    );
}

#[test]
fn unterminated_string() {
    match run_lexer("\"unterminated") {
        Err(Error::UnexpectedEOF(p, hint)) => {
            assert_eq!(p, pos("\"unterminated", 0, 0));
            assert!(hint.contains("trailing \""));
        }
        other => panic!("expected an end-of-file error, got {:?}", other),
    }
}

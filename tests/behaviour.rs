use lexer::{
    run_lexer, Delimiter, Error, ErrorPosition, FloatErrorKind, IntErrorKind, Lexer,
    LexerPosition, Operator, Side, Token,
};

fn at(code_row: &str, row: usize, column: usize) -> ErrorPosition {
    ErrorPosition { file_path: None, code_row: code_row.to_string(), row, column }
}

fn tokens(code: &str) -> Vec<Token> {
    run_lexer(code).unwrap()
}

#[test]
fn empty_source_has_no_tokens() {
    assert_eq!(run_lexer(""), Ok(vec![]));
    assert_eq!(run_lexer(" \t\n\r "), Ok(vec![]));
}

#[test]
fn punctuation_and_operators() {
    assert_eq!(
        tokens(". , + - * / -> { } [ ]"),
        vec![
            Token::Dot,
            Token::Comma,
            Token::Operator(Operator::Add),
            Token::Operator(Operator::Sub),
            Token::Operator(Operator::Mul),
            Token::Operator(Operator::Div),
            Token::Arrow,
            Token::Group(Delimiter::Braces, Side::Left),
            Token::Group(Delimiter::Braces, Side::Right),
            Token::Group(Delimiter::Brackets, Side::Left),
            Token::Group(Delimiter::Brackets, Side::Right),
        ]
    );
}

#[test]
fn minus_then_arrow_without_spaces() {
    assert_eq!(tokens("--->"), vec![
        Token::Operator(Operator::Sub),
        Token::Operator(Operator::Sub),
        Token::Arrow,
    ]);
}

#[test]
fn line_comment_runs_to_end_of_line() {
    assert_eq!(tokens("1 // two + three\n,"), vec![Token::LitInt(1), Token::Comma]);
    assert_eq!(tokens("// only a comment"), vec![]);
}

#[test]
fn block_comment_ends_at_first_close() {
    assert_eq!(tokens("/* a */ * /"), vec![
        Token::Operator(Operator::Mul),
        Token::Operator(Operator::Div),
    ]);
    assert_eq!(tokens("/*/ ,"), vec![Token::Comma]);
}

#[test]
fn unterminated_block_comment() {
    assert_eq!(
        run_lexer(", /* never closed"),
        Err(Error::UnexpectedEOF(at(", /* never closed", 0, 2), "while waiting for the trailing */"))
    );
}

#[test]
fn string_keeps_contents_verbatim() {
    assert_eq!(tokens("\"a\\nb\",\"\""), vec![
        Token::LitStr("a\\nb".to_string()),
        Token::Comma,
        Token::LitStr(String::new()),
    ]);
}

#[test]
fn char_literals() {
    assert_eq!(tokens("'x' 'é'"), vec![Token::LitChar('x'), Token::LitChar('é')]);
    assert_eq!(
        run_lexer("''"),
        Err(Error::InvalidLitChar(at("''", 0, 0), "a char has to have exactly one codepoint"))
    );
    assert_eq!(
        run_lexer("  'a"),
        Err(Error::UnexpectedEOF(at("  'a", 0, 2), "while waiting for the trailing '"))
    );
}

#[test]
fn radix_prefixes() {
    assert_eq!(tokens("0o17 0b101 0x1f 007"), vec![
        Token::LitInt(15),
        Token::LitInt(5),
        Token::LitInt(31),
        Token::LitInt(7),
    ]);
}

#[test]
fn binary_literal_stops_at_non_binary_digit() {
    assert_eq!(tokens("0b102"), vec![Token::LitInt(2), Token::LitInt(2)]);
}

#[test]
fn largest_integer() {
    assert_eq!(tokens("9223372036854775807"), vec![Token::LitInt(i64::MAX)]);
    assert_eq!(tokens("0x7fffffffffffffff"), vec![Token::LitInt(i64::MAX)]);
}

#[test]
fn integer_overflow() {
    assert_eq!(
        run_lexer("9223372036854775808"),
        Err(Error::InvalidLitInt(at("9223372036854775808", 0, 0), IntErrorKind::PosOverflow))
    );
}

#[test]
fn prefix_without_digits() {
    assert_eq!(run_lexer("0x"), Err(Error::InvalidLitInt(at("0x", 0, 0), IntErrorKind::Empty)));
}

#[test]
fn prefixed_float_is_invalid() {
    assert_eq!(
        run_lexer("0x1.8"),
        Err(Error::InvalidLitFloat(at("0x1.8", 0, 0), FloatErrorKind::Invalid))
    );
}

#[test]
fn floats_and_dots() {
    assert_eq!(tokens("1.2.3"), vec![
        Token::LitFloat("1.2".to_string()),
        Token::Dot,
        Token::LitInt(3),
    ]);
    assert_eq!(tokens("1."), vec![Token::LitInt(1), Token::Dot]);
    assert_eq!(tokens("0.5"), vec![Token::LitFloat("0.5".to_string())]);
}

#[test]
fn digits_dot_dot_digits_is_never_a_float() {
    for d in ["0", "7", "42", "123456789"] {
        let code = format!("{}..{}", d, d);
        let v: i64 = d.parse().unwrap();
        assert_eq!(tokens(&code), vec![Token::LitInt(v), Token::Dot, Token::Dot, Token::LitInt(v)]);
    }
}

#[test]
fn error_on_a_later_line() {
    assert_eq!(
        run_lexer("1,\n  2 @ 3\n4"),
        Err(Error::InvalidCharacter(at("  2 @ 3", 1, 4), '@'))
    );
}

#[test]
fn newlines_in_strings_count_as_rows() {
    assert_eq!(
        run_lexer("\"a\nb\" x"),
        Err(Error::InvalidCharacter(at("b\" x", 1, 3), 'x'))
    );
}

#[test]
fn whitespace_between_tokens_does_not_matter() {
    assert_eq!(tokens("(1+2.5)*[3]"), tokens(" ( 1\t+\n2.5 ) *\r\n[ 3 ] "));
    assert_eq!(tokens("1 .. 5"), tokens("1..5"));
}

#[test]
fn comments_read_as_spaces() {
    assert_eq!(tokens("1/* c */+/* d\n */2 // e"), tokens("1 + 2  "));
    assert_eq!(tokens("3//x\n"), tokens("3 \n"));
}

#[test]
fn same_source_same_result() {
    let code = "{ 0x10 -> 'c', \"s\" }";
    assert_eq!(run_lexer(code), run_lexer(code));
    assert_eq!(run_lexer("$"), run_lexer("$"));
}

#[test]
fn position_tracker() {
    let mut p = LexerPosition::new();
    assert_eq!(p, LexerPosition { index: 0, row: 0, row_index: 0, column: 0 });
    p.advance(3);
    assert_eq!(p, LexerPosition { index: 3, row: 0, row_index: 0, column: 3 });
    p.new_line();
    assert_eq!(p, LexerPosition { index: 4, row: 1, row_index: 4, column: 0 });
    p.advance(2);
    assert_eq!(p.column, p.index - p.row_index);
}

#[test]
fn stepping_keeps_column_and_counts_rows() {
    let code = "1\n/* a\nb\n*/ 'q'\n\"x\ny\" // z\n,";
    let mut lexer = Lexer::new(code);
    let mut more = true;
    while more {
        more = lexer.advance().unwrap();
        let p = lexer.position();
        assert_eq!(p.column, p.index - p.row_index);
        let passed: String = code.chars().take(p.index).collect();
        assert_eq!(p.row, passed.matches('\n').count());
    }
    assert_eq!(lexer.position().row, 6);
    assert_eq!(lexer.position().index, code.chars().count());
}

#[test]
fn run_after_some_steps() {
    let mut lexer = Lexer::new("1 2 3");
    assert_eq!(lexer.advance(), Ok(true));
    assert_eq!(lexer.run(), Ok(vec![Token::LitInt(1), Token::LitInt(2), Token::LitInt(3)]));
}

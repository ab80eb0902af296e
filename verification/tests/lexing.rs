use arith_expr::parser::element::Operation;
use arith_expr::parser::lexer::tokenize;
use arith_expr::parser::scope_marker::ScopeMarker;
use arith_expr::parser::token::{LexError, Token};

fn name(s: &str) -> Token {
    Token::Identifier(s.to_string())
}

#[test]
fn empty_text_has_no_tokens() {
    assert_eq!(tokenize(""), Ok(vec![]));
    assert_eq!(tokenize(" \t\r\n "), Ok(vec![]));
}

#[test]
fn numbers_are_maximal_runs_of_digits() {
    assert_eq!(tokenize("42"), Ok(vec![Token::Number(42)]));
    assert_eq!(
        tokenize("4 2"),
        Ok(vec![Token::Number(4), Token::Number(2)])
    );
    assert_eq!(tokenize("007"), Ok(vec![Token::Number(7)]));
    assert_eq!(tokenize("0"), Ok(vec![Token::Number(0)]));
}

#[test]
fn largest_literal_is_accepted() {
    assert_eq!(tokenize("2147483647"), Ok(vec![Token::Number(i32::MAX)]));
    assert_eq!(
        tokenize("0000000002147483647"),
        Ok(vec![Token::Number(i32::MAX)])
    );
}

#[test]
fn literal_above_the_largest_is_rejected() {
    assert_eq!(tokenize("2147483648"), Err(LexError::LiteralOutOfRange(0)));
    assert_eq!(
        tokenize("1 + 99999999999999999999"),
        Err(LexError::LiteralOutOfRange(4))
    );
}

#[test]
fn identifiers_start_with_a_letter_and_go_on_with_word_characters() {
    assert_eq!(tokenize("x"), Ok(vec![name("x")]));
    assert_eq!(tokenize("rate_2b"), Ok(vec![name("rate_2b")]));
    assert_eq!(tokenize("Abc xyZ"), Ok(vec![name("Abc"), name("xyZ")]));
    assert_eq!(
        tokenize("12abc"),
        Ok(vec![Token::Number(12), name("abc")])
    );
}

#[test]
fn let_is_lexed_as_an_identifier() {
    assert_eq!(
        tokenize("let x = 1;"),
        Ok(vec![
            name("let"),
            name("x"),
            Token::Assign,
            Token::Number(1),
            Token::Semicolon
        ])
    );
}

#[test]
fn every_operator_is_a_token() {
    assert_eq!(
        tokenize("+-*/^"),
        Ok(vec![
            Token::Operator(Operation::Add),
            Token::Operator(Operation::Subtract),
            Token::Operator(Operation::Multiply),
            Token::Operator(Operation::Divide),
            Token::Operator(Operation::Power),
        ])
    );
}

#[test]
fn every_delimiter_is_a_token() {
    assert_eq!(
        tokenize("( ) { } [ ]"),
        Ok(vec![
            Token::Delimiter(ScopeMarker::OpenParenthesis),
            Token::Delimiter(ScopeMarker::CloseParenthesis),
            Token::Delimiter(ScopeMarker::OpenCurlyBrace),
            Token::Delimiter(ScopeMarker::CloseCurlyBrace),
            Token::Delimiter(ScopeMarker::OpenBracket),
            Token::Delimiter(ScopeMarker::CloseBracket),
        ])
    );
}

#[test]
fn whitespace_is_insignificant() {
    assert_eq!(tokenize("2+x*( y )"), tokenize(" 2 +\tx\n* (y)  "));
}

#[test]
fn white_space_of_unicode_separates_tokens() {
    assert_eq!(tokenize("1\u{a0}+\u{2003}2"), tokenize("1 + 2"));
    assert_eq!(tokenize("\u{3000}x\u{85}\u{2028}"), tokenize("x"));
    assert_eq!(tokenize("a\u{b}b\u{c}c"), tokenize("a b c"));
    assert_eq!(tokenize("1\u{200b}2"), Err(LexError::UnsupportedSymbol(1)));
}

#[test]
fn unsupported_symbol_is_rejected_at_its_offset() {
    assert_eq!(tokenize("2 $ 3"), Err(LexError::UnsupportedSymbol(2)));
    assert_eq!(tokenize("_x"), Err(LexError::UnsupportedSymbol(0)));
    assert_eq!(tokenize("a.b"), Err(LexError::UnsupportedSymbol(1)));
    assert_eq!(tokenize("1 + é"), Err(LexError::UnsupportedSymbol(4)));
}

#[test]
fn first_error_from_the_left_is_reported() {
    assert_eq!(
        tokenize("99999999999 $"),
        Err(LexError::LiteralOutOfRange(0))
    );
    assert_eq!(
        tokenize("$ 99999999999"),
        Err(LexError::UnsupportedSymbol(0))
    );
}

#[test]
fn offsets_count_characters() {
    assert_eq!(tokenize("é"), Err(LexError::UnsupportedSymbol(0)));
    assert_eq!(tokenize("1 é $"), Err(LexError::UnsupportedSymbol(2)));
}

use std::collections::VecDeque;

use lisp_core::{make_token, Builtins, LexError, Lexer, Token, TokenType};

fn lexer(src: &[u8]) -> Lexer {
    Lexer::new(VecDeque::from(src.to_vec()))
}

fn tok(typ_: TokenType, text: &str) -> Token {
    Token { num: 0, typ_, text: text.to_string() }
}

fn num(n: i32) -> Token {
    Token { num: n, typ_: TokenType::TokenNumber, text: String::new() }
}

#[test]
fn digits_read_as_one_number() {
    let mut lx = lexer(b"42");
    assert_eq!(lx.next(), Ok(num(42)));
    assert_eq!(lx.next(), Ok(tok(TokenType::TokenEOF, "EOF")));
}

#[test]
fn digits_with_leading_zeros() {
    let mut lx = lexer(b"007");
    assert_eq!(lx.next(), Ok(num(7)));
}

#[test]
fn largest_number_fits() {
    let mut lx = lexer(b"2147483647");
    assert_eq!(lx.next(), Ok(num(2147483647)));
}

#[test]
fn number_too_large_is_an_error() {
    let mut lx = lexer(b"2147483648");
    assert_eq!(lx.next(), Err(LexError::InvalidNumber));
}

#[test]
fn reserved_words_give_registered_tokens() {
    let table = Builtins::new();
    for name in ["#t", "#f", "cons"] {
        let mut lx = lexer(name.as_bytes());
        let registered = table.get(&name.to_string()).unwrap();
        assert_eq!(lx.next(), Ok(registered));
    }
    assert_eq!(lexer(b"#t").next(), Ok(tok(TokenType::TokenConst, "#t")));
    assert_eq!(lexer(b"#f").next(), Ok(tok(TokenType::TokenConst, "#f")));
    assert_eq!(lexer(b"cons").next(), Ok(tok(TokenType::TokenAtom, "cons")));
}

#[test]
fn free_name_is_an_atom() {
    let mut lx = lexer(b"  foo bar");
    assert_eq!(lx.next(), Ok(tok(TokenType::TokenAtom, "foo")));
    assert_eq!(lx.next(), Ok(tok(TokenType::TokenAtom, "bar")));
    assert_eq!(lx.next(), Ok(tok(TokenType::TokenEOF, "EOF")));
}

#[test]
fn name_runs_to_white_space() {
    let mut lx = lexer(b"a-b) 3");
    assert_eq!(lx.next(), Ok(tok(TokenType::TokenAtom, "a-b)")));
    assert_eq!(lx.next(), Ok(num(3)));
}

#[test]
fn number_stops_at_non_digit() {
    let mut lx = lexer(b"12)");
    assert_eq!(lx.next(), Ok(num(12)));
    assert_eq!(lx.next(), Ok(tok(TokenType::TokenRPar, ")")));
}

#[test]
fn comment_is_skipped() {
    let mut lx = lexer(b"; a comment\n7");
    assert_eq!(lx.next(), Ok(num(7)));
}

#[test]
fn comment_at_end_of_input() {
    let mut lx = lexer(b"; only this");
    assert_eq!(lx.next(), Ok(tok(TokenType::TokenEOF, "EOF")));
}

#[test]
fn string_literal() {
    let mut lx = lexer(b"\"abc\" 5");
    assert_eq!(lx.next(), Ok(tok(TokenType::TokenString, "abc")));
    assert_eq!(lx.next(), Ok(num(5)));
}

#[test]
fn string_at_end_of_input_is_an_error() {
    let mut lx = lexer(b"\"");
    assert_eq!(lx.next(), Err(LexError::UnexpectedEof));
}

#[test]
fn single_character_tokens() {
    let mut lx = lexer(b"( ) . ' *");
    assert_eq!(lx.next(), Ok(tok(TokenType::TokenLPar, "(")));
    assert_eq!(lx.next(), Ok(tok(TokenType::TokenRPar, ")")));
    assert_eq!(lx.next(), Ok(tok(TokenType::TokenDot, ".")));
    assert_eq!(lx.next(), Ok(tok(TokenType::TokenQuote, "'")));
    assert_eq!(lx.next(), Ok(tok(TokenType::TokenChar, "*")));
    assert_eq!(lx.next(), Ok(tok(TokenType::TokenEOF, "EOF")));
}

#[test]
fn byte_above_ascii_is_an_error() {
    let mut lx = lexer(&[0xff]);
    assert_eq!(lx.next(), Err(LexError::InvalidByte(0xff)));
    let mut lx = lexer(&[b'a', 0xc3, 0xa9]);
    assert_eq!(lx.next(), Err(LexError::InvalidByte(0xc3)));
}

#[test]
fn empty_input_is_end_of_input() {
    let mut lx = lexer(b"");
    assert_eq!(lx.next(), Ok(tok(TokenType::TokenEOF, "EOF")));
    assert_eq!(lx.next(), Ok(tok(TokenType::TokenEOF, "EOF")));
}

#[test]
fn make_token_reads_numbers() {
    assert_eq!(make_token(TokenType::TokenNumber, "42".to_string()), Ok(num(42)));
    assert_eq!(make_token(TokenType::TokenNumber, "-17".to_string()), Ok(num(-17)));
    assert_eq!(make_token(TokenType::TokenNumber, "+5".to_string()), Ok(num(5)));
    assert_eq!(
        make_token(TokenType::TokenNumber, "-2147483648".to_string()),
        Ok(num(-2147483648))
    );
}

#[test]
fn make_token_rejects_bad_numbers() {
    for text in ["", "-", "abc", "1a", "2147483648", "-2147483649", "é"] {
        assert_eq!(
            make_token(TokenType::TokenNumber, text.to_string()),
            Err(LexError::InvalidNumber)
        );
    }
}

#[test]
fn make_token_keeps_text() {
    assert_eq!(
        make_token(TokenType::TokenAtom, "xyz".to_string()),
        Ok(tok(TokenType::TokenAtom, "xyz"))
    );
}

#[test]
fn builtins_lookup() {
    let table = Builtins::new();
    assert_eq!(table.get(&"#t".to_string()), Some(tok(TokenType::TokenConst, "#t")));
    assert_eq!(table.get(&"cons".to_string()), Some(tok(TokenType::TokenAtom, "cons")));
    assert_eq!(table.get(&"car".to_string()), None);
}

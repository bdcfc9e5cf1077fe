use std::collections::VecDeque;
use std::rc::Rc;

use lisp_core::{Environment, EvalError, Expression, ParseError, Parser, Procedure, Token, TokenType};

fn parser(src: &str) -> Parser {
    Parser::new(VecDeque::from(src.as_bytes().to_vec()))
}

fn atom(typ_: TokenType, text: &str) -> Rc<Expression> {
    Rc::new(Expression::Atom(Token { num: 0, typ_, text: text.to_string() }))
}

fn number(n: i32) -> Rc<Expression> {
    Rc::new(Expression::Atom(Token { num: n, typ_: TokenType::TokenNumber, text: String::new() }))
}

fn empty() -> Rc<Expression> {
    Rc::new(Expression::Empty)
}

fn pair(a: Rc<Expression>, b: Rc<Expression>) -> Rc<Expression> {
    Environment::cons(a, b)
}

fn list2(a: Rc<Expression>, b: Rc<Expression>) -> Rc<Expression> {
    pair(a, pair(b, empty()))
}

fn truthy() -> Rc<Expression> {
    atom(TokenType::TokenConst, "#t")
}

fn falsy() -> Rc<Expression> {
    atom(TokenType::TokenConst, "#f")
}

#[test]
fn parse_cons_form() {
    let mut p = parser("(cons 1 2)");
    let e = p.list().unwrap();
    let expected = pair(
        atom(TokenType::TokenAtom, "cons"),
        pair(number(1), pair(number(2), empty())),
    );
    assert_eq!(e, expected);
    assert!(p.list().unwrap().is_empty());
}

#[test]
fn parse_empty_input_gives_empty() {
    let mut p = parser("");
    let env = Environment::new();
    let mut evaluations = 0;
    loop {
        let e = p.list().unwrap();
        if e.is_empty() {
            break;
        }
        let _ = env.eval(e);
        evaluations += 1;
    }
    assert_eq!(evaluations, 0);
}

#[test]
fn parse_unclosed_list_fails() {
    let mut p = parser("(1 2");
    assert_eq!(p.list(), Err(ParseError::UnexpectedToken(TokenType::TokenEOF)));
}

#[test]
fn parse_other_unclosed_lists_fail() {
    for src in ["(", "((1)", "(a b", "(()"] {
        assert_eq!(
            parser(src).list(),
            Err(ParseError::UnexpectedToken(TokenType::TokenEOF)),
            "{}",
            src
        );
    }
}

#[test]
fn parse_stray_right_paren_fails() {
    let mut p = parser(")");
    assert_eq!(p.list(), Err(ParseError::UnexpectedToken(TokenType::TokenRPar)));
}

#[test]
fn parse_dot_is_not_in_the_grammar() {
    let mut p = parser("(1 . 2)");
    assert_eq!(p.list(), Err(ParseError::UnexpectedToken(TokenType::TokenDot)));
}

#[test]
fn parse_nested_lists() {
    let mut p = parser("((1) 2) #t");
    let expected = pair(pair(number(1), empty()), pair(number(2), empty()));
    assert_eq!(p.list().unwrap(), expected);
    assert_eq!(p.list().unwrap(), truthy());
    assert!(p.list().unwrap().is_empty());
}

#[test]
fn parse_empty_list() {
    let mut p = parser("()");
    assert_eq!(p.list().unwrap(), empty());
}

#[test]
fn parse_lex_error_is_passed_on() {
    let mut p = parser("(99999999999)");
    assert_eq!(p.list(), Err(ParseError::Lex(lisp_core::LexError::InvalidNumber)));
}

#[test]
fn eval_unbound_name() {
    let mut p = parser("unbound-name");
    let env = Environment::new();
    let e = p.list().unwrap();
    assert_eq!(env.eval(e), Err(EvalError::UnboundName("unbound-name".to_string())));
}

#[test]
fn eval_cons_call() {
    let mut p = parser("(cons 1 2)");
    let env = Environment::new();
    let e = p.list().unwrap();
    assert_eq!(env.eval(e), Ok(pair(number(1), number(2))));
}

#[test]
fn eval_unbound_call() {
    let env = Environment::new();
    let e = parser("(car 1)").list().unwrap();
    assert_eq!(env.eval(e), Err(EvalError::UnboundName("car".to_string())));
}

#[test]
fn eval_cons_with_one_argument() {
    let env = Environment::new();
    let e = parser("(cons 1)").list().unwrap();
    assert_eq!(env.eval(e), Err(EvalError::NotAPair));
}

#[test]
fn eval_self_evaluating() {
    let env = Environment::new();
    assert_eq!(env.eval(number(5)), Ok(number(5)));
    assert_eq!(env.eval(truthy()), Ok(truthy()));
    let lst = pair(pair(number(1), empty()), empty());
    assert_eq!(env.eval(lst.clone()), Ok(lst));
}

#[test]
fn eval_calls_a_constant() {
    let env = Environment::new();
    let e = parser("(#f 1)").list().unwrap();
    assert_eq!(env.eval(e), Ok(falsy()));
}

#[test]
fn eval_empty_fails() {
    let env = Environment::new();
    assert_eq!(env.eval(empty()), Err(EvalError::EmptyExpression));
}

#[test]
fn car_and_cdr_undo_cons() {
    let a = number(1);
    let b = atom(TokenType::TokenAtom, "x");
    let c = Environment::cons(a.clone(), b.clone());
    assert_eq!(Environment::car(c.clone()), Some(a));
    assert_eq!(Environment::cdr(c), Ok(b));
}

#[test]
fn car_and_cdr_of_non_pairs() {
    assert_eq!(Environment::car(number(1)), None);
    assert_eq!(Environment::car(empty()), None);
    assert_eq!(Environment::cdr(number(1)), Err(EvalError::NotAPair));
    assert_eq!(Environment::cdr(empty()), Err(EvalError::NotAPair));
}

#[test]
fn eq_both_empty_is_truthy() {
    let env = Environment::new();
    assert_eq!(env.eq(pair(empty(), empty())), Ok(truthy()));
    assert_eq!(env.eq(list2(empty(), empty())), Ok(truthy()));
}

#[test]
fn eq_numbers() {
    let env = Environment::new();
    assert_eq!(env.eq(list2(number(3), number(3))), Ok(truthy()));
    assert_eq!(env.eq(list2(number(3), number(4))), Ok(falsy()));
}

#[test]
fn eq_category_mismatch_is_falsy() {
    let env = Environment::new();
    let x = atom(TokenType::TokenAtom, "x");
    assert_eq!(env.eq(list2(x.clone(), number(3))), Ok(falsy()));
    assert_eq!(env.eq(list2(number(3), x)), Ok(falsy()));
}

#[test]
fn eq_is_symmetric_and_reflexive_on_atoms() {
    let env = Environment::new();
    let x = atom(TokenType::TokenAtom, "x");
    let y = atom(TokenType::TokenAtom, "y");
    assert_eq!(env.eq(list2(x.clone(), x.clone())), Ok(truthy()));
    assert_eq!(env.eq(list2(x.clone(), y.clone())), Ok(falsy()));
    assert_eq!(env.eq(list2(y, x.clone())), Ok(falsy()));
    assert_eq!(env.eq(list2(x.clone(), empty())), Ok(falsy()));
    assert_eq!(env.eq(list2(empty(), x)), Ok(falsy()));
}

#[test]
fn eq_on_pairs_is_falsy() {
    let env = Environment::new();
    let p = pair(number(1), empty());
    assert_eq!(env.eq(list2(p.clone(), p)), Ok(falsy()));
}

#[test]
fn eq_needs_a_pair() {
    let env = Environment::new();
    assert_eq!(env.eq(number(1)), Err(EvalError::NotAPair));
}

#[test]
fn lookup_builtin_names() {
    let env = Environment::new();
    let t = |typ_, text: &str| Token { num: 0, typ_, text: text.to_string() };
    assert_eq!(env.lookup_builtin(t(TokenType::TokenAtom, "cons")), Some(Procedure::Cons));
    assert_eq!(env.lookup_builtin(t(TokenType::TokenConst, "#t")), Some(Procedure::Constant));
    assert_eq!(env.lookup_builtin(t(TokenType::TokenAtom, "foo")), None);
}

#[test]
fn is_empty_tells_shapes_apart() {
    assert!(empty().is_empty());
    assert!(!number(1).is_empty());
    assert!(!pair(empty(), empty()).is_empty());
}

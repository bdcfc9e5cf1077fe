use std::collections::VecDeque;
use std::rc::Rc;
use vstd::prelude::*;

use crate::eval::Environment;
use crate::lexer::{
    lemma_lex_consumes, lemma_lex_rparen, lex_spec, no_byte, no_rpar_entry, LexError, Lexer, Token,
    TokenType, TokenView,
};

verus! {

/// A symbolic expression: empty, an atom that wraps a token, or a pair of
/// shared sub-expressions.
#[derive(PartialEq, Eq, Debug)]
pub enum Expression {
    Empty,
    Atom(Token),
    Pair(Rc<Expression>, Rc<Expression>),
}

/// An expression as plain values.
pub enum Form {
    Empty,
    Atom(TokenView),
    Pair(Box<Form>, Box<Form>),
}

/// An expression as plain values.
pub open spec fn form_of(e: Expression) -> Form
    decreases e,
{
    match e {
        Expression::Empty => Form::Empty,
        Expression::Atom(t) => Form::Atom(t@),
        Expression::Pair(h, t) => Form::Pair(Box::new(form_of(*h)), Box::new(form_of(*t))),
    }
}

impl View for Expression {
    type V = Form;

    open spec fn view(&self) -> Form {
        form_of(*self)
    }
}

impl Expression {
    /// Whether this is the empty expression.
    pub fn is_empty(&self) -> (r: bool)
        ensures
            r == (self@ is Empty),
    {
        match self {
            Expression::Empty => true,
            _ => false,
        }
    }
}


/// Why no expression could be read.
#[derive(PartialEq, Eq, Structural, Debug, Clone, Copy)]
pub enum ParseError {
    /// The tokenizer failed.
    Lex(LexError),
    /// A token of this category stood where the grammar has none.
    UnexpectedToken(TokenType),
}

/// Whether a token of this category stands for itself as an atom.
pub open spec fn is_atom_type(t: TokenType) -> bool {
    t == TokenType::TokenAtom || t == TokenType::TokenConst || t == TokenType::TokenNumber || t
        == TokenType::TokenString
}

/// The next token, from the pushed-back slot `p` if it holds one, else
/// from the bytes `s`; and the bytes left.
pub open spec fn next_token_spec(tbl: Seq<TokenView>, p: Option<TokenView>, s: Seq<u8>) -> Result<
    (TokenView, Seq<u8>),
    ParseError,
> {
    match p {
        Some(t) => Ok((t, s)),
        None => match lex_spec(tbl, s) {
            Ok(r) => Ok(r),
            Err(e) => Err(ParseError::Lex(e)),
        },
    }
}

/// One top-level form read from `p` and `s`, and the bytes left after it:
/// an atom, a parenthesized list, or empty at the end of input. `fuel`
/// bounds the depth of the reading; more than twice the length of `s`,
/// plus one, is always enough (see `parse_spec`).
pub open spec fn parse_list(tbl: Seq<TokenView>, p: Option<TokenView>, s: Seq<u8>, fuel: nat) -> Result<
    (Form, Seq<u8>),
    ParseError,
>
    decreases fuel, 1nat,
{
    if fuel == 0 {
        arbitrary()
    } else {
        match next_token_spec(tbl, p, s) {
            Err(e) => Err(e),
            Ok((t, r)) => if is_atom_type(t.typ_) {
                Ok((Form::Atom(t), r))
            } else if t.typ_ == TokenType::TokenLPar {
                parse_body(tbl, r, (fuel - 1) as nat)
            } else if t.typ_ == TokenType::TokenEOF {
                Ok((Form::Empty, r))
            } else {
                Err(ParseError::UnexpectedToken(t.typ_))
            },
        }
    }
}

/// The rest of a list whose `(` has been read, up to and with its `)`.
pub open spec fn parse_body(tbl: Seq<TokenView>, s: Seq<u8>, fuel: nat) -> Result<
    (Form, Seq<u8>),
    ParseError,
>
    decreases fuel, 0nat,
{
    if fuel == 0 {
        arbitrary()
    } else {
        match lex_spec(tbl, s) {
            Err(e) => Err(ParseError::Lex(e)),
            Ok((t, r)) => if t.typ_ == TokenType::TokenRPar {
                Ok((Form::Empty, r))
            } else if t.typ_ == TokenType::TokenLPar {
                match parse_list(tbl, Some(t), r, (fuel - 1) as nat) {
                    Err(e) => Err(e),
                    Ok((head, r1)) => match parse_body(tbl, r1, (fuel - 1) as nat) {
                        Err(e) => Err(e),
                        Ok((tail, r2)) => Ok((Form::Pair(Box::new(head), Box::new(tail)), r2)),
                    },
                }
            } else if is_atom_type(t.typ_) {
                match parse_body(tbl, r, (fuel - 1) as nat) {
                    Err(e) => Err(e),
                    Ok((tail, r2)) => Ok((Form::Pair(Box::new(Form::Atom(t)), Box::new(tail)), r2)),
                }
            } else {
                Err(ParseError::UnexpectedToken(t.typ_))
            },
        }
    }
}

/// The form that `Parser::list` reads from `p` and `s`, and the bytes left.
pub open spec fn parse_spec(tbl: Seq<TokenView>, p: Option<TokenView>, s: Seq<u8>) -> Result<
    (Form, Seq<u8>),
    ParseError,
> {
    parse_list(tbl, p, s, 2 * s.len() + 2)
}

proof fn lemma_unclosed_body(tbl: Seq<TokenView>, s: Seq<u8>, fuel: nat)
    requires
        no_rpar_entry(tbl),
        no_byte(s, 41),
        fuel > 2 * s.len(),
    ensures
        parse_body(tbl, s, fuel) is Err,
    decreases fuel,
{
    lemma_lex_consumes(tbl, s);
    lemma_lex_rparen(tbl, s);
    if let Ok((t, r)) = lex_spec(tbl, s) {
        if t.typ_ == TokenType::TokenLPar {
            lemma_unclosed_body(tbl, r, (fuel - 2) as nat);
            assert(parse_list(tbl, Some(t), r, (fuel - 1) as nat) == parse_body(
                tbl,
                r,
                (fuel - 2) as nat,
            ));
        } else if is_atom_type(t.typ_) {
            lemma_unclosed_body(tbl, r, (fuel - 1) as nat);
        }
    }
}

/// A list that is opened and never closed is an error, not a shorter
/// tree: where the table holds no `)` token, input that starts with `(`
/// and holds no `)` byte fails to parse.
pub proof fn lemma_unclosed_list_fails(tbl: Seq<TokenView>, s: Seq<u8>)
    requires
        no_rpar_entry(tbl),
        s.len() > 0,
        s[0] == 40,
        no_byte(s, 41),
    ensures
        parse_spec(tbl, None, s) is Err,
{
    let t = s.drop_first();
    assert(no_byte(t, 41)) by {
        assert forall|i: int| 0 <= i < t.len() implies #[trigger] t[i] != 41 by {
            assert(t[i] == s[i + 1]);
        }
    }
    lemma_unclosed_body(tbl, t, (2 * s.len() + 1) as nat);
}

/// What a call of the parser gave, with the bytes left after it.
pub open spec fn parsed(r: Result<Rc<Expression>, ParseError>, rest: Seq<u8>) -> Result<
    (Form, Seq<u8>),
    ParseError,
> {
    match r {
        Ok(e) => Ok((e@, rest)),
        Err(e) => Err(e),
    }
}

/// How much a pushed-back token adds to the depth that reading may take.
pub open spec fn pending_measure(p: Option<TokenView>) -> nat {
    if p is Some { 1 } else { 0 }
}

/// Reads expressions from a queue of bytes, with one token of lookahead.
pub struct Parser {
    lex: Lexer,
    last: Option<Token>,
}

fn atom_expr(token: Token) -> (r: Rc<Expression>)
    ensures
        r@ == Form::Atom(token@),
{
    Rc::new(Expression::Atom(token))
}

fn is_atom_token(t: TokenType) -> (r: bool)
    ensures
        r == is_atom_type(t),
{
    t == TokenType::TokenAtom || t == TokenType::TokenConst || t == TokenType::TokenNumber || t
        == TokenType::TokenString
}

impl Parser {
    /// The table that reserved words are looked up in.
    pub closed spec fn table(&self) -> Seq<TokenView> {
        self.lex.table()
    }

    /// The table holds no token of category `)`, so that `)` is read only
    /// as itself.
    pub open spec fn wf(&self) -> bool {
        no_rpar_entry(self.table())
    }

    /// The token pushed back, if any.
    pub closed spec fn pending(&self) -> Option<TokenView> {
        match self.last {
            Some(t) => Some(t@),
            None => None,
        }
    }

    /// The bytes not yet read by the tokenizer.
    pub closed spec fn input(&self) -> Seq<u8> {
        self.lex@
    }

    /// A parser over `buf`, with the standard table of builtins.
    pub fn new(buf: VecDeque<u8>) -> (r: Parser)
        ensures
            r.input() == buf@,
            r.pending() is None,
            r.table() == crate::lexer::standard_builtins(),
            r.wf(),
    {
        Parser { lex: Lexer::new(buf), last: None }
    }

    /// Reads one top-level form: an atom, a parenthesized list, or the
    /// empty expression at the end of input.
    pub fn list(&mut self) -> (r: Result<Rc<Expression>, ParseError>)
        requires
            old(self).wf(),
        ensures
            final(self).table() == old(self).table(),
            final(self).wf(),
            parsed(r, final(self).input()) == parse_spec(
                old(self).table(),
                old(self).pending(),
                old(self).input(),
            ),
            forall|fuel: nat|
                fuel > 2 * old(self).input().len() + pending_measure(old(self).pending()) ==> parsed(
                    r,
                    final(self).input(),
                ) == #[trigger] parse_list(
                    old(self).table(),
                    old(self).pending(),
                    old(self).input(),
                    fuel,
                ),
            r is Ok ==> final(self).pending() is None,
            r is Ok ==> final(self).input().len() <= old(self).input().len(),
        decreases old(self).input().len(), 1nat + pending_measure(old(self).pending()),
    {
        let ghost tbl = self.table();
        let ghost p = self.pending();
        let ghost s = self.input();
        let token = match self.next() {
            Ok(t) => t,
            Err(e) => {
                assert forall|fuel: nat|
                    fuel > 2 * s.len() + pending_measure(p) implies #[trigger] parse_list(
                    tbl,
                    p,
                    s,
                    fuel,
                ) == Err::<(Form, Seq<u8>), ParseError>(e) by {}
                assert(parse_list(tbl, p, s, 2 * s.len() + 2) == Err::<
                    (Form, Seq<u8>),
                    ParseError,
                >(e));
                return Err(e);
            },
        };
        let ghost t0 = token@;
        let ghost r0 = self.input();
        proof {
            lemma_lex_consumes(tbl, s);
            assert(t0.typ_ != TokenType::TokenEOF ==> 2 * r0.len() + 1 <= 2 * s.len()
                + pending_measure(p));
        }
        let r = if is_atom_token(token.typ_) {
            Ok(atom_expr(token))
        } else if token.typ_ == TokenType::TokenLPar {
            let res = self.l_par_list();
            match res {
                Ok(expression) => {
                    if self.next_is_r_par() {
                        Ok(expression)
                    } else {
                        Err(ParseError::UnexpectedToken(TokenType::TokenRPar))
                    }
                },
                Err(e) => Err(e),
            }
        } else if token.typ_ == TokenType::TokenEOF {
            Ok(Rc::new(Expression::Empty))
        } else {
            Err(ParseError::UnexpectedToken(token.typ_))
        };
        assert forall|fuel: nat|
            fuel > 2 * s.len() + pending_measure(p) implies parsed(r, self.input())
            == #[trigger] parse_list(tbl, p, s, fuel) by {
            if t0.typ_ == TokenType::TokenLPar {
                assert(parsed(r, self.input()) == parse_body(tbl, r0, (fuel - 1) as nat));
            }
        }
        assert(parsed(r, self.input()) == parse_list(tbl, p, s, 2 * s.len() + 2));
        r
    }

    /// The rest of a list whose `(` has been read; the closing `)` is left
    /// pushed back.
    fn l_par_list(&mut self) -> (r: Result<Rc<Expression>, ParseError>)
        requires
            old(self).pending() is None,
            old(self).wf(),
        ensures
            final(self).table() == old(self).table(),
            final(self).wf(),
            forall|fuel: nat|
                fuel > 2 * old(self).input().len() ==> parsed(r, final(self).input())
                    == #[trigger] parse_body(old(self).table(), old(self).input(), fuel),
            r is Ok ==> final(self).pending() == Some(
                TokenView::text_token(TokenType::TokenRPar, seq![')']),
            ),
            r is Ok ==> final(self).input().len() <= old(self).input().len(),
        decreases old(self).input().len(), 0nat,
    {
        let ghost tbl = self.table();
        let ghost s = self.input();
        proof {
            lemma_lex_consumes(tbl, s);
            lemma_lex_rparen(tbl, s);
        }
        let token = match self.next() {
            Ok(t) => t,
            Err(e) => {
                assert forall|fuel: nat| fuel > 2 * s.len() implies #[trigger] parse_body(
                    tbl,
                    s,
                    fuel,
                ) == Err::<(Form, Seq<u8>), ParseError>(e) by {}
                return Err(e);
            },
        };
        let ghost t0 = token@;
        let ghost r0 = self.input();
        let ghost mut r1 = r0;
        let ghost mut head_form = Form::Empty;
        let r = if token.typ_ == TokenType::TokenRPar {
            self.back(token);
            Ok(Rc::new(Expression::Empty))
        } else if token.typ_ == TokenType::TokenLPar {
            self.back(token);
            match self.list() {
                Ok(head) => {
                    proof {
                        r1 = self.input();
                        head_form = head@;
                    }
                    match self.l_par_list() {
                        Ok(tail) => Ok(Environment::cons(head, tail)),
                        Err(e) => Err(e),
                    }
                },
                Err(e) => Err(e),
            }
        } else if is_atom_token(token.typ_) {
            let head = atom_expr(token);
            match self.l_par_list() {
                Ok(tail) => Ok(Environment::cons(head, tail)),
                Err(e) => Err(e),
            }
        } else {
            Err(ParseError::UnexpectedToken(token.typ_))
        };
        assert forall|fuel: nat| fuel > 2 * s.len() implies parsed(r, self.input())
            == #[trigger] parse_body(tbl, s, fuel) by {
            if t0.typ_ == TokenType::TokenLPar {
                let head = parse_list(tbl, Some(t0), r0, (fuel - 1) as nat);
                if head is Ok {
                    assert(head == Ok::<(Form, Seq<u8>), ParseError>((head_form, r1)));
                    let tail = parse_body(tbl, r1, (fuel - 1) as nat);
                    assert(tail is Ok <==> r is Ok);
                }
            } else if is_atom_type(t0.typ_) {
                let tail = parse_body(tbl, r0, (fuel - 1) as nat);
                assert(tail is Ok <==> r is Ok);
            }
        }
        r
    }

    fn next_is_r_par(&mut self) -> (r: bool)
        requires
            old(self).pending() matches Some(t) && t.typ_ == TokenType::TokenRPar,
        ensures
            r,
            final(self).pending() is None,
            final(self).input() == old(self).input(),
            final(self).table() == old(self).table(),
    {
        match self.next() {
            Ok(token) => token.typ_ == TokenType::TokenRPar,
            Err(_) => false,
        }
    }

    /// The pushed-back token if there is one, else the tokenizer's next.
    fn next(&mut self) -> (r: Result<Token, ParseError>)
        ensures
            final(self).table() == old(self).table(),
            final(self).pending() is None,
            match r {
                Ok(t) => next_token_spec(old(self).table(), old(self).pending(), old(self).input())
                    == Ok::<(TokenView, Seq<u8>), ParseError>((t@, final(self).input())),
                Err(e) => next_token_spec(
                    old(self).table(),
                    old(self).pending(),
                    old(self).input(),
                ) == Err::<(TokenView, Seq<u8>), ParseError>(e),
            },
    {
        match self.last.take() {
            Some(t) => Ok(t),
            None => match self.lex.next() {
                Ok(t) => Ok(t),
                Err(e) => Err(ParseError::Lex(e)),
            },
        }
    }

    fn back(&mut self, token: Token)
        ensures
            final(self).pending() == Some(token@),
            final(self).input() == old(self).input(),
            final(self).table() == old(self).table(),
    {
        self.last = Some(token);
    }
}

} // verus!

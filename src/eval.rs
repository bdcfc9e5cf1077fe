use std::rc::Rc;
use vstd::prelude::*;
use vstd::string::*;

use crate::lexer::{find_builtin, Builtins, Token, TokenType, TokenView};
use crate::parser::{Expression, Form};

verus! {

/// Why an expression has no value.
#[derive(PartialEq, Eq, Debug, Clone)]
pub enum EvalError {
    /// A name used as a value or called has no builtin; it carries the name.
    UnboundName(String),
    /// A pair was needed and something else was given.
    NotAPair,
    /// The empty expression was given to `eval`.
    EmptyExpression,
}

/// An evaluation error as plain values.
pub enum EvalFault {
    UnboundName(Seq<char>),
    NotAPair,
    EmptyExpression,
}

impl View for EvalError {
    type V = EvalFault;

    open spec fn view(&self) -> EvalFault {
        match self {
            EvalError::UnboundName(n) => EvalFault::UnboundName(n@),
            EvalError::NotAPair => EvalFault::NotAPair,
            EvalError::EmptyExpression => EvalFault::EmptyExpression,
        }
    }
}

/// What a builtin name stands for when it is called.
#[derive(PartialEq, Eq, Structural, Debug, Clone, Copy)]
pub enum Procedure {
    /// A constant: calling it yields the constant.
    Constant,
    /// Builds a pair of its two arguments.
    Cons,
}

// ---------------------------------------------------------------------
// Pairs
// ---------------------------------------------------------------------

/// The pair of `car` and `cdr`.
pub open spec fn cons_spec(car: Form, cdr: Form) -> Form {
    Form::Pair(Box::new(car), Box::new(cdr))
}

/// The head of a pair; nothing for anything else.
pub open spec fn car_spec(f: Form) -> Option<Form> {
    match f {
        Form::Pair(h, _) => Some(*h),
        _ => None,
    }
}

/// The tail of a pair; an error for anything else.
pub open spec fn cdr_spec(f: Form) -> Result<Form, EvalFault> {
    match f {
        Form::Pair(_, t) => Ok(*t),
        _ => Err(EvalFault::NotAPair),
    }
}

/// An optional expression as plain values.
pub open spec fn opt_form(e: Option<Rc<Expression>>) -> Option<Form> {
    match e {
        Some(e) => Some(e@),
        None => None,
    }
}

/// What an evaluation gave, as plain values.
pub open spec fn evaluated(r: Result<Rc<Expression>, EvalError>) -> Result<Form, EvalFault> {
    match r {
        Ok(e) => Ok(e@),
        Err(e) => Err(e@),
    }
}

/// `car` and `cdr` undo `cons`.
pub proof fn lemma_car_cdr_cons(a: Form, b: Form)
    ensures
        car_spec(cons_spec(a, b)) == Some(a),
        cdr_spec(cons_spec(a, b)) == Ok::<Form, EvalFault>(b),
{
}

// ---------------------------------------------------------------------
// Equality
// ---------------------------------------------------------------------

/// Two operands are equal when both are empty, or both are atoms of one
/// category with equal numbers (for numbers) or equal text (otherwise).
pub open spec fn eq_spec(a: Form, b: Form) -> bool {
    if a is Empty || b is Empty {
        a is Empty && b is Empty
    } else {
        match (a, b) {
            (Form::Atom(x), Form::Atom(y)) => x.typ_ == y.typ_ && if x.typ_
                == TokenType::TokenNumber {
                x.num == y.num
            } else {
                x.text == y.text
            },
            _ => false,
        }
    }
}

/// The constant `#t` or `#f`.
pub open spec fn truth(b: bool) -> Form {
    Form::Atom(
        TokenView::text_token(
            TokenType::TokenConst,
            if b {
                seq!['#', 't']
            } else {
                seq!['#', 'f']
            },
        ),
    )
}

/// The two operands of an argument list: its head, and the head of its
/// tail (empty where the tail has none).
pub open spec fn eq_args_spec(args: Form) -> Result<(Form, Form), EvalFault> {
    match args {
        Form::Pair(h, t) => match car_spec(*t) {
            Some(second) => Ok((*h, second)),
            None => Ok((*h, Form::Empty)),
        },
        _ => Err(EvalFault::NotAPair),
    }
}

/// On a two-element list `(a b)`, `eq` compares `a` with `b`.
pub proof fn lemma_eq_args_of_list(a: Form, b: Form)
    ensures
        eq_args_spec(cons_spec(a, cons_spec(b, Form::Empty))) == Ok::<(Form, Form), EvalFault>(
            (a, b),
        ),
{
}

/// `eq` is symmetric.
pub proof fn lemma_eq_symmetric(a: Form, b: Form)
    ensures
        eq_spec(a, b) == eq_spec(b, a),
{
}

/// `eq` is reflexive on what it compares: the empty expression and atoms.
pub proof fn lemma_eq_reflexive(a: Form)
    requires
        a is Empty || a is Atom,
    ensures
        eq_spec(a, a),
{
}

// ---------------------------------------------------------------------
// Evaluation
// ---------------------------------------------------------------------

/// The procedure that a builtin name stands for: a constant of the table,
/// or `cons` when the table has that name.
pub open spec fn procedure_spec(tbl: Seq<TokenView>, name: Seq<char>) -> Option<Procedure> {
    match find_builtin(tbl, name) {
        Some(t) => if t.typ_ == TokenType::TokenConst {
            Some(Procedure::Constant)
        } else if name == seq!['c', 'o', 'n', 's'] {
            Some(Procedure::Cons)
        } else {
            None
        },
        None => None,
    }
}

/// Calls the builtin named `name` with `args`.
pub open spec fn apply_spec(tbl: Seq<TokenView>, name: Seq<char>, args: Form) -> Result<
    Form,
    EvalFault,
> {
    match procedure_spec(tbl, name) {
        None => Err(EvalFault::UnboundName(name)),
        Some(Procedure::Constant) => Ok(Form::Atom(find_builtin(tbl, name)->0)),
        Some(Procedure::Cons) => match cdr_spec(args) {
            Err(e) => Err(e),
            Ok(rest) => match (car_spec(args), car_spec(rest)) {
                (Some(a), Some(b)) => Ok(cons_spec(a, b)),
                _ => Err(EvalFault::NotAPair),
            },
        },
    }
}

/// The value of an expression: a name is called with the whole
/// expression; a pair whose head is an atom calls that atom's builtin
/// with its tail; the empty expression has none; anything else stands
/// for itself.
pub open spec fn eval_spec(tbl: Seq<TokenView>, f: Form) -> Result<Form, EvalFault> {
    match f {
        Form::Empty => Err(EvalFault::EmptyExpression),
        Form::Atom(t) => if t.typ_ == TokenType::TokenAtom {
            apply_spec(tbl, t.text, f)
        } else {
            Ok(f)
        },
        Form::Pair(h, t) => match *h {
            Form::Atom(name) => apply_spec(tbl, name.text, *t),
            _ => Ok(f),
        },
    }
}

/// The evaluator: the table of builtins, fixed once made.
pub struct Environment {
    builtins: Builtins,
}

impl Environment {
    /// The table that names are resolved in.
    pub closed spec fn table(&self) -> Seq<TokenView> {
        self.builtins@
    }

    /// An environment with the standard builtins.
    pub fn new() -> (r: Environment)
        ensures
            r.table() == crate::lexer::standard_builtins(),
    {
        Environment { builtins: Builtins::new() }
    }

    /// The pair of `car` and `cdr`.
    pub fn cons(car: Rc<Expression>, cdr: Rc<Expression>) -> (r: Rc<Expression>)
        ensures
            r@ == cons_spec(car@, cdr@),
    {
        Rc::new(Expression::Pair(car, cdr))
    }

    /// The head of a pair, if `expression` is one.
    pub fn car(expression: Rc<Expression>) -> (r: Option<Rc<Expression>>)
        ensures
            opt_form(r) == car_spec(expression@),
    {
        match &*expression {
            Expression::Pair(h, _) => Some(h.clone()),
            _ => None,
        }
    }

    /// The tail of a pair; `NotAPair` for an atom or the empty expression.
    pub fn cdr(expression: Rc<Expression>) -> (r: Result<Rc<Expression>, EvalError>)
        ensures
            evaluated(r) == cdr_spec(expression@),
    {
        match &*expression {
            Expression::Pair(_, t) => Ok(t.clone()),
            _ => Err(EvalError::NotAPair),
        }
    }

    /// Compares the two operands of a two-element argument list, as
    /// `eq_spec` says, and yields `#t` or `#f`. The second operand is empty
    /// where the tail holds none; `NotAPair` where `expression` is no pair.
    pub fn eq(&self, expression: Rc<Expression>) -> (r: Result<Rc<Expression>, EvalError>)
        ensures
            match eq_args_spec(expression@) {
                Err(f) => evaluated(r) == Err::<Form, EvalFault>(f),
                Ok((a, b)) => evaluated(r) == Ok::<Form, EvalFault>(truth(eq_spec(a, b))),
            },
    {
        let left = Environment::car(expression.clone());
        let rest = match Environment::cdr(expression) {
            Ok(t) => t,
            Err(e) => {
                return Err(e);
            },
        };
        let right = Environment::car(rest);
        let same = match (left, right) {
            (Some(l), Some(r)) => same_operands(&l, &r),
            (Some(l), None) => l.is_empty(),
            (None, _) => {
                return Err(EvalError::NotAPair);
            },
        };
        Ok(truth_expr(same))
    }

    /// The procedure that the name of `atom` stands for, if any.
    pub fn lookup_builtin(&self, atom: Token) -> (r: Option<Procedure>)
        ensures
            r == procedure_spec(self.table(), atom.text@),
    {
        match self.builtins.get(&atom.text) {
            None => None,
            Some(t) => {
                if t.typ_ == TokenType::TokenConst {
                    Some(Procedure::Constant)
                } else {
                    let cons_name = String::from_str("cons");
                    proof {
                        reveal_strlit("cons");
                    }
                    assert(cons_name@ =~= seq!['c', 'o', 'n', 's']);
                    if atom.text == cons_name {
                        Some(Procedure::Cons)
                    } else {
                        None
                    }
                }
            },
        }
    }

    /// Calls the builtin named by `atom` with `args`.
    fn call(&self, atom: &Token, args: Rc<Expression>) -> (r: Result<Rc<Expression>, EvalError>)
        ensures
            evaluated(r) == apply_spec(self.table(), atom.text@, args@),
    {
        match self.lookup_builtin(atom.clone()) {
            None => Err(EvalError::UnboundName(atom.text.clone())),
            Some(Procedure::Constant) => match self.builtins.get(&atom.text) {
                Some(t) => Ok(Rc::new(Expression::Atom(t))),
                None => Err(EvalError::UnboundName(atom.text.clone())),
            },
            Some(Procedure::Cons) => {
                let rest = match Environment::cdr(args.clone()) {
                    Ok(t) => t,
                    Err(e) => {
                        return Err(e);
                    },
                };
                match (Environment::car(args), Environment::car(rest)) {
                    (Some(a), Some(b)) => Ok(Environment::cons(a, b)),
                    _ => Err(EvalError::NotAPair),
                }
            },
        }
    }

    /// The value of `expression`, as `eval_spec` says.
    pub fn eval(&self, expression: Rc<Expression>) -> (r: Result<Rc<Expression>, EvalError>)
        ensures
            evaluated(r) == eval_spec(self.table(), expression@),
    {
        match &*expression {
            Expression::Empty => Err(EvalError::EmptyExpression),
            Expression::Atom(t) => {
                if t.typ_ == TokenType::TokenAtom {
                    self.call(t, expression.clone())
                } else {
                    Ok(expression.clone())
                }
            },
            Expression::Pair(h, tail) => match &**h {
                Expression::Atom(name) => {
                    assert(h@ == Form::Atom(name@));
                    self.call(name, tail.clone())
                },
                _ => {
                    assert(h@ !is Atom);
                    Ok(expression.clone())
                },
            },
        }
    }
}

/// Whether two operands are equal, as `eq_spec` says.
fn same_operands(a: &Expression, b: &Expression) -> (r: bool)
    ensures
        r == eq_spec(a@, b@),
{
    match (a, b) {
        (Expression::Empty, Expression::Empty) => true,
        (Expression::Empty, _) => false,
        (_, Expression::Empty) => false,
        (Expression::Atom(x), Expression::Atom(y)) => {
            if x.typ_ != y.typ_ {
                false
            } else if x.typ_ == TokenType::TokenNumber {
                x.num == y.num
            } else {
                x.text == y.text
            }
        },
        _ => false,
    }
}

/// The atom `#t` or `#f`.
fn truth_expr(b: bool) -> (r: Rc<Expression>)
    ensures
        r@ == truth(b),
{
    let text = if b {
        let t = String::from_str("#t");
        proof {
            reveal_strlit("#t");
        }
        assert(t@ =~= seq!['#', 't']);
        t
    } else {
        let f = String::from_str("#f");
        proof {
            reveal_strlit("#f");
        }
        assert(f@ =~= seq!['#', 'f']);
        f
    };
    Rc::new(Expression::Atom(Token { num: 0, typ_: TokenType::TokenConst, text }))
}

} // verus!

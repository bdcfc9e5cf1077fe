//! Reader and evaluator core of a small Lisp: a tokenizer over a byte queue,
//! a recursive-descent parser building shared S-expression trees, and an
//! evaluator over a table of builtins.

pub mod eval;
pub mod lexer;
pub mod parser;

pub use eval::{Environment, EvalError, EvalFault, Procedure};
pub use lexer::{make_token, Builtins, LexError, Lexer, Token, TokenType, TokenView};
pub use parser::{Expression, Form, ParseError, Parser};

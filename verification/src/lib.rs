//! A small ML: a lexer, a parser, type inference with let-polymorphism and
//! a call-by-value evaluator, each verified against its specification.
use vstd::prelude::*;

pub mod ast;
pub mod display;
pub mod error;
pub mod eval;
pub mod infer;
pub mod lexer;
pub mod parser;
pub mod report;
pub mod soundness;
pub mod span;
pub mod token;
pub mod types;
pub mod unify;
pub mod value;

pub use eval::eval;
pub use infer::{infer, infer_checked};
pub use lexer::lex;
pub use parser::parse;

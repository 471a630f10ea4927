//! Evaluation of arithmetic expressions in Reverse Polish Notation.
//!
//! The input is split into tokens ([`ExprParser`]), and a stack machine
//! ([`Rpn`]) reduces them, left to right, to a [`Term`]: the tree of
//! operators over the numeric literals, numbered in the order written.
//! What the numbers are worth is left to the caller, which parses each
//! literal and combines the values as the term says.
pub mod op;
pub mod rpn;
pub mod sum;
pub mod token;

pub use op::Op;
pub use rpn::{compile, reduce, CalcError, Rpn, Term};
pub use token::{Expr, ExprParser, Num};

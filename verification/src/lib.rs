//! A one-line arithmetic expression language: a recursive-descent parser for
//! `+ - * / ^` over numeric literals, with right-associative exponent chains,
//! and the structural invariants its evaluator relies on.
//!
//! Deeply nested exponent chains (`a^b^c^...`) recurse once per `^`, so the
//! parser's stack use grows with the length of such a chain.

pub mod ast;
pub mod laws;
pub mod literal;
pub mod parse;
pub mod utility;

pub use ast::Degree;
pub use ast::Equation;
pub use ast::EquationOperator;
pub use ast::EquationPart;
pub use ast::Exponent;
pub use ast::ParseError;
pub use ast::Term;
pub use ast::TermOperator;
pub use ast::TermPart;
pub use parse::parse_equation;
pub use parse::Parsable;
pub use ast::equation_evaluable;
pub use ast::term_evaluable;
pub use utility::inside_parens;


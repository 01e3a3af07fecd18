//! A small verified calculator for prefix-notation ("Polish notation")
//! arithmetic over unsigned 64-bit integers, together with a verified
//! singly-linked list.
//!
//! The grammar is `expr := number | op expr expr` with `op` one of `+` and
//! `*`, and spaces allowed before each expression. Parsing builds an [`Expr`]
//! tree; evaluation folds it to a `u64` with wrapping arithmetic.

pub mod expr;
pub mod list;
pub mod parser;

pub use expr::Expr;
pub use parser::ParseError;

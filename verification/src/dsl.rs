//! The potential expression language: a Python-like grammar (`+ - * /`, `**`
//! right-associative and binding tighter than unary minus, parentheses,
//! `exp ln log sqrt sin cos tan abs pow` calls, numeric literals, named
//! variables) compiled to an expression tree, then optionally flattened into a
//! value-numbered operation list with common subexpressions shared.
//!
//! Numeric literals leave the tokenizer as text: the caller turns each into
//! the bit pattern of its binary64 value (`f64::from_str`, then `to_bits`)
//! before parsing.

pub mod expr;
pub mod text;
pub mod token;
pub mod lexer;
pub mod parser;
pub mod optimize;
pub mod compile;
pub mod program;
pub mod laws;

pub use compile::{calls_all_have_args, compile, compile_program, compile_unoptimized};
pub use expr::{Expr, Func};
pub use lexer::tokenize;
pub use optimize::{as_int_exp, int_exponent_of_bits, optimize};
pub use parser::{func_from_name, parse_only};
pub use program::{program_slots, Flattener, Op, Program};
pub use token::{Lexeme, Tok};

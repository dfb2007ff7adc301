//! A small scripting-language toolchain: parenthesised source text is scanned
//! into tokens, grouped into a syntax tree, compiled into bytecode for a stack
//! machine, and executed.
//!
//! * [`lexer`] turns characters into lexemes and tokens.
//! * [`ast`] groups tokens by their parentheses and reads the groups as
//!   numbers, strings, names and calls.
//! * [`compiler`] compiles syntax trees into a linked [`simulator::Program`].
//! * [`simulator`] is the stack machine that runs a program.
//! * [`arithmetic`] proves that compiled arithmetic computes what the
//!   expressions mean.
//! * [`calls`] proves that a call of a function that nothing defines stops
//!   the compilation.
//! * [`examples`] follows three small programs from their syntax to their
//!   output.
//! * [`codegen`] renders stack operations as assembly text.
//! * [`text`] and [`error`] hold what the other modules share.
pub mod arithmetic;
pub mod ast;
pub mod calls;
pub mod codegen;
pub mod compiler;
pub mod error;
pub mod examples;
pub mod lexer;
pub mod simulator;
pub mod text;

pub use crate::error::Error;

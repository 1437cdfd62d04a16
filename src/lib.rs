//! Parser and bytecode interpreter core of a small expression-oriented
//! scripting language.
//!
//! - `lexer`, `sources`: the tokens and source areas handed over by the lexer.
//! - `precedence`: the operator table and the queries derived from it.
//! - `ast`: the arena of expressions and statements, behind stable handles.
//! - `grammar`: the language as spec functions over the token stream.
//! - `parser`: the precedence-climbing parser, proved to follow `grammar`.
//! - `value`, `code`: runtime values with their operations, and bytecode.
//! - `interpreter`: the stack machine over a heap of values.
//! - `laws`: what holds of every step of the interpreter.

pub mod sources;
pub mod lexer;
pub mod precedence;
pub mod ast;
pub mod error;
pub mod parser;
pub mod grammar;
pub mod value;
pub mod code;
pub mod interpreter;
pub mod laws;

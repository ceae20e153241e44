//! A compiler for a small line-oriented BASIC dialect: source text is split
//! into tokens, the tokens are parsed into a program tree while variables and
//! labels are tracked, and the tree is rendered as C source text.

pub mod ast;
pub mod emitter;
pub mod grammar;
pub mod laws;
pub mod lexer;
pub mod parser;
pub mod symbols;
pub mod text;
pub mod token;

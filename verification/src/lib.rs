//! Front end for a small expression-oriented language: a lexer with one-token
//! lookahead and a recursive-descent parser with precedence climbing for
//! binary operators, together with an emitter that renders the syntax tree as
//! target-language text. The components are specified against a mathematical
//! model of the character stream and proved to follow it.

pub mod ast;
pub mod emitter;
pub mod grammar;
pub mod lexer;
pub mod parser;
pub mod util;

//! A small interpreter for a parenthesised-list language.
//!
//! Source text is cut into tokens (`lexer`; `surface` holds the tokens of
//! arithmetic that the lexer reads as well), tokens are nested into
//! expression trees (`parser`), trees become runtime values (`data`) and
//! values are evaluated against a chain of scopes seeded with the built-in
//! operations (`interpreter`).

pub mod lexer;
pub mod surface;
pub mod text;
pub mod parser;
pub mod data;
pub mod interpreter;

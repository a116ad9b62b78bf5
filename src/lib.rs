//! A lexical scanner for templates: literal text with `{{ ... }}` expressions
//! is turned into a flat sequence of typed tokens.
pub mod chars;
pub mod lexer;
pub mod model;
pub mod laws;

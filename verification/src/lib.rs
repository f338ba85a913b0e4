//! A CSS autoprefixer: a lexer that turns CSS text into tokens, a parser that
//! builds a small syntax tree from the tokens, and a generator that prints the
//! tree back as CSS with vendor-prefixed copies of the declarations that need them.

pub mod text;
pub mod lexer;
pub mod parser;
pub mod generator;
pub mod autoprefix;
pub mod cli;

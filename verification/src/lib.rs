//! A small regular-expression front end: a lexer that turns pattern text
//! into tokens, and a recursive-descent parser that turns tokens into an
//! abstract syntax tree obeying the precedence
//! grouping > repetition > concatenation > alternation.

pub mod lexer;
pub mod parser;

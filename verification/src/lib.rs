//! A minimal lexical analyzer: it turns a flat input string into a sequence
//! of discrete tokens — the operator characters `+` and `-`, and unsigned
//! integer literals lexed from maximal runs of decimal digit characters.

pub mod lexer;
pub mod tokens;

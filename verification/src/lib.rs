//! Front end of a small interpreted language: a character-level tokenizer
//! and a statement-level parser, with machine-checked contracts relating
//! both to a mathematical model of scanning and parsing.

pub mod lexer;
pub mod parser;
pub mod tokens;

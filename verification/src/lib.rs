//! A small stack machine that runs one of three built-in programs (sum, product,
//! line join) over an input text, picked by the first word of that text.
//!
//! The lexer works on the bytes that are at hand. A caller that has all of the
//! input uses [`parser::Parser::compile`] and [`interpreter::run`]; one whose
//! input comes in pieces uses [`parser::compile_on`] and
//! [`interpreter::step_on`], which tell when they need more bytes.

pub mod interpreter;
pub mod message;
pub mod parser;
pub mod text;
pub mod theorems;
pub mod tokenizer;

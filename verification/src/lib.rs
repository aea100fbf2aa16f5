//! A tree-walking interpreter for a small expression-oriented language:
//! integers, booleans, prefix and infix operators, conditionals, `let`
//! bindings, and first-class functions with closures.
//!
//! The pipeline is: source text -> [`lexer::lex`] -> tokens ->
//! [`parser::parse`] -> [`ast::Program`] -> [`evaluator::Evaluator`] ->
//! [`object::Object`].  Every stage carries a specification-level mirror
//! (token, syntax-tree, and value models over `Seq` and `Map`) and each
//! executable function is proved to agree with the corresponding
//! specification function.

pub mod token;
pub mod ast;
pub mod lexer;
pub mod object;
pub mod env;
pub mod evaluator;
pub mod parser;
pub mod laws;

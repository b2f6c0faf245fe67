//! Sprig - a small language: its lexer and abstract syntax tree.
pub mod ast;
pub mod lexer;

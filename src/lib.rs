//! A tree-walking interpreter for a small dynamically typed scripting
//! language: scanning, recursive-descent parsing and evaluation over
//! lexically scoped environments.
pub mod chunk;
pub mod environment;
pub mod interpreter;
pub mod lox;
pub mod number;
pub mod parser;
pub mod scanner;
pub mod token;

//! Lexical analysis for a small procedural language: a scanner that turns raw
//! source text into keywords, literals, operators, delimiters, identifiers and
//! line comments, one token per call.

pub mod lexer;
pub mod scan;

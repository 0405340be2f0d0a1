//! Struct and enum declarations with `serde` directives, turned into Python
//! dataclass declarations.
//!
//! The work is done in three steps: [`lexer::Lexer`] makes tokens of the
//! source text, [`parser::Parser`] makes declarations of the tokens, and
//! [`codegen::Codegen`] writes the Python text for the declarations. What each
//! step yields is stated in [`lexer`], [`grammar`] and [`python`].

pub mod codegen;
pub mod filler;
pub mod grammar;
pub mod lexer;
pub mod parser;
pub mod python;
pub mod text;

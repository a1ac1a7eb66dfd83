//! The first stage of the compiler, for the smallest subset of the language.
pub mod lex;

//! A compiler for a subset of C aimed at x86-64: lexers, label checking, and
//! the pass that lowers pseudo-assembly to legal x86-64 instructions.
pub mod codegen;
pub mod compiler;
pub mod lex;
pub mod parse;
pub mod semantics;

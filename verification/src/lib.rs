//! A small compiler for integer arithmetic expressions: a lexer, a
//! recursive-descent parser, a compiler to a stack machine, a reference
//! stack machine, and an x86-64 assembly emitter.

pub mod text;

pub mod compiler;
pub mod evaluation;
pub mod codegen;
pub mod properties;

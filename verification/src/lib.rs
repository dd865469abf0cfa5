//! A compiler for a small expression language: s-expression parsing, a
//! surface-syntax parser, two x86-64 code generators (assembly text and an
//! instruction list for in-memory assembly), and the decision logic of an
//! interactive read-compile-run loop.

pub mod text;
pub mod sexpr;
pub mod ast;
pub mod parser;
pub mod x86;
pub mod env;
pub mod compile;
pub mod textgen;
pub mod jitgen;
pub mod values;
pub mod runtime;
pub mod repl;
pub mod labels;
pub mod prefix;
pub mod semantics;

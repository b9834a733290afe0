//! A small stack-oriented language: lexer, parser and tree-walking
//! interpreter. Programs push operands onto a stack; operators and
//! built-ins consume from and push to that stack. The language has named
//! functions with positional argument binding, `if`/`else` and `while`
//! control flow, arrays, and a tiered scope model (global, per-invocation,
//! per-block heaps).

pub mod head;
pub mod text;
pub mod numbers;
pub mod env;
pub mod lexer;
pub mod parser;
pub mod floats;
pub mod ops;
pub mod interpreter;
pub mod laws;

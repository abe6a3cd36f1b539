//! A compiler from a small subset of C (one `main` function over `int`
//! locals, `if`, `while`, arithmetic and comparisons) to x86-64 assembly.

pub mod text;
pub mod error;
pub mod token;
pub mod lexer;
pub mod ast;
pub mod parser;
pub mod codegen;
pub mod compiler;
pub mod laws;
pub mod lex_laws;
pub mod expr_code;
pub mod machine;
pub mod parse_laws;

//! A toolchain for the little man computer: a tokenizer and an assembler for
//! its assembly language, and the machine that runs the assembled words.

pub mod assemble;
pub mod lexer;
pub mod program;
pub mod text;
pub mod vm;

//! A single-pass bytecode compiler and stack machine for a small expression
//! language: lexer, Pratt-style compiler, bytecode chunks and the interpreter.
pub mod chunks;
pub mod compiler;
pub mod error;
pub mod evaluation;
pub mod object;
pub mod opcode;
pub mod pos;
pub mod scanner;
pub mod token;
pub mod value;
pub mod vm;

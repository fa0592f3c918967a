//! A small interpreter pipeline for a stack-based scripting language.
//!
//! The lexer turns source text into tokens and the parser builds an
//! expression tree from them. The assembler turns a listing of instructions
//! into a program and the virtual machine runs it on an operand stack.
//!
//! Numbers are floating point, and the library never computes with them. It
//! hands numerals on as they were written and leaves reading them, and the
//! machine's arithmetic, to its caller.

pub mod assembler;
pub mod instr;
pub mod lexer;
pub mod parser;
pub mod text;
pub mod value;
pub mod vm;

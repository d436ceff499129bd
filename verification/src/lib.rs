//! A bytecode compiler and stack machine for Lox expressions.
//!
//! Source text is scanned into tokens, parsed by operator precedence straight
//! into a chunk of bytecode, and executed on a bounded value stack. Every
//! function carries a contract over a mathematical model of its data, and
//! Verus proves each body against it.
//!
//! The crate never touches floating point. A number is held as the bit
//! pattern of an IEEE-754 binary64 value; comparing and negating work on
//! those bits, while decoding a literal, the four arithmetic operations and
//! formatting belong to the caller.
#![allow(non_snake_case, non_camel_case_types, non_upper_case_globals)]

pub mod text;
pub mod object;
pub mod value;
pub mod chunk;
pub mod debug;
pub mod scanner;
pub mod program;
pub mod compiler;
pub mod vm;
pub mod theorems;

//! A small stack-based language: a single-pass compiler to flat bytecode with
//! back-patched jumps, a control-flow-sensitive type checker that symbolically
//! executes every path of the bytecode, and a stack-machine interpreter.

pub mod common;
pub mod token;
pub mod types;
pub mod tokenizer;
pub mod lexer;
pub mod ops;
pub mod execution;
pub mod type_checking;
pub mod ir;
pub mod compile;

//! From source text to machine code.

pub mod assembler;
pub mod codegen;
pub mod folding;
pub mod ir;
pub mod labels;
pub mod parser;
pub mod roundtrip;

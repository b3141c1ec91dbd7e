//! A just-in-time compiler for Brainfuck on x86-64.
//!
//! A source text is read into tokens ([`bfparser::parser`]), the tokens are
//! lowered to a tree of counted operations ([`bfparser::ir`]), and the tree
//! is turned into machine code ([`bfparser::codegen`]) in an assembler of
//! `dynasmrt` ([`bfparser::assembler`]). [`bfvm`] holds what the language
//! means, an interpreter that runs it, and the state of the engine that runs
//! the machine code. [`start::compile`] goes from the text to the code.
//!
//! What lowering keeps is proved in [`bfparser::folding`],
//! [`bfparser::roundtrip`] and [`bfvm::preserve`].

pub mod bfparser;
pub mod bftype;
pub mod bfvm;
pub mod start;

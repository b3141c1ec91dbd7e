//! The meaning of a program and the state of the engine that runs it.

pub mod bfjit;
pub mod interp;
pub mod machine;
pub mod preserve;

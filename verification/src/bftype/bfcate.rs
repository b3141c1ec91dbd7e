use vstd::prelude::*;

verus! {

/// The instruction set a program is compiled for and run on.
///
/// The set is closed; code generation and execution are only implemented for
/// [`VMArchType::X64`], every other tag is refused with
/// [`RuntimeErrorKind::Unknown`](crate::bftype::bferror::RuntimeErrorKind).
#[derive(Clone, Copy, Debug, PartialEq, Eq, Structural)]
pub enum VMArchType {
    X64,
    ARM64,
    RISCV64,
}

impl VMArchType {
    /// Whether machine code can be generated and run for this tag.
    pub open spec fn supported(self) -> bool {
        self is X64
    }
}

} // verus!

use vstd::prelude::*;

verus! {

/// What went wrong while reading the source text.
#[derive(Clone, Copy, Debug, PartialEq, Eq, Structural)]
pub enum CompileErrorKind {
    /// The source ended while a `[` was still open.
    UnclosedLeftBracket,
    /// A `]` was met while no `[` was open.
    UnexpectedRightBracket,
}

/// A source error with the position of the offending bracket.
///
/// Lines count from one, columns from zero; a newline starts a new line at
/// column zero.
#[derive(Clone, Copy, Debug, PartialEq, Eq, Structural)]
pub struct CompileError {
    pub line: u32,
    pub col: u32,
    pub kind: CompileErrorKind,
}

/// What went wrong after the source was accepted.
#[derive(Clone, Copy, Debug, PartialEq, Eq, Structural)]
pub enum RuntimeErrorKind {
    /// An input or output stream failed or ended.
    IO,
    /// The tape pointer would leave the tape, or a token sequence was not
    /// properly nested.
    OutOfRange,
    /// Memory could not be obtained.
    Memory,
    /// The architecture is not supported.
    Unknown,
}

/// A runtime error; what `index` counts depends on the stage that reports it.
#[derive(Clone, Copy, Debug, PartialEq, Eq, Structural)]
pub struct RuntimeError {
    pub index: usize,
    pub kind: RuntimeErrorKind,
}


impl CompileErrorKind {
    /// The text that names the kind.
    pub open spec fn text(self) -> Seq<char> {
        match self {
            CompileErrorKind::UnclosedLeftBracket => "Unclosed left bracket"@,
            CompileErrorKind::UnexpectedRightBracket => "Unexpected right bracket"@,
        }
    }

    /// The text that names the kind.
    pub fn message(&self) -> (r: &'static str)
        ensures
            r@ == self.text(),
    {
        match self {
            CompileErrorKind::UnclosedLeftBracket => "Unclosed left bracket",
            CompileErrorKind::UnexpectedRightBracket => "Unexpected right bracket",
        }
    }
}

impl RuntimeErrorKind {
    /// The text that names the kind.
    pub open spec fn text(self) -> Seq<char> {
        match self {
            RuntimeErrorKind::IO => "IO Error"@,
            RuntimeErrorKind::OutOfRange => "Out of range"@,
            RuntimeErrorKind::Memory => "Memory error"@,
            RuntimeErrorKind::Unknown => "Unknown error"@,
        }
    }

    /// The text that names the kind.
    pub fn message(&self) -> (r: &'static str)
        ensures
            r@ == self.text(),
    {
        match self {
            RuntimeErrorKind::IO => "IO Error",
            RuntimeErrorKind::OutOfRange => "Out of range",
            RuntimeErrorKind::Memory => "Memory error",
            RuntimeErrorKind::Unknown => "Unknown error",
        }
    }
}

} // verus!

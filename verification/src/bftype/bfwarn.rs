use vstd::prelude::*;

verus! {

/// What could not be done as asked and was replaced by a default.
#[derive(Clone, Copy, Debug, PartialEq, Eq, Structural)]
pub enum RuntimeWarnKind {
    /// The input could not be opened; standard input is read.
    ParseInputWarn,
    /// The output could not be opened; standard output is written.
    ParseOutputWarn,
}

/// A warning: the run goes on.
#[derive(Clone, Copy, Debug, PartialEq, Eq, Structural)]
pub struct RuntimeWarn {
    pub kind: RuntimeWarnKind,
}

impl RuntimeWarnKind {
    /// The text of the warning.
    pub open spec fn text(self) -> Seq<char> {
        match self {
            RuntimeWarnKind::ParseInputWarn => "Parse input error, using default value: STDIN"@,
            RuntimeWarnKind::ParseOutputWarn => "Parse output error, using default value: STDOUT"@,
        }
    }

    /// The text of the warning.
    pub fn message(&self) -> (r: &'static str)
        ensures
            r@ == self.text(),
    {
        match self {
            RuntimeWarnKind::ParseInputWarn => "Parse input error, using default value: STDIN",
            RuntimeWarnKind::ParseOutputWarn => "Parse output error, using default value: STDOUT",
        }
    }
}

impl RuntimeWarn {
    /// The text of the warning.
    pub fn message(&self) -> (r: &'static str)
        ensures
            r@ == self.kind.text(),
    {
        self.kind.message()
    }
}

} // verus!

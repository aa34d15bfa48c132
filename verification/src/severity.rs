use vstd::prelude::*;

verus! {

/// How serious an annotation is.  The order is total: errors outrank
/// warnings, warnings outrank information, information outranks hints.
#[derive(Clone, Copy, PartialEq, Eq, Structural, Debug)]
pub enum Severity {
    Error,
    Warning,
    Information,
    Hint,
}

/// Display rank of a severity: a lower rank is more severe.
pub open spec fn severity_rank(s: Severity) -> int {
    match s {
        Severity::Error => 0,
        Severity::Warning => 1,
        Severity::Information => 2,
        Severity::Hint => 3,
    }
}

impl Severity {
    /// The display rank as a number; lower means more severe.
    pub fn rank(self) -> (r: u8)
        ensures
            r as int == severity_rank(self),
    {
        match self {
            Severity::Error => 0u8,
            Severity::Warning => 1u8,
            Severity::Information => 2u8,
            Severity::Hint => 3u8,
        }
    }
}

} // verus!

//! The failures the analysis core can report.

use vstd::prelude::*;

verus! {

/// A failure of the analysis core.
///
/// The first three variants report a malformed program; such an error aborts
/// the analysis of the offending function only.  The last two report an
/// internal inconsistency, which signals a bug in an upstream pass rather
/// than bad input.
#[derive(Debug, PartialEq, Eq)]
pub enum AnalysisError {
    /// A referenced label that no block starts with.
    MissingLabel { label: String },
    /// A referenced label that more than one block starts with.
    DuplicateLabel { label: String },
    /// A control-flow graph was requested for an empty function.
    EmptyFunction,
    /// A block index outside the current block list.
    OutOfRangeBlock { index: usize },
    /// No definition of a phi-operand's variable reaches the phi's block.
    MissingReachingDef { variable: String },
}

} // verus!

//! What a run can be told.
use vstd::prelude::*;

verus! {

/// What a stack is weighted by.
#[derive(Clone, Copy, Debug, PartialEq, Eq, Structural)]
pub enum Weighting {
    /// The time that passed while the stack was the open one.
    Elapsed,
    /// The number of calls that were entered while the stack was the open one.
    Invocations,
}

/// The options of a run.
#[derive(Clone, Copy, Debug)]
pub struct Options {
    /// What stacks are weighted by.
    pub weighting: Weighting,
}

impl Default for Options {
    /// Stacks are weighted by elapsed time unless told otherwise.
    fn default() -> (r: Options)
        ensures
            r.weighting == Weighting::Elapsed,
    {
        Options { weighting: Weighting::Elapsed }
    }
}

/// Whether a record adds to the weight of the stack that is open when it
/// comes: every record does where time is weighted, only an entry where
/// calls are counted.
pub open spec fn weighs(weighting: Weighting, is_exit: bool) -> bool {
    weighting == Weighting::Elapsed || !is_exit
}

} // verus!

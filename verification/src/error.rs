//! What makes a trace unusable.
use vstd::prelude::*;

verus! {

/// A fault that ends a run: the trace is too damaged to go on with.
#[derive(Debug)]
pub enum TraceError {
    /// The column that says whether a record is an exit holds neither `0` nor `1`.
    ExitFlag { token: String },
    /// A marker pattern could not be compiled.
    Marker,
    /// More weight contributions than the counters can hold.
    Overflow,
}

} // verus!

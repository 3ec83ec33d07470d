//! Folding of function entry/exit trace records into weighted call-stack paths.
//!
//! A trace is a text of one record per line: a call is entered or left, at a
//! time. The [`Collapser`] is fed the lines one by one. It keeps the stack of
//! open calls, interns every frame and every stack that it meets, and says
//! for each record which stack the record's weight belongs to. At the end it
//! gives every stack that was seen in folded form, `frame;frame;...`, with
//! the number of contributions it received.
pub mod call_stack;
pub mod driver;
pub mod error;
pub mod folded;
pub mod interning;
pub mod markers;
pub mod options;
pub mod record;
pub mod tables;

pub use call_stack::{Call, CallStack, Interned};
pub use driver::{Collapser, Phase, Step};
pub use error::TraceError;
pub use folded::Folded;
pub use options::{Options, Weighting};
pub use record::{parse_record, Record};

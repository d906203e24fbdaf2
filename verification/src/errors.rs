//! Application-level errors: distinct tagged values, never overloaded codes.

use vstd::prelude::*;

verus! {

/// Errors raised at the application boundary around a computation graph.
#[derive(Clone, Copy, Debug, PartialEq, Eq, Structural)]
pub enum CompError {
    /// A mutation or seal arrived after the graph was sealed.
    MutateAfterSeal,
    /// A color at or beyond the number of vertices, or, with dynamic
    /// branches, beyond the next unused color.
    InvalidColor,
    /// A vertex identifier outside the graph.
    InvalidVertex,
}

} // verus!

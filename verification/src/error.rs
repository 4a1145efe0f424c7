use vstd::prelude::*;

verus! {

/// Why a conversion has no answer.
#[derive(Clone, Copy, Debug, PartialEq, Eq)]
pub enum QueryError {
    /// The source or the target is no unit of the graph.
    UnitNotFound,
    /// Both are units of the graph, and no walk joins them.
    NoPath,
}

} // verus!

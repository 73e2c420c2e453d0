use vstd::prelude::*;

verus! {

/// Failures surfaced by tree operations and the fold engine.
///
/// Tree operations return typed failures, never invalid defaults.  The
/// structural class (`TreeMalformed`) is fatal and never retried; the
/// transient class (`TreeUnavailable`) may be retried within a bounded
/// backoff budget.
#[derive(Clone, Debug)]
pub enum Error {
    /// A query referenced an absent index, or asked for an ancestor deeper
    /// than the queried vertex.
    VertexNotFound { err: String },
    /// A structural violation: an unknown or invalid parent on insertion, an
    /// ancestor walk landing off-target, or a persisted form that fails to
    /// round-trip.
    TreeMalformed { err: String },
    /// The ledger could not be reached (timeout, connectivity).  Transient.
    TreeUnavailable { err: String },
}

impl Error {
    /// True exactly for the failure class that a retry may resolve.
    pub fn is_transient(&self) -> (r: bool)
        ensures
            r == (self is TreeUnavailable),
    {
        match self {
            Error::TreeUnavailable { .. } => true,
            _ => false,
        }
    }
}

} // verus!

use vstd::prelude::*;

verus! {

/// Errors of the cluster bookkeeping.
#[derive(Debug, Clone, Copy, PartialEq, Eq, Structural)]
pub enum PercolationError {
    /// A group id that is not (or no longer) live was referenced.
    GroupNotFound,
    /// More clusters were requested than the 24-bit id field can name.
    ClusterIdOverflow,
    /// A cell's colour and id disagree: background with an id, or a coloured cell without one.
    InvariantViolation,
}

} // verus!

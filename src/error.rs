//! Errors of the graph and of the two queries.

use vstd::prelude::*;

verus! {

#[derive(Debug, Clone, Copy, PartialEq, Eq, Structural)]
pub enum ClusterError {
    /// Fewer than two points, or a number of edges out of range.
    InvalidInput,
    /// Fewer than three components after merging.
    InsufficientComponents,
    /// Fewer than two points for the connectivity query.
    InsufficientPoints,
}

} // verus!

//! The errors this crate reports.

use vstd::prelude::*;

verus! {

/// Why a graph container refused an operation.
#[derive(Clone, Copy, Debug, PartialEq, Eq)]
pub enum GraphError {
    /// A vertex index was not below the graph's order.
    InvalidArgument,
    /// There was no edge to delete between the two vertices.
    NotFound,
}

/// Why a search returned no path.
#[derive(Clone, Copy, Debug, PartialEq, Eq)]
pub enum SearchError {
    /// The start vertex or the target vertex was not below the graph's
    /// order.
    InvalidArgument,
    /// The frontier ran empty before the search could stop.
    NoPathExists,
}

} // verus!

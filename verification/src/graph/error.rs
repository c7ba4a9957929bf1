//! Why a graph could not be loaded.

use vstd::prelude::*;

verus! {

/// What is wrong with the contents of a graph file.
#[derive(Clone, Copy, Debug, PartialEq, Eq, Structural)]
pub enum GraphError {
    NotText,
    TooManyNodes,
    NoDirectedFlag,
    NoEdgeCount,
    NoNodeCount,
    NoOffset,
    OffsetsDecrease,
    TooManyEdges,
    NoDestination,
}

impl GraphError {
    /// The error in words.
    pub fn message(&self) -> (text: &'static str)
        ensures
            text@ == (match self {
                GraphError::NotText => "stream did not contain valid UTF-8"@,
                GraphError::TooManyNodes => "Too many nodes"@,
                GraphError::NoDirectedFlag => "Failed to read directed flag"@,
                GraphError::NoEdgeCount => "Failed to read num_edges"@,
                GraphError::NoNodeCount => "Failed to read num_nodes"@,
                GraphError::NoOffset => "Failed to read offset"@,
                GraphError::OffsetsDecrease => "Offsets decrease"@,
                GraphError::TooManyEdges => "Failed to skip edges"@,
                GraphError::NoDestination => "Failed to read edge destination"@,
            }),
    {
        match self {
            GraphError::NotText => "stream did not contain valid UTF-8",
            GraphError::TooManyNodes => "Too many nodes",
            GraphError::NoDirectedFlag => "Failed to read directed flag",
            GraphError::NoEdgeCount => "Failed to read num_edges",
            GraphError::NoNodeCount => "Failed to read num_nodes",
            GraphError::NoOffset => "Failed to read offset",
            GraphError::OffsetsDecrease => "Offsets decrease",
            GraphError::TooManyEdges => "Failed to skip edges",
            GraphError::NoDestination => "Failed to read edge destination",
        }
    }
}

} // verus!

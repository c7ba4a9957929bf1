//! One search over a grid.

use vstd::prelude::*;

use crate::timestamps::Timestamp;

verus! {

/// The grid, the number of workers and the node to start from.
#[derive(Clone, Copy, Debug, PartialEq, Eq, Structural)]
pub struct Input {
    pub rows: usize,
    pub cols: usize,
    pub num_threads: u32,
    pub source: usize,
}

/// What a worker has to tell of its search.
#[derive(Debug, PartialEq)]
pub struct Output {
    pub worker_id: u32,
    pub timestamps: Vec<Timestamp>,
}

impl Input {
    /// The number of nodes of the grid, where it can be counted.
    pub fn num_nodes(&self) -> (n: Option<usize>)
        ensures
            n is Some <==> self.rows * self.cols <= usize::MAX,
            n is Some ==> n->0 == self.rows * self.cols,
    {
        self.rows.checked_mul(self.cols)
    }
}

} // verus!

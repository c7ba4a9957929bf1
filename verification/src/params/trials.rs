//! Many searches over one graph.

use vstd::prelude::*;

use crate::timestamps::Timestamp;

verus! {

/// The size of the grid, the number of workers, the nodes to start from, when the graph was
/// loaded, and how the workers talk.
#[derive(Debug, PartialEq)]
pub struct Input {
    pub rows: usize,
    pub cols: usize,
    pub num_threads: u32,
    pub sources: Vec<usize>,
    pub graph_load_start: String,
    pub graph_generated: String,
    pub comm_mode: String,
}

impl Clone for Input {
    fn clone(&self) -> (copy: Self)
        ensures
            copy.rows == self.rows,
            copy.cols == self.cols,
            copy.num_threads == self.num_threads,
            copy.sources@ == self.sources@,
            copy.graph_load_start@ == self.graph_load_start@,
            copy.graph_generated@ == self.graph_generated@,
            copy.comm_mode@ == self.comm_mode@,
    {
        Input {
            rows: self.rows,
            cols: self.cols,
            num_threads: self.num_threads,
            sources: self.sources.clone(),
            graph_load_start: self.graph_load_start.clone(),
            graph_generated: self.graph_generated.clone(),
            comm_mode: self.comm_mode.clone(),
        }
    }
}

/// What a worker has to tell of its searches, with the distances that it answers for.
#[derive(Debug, PartialEq)]
pub struct Output {
    pub worker_id: u32,
    pub timestamps: Vec<Timestamp>,
    pub local_distances: Vec<(usize, usize)>,
}

/// How the workers talk where memory is divided between nodes, and where it is not.
pub fn comm_mode(numa_divide: bool) -> (mode: &'static str)
    ensures
        mode@ == (if numa_divide {
            "all-to-all-numa"@
        } else {
            "all-to-all"@
        }),
{
    if numa_divide {
        "all-to-all-numa"
    } else {
        "all-to-all"
    }
}

} // verus!

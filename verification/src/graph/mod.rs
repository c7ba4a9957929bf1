//! Graphs as neighbor lists, and the file formats they are loaded from.

pub mod adjacency;
pub mod counting;
pub mod csr;
pub mod edge_list;
pub mod error;
pub mod files;
pub mod grid;
pub mod grid_distance;
pub mod layout;
pub mod path;
pub mod reach;
pub mod serialized;

use vstd::prelude::*;

use crate::model::{edge, reachable, walk};

verus! {

/// A graph that hands out the neighbor list of a node.
pub trait NeighborLists {
    /// The neighbor list of every node, in node order.
    spec fn rows(&self) -> Seq<Seq<usize>>;

    /// The neighbor list of `u` can be handed out.
    spec fn readable(&self, u: usize) -> bool;

    /// The number of nodes.
    fn node_count(&self) -> (n: usize)
        ensures
            n == self.rows().len(),
    ;

    /// The neighbor list of `u`.
    fn neighbors_of(&self, u: usize) -> (list: &[usize])
        requires
            self.readable(u),
        ensures
            u < self.rows().len(),
            list@ == self.rows()[u as int],
    ;
}

/// The neighbor list of every node that a search from `s` meets can be handed out.
pub open spec fn usable_from<G: NeighborLists>(graph: &G, s: usize) -> bool {
    forall|v: usize| #[trigger]
        reachable(graph.rows(), s, v) ==> graph.readable(v) && v < graph.rows().len()
}

/// A walk over lists that name nodes of the graph only stays inside the graph.
pub proof fn lemma_walk_stays(adj: Seq<Seq<usize>>, s: usize, v: usize, k: nat)
    requires
        forall|u: int, i: int|
            0 <= u < adj.len() && 0 <= i < adj[u].len() ==> #[trigger] adj[u][i] < adj.len(),
        s < adj.len(),
        walk(adj, s, v, k),
    ensures
        v < adj.len(),
    decreases k,
{
    if k > 0 {
        let u = choose|u: usize| walk(adj, s, u, (k - 1) as nat) && #[trigger] edge(adj, u, v);
        lemma_walk_stays(adj, s, u, (k - 1) as nat);
        let i = choose|i: int| 0 <= i < adj[u as int].len() && adj[u as int][i] == v;
        assert(adj[u as int][i] < adj.len());
    }
}

} // verus!

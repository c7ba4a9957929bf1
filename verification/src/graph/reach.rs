//! Whether a search can follow the neighbor lists that it meets.

use vstd::prelude::*;

use super::csr::Graph;
use super::{usable_from, NeighborLists};
use crate::model::{edge, lemma_distinct_nodes_len, lemma_walk_step, reachable, walk};

verus! {

/// The nodes in `order` can be reached, each is there once, and `seen` marks them.
spec fn gathered(adj: Seq<Seq<usize>>, s: usize, order: Seq<usize>, seen: Seq<bool>) -> bool {
    &&& seen.len() == adj.len()
    &&& order.no_duplicates()
    &&& order.len() > 0
    &&& order[0] == s
    &&& forall|i: int| 0 <= i < order.len() ==> #[trigger] order[i] < adj.len()
    &&& forall|i: int| 0 <= i < order.len() ==> reachable(adj, s, #[trigger] order[i])
    &&& forall|v: usize| v < seen.len() ==> (#[trigger] seen[v as int] <==> order.contains(v))
}

/// The lists of the first nodes can be read, and lead to gathered nodes.
spec fn followed(graph: &Graph, order: Seq<usize>, done: int) -> bool {
    &&& forall|i: int| 0 <= i < done ==> graph.row_in_bounds((#[trigger] order[i]) as int)
    &&& forall|i: int, v: usize|
        0 <= i < done && #[trigger] edge(graph@, order[i], v) ==> order.contains(v)
}

/// A walk over lists that were all followed leads to a gathered node.
proof fn lemma_walk_gathered(
    graph: &Graph,
    s: usize,
    order: Seq<usize>,
    seen: Seq<bool>,
    v: usize,
    k: nat,
)
    requires
        gathered(graph@, s, order, seen),
        followed(graph, order, order.len() as int),
        walk(graph@, s, v, k),
    ensures
        order.contains(v),
    decreases k,
{
    if k == 0 {
        assert(order[0] == s);
    } else {
        let u = choose|u: usize| walk(graph@, s, u, (k - 1) as nat) && #[trigger] edge(graph@, u, v);
        lemma_walk_gathered(graph, s, order, seen, u, (k - 1) as nat);
        let i = choose|i: int| 0 <= i < order.len() && order[i] == u;
        assert(edge(graph@, order[i], v));
    }
}

impl Graph {
    /// Whether a search from `source` meets only nodes of the graph, with lists that lie inside
    /// the edge array.
    pub fn is_usable_from(&self, source: usize) -> (ok: bool)
        ensures
            ok == usable_from(self, source),
    {
        let num_nodes: usize = self.num_nodes();
        let ghost adj = self@;
        proof {
            assert(walk(adj, source, source, 0));
            assert(reachable(self.rows(), source, source));
        }
        if source >= num_nodes {
            return false;
        }
        let mut seen: Vec<bool> = vec![false; num_nodes];
        let mut order: Vec<usize> = Vec::new();
        seen[source] = true;
        order.push(source);
        let mut done: usize = 0;
        assert(order@[0] == source);
        while done < order.len()
            invariant
                adj == self@,
                num_nodes == adj.len(),
                done <= order@.len(),
                gathered(adj, source, order@, seen@),
                followed(self, order@, done as int),
            decreases num_nodes - done,
        {
            let u: usize = order[done];
            proof {
                lemma_distinct_nodes_len(order@, num_nodes as nat);
                assert(order@[done as int] == u);
                assert(reachable(self.rows(), source, u));
                assert(self.offsets.len() == self.offsets@.len());
            }
            if self.offsets[u] > self.offsets[u + 1] || self.offsets[u + 1] > self.edges.len() {
                assert(!self.readable(u));
                return false;
            }
            let list = self.get_neighbors(u);
            let mut j: usize = 0;
            while j < list.len()
                invariant
                    adj == self@,
                    num_nodes == adj.len(),
                    j <= list@.len(),
                    done < order@.len(),
                    order@[done as int] == u,
                    u < num_nodes,
                    list@ == adj[u as int],
                    reachable(adj, source, u),
                    gathered(adj, source, order@, seen@),
                    followed(self, order@, done as int),
                    forall|i: int| 0 <= i < j ==> order@.contains(#[trigger] list@[i]),
                decreases list@.len() - j,
            {
                let v: usize = list[j];
                proof {
                    assert(adj[u as int].contains(v)) by {
                        assert(adj[u as int][j as int] == v);
                    }
                    assert(edge(adj, u, v));
                    let k = choose|k: nat| walk(adj, source, u, k);
                    lemma_walk_step(adj, source, u, v, k);
                }
                if v >= num_nodes {
                    assert(reachable(self.rows(), source, v));
                    return false;
                }
                if !seen[v] {
                    let ghost before = order@;
                    let ghost marks = seen@;
                    seen[v] = true;
                    order.push(v);
                    proof {
                        assert forall|x: usize| #[trigger] order@.contains(x) <==> before.contains(x)
                            || x == v by {
                            if before.contains(x) {
                                let i = choose|i: int| 0 <= i < before.len() && before[i] == x;
                                assert(order@[i] == x);
                            }
                            if order@.contains(x) {
                                let i = choose|i: int| 0 <= i < order@.len() && order@[i] == x;
                                if i < before.len() {
                                    assert(before[i] == x);
                                }
                            }
                            assert(order@[before.len() as int] == v);
                        }
                        assert(!before.contains(v)) by {
                            assert(!marks[v as int]);
                        }
                        assert forall|x: usize| x < seen@.len() implies (
                        #[trigger] seen@[x as int] <==> order@.contains(x)) by {
                            assert(marks[x as int] <==> before.contains(x));
                        }
                        assert forall|i: int, x: usize|
                            0 <= i < done && #[trigger] edge(
                                adj,
                                order@[i],
                                x,
                            ) implies order@.contains(x) by {
                            assert(order@[i] == before[i]);
                            assert(before.contains(x));
                        }
                    }
                } else {
                    assert(order@.contains(v));
                }
                j = j + 1;
            }
            proof {
                assert forall|i: int, x: usize|
                    0 <= i < done + 1 && #[trigger] edge(adj, order@[i], x) implies order@.contains(
                    x,
                ) by {
                    if i == done {
                        let j = choose|j: int|
                            0 <= j < adj[u as int].len() && adj[u as int][j] == x;
                        assert(order@.contains(list@[j]));
                    }
                }
                assert(self.row_in_bounds(u as int));
            }
            done = done + 1;
        }
        proof {
            assert forall|v: usize| #[trigger] reachable(self.rows(), source, v) implies self.readable(
                v,
            ) && v < self.rows().len() by {
                let k = choose|k: nat| walk(adj, source, v, k);
                lemma_walk_gathered(self, source, order@, seen@, v, k);
                let i = choose|i: int| 0 <= i < order@.len() && order@[i] == v;
                assert(self.row_in_bounds(order@[i] as int));
            }
        }
        true
    }
}

} // verus!

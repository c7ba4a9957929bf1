//! The queue-driven search that the distributed results are held against.

use std::collections::VecDeque;

use vstd::prelude::*;

use crate::graph::csr::Graph;
use crate::graph::{usable_from, NeighborLists};
use crate::model::{
    edge, is_distance, lemma_distinct_nodes_len, lemma_walk_step, reachable, shortest_distances,
    walk, UNVISITED,
};

verus! {

/// What holds of the distances between two steps of the search. `order` lists the nodes
/// in the order of their discovery; the first `done` of them have been expanded.
spec fn queue_invariant(
    adj: Seq<Seq<usize>>,
    s: usize,
    dist: Seq<usize>,
    order: Seq<usize>,
    done: int,
) -> bool {
    &&& dist.len() == adj.len()
    &&& order.no_duplicates()
    &&& 0 <= done <= order.len()
    &&& order.len() > 0
    &&& order[0] == s
    &&& forall|i: int| 0 <= i < order.len() ==> #[trigger] order[i] < dist.len()
    &&& forall|v: usize|
        v < dist.len() ==> (#[trigger] dist[v as int] != UNVISITED <==> order.contains(v))
    &&& forall|i: int| 0 <= i < order.len() ==> #[trigger] dist[order[i] as int] <= i
    &&& forall|i: int|
        0 <= i < order.len() ==> walk(adj, s, #[trigger] order[i], dist[order[i] as int] as nat)
    &&& forall|i: int, j: int|
        0 <= i <= j < order.len() ==> #[trigger] dist[order[i] as int]
            <= #[trigger] dist[order[j] as int]
}

/// Every neighbor of an expanded node is at most one level below it.
spec fn expanded(adj: Seq<Seq<usize>>, dist: Seq<usize>, order: Seq<usize>, done: int) -> bool {
    forall|i: int, v: usize|
        0 <= i < done && #[trigger] edge(adj, order[i], v) ==> v < dist.len() && dist[v as int]
            != UNVISITED && dist[v as int] <= dist[order[i] as int] + 1
}

/// A node that a walk of `k` edges reaches has been discovered within `k` levels.
proof fn lemma_all_found(
    adj: Seq<Seq<usize>>,
    s: usize,
    dist: Seq<usize>,
    order: Seq<usize>,
    v: usize,
    k: nat,
)
    requires
        queue_invariant(adj, s, dist, order, order.len() as int),
        expanded(adj, dist, order, order.len() as int),
        walk(adj, s, v, k),
    ensures
        v < dist.len(),
        dist[v as int] != UNVISITED,
        dist[v as int] <= k,
    decreases k,
{
    if k == 0 {
        assert(order[0] == s);
        assert(order.contains(s));
    } else {
        let u = choose|u: usize| walk(adj, s, u, (k - 1) as nat) && #[trigger] edge(adj, u, v);
        lemma_all_found(adj, s, dist, order, u, (k - 1) as nat);
        assert(order.contains(u));
        let i = choose|i: int| 0 <= i < order.len() && order[i] == u;
        assert(edge(adj, order[i], v));
    }
}

/// The distances from `source` over the edges of `graph`, by a first-in first-out queue.
pub fn sequential_bfs(graph: &Graph, source: usize) -> (distances: Vec<usize>)
    requires
        usable_from(graph, source),
    ensures
        shortest_distances(graph@, source, distances@),
{
    let num_nodes: usize = graph.num_nodes();
    let ghost adj = graph.rows();
    proof {
        assert(walk(adj, source, source, 0));
        assert(reachable(adj, source, source));
    }
    let mut distances: Vec<usize> = vec![UNVISITED; num_nodes];
    let mut queue: VecDeque<usize> = VecDeque::new();

    distances[source] = 0;
    queue.push_back(source);
    let ghost mut order: Seq<usize> = seq![source];
    let ghost mut done: int = 0;
    proof {
        assert(order.contains(source)) by {
            assert(order[0] == source);
        }
    }

    while queue.len() > 0
        invariant
            adj == graph.rows(),
            usable_from(graph, source),
            queue_invariant(adj, source, distances@, order, done),
            expanded(adj, distances@, order, done),
            queue@ == order.skip(done),
            forall|j: int|
                done < order.len() && 0 <= j < order.len() ==> #[trigger] distances@[order[j] as int]
                    <= distances@[order[done] as int] + 1,
        decreases adj.len() - done,
    {
        let popped = queue.pop_front();
        let u: usize = popped.unwrap();
        let ghost at = done;
        proof {
            assert(u == order[at]);
            done = done + 1;
            assert(queue@ =~= order.skip(done));
            assert(reachable(adj, source, u));
            lemma_distinct_nodes_len(order, adj.len());
        }
        let current_dist: usize = distances[u];
        assert(graph.readable(u));
        let list = graph.get_neighbors(u);
        let mut i: usize = 0;
        while i < list.len()
            invariant
                adj == graph.rows(),
                usable_from(graph, source),
                at + 1 == done,
                0 <= at < order.len(),
                u == order[at],
                u < adj.len(),
                list@ == adj[u as int],
                i <= list.len(),
                current_dist == distances@[u as int],
                queue_invariant(adj, source, distances@, order, done),
                expanded(adj, distances@, order, at),
                queue@ == order.skip(done),
                forall|j: int|
                    0 <= j < order.len() ==> #[trigger] distances@[order[j] as int] <= current_dist
                        + 1,
                forall|j: int|
                    0 <= j < i ==> #[trigger] list@[j] < distances@.len()
                        && distances@[list@[j] as int] != UNVISITED && distances@[list@[j] as int]
                        <= current_dist + 1,
            decreases list.len() - i,
        {
            let v: usize = list[i];
            proof {
                assert(adj[u as int].contains(v));
                assert(edge(adj, u, v));
                lemma_walk_step(adj, source, u, v, current_dist as nat);
                assert(reachable(adj, source, v));
            }
            if distances[v] == UNVISITED {
                let ghost before = distances@;
                let ghost old_order = order;
                proof {
                    lemma_distinct_nodes_len(order.push(v), adj.len());
                    assert(distances.len() == adj.len());
                    assert(distances@[order[at] as int] <= at);
                }
                distances[v] = current_dist + 1;
                queue.push_back(v);
                proof {
                    order = order.push(v);
                    assert(queue@ =~= order.skip(done));
                    assert forall|w: usize| w < distances@.len() implies (#[trigger] distances@[w as int]
                        != UNVISITED <==> order.contains(w)) by {
                        if old_order.contains(w) {
                            let k = choose|k: int| 0 <= k < old_order.len() && old_order[k] == w;
                            assert(order[k] == w);
                        }
                        if w == v {
                            assert(order[old_order.len() as int] == v);
                        }
                        if order.contains(w) && w != v {
                            let k = choose|k: int| 0 <= k < order.len() && order[k] == w;
                            assert(old_order[k] == w);
                        }
                        assert(w != v ==> distances@[w as int] == before[w as int]);
                    }
                    assert forall|k: int| 0 <= k < order.len() implies (#[trigger] order[k] == v
                        <==> k == old_order.len()) by {
                        if k < old_order.len() {
                            assert(old_order.contains(old_order[k]));
                        }
                    }
                    assert forall|k: int, w: usize| 0 <= k < at && #[trigger] edge(adj, order[k], w)
                        implies w < distances@.len() && distances@[w as int] != UNVISITED
                        && distances@[w as int] <= distances@[order[k] as int] + 1 by {
                        assert(edge(adj, old_order[k], w));
                    }
                }
            } else {
                proof {
                    let k = choose|k: int| 0 <= k < order.len() && order[k] == v;
                    assert(distances@[order[k] as int] <= current_dist + 1);
                }
            }
            i = i + 1;
        }
        proof {
            assert forall|k: int, w: usize| 0 <= k < done && #[trigger] edge(adj, order[k], w)
                implies w < distances@.len() && distances@[w as int] != UNVISITED
                && distances@[w as int] <= distances@[order[k] as int] + 1 by {
                if k == at {
                    let j = choose|j: int| 0 <= j < list@.len() && list@[j] == w;
                    assert(list@[j] == w);
                }
            }
            assert forall|j: int| done < order.len() && 0 <= j < order.len() implies #[trigger] distances@[order[j] as int]
                <= distances@[order[done] as int] + 1 by {
                assert(distances@[order[at] as int] <= distances@[order[done] as int]);
            }
        }
    }
    proof {
        assert(done == order.len());
        assert forall|v: usize| v < distances@.len() implies if #[trigger] distances@[v as int]
            == UNVISITED {
            !reachable(adj, source, v)
        } else {
            is_distance(adj, source, v, distances@[v as int] as nat)
        } by {
            if distances@[v as int] == UNVISITED {
                if reachable(adj, source, v) {
                    let k = choose|k: nat| walk(adj, source, v, k);
                    lemma_all_found(adj, source, distances@, order, v, k);
                }
            } else {
                let i = choose|i: int| 0 <= i < order.len() && order[i] == v;
                assert(walk(adj, source, order[i], distances@[order[i] as int] as nat));
                assert forall|j: nat| j < distances@[v as int] implies !walk(adj, source, v, j) by {
                    if walk(adj, source, v, j) {
                        lemma_all_found(adj, source, distances@, order, v, j);
                    }
                }
            }
        }
    }
    distances
}

} // verus!

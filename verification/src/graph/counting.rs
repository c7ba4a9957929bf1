//! Neighbor lists in one array, by counting the edges of every node first.

use vstd::prelude::*;

use super::csr::Graph;
use super::edge_list::{lemma_targets_named, rows_of, targets};

verus! {

/// Where the list of node `u` begins: after those of all nodes before it.
spec fn list_start(edges: Seq<(usize, usize)>, u: nat) -> nat
    decreases u,
{
    if u == 0 {
        0
    } else {
        list_start(edges, (u - 1) as nat) + targets(edges, u - 1).len()
    }
}

/// One edge more moves the lists behind its source by one.
proof fn lemma_start_push(edges: Seq<(usize, usize)>, edge: (usize, usize), u: nat)
    ensures
        list_start(edges.push(edge), u) == list_start(edges, u) + (if edge.0 < u {
            1nat
        } else {
            0nat
        }),
    decreases u,
{
    if u > 0 {
        lemma_start_push(edges, edge, (u - 1) as nat);
        assert(edges.push(edge).drop_last() =~= edges);
    }
}

/// The lists of all nodes have all edges.
proof fn lemma_starts_end(edges: Seq<(usize, usize)>, n: nat)
    requires
        forall|i: int| 0 <= i < edges.len() ==> (#[trigger] edges[i]).0 < n,
    ensures
        list_start(edges, n) == edges.len(),
    decreases edges.len(),
{
    if edges.len() == 0 {
        lemma_no_lists(n);
        assert(edges =~= Seq::empty());
    } else {
        let rest = edges.drop_last();
        assert forall|i: int| 0 <= i < rest.len() implies (#[trigger] rest[i]).0 < n by {
            assert(edges[i].0 < n);
        }
        lemma_starts_end(rest, n);
        assert(edges =~= rest.push(edges.last()));
        lemma_start_push(rest, edges.last(), n);
        assert(edges[edges.len() - 1].0 < n);
    }
}

/// Without edges every list begins at the start.
proof fn lemma_no_lists(n: nat)
    ensures
        list_start(Seq::empty(), n) == 0,
    decreases n,
{
    if n > 0 {
        lemma_no_lists((n - 1) as nat);
    }
}

/// Lists of later nodes begin later.
proof fn lemma_starts_ordered(edges: Seq<(usize, usize)>, a: nat, b: nat)
    requires
        a <= b,
    ensures
        list_start(edges, a) <= list_start(edges, b),
    decreases b,
{
    if a < b {
        lemma_starts_ordered(edges, a, (b - 1) as nat);
    }
}

/// The targets of the first edges are the first of the targets.
proof fn lemma_targets_prefix(edges: Seq<(usize, usize)>, k: int, u: int)
    requires
        0 <= k <= edges.len(),
    ensures
        targets(edges.take(k), u).is_prefix_of(targets(edges, u)),
    decreases edges.len() - k,
{
    if k < edges.len() {
        lemma_targets_prefix(edges, k + 1, u);
        assert(edges.take(k + 1).drop_last() =~= edges.take(k));
    } else {
        assert(edges.take(k) =~= edges);
    }
}

/// The number of edges of every node.
fn count_degrees(edges: &[(usize, usize)], num_nodes: usize) -> (degrees: Vec<usize>)
    requires
        forall|i: int| 0 <= i < edges@.len() ==> (#[trigger] edges@[i]).0 < num_nodes,
    ensures
        degrees@.len() == num_nodes,
        forall|u: int| 0 <= u < num_nodes ==> #[trigger] degrees@[u] == targets(edges@, u).len(),
{
    let mut degrees: Vec<usize> = vec![0usize; num_nodes];
    let mut k: usize = 0;
    assert(edges@.take(0) =~= Seq::<(usize, usize)>::empty());
    while k < edges.len()
        invariant
            k <= edges.len(),
            forall|i: int| 0 <= i < edges@.len() ==> (#[trigger] edges@[i]).0 < num_nodes,
            degrees@.len() == num_nodes,
            forall|u: int|
                0 <= u < num_nodes ==> #[trigger] degrees@[u] == targets(
                    edges@.take(k as int),
                    u,
                ).len(),
            forall|u: int| 0 <= u < num_nodes ==> #[trigger] degrees@[u] <= k,
        decreases edges.len() - k,
    {
        let (u, _v) = edges[k];
        proof {
            assert(edges@.take(k + 1).drop_last() =~= edges@.take(k as int));
            assert(edges@[k as int].0 < num_nodes);
            assert(degrees@[u as int] <= k);
        }
        degrees[u] = degrees[u] + 1;
        k = k + 1;
    }
    assert(edges@.take(edges@.len() as int) =~= edges@);
    degrees
}

/// Where the list of every node begins, and where the last one ends.
fn list_offsets(edges: &[(usize, usize)], degrees: &[usize]) -> (offsets: Vec<usize>)
    requires
        degrees@.len() < usize::MAX,
        forall|i: int| 0 <= i < edges@.len() ==> (#[trigger] edges@[i]).0 < degrees@.len(),
        forall|u: int|
            0 <= u < degrees@.len() ==> #[trigger] degrees@[u] == targets(edges@, u).len(),
    ensures
        offsets@.len() == degrees@.len() + 1,
        forall|u: int| 0 <= u <= degrees@.len() ==> #[trigger] offsets@[u] == list_start(
            edges@,
            u as nat,
        ),
{
    let num_nodes: usize = degrees.len();
    let mut offsets: Vec<usize> = vec![0usize; num_nodes + 1];
    let mut i: usize = 0;
    proof {
        lemma_starts_end(edges@, num_nodes as nat);
        assert(edges.len() == edges@.len());
    }
    while i < num_nodes
        invariant
            i <= num_nodes,
            num_nodes == degrees@.len(),
            offsets@.len() == num_nodes + 1,
            edges@.len() <= usize::MAX,
            list_start(edges@, num_nodes as nat) == edges@.len(),
            forall|u: int|
                0 <= u < degrees@.len() ==> #[trigger] degrees@[u] == targets(edges@, u).len(),
            forall|u: int|
                0 <= u <= i ==> #[trigger] offsets@[u] == list_start(edges@, u as nat),
        decreases num_nodes - i,
    {
        proof {
            lemma_starts_ordered(edges@, (i + 1) as nat, num_nodes as nat);
            assert(offsets@[i as int] == list_start(edges@, i as nat));
        }
        offsets[i + 1] = offsets[i] + degrees[i];
        i = i + 1;
    }
    offsets
}

/// Puts the edges of every node behind one another, in order.
pub fn from_edges(edges: &[(usize, usize)], num_nodes: usize) -> (graph: Graph)
    requires
        num_nodes < usize::MAX,
        forall|i: int| 0 <= i < edges@.len() ==> (#[trigger] edges@[i]).0 < num_nodes,
    ensures
        graph@ == rows_of(edges@, num_nodes as nat),
        forall|u: int| 0 <= u < num_nodes ==> #[trigger] graph.row_in_bounds(u),
        graph.compact(),
{
    let degrees = count_degrees(edges, num_nodes);
    let offsets = list_offsets(edges, degrees.as_slice());
    let mut out: Vec<usize> = vec![0usize; edges.len()];
    let mut current_offset: Vec<usize> = offsets.clone();
    let ghost n = num_nodes as nat;
    let mut k: usize = 0;
    proof {
        lemma_starts_end(edges@, n);
        assert(edges@.take(0) =~= Seq::<(usize, usize)>::empty());
        assert(current_offset@ =~= offsets@);
    }
    while k < edges.len()
        invariant
            k <= edges.len(),
            n == num_nodes,
            forall|i: int| 0 <= i < edges@.len() ==> (#[trigger] edges@[i]).0 < num_nodes,
            list_start(edges@, n) == edges@.len(),
            out@.len() == edges@.len(),
            offsets@.len() == n + 1,
            current_offset@.len() == n + 1,
            forall|u: int| 0 <= u <= n ==> #[trigger] offsets@[u] == list_start(edges@, u as nat),
            forall|u: int|
                0 <= u < n ==> #[trigger] current_offset@[u] == list_start(edges@, u as nat)
                    + targets(edges@.take(k as int), u).len(),
            forall|u: int, i: int|
                0 <= u < n && 0 <= i < targets(edges@.take(k as int), u).len() ==> out@[list_start(
                    edges@,
                    u as nat,
                ) + i] == #[trigger] targets(edges@.take(k as int), u)[i],
        decreases edges.len() - k,
    {
        let (u, v) = edges[k];
        let ghost done = edges@.take(k as int);
        let ghost more = edges@.take(k + 1);
        let ghost placed = out@;
        proof {
            assert(more.drop_last() =~= done);
            assert(edges@[k as int].0 < num_nodes);
            lemma_targets_prefix(edges@, k + 1, u as int);
            lemma_starts_ordered(edges@, (u + 1) as nat, n);
            assert(current_offset@[u as int] == list_start(edges@, u as nat) + targets(
                done,
                u as int,
            ).len());
        }
        let idx: usize = current_offset[u];
        out[idx] = v;
        current_offset[u] = idx + 1;
        proof {
            assert forall|x: int, i: int|
                0 <= x < n && 0 <= i < targets(more, x).len() implies out@[list_start(
                edges@,
                x as nat,
            ) + i] == #[trigger] targets(more, x)[i] by {
                let at = list_start(edges@, x as nat) + i;
                assert(list_start(edges@, (u + 1) as nat) == list_start(edges@, u as nat)
                    + targets(edges@, u as int).len());
                if x != u {
                    assert(targets(more, x) == targets(done, x));
                }
                if i < targets(done, x).len() {
                    assert(placed[at] == targets(done, x)[i]);
                    assert(targets(more, x)[i] == targets(done, x)[i]);
                }
                lemma_targets_prefix(edges@, k + 1, x);
                lemma_starts_ordered(edges@, (x + 1) as nat, n);
                assert(list_start(edges@, (x + 1) as nat) == list_start(edges@, x as nat) + targets(
                    edges@,
                    x,
                ).len());
                assert(0 <= at < placed.len());
                if x < u {
                    lemma_starts_ordered(edges@, (x + 1) as nat, u as nat);
                } else if x > u {
                    lemma_starts_ordered(edges@, (u + 1) as nat, x as nat);
                }
            }
        }
        k = k + 1;
    }
    let graph = Graph { offsets, edges: out };
    proof {
        assert(edges@.take(edges@.len() as int) =~= edges@);
        assert forall|u: int| 0 <= u < n implies #[trigger] graph.row_in_bounds(u) && graph@[u]
            == targets(edges@, u) by {
            lemma_starts_ordered(edges@, (u + 1) as nat, n);
            assert(graph.offsets@[u] == list_start(edges@, u as nat));
            assert(graph.offsets@[u + 1] == list_start(edges@, (u + 1) as nat));
            assert(graph@[u] =~= targets(edges@, u)) by {
                assert forall|i: int| 0 <= i < targets(edges@, u).len() implies graph@[u][i]
                    == targets(edges@, u)[i] by {
                    assert(out@[list_start(edges@, u as nat) + i] == targets(edges@, u)[i]);
                }
            }
        }
        assert forall|u: int| 0 <= u < n implies graph@[u] == rows_of(edges@, n)[u] by {
            assert(graph.row_in_bounds(u));
        }
        assert(graph@ =~= rows_of(edges@, n));
        assert(graph.offsets@[0] == list_start(edges@, 0));
        assert(graph.offsets@[n as int] == list_start(edges@, n));
    }
    graph
}

/// Where all edges lead to nodes of the graph, the lists make up a well-formed graph.
pub proof fn edges_make_well_formed(edges: Seq<(usize, usize)>, num_nodes: nat, graph: &Graph)
    requires
        graph@ == rows_of(edges, num_nodes),
        forall|u: int| 0 <= u < num_nodes ==> #[trigger] graph.row_in_bounds(u),
        forall|i: int| 0 <= i < edges.len() ==> (#[trigger] edges[i]).1 < num_nodes,
    ensures
        graph.well_formed(),
{
    assert(graph@.len() == num_nodes);
    assert forall|u: int, i: int|
        0 <= u < graph.node_total() && 0 <= i < graph@[u].len() implies #[trigger] graph@[u][i]
        < graph.node_total() by {
        lemma_targets_named(edges, u);
        assert(graph@[u][i] == targets(edges, u)[i]);
        let j = choose|j: int|
            0 <= j < edges.len() && #[trigger] edges[j] == (u as usize, targets(edges, u)[i]);
        assert(edges[j].1 < num_nodes);
    }
}

} // verus!

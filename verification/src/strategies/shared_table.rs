//! One table of distances and one frontier, expanded by a pool of threads.

use vstd::prelude::*;

use crate::frontier::{candidates, lemma_candidates_contains};
use crate::graph::csr::Graph;
use crate::graph::{usable_from, NeighborLists};
use crate::model::{
    closed_from, edge, explored, follows, is_eccentricity, last_level_is_eccentricity,
    lemma_start_explored, lemma_walk_step, level_step, level_step_explores,
    no_level_past_node_count, quiet_level_finishes, reachable, shortest_distances, start_table,
    walk, UNVISITED,
};
use crate::parallel::{expandable, unvisited_neighbors, wipe};

verus! {

/// The nodes that the first `k` entries of a table have a distance for, with that distance.
pub open spec fn visited(table: Seq<usize>, k: nat) -> Seq<(usize, usize)>
    decreases k,
{
    if k == 0 {
        Seq::empty()
    } else if table[k - 1] != UNVISITED {
        visited(table, (k - 1) as nat).push(((k - 1) as usize, table[k - 1]))
    } else {
        visited(table, (k - 1) as nat)
    }
}

/// The pairs are in ascending node order, and are those of the nodes with a distance: no other
/// node is named, and each of them once.
pub proof fn visited_is_ascending(table: Seq<usize>, k: nat)
    requires
        k <= table.len() <= usize::MAX,
    ensures
        forall|i: int, j: int|
            0 <= i < j < visited(table, k).len() ==> (#[trigger] visited(table, k)[i]).0 < (
            #[trigger] visited(table, k)[j]).0,
        forall|i: int|
            0 <= i < visited(table, k).len() ==> {
                &&& (#[trigger] visited(table, k)[i]).0 < k
                &&& visited(table, k)[i].1 == table[visited(table, k)[i].0 as int]
                &&& visited(table, k)[i].1 != UNVISITED
            },
        forall|v: usize|
            v < k && #[trigger] table[v as int] != UNVISITED ==> visited(table, k).contains(
                (v, table[v as int]),
            ),
    decreases k,
{
    if k > 0 {
        let last = (k - 1) as nat;
        visited_is_ascending(table, last);
        let earlier = visited(table, last);
        let all = visited(table, k);
        assert forall|v: usize| v < k && #[trigger] table[v as int] != UNVISITED implies all.contains(
            (v, table[v as int]),
        ) by {
            if v < last {
                assert(earlier.contains((v, table[v as int])));
                let i = choose|i: int| 0 <= i < earlier.len() && earlier[i] == (v, table[v as int]);
                assert(all[i] == (v, table[v as int]));
            } else {
                assert(all[all.len() - 1] == (v, table[v as int]));
            }
        }
        assert forall|i: int, j: int| 0 <= i < j < all.len() implies (#[trigger] all[i]).0 < (
        #[trigger] all[j]).0 by {
            assert(all[i] == earlier[i]);
            if j < earlier.len() {
                assert(all[j] == earlier[j]);
            }
        }
        assert forall|i: int| 0 <= i < all.len() implies {
            &&& (#[trigger] all[i]).0 < k
            &&& all[i].1 == table[all[i].0 as int]
            &&& all[i].1 != UNVISITED
        } by {
            if i < earlier.len() {
                assert(all[i] == earlier[i]);
            }
        }
    }
}

/// Wipes a table over the thread pool and gives the source distance zero.
pub fn reset(distances: &mut Vec<usize>, source: usize)
    requires
        source < old(distances)@.len(),
    ensures
        final(distances)@ == start_table(old(distances)@.len(), source),
{
    wipe(distances);
    distances[source] = 0;
    assert(distances@ =~= start_table(old(distances)@.len(), source));
}

/// Expands the frontier by one level over the thread pool: each neighbor without a distance
/// gets the next level and joins the next frontier, once and in any order.
pub fn expand_level(
    graph: &Graph,
    distances: &mut Vec<usize>,
    frontier: &[usize],
    current_level: usize,
) -> (next_frontier: Vec<usize>)
    requires
        current_level + 1 < UNVISITED,
        expandable(graph, old(distances)@, frontier@),
    ensures
        next_frontier@.no_duplicates(),
        forall|v: usize| #[trigger]
            next_frontier@.contains(v) <==> v < old(distances)@.len() && candidates(
                graph@,
                frontier@,
            ).contains(v) && old(distances)@[v as int] == UNVISITED,
        final(distances)@.len() == old(distances)@.len(),
        forall|v: usize|
            v < old(distances)@.len() ==> #[trigger] final(distances)@[v as int] == (
            if next_frontier@.contains(v) {
                (current_level + 1) as usize
            } else {
                old(distances)@[v as int]
            }),
{
    let ghost before = distances@;
    let ghost met = candidates(graph@, frontier@);
    let found = unvisited_neighbors(graph, distances.as_slice(), frontier);
    let mut next_frontier: Vec<usize> = Vec::new();
    let mut j: usize = 0;
    proof {
        assert forall|v: usize| #[trigger] met.contains(v) implies v < before.len() by {
            lemma_in_table(graph, before, frontier@, v);
        }
    }
    while j < found.len()
        invariant
            current_level + 1 < UNVISITED,
            j <= found.len(),
            distances@.len() == before.len(),
            forall|v: usize| #[trigger] met.contains(v) ==> v < before.len(),
            forall|v: usize| #[trigger]
                found@.contains(v) <==> met.contains(v) && before[v as int] == UNVISITED,
            next_frontier@.no_duplicates(),
            forall|i: int|
                0 <= i < next_frontier@.len() ==> found@.contains(#[trigger] next_frontier@[i]),
            forall|i: int| 0 <= i < j ==> next_frontier@.contains(#[trigger] found@[i]),
            forall|v: usize|
                v < before.len() ==> #[trigger] distances@[v as int] == (
                if next_frontier@.contains(v) {
                    (current_level + 1) as usize
                } else {
                    before[v as int]
                }),
        decreases found.len() - j,
    {
        let v: usize = found[j];
        let ghost next = next_frontier@;
        let ghost table = distances@;
        proof {
            assert(found@.contains(found@[j as int]));
            assert(table[v as int] == UNVISITED <==> !next.contains(v));
        }
        if distances[v] == UNVISITED {
            distances[v] = current_level + 1;
            next_frontier.push(v);
            proof {
                assert forall|x: usize| #[trigger] next_frontier@.contains(x) <==> next.contains(x)
                    || x == v by {
                    if next.contains(x) {
                        let i = choose|i: int| 0 <= i < next.len() && next[i] == x;
                        assert(next_frontier@[i] == x);
                    }
                    if next_frontier@.contains(x) {
                        let i = choose|i: int|
                            0 <= i < next_frontier@.len() && next_frontier@[i] == x;
                        if i < next.len() {
                            assert(next[i] == x);
                        }
                    }
                    assert(next_frontier@[next.len() as int] == v);
                }
            }
        }
        j = j + 1;
    }
    proof {
        assert forall|v: usize| #[trigger] next_frontier@.contains(v) <==> found@.contains(v) by {
            if next_frontier@.contains(v) {
                let i = choose|i: int| 0 <= i < next_frontier@.len() && next_frontier@[i] == v;
                assert(found@.contains(next_frontier@[i]));
            }
            if found@.contains(v) {
                let i = choose|i: int| 0 <= i < found@.len() && found@[i] == v;
                assert(next_frontier@.contains(found@[i]));
            }
        }
    }
    next_frontier
}

/// A neighbor of an expandable frontier has an entry in the table.
proof fn lemma_in_table(graph: &Graph, table: Seq<usize>, frontier: Seq<usize>, v: usize)
    requires
        expandable(graph, table, frontier),
        candidates(graph@, frontier).contains(v),
    ensures
        v < table.len(),
{
    assert forall|i: int| 0 <= i < frontier.len() implies #[trigger] frontier[i] < graph@.len() by {
        assert(graph.row_in_bounds(frontier[i] as int));
    }
    lemma_candidates_contains(graph@, frontier, v);
    let u = choose|u: usize| frontier.contains(u) && #[trigger] edge(graph@, u, v);
    let i = choose|i: int| 0 <= i < frontier.len() && frontier[i] == u;
    let j = choose|j: int| 0 <= j < graph@[u as int].len() && graph@[u as int][j] == v;
    assert(graph@[frontier[i] as int][j] < table.len());
}

/// Between two levels of a search from `s`: the table is explored, and the frontier has the
/// nodes at the current level.
pub open spec fn at_level(
    adj: Seq<Seq<usize>>,
    s: usize,
    level: nat,
    table: Seq<usize>,
    frontier: Seq<usize>,
) -> bool {
    &&& explored(adj, s, level, table)
    &&& forall|v: usize| #[trigger]
        frontier.contains(v) <==> v < table.len() && table[v as int] == level
}

/// A frontier of a search can be expanded.
proof fn lemma_expandable(
    graph: &Graph,
    s: usize,
    level: nat,
    table: Seq<usize>,
    frontier: Seq<usize>,
)
    requires
        usable_from(graph, s),
        at_level(graph@, s, level, table, frontier),
        level < UNVISITED,
    ensures
        expandable(graph, table, frontier),
{
    assert forall|i: int| 0 <= i < frontier.len() implies graph.row_in_bounds(
        (#[trigger] frontier[i]) as int,
    ) by {
        assert(frontier.contains(frontier[i]));
        assert(walk(graph@, s, frontier[i], level));
        assert(reachable(graph.rows(), s, frontier[i]));
    }
    assert forall|i: int, j: int|
        0 <= i < frontier.len() && 0 <= j
            < graph@[frontier[i] as int].len() implies #[trigger] graph@[frontier[i] as int][j]
        < table.len() by {
        let u = frontier[i];
        assert(frontier.contains(u));
        let v = graph@[u as int][j];
        assert(graph@[u as int].contains(v));
        assert(edge(graph@, u, v));
        lemma_walk_step(graph@, s, u, v, level);
        assert(reachable(graph.rows(), s, v));
    }
}

/// Expanding the frontier is one synchronous level of breadth-first search.
pub proof fn expansion_is_level_step(
    graph: &Graph,
    s: usize,
    level: nat,
    before: Seq<usize>,
    frontier: Seq<usize>,
    after: Seq<usize>,
    next_frontier: Seq<usize>,
)
    requires
        usable_from(graph, s),
        at_level(graph@, s, level, before, frontier),
        level + 1 < UNVISITED,
        forall|v: usize| #[trigger]
            next_frontier.contains(v) <==> v < before.len() && candidates(
                graph@,
                frontier,
            ).contains(v) && before[v as int] == UNVISITED,
        after.len() == before.len(),
        forall|v: usize|
            v < before.len() ==> #[trigger] after[v as int] == (if next_frontier.contains(v) {
                (level + 1) as usize
            } else {
                before[v as int]
            }),
    ensures
        level_step(graph@, level, before, after),
        at_level(graph@, s, level + 1, after, next_frontier),
{
    let adj = graph@;
    assert(closed_from(adj, s)) by {
        assert forall|v: usize| #[trigger] reachable(adj, s, v) implies v < adj.len() by {
            assert(reachable(graph.rows(), s, v));
        }
    }
    assert forall|i: int| 0 <= i < frontier.len() implies #[trigger] frontier[i] < adj.len() by {
        assert(frontier.contains(frontier[i]));
    }
    assert forall|v: usize| v < before.len() implies #[trigger] after[v as int] == (
    if before[v as int] == UNVISITED && follows(adj, level, before, v) {
        level + 1
    } else {
        before[v as int] as nat
    }) by {
        lemma_candidates_contains(adj, frontier, v);
        if candidates(adj, frontier).contains(v) {
            let u = choose|u: usize| frontier.contains(u) && #[trigger] edge(adj, u, v);
            assert(u < before.len() && before[u as int] == level && edge(adj, u, v));
        }
        if follows(adj, level, before, v) {
            let u = choose|u: usize|
                u < before.len() && before[u as int] == level && #[trigger] edge(adj, u, v);
            assert(frontier.contains(u));
        }
        assert(next_frontier.contains(v) <==> candidates(adj, frontier).contains(v)
            && before[v as int] == UNVISITED);
    }
    level_step_explores(adj, s, level, before, after);
    assert forall|v: usize| #[trigger] next_frontier.contains(v) <==> v < after.len()
        && after[v as int] == level + 1 by {
        if v < after.len() && after[v as int] == level + 1 && !next_frontier.contains(v) {
            assert(before[v as int] <= level);
        }
    }
}

/// A search over one table: the distances so far, the nodes that were discovered last, their
/// level, and whether the last level discovered nothing.
pub struct TableSearch {
    pub distances: Vec<usize>,
    pub frontier: Vec<usize>,
    pub level: usize,
    pub over: bool,
}

impl TableSearch {
    /// Between two levels of a search from `s`.
    pub open spec fn running(&self, graph: &Graph, s: usize) -> bool {
        &&& !self.over
        &&& self.frontier@.len() > 0
        &&& self.level < graph@.len()
        &&& at_level(graph@, s, self.level as nat, self.distances@, self.frontier@)
    }

    /// After the last level of a search from `s`: the table has the distances, and the level
    /// is the largest of them.
    pub open spec fn finished(&self, graph: &Graph, s: usize) -> bool {
        &&& self.over
        &&& shortest_distances(graph@, s, self.distances@)
        &&& is_eccentricity(graph@, s, self.level as nat)
    }

    /// A table for so many nodes, before the first search.
    pub fn new(num_nodes: usize) -> (search: TableSearch)
        ensures
            search.distances@ == Seq::new(num_nodes as nat, |v: int| UNVISITED),
            search.frontier@.len() == 0,
            search.level == 0,
            search.over,
    {
        let distances: Vec<usize> = vec![UNVISITED; num_nodes];
        assert(distances@ =~= Seq::new(num_nodes as nat, |v: int| UNVISITED));
        TableSearch { distances, frontier: Vec::new(), level: 0, over: true }
    }

    /// Starts a search from `source`.
    pub fn start(&mut self, source: usize)
        requires
            source < old(self).distances@.len(),
        ensures
            final(self).distances@ == start_table(old(self).distances@.len(), source),
            final(self).frontier@ == seq![source],
            final(self).level == 0,
            !final(self).over,
    {
        reset(&mut self.distances, source);
        let mut frontier: Vec<usize> = Vec::new();
        frontier.push(source);
        assert(frontier@ =~= seq![source]);
        self.frontier = frontier;
        self.level = 0;
        self.over = false;
    }

    /// A level discovers `v`.
    pub open spec fn discovers(&self, graph: &Graph, v: usize) -> bool {
        v < self.distances@.len() && candidates(graph@, self.frontier@).contains(v)
            && self.distances@[v as int] == UNVISITED
    }

    /// What one level makes of a search.
    pub open spec fn stepped(&self, graph: &Graph, after: &TableSearch) -> bool {
        &&& after.distances@.len() == self.distances@.len()
        &&& forall|v: usize|
            v < self.distances@.len() ==> #[trigger] after.distances@[v as int] == (
            if self.discovers(graph, v) {
                (self.level + 1) as usize
            } else {
                self.distances@[v as int]
            })
        &&& after.over <==> forall|v: usize| !#[trigger] self.discovers(graph, v)
        &&& after.over ==> after.frontier@ == self.frontier@ && after.level == self.level
        &&& !after.over ==> {
            &&& after.frontier@.no_duplicates()
            &&& forall|v: usize| #[trigger]
                after.frontier@.contains(v) <==> self.discovers(graph, v)
            &&& after.level == self.level + 1
        }
    }

    /// Expands the frontier over the thread pool, and tells how many nodes were discovered. The
    /// search is over where there are none, and goes on from them where there are.
    pub fn step(&mut self, graph: &Graph) -> (found: usize)
        requires
            old(self).level + 1 < UNVISITED,
            expandable(graph, old(self).distances@, old(self).frontier@),
        ensures
            old(self).stepped(graph, final(self)),
            found == (if final(self).over {
                0
            } else {
                final(self).frontier@.len()
            }),
            found == 0 <==> final(self).over,
    {
        let next_frontier = expand_level(
            graph,
            &mut self.distances,
            self.frontier.as_slice(),
            self.level,
        );
        let found: usize = next_frontier.len();
        proof {
            if found == 0 {
                assert forall|v: usize| !#[trigger] old(self).discovers(graph, v) by {
                    assert(!next_frontier@.contains(v));
                }
            } else {
                assert(next_frontier@.contains(next_frontier@[0]));
                assert(old(self).discovers(graph, next_frontier@[0]));
            }
        }
        if found == 0 {
            self.over = true;
        } else {
            self.over = false;
            self.frontier = next_frontier;
            self.level = self.level + 1;
        }
        found
    }

    /// Searches from `source`, level after level until one discovers nothing.
    pub fn run_trial(&mut self, graph: &Graph, source: usize)
        requires
            usable_from(graph, source),
            old(self).distances@.len() == graph@.len(),
        ensures
            final(self).finished(graph, source),
    {
        let num_nodes: usize = graph.num_nodes();
        proof {
            assert(walk(graph@, source, source, 0));
            assert(reachable(graph.rows(), source, source));
            assert(graph.offsets.len() == graph.offsets@.len());
        }
        self.start(source);
        proof {
            start_is_running(graph, source, self);
        }
        while !self.over
            invariant
                num_nodes == graph@.len(),
                num_nodes < UNVISITED,
                usable_from(graph, source),
                self.over ==> self.finished(graph, source),
                !self.over ==> self.running(graph, source),
            decreases (if self.over {
                0
            } else {
                num_nodes + 1 - self.level
            }),
        {
            let ghost before = *self;
            proof {
                running_can_step(graph, source, self);
            }
            let _found: usize = self.step(graph);
            proof {
                step_keeps_running(graph, source, &before, self);
            }
        }
    }
}

/// A search that has started is running.
pub proof fn start_is_running(graph: &Graph, s: usize, search: &TableSearch)
    requires
        usable_from(graph, s),
        search.distances@ == start_table(graph@.len(), s),
        search.frontier@ == seq![s],
        search.level == 0,
        !search.over,
    ensures
        search.running(graph, s),
{
    assert(walk(graph@, s, s, 0));
    assert(reachable(graph.rows(), s, s));
    lemma_start_explored(graph@, s);
    assert forall|v: usize| #[trigger] search.frontier@.contains(v) <==> v
        < search.distances@.len() && search.distances@[v as int] == 0 by {
        assert(search.frontier@[0] == s);
    }
}

/// A running search can go through its next level.
pub proof fn running_can_step(graph: &Graph, s: usize, search: &TableSearch)
    requires
        usable_from(graph, s),
        graph@.len() < UNVISITED,
        search.running(graph, s),
    ensures
        search.level + 1 < UNVISITED,
        expandable(graph, search.distances@, search.frontier@),
{
    lemma_expandable(graph, s, search.level as nat, search.distances@, search.frontier@);
}

/// A level of a running search leaves it running, or has ended it with the distances.
pub proof fn step_keeps_running(
    graph: &Graph,
    s: usize,
    before: &TableSearch,
    after: &TableSearch,
)
    requires
        usable_from(graph, s),
        graph@.len() < UNVISITED,
        before.running(graph, s),
        before.stepped(graph, after),
    ensures
        after.over ==> after.finished(graph, s),
        !after.over ==> after.running(graph, s),
{
    let adj = graph@;
    let level = before.level as nat;
    assert(closed_from(adj, s)) by {
        assert forall|v: usize| #[trigger] reachable(adj, s, v) implies v < adj.len() by {
            assert(reachable(graph.rows(), s, v));
        }
    }
    let next = if after.over {
        Seq::empty()
    } else {
        after.frontier@
    };
    assert forall|v: usize| #[trigger] next.contains(v) <==> v < before.distances@.len()
        && candidates(graph@, before.frontier@).contains(v) && before.distances@[v as int]
        == UNVISITED by {
        assert(next.contains(v) <==> before.discovers(graph, v));
    }
    expansion_is_level_step(
        graph,
        s,
        level,
        before.distances@,
        before.frontier@,
        after.distances@,
        next,
    );
    if after.over {
        assert(after.distances@ =~= before.distances@) by {
            assert forall|i: int| 0 <= i < before.distances@.len() implies after.distances@[i]
                == before.distances@[i] by {
                let v = i as usize;
                assert(!before.discovers(graph, v));
                assert(after.distances@[v as int] == before.distances@[v as int]);
            }
        }
        quiet_level_finishes(adj, s, level, before.distances@);
        let v = before.frontier@[0];
        assert(before.frontier@.contains(v));
        last_level_is_eccentricity(adj, s, level, before.distances@, v);
    } else {
        let v = choose|v: usize| #[trigger] before.discovers(graph, v);
        assert(after.frontier@.contains(v));
        assert(after.frontier@.len() > 0);
        if level + 1 >= adj.len() {
            no_level_past_node_count(adj, s, level + 1, after.distances@);
        }
    }
}

/// The nodes that a table has a distance for, in node order, with that distance.
pub fn visited_nodes(distances: &[usize]) -> (out: Vec<(usize, usize)>)
    ensures
        out@ == visited(distances@, distances@.len()),
{
    let mut out: Vec<(usize, usize)> = Vec::new();
    let mut node: usize = 0;
    while node < distances.len()
        invariant
            node <= distances.len(),
            out@ == visited(distances@, node as nat),
        decreases distances.len() - node,
    {
        let dist: usize = distances[node];
        if dist != UNVISITED {
            out.push((node, dist));
        }
        node = node + 1;
    }
    out
}

} // verus!

//! The mathematical side of breadth-first search: walks, distances and what
//! one synchronous level of exploration does to a distance table.

use vstd::prelude::*;

verus! {

/// The mark of a node that no level has discovered yet.
pub const UNVISITED: usize = usize::MAX;

/// `u` has `v` among its neighbors. A graph is the sequence of its neighbor lists.
pub open spec fn edge(adj: Seq<Seq<usize>>, u: usize, v: usize) -> bool {
    u < adj.len() && adj[u as int].contains(v)
}

/// Some walk of exactly `k` edges leads from `s` to `v`.
pub open spec fn walk(adj: Seq<Seq<usize>>, s: usize, v: usize, k: nat) -> bool
    decreases k,
{
    if k == 0 {
        v == s
    } else {
        exists|u: usize| walk(adj, s, u, (k - 1) as nat) && #[trigger] edge(adj, u, v)
    }
}

/// Some walk leads from `s` to `v`.
pub open spec fn reachable(adj: Seq<Seq<usize>>, s: usize, v: usize) -> bool {
    exists|k: nat| walk(adj, s, v, k)
}

/// A shortest walk from `s` to `v` has `d` edges.
pub open spec fn is_distance(adj: Seq<Seq<usize>>, s: usize, v: usize, d: nat) -> bool {
    &&& walk(adj, s, v, d)
    &&& forall|j: nat| j < d ==> !walk(adj, s, v, j)
}

/// `dist` is the breadth-first search result from `s`: the distance of every
/// node that can be reached, [`UNVISITED`] for every other node.
pub open spec fn shortest_distances(adj: Seq<Seq<usize>>, s: usize, dist: Seq<usize>) -> bool {
    &&& dist.len() == adj.len()
    &&& forall|v: usize|
        v < dist.len() ==> if #[trigger] dist[v as int] == UNVISITED {
            !reachable(adj, s, v)
        } else {
            is_distance(adj, s, v, dist[v as int] as nat)
        }
}

/// Every neighbor of every node that can be reached from `s` is a node of the graph.
pub open spec fn closed_from(adj: Seq<Seq<usize>>, s: usize) -> bool {
    forall|v: usize| #[trigger] reachable(adj, s, v) ==> v < adj.len()
}

/// The largest distance from `s` is `e`.
pub open spec fn is_eccentricity(adj: Seq<Seq<usize>>, s: usize, e: nat) -> bool {
    &&& exists|v: usize| #[trigger] is_distance(adj, s, v, e)
    &&& forall|v: usize, d: nat| #[trigger] is_distance(adj, s, v, d) ==> d <= e
}

/// There is one largest distance.
pub proof fn eccentricity_unique(adj: Seq<Seq<usize>>, s: usize, a: nat, b: nat)
    requires
        is_eccentricity(adj, s, a),
        is_eccentricity(adj, s, b),
    ensures
        a == b,
{
    let v = choose|v: usize| #[trigger] is_distance(adj, s, v, a);
    let w = choose|w: usize| #[trigger] is_distance(adj, s, w, b);
    assert(is_distance(adj, s, v, a) && is_distance(adj, s, w, b));
}

/// A table that is explored to a level, has a node at it and is the result of the search shows
/// that the level is the largest distance.
pub proof fn last_level_is_eccentricity(
    adj: Seq<Seq<usize>>,
    s: usize,
    level: nat,
    table: Seq<usize>,
    v: usize,
)
    requires
        closed_from(adj, s),
        explored(adj, s, level, table),
        shortest_distances(adj, s, table),
        v < table.len(),
        table[v as int] == level,
        level < UNVISITED,
    ensures
        is_eccentricity(adj, s, level),
{
    assert(is_distance(adj, s, v, level));
    assert forall|x: usize, d: nat| #[trigger] is_distance(adj, s, x, d) implies d <= level by {
        assert(reachable(adj, s, x));
        assert(table[x as int] != UNVISITED);
        lemma_distance_unique(adj, s, x, d, table[x as int] as nat);
    }
}

/// A walk can be prolonged by an edge.
pub proof fn lemma_walk_step(adj: Seq<Seq<usize>>, s: usize, u: usize, v: usize, k: nat)
    requires
        walk(adj, s, u, k),
        edge(adj, u, v),
    ensures
        walk(adj, s, v, k + 1),
        reachable(adj, s, v),
{
    assert(walk(adj, s, u, ((k + 1) - 1) as nat));
}

/// A distinct list of nodes of a graph of `n` nodes has at most `n` entries.
pub proof fn lemma_distinct_nodes_len(nodes: Seq<usize>, n: nat)
    requires
        nodes.no_duplicates(),
        forall|i: int| 0 <= i < nodes.len() ==> #[trigger] nodes[i] < n,
    ensures
        nodes.len() <= n,
{
    let ints = nodes.map_values(|v: usize| v as int);
    assert(ints.no_duplicates()) by {
        assert forall|i: int, j: int| 0 <= i < ints.len() && 0 <= j < ints.len() && i != j implies ints[i]
            != ints[j] by {
            assert(nodes[i] != nodes[j]);
        }
    }
    ints.unique_seq_to_set();
    let range = vstd::set_lib::set_int_range(0, n as int);
    vstd::set_lib::lemma_int_range(0, n as int);
    assert(ints.to_set().subset_of(range)) by {
        assert forall|x: int| ints.to_set().contains(x) implies range.contains(x) by {
            let i = choose|i: int| 0 <= i < ints.len() && ints[i] == x;
            assert(nodes[i] < n);
        }
    }
    vstd::set_lib::lemma_len_subset(ints.to_set(), range);
}

/// The distance of a node is unique.
pub proof fn lemma_distance_unique(adj: Seq<Seq<usize>>, s: usize, v: usize, a: nat, b: nat)
    requires
        is_distance(adj, s, v, a),
        is_distance(adj, s, v, b),
    ensures
        a == b,
{
    if a < b {
        assert(!walk(adj, s, v, a));
    } else if b < a {
        assert(!walk(adj, s, v, b));
    }
}

/// A graph and a source have one breadth-first search result: whatever
/// strategy computes one, it is the same table.
pub proof fn shortest_distances_unique(
    adj: Seq<Seq<usize>>,
    s: usize,
    a: Seq<usize>,
    b: Seq<usize>,
)
    requires
        shortest_distances(adj, s, a),
        shortest_distances(adj, s, b),
        adj.len() <= usize::MAX,
    ensures
        a == b,
{
    assert forall|i: int| 0 <= i < a.len() implies a[i] == b[i] by {
        let v = i as usize;
        assert(a[v as int] == a[i]);
        assert(b[v as int] == b[i]);
        if a[i] != UNVISITED && b[i] != UNVISITED {
            lemma_distance_unique(adj, s, v, a[i] as nat, b[i] as nat);
        } else if a[i] != UNVISITED {
            assert(reachable(adj, s, v));
        } else if b[i] != UNVISITED {
            assert(reachable(adj, s, v));
        }
    }
}

/// The table after `level` levels: the nodes within `level` edges of `s` have
/// their distance, the others are unvisited.
pub open spec fn explored(
    adj: Seq<Seq<usize>>,
    s: usize,
    level: nat,
    table: Seq<usize>,
) -> bool {
    &&& table.len() == adj.len()
    &&& forall|v: usize|
        v < table.len() ==> if #[trigger] table[v as int] == UNVISITED {
            forall|k: nat| k <= level ==> !walk(adj, s, v, k)
        } else {
            table[v as int] <= level && is_distance(adj, s, v, table[v as int] as nat)
        }
}

/// An edge leads to `v` from a node that the table has at `level`.
pub open spec fn follows(adj: Seq<Seq<usize>>, level: nat, table: Seq<usize>, v: usize) -> bool {
    exists|u: usize| u < table.len() && table[u as int] == level && #[trigger] edge(adj, u, v)
}

/// One synchronous level: the unvisited nodes that follow the nodes at `level`
/// get the next level, every other entry stays.
pub open spec fn level_step(
    adj: Seq<Seq<usize>>,
    level: nat,
    before: Seq<usize>,
    after: Seq<usize>,
) -> bool {
    &&& after.len() == before.len()
    &&& forall|v: usize|
        v < before.len() ==> #[trigger] after[v as int] == (if before[v as int] == UNVISITED
            && follows(adj, level, before, v) {
            level + 1
        } else {
            before[v as int] as nat
        })
}

/// The table that a search from `s` starts with.
pub open spec fn start_table(n: nat, s: usize) -> Seq<usize> {
    Seq::new(
        n,
        |v: int|
            if v == s {
                0usize
            } else {
                UNVISITED
            },
    )
}

/// A search starts explored to level zero.
pub proof fn lemma_start_explored(adj: Seq<Seq<usize>>, s: usize)
    ensures
        explored(adj, s, 0, start_table(adj.len(), s)),
{
    let table = start_table(adj.len(), s);
    assert forall|v: usize| v < table.len() implies if #[trigger] table[v as int] == UNVISITED {
        forall|k: nat| k <= 0 ==> !walk(adj, s, v, k)
    } else {
        table[v as int] <= 0 && is_distance(adj, s, v, table[v as int] as nat)
    } by {
        if v == s {
            assert(walk(adj, s, v, 0));
        } else {
            assert(!walk(adj, s, v, 0));
        }
    }
}

/// One synchronous level explores one level further.
pub proof fn level_step_explores(
    adj: Seq<Seq<usize>>,
    s: usize,
    level: nat,
    before: Seq<usize>,
    after: Seq<usize>,
)
    requires
        closed_from(adj, s),
        explored(adj, s, level, before),
        level_step(adj, level, before, after),
        level + 1 < UNVISITED,
    ensures
        explored(adj, s, level + 1, after),
{
    assert forall|v: usize| v < after.len() implies if #[trigger] after[v as int] == UNVISITED {
        forall|k: nat| k <= level + 1 ==> !walk(adj, s, v, k)
    } else {
        after[v as int] <= level + 1 && is_distance(adj, s, v, after[v as int] as nat)
    } by {
        assert(before[v as int] == UNVISITED || before[v as int] != UNVISITED);
        if before[v as int] == UNVISITED {
            if follows(adj, level, before, v) {
                let u = choose|u: usize|
                    u < before.len() && before[u as int] == level && #[trigger] edge(adj, u, v);
                lemma_walk_step(adj, s, u, v, level);
            } else if walk(adj, s, v, level + 1) {
                let u = choose|u: usize|
                    walk(adj, s, u, ((level + 1) - 1) as nat) && #[trigger] edge(adj, u, v);
                assert(reachable(adj, s, u));
                assert(before[u as int] != UNVISITED);
                if before[u as int] < level {
                    lemma_walk_step(adj, s, u, v, before[u as int] as nat);
                }
            }
        }
    }
}

proof fn lemma_walk_visited(
    adj: Seq<Seq<usize>>,
    s: usize,
    level: nat,
    table: Seq<usize>,
    v: usize,
    k: nat,
)
    requires
        closed_from(adj, s),
        explored(adj, s, level, table),
        level_step(adj, level, table, table),
        level + 1 < UNVISITED,
        walk(adj, s, v, k),
    ensures
        v < table.len(),
        table[v as int] != UNVISITED,
    decreases k,
{
    assert(reachable(adj, s, v));
    if table[v as int] == UNVISITED {
        assert(!walk(adj, s, v, 0));
        let u = choose|u: usize| walk(adj, s, u, (k - 1) as nat) && #[trigger] edge(adj, u, v);
        lemma_walk_visited(adj, s, level, table, u, (k - 1) as nat);
        if table[u as int] < level {
            lemma_walk_step(adj, s, u, v, table[u as int] as nat);
        } else {
            assert(follows(adj, level, table, v));
        }
    }
}

/// A level that discovers nothing ends the search: the table then holds every distance.
pub proof fn quiet_level_finishes(
    adj: Seq<Seq<usize>>,
    s: usize,
    level: nat,
    table: Seq<usize>,
)
    requires
        closed_from(adj, s),
        explored(adj, s, level, table),
        level_step(adj, level, table, table),
        level + 1 < UNVISITED,
    ensures
        shortest_distances(adj, s, table),
{
    assert forall|v: usize| v < table.len() implies if #[trigger] table[v as int] == UNVISITED {
        !reachable(adj, s, v)
    } else {
        is_distance(adj, s, v, table[v as int] as nat)
    } by {
        if table[v as int] == UNVISITED && reachable(adj, s, v) {
            let k = choose|k: nat| walk(adj, s, v, k);
            lemma_walk_visited(adj, s, level, table, v, k);
        }
    }
}

/// The nodes along a shortest walk to `v`, one at each distance.
pub proof fn lemma_shortest_walk(adj: Seq<Seq<usize>>, s: usize, v: usize, d: nat) -> (nodes: Seq<usize>)
    requires
        is_distance(adj, s, v, d),
    ensures
        nodes.len() == d + 1,
        forall|i: int| 0 <= i < nodes.len() ==> is_distance(adj, s, #[trigger] nodes[i], i as nat),
    decreases d,
{
    if d == 0 {
        seq![v]
    } else {
        let u = choose|u: usize| walk(adj, s, u, (d - 1) as nat) && #[trigger] edge(adj, u, v);
        assert forall|j: nat| j < d - 1 implies !walk(adj, s, u, j) by {
            if walk(adj, s, u, j) {
                lemma_walk_step(adj, s, u, v, j);
                assert(!walk(adj, s, v, j + 1));
            }
        }
        let head = lemma_shortest_walk(adj, s, u, (d - 1) as nat);
        head.push(v)
    }
}

/// Every distance is smaller than the number of nodes.
pub proof fn distance_below_node_count(adj: Seq<Seq<usize>>, s: usize, v: usize, d: nat)
    requires
        closed_from(adj, s),
        is_distance(adj, s, v, d),
    ensures
        d < adj.len(),
{
    let nodes = lemma_shortest_walk(adj, s, v, d);
    assert forall|i: int, j: int| 0 <= i < nodes.len() && 0 <= j < nodes.len() && i != j implies nodes[i]
        != nodes[j] by {
        if nodes[i] == nodes[j] {
            lemma_distance_unique(adj, s, nodes[i], i as nat, j as nat);
        }
    }
    assert forall|i: int| 0 <= i < nodes.len() implies #[trigger] nodes[i] < adj.len() by {
        assert(reachable(adj, s, nodes[i]));
    }
    lemma_distinct_nodes_len(nodes, adj.len());
}

/// A search is over after as many levels as there are nodes: from there on no
/// node is at the current level.
pub proof fn no_level_past_node_count(
    adj: Seq<Seq<usize>>,
    s: usize,
    level: nat,
    table: Seq<usize>,
)
    requires
        closed_from(adj, s),
        explored(adj, s, level, table),
        level >= adj.len(),
        level != UNVISITED,
    ensures
        forall|v: usize| v < table.len() ==> #[trigger] table[v as int] != level,
{
    assert forall|v: usize| v < table.len() implies #[trigger] table[v as int] != level by {
        if table[v as int] == level {
            distance_below_node_count(adj, s, v, level);
        }
    }
}

/// What a table of distances is, step by step: the source is at zero, an edge leads at most one
/// step farther, and every other node that has a distance is reached by an edge from a node one
/// step nearer. A node that an edge leads to from one with a distance has a distance, and the
/// mark of the others is the largest number.
pub proof fn distances_are_stepwise(adj: Seq<Seq<usize>>, s: usize, dist: Seq<usize>)
    requires
        closed_from(adj, s),
        shortest_distances(adj, s, dist),
        s < adj.len(),
    ensures
        UNVISITED == usize::MAX,
        dist.len() == adj.len(),
        dist[s as int] == 0,
        forall|u: usize, v: usize|
            u < adj.len() && dist[u as int] != usize::MAX && #[trigger] adj[u as int].contains(v)
                ==> v < adj.len() && dist[v as int] != usize::MAX && dist[v as int]
                <= dist[u as int] + 1,
        forall|v: usize|
            v < adj.len() && v != s && #[trigger] dist[v as int] != usize::MAX ==> exists|u: usize|
                u < adj.len() && #[trigger] adj[u as int].contains(v) && dist[u as int] + 1
                    == dist[v as int],
{
    assert(walk(adj, s, s, 0));
    assert(reachable(adj, s, s));
    assert(is_distance(adj, s, s, 0));
    lemma_distance_unique(adj, s, s, 0, dist[s as int] as nat);
    assert forall|u: usize, v: usize|
        u < adj.len() && dist[u as int] != usize::MAX && #[trigger] adj[u as int].contains(
            v,
        ) implies v < adj.len() && dist[v as int] != usize::MAX && dist[v as int] <= dist[u as int]
        + 1 by {
        let d = dist[u as int] as nat;
        assert(is_distance(adj, s, u, d));
        assert(edge(adj, u, v));
        lemma_walk_step(adj, s, u, v, d);
        assert(reachable(adj, s, v));
        assert(dist[v as int] != UNVISITED);
        if dist[v as int] > d + 1 {
            assert(!walk(adj, s, v, d + 1));
        }
    }
    assert forall|v: usize|
        v < adj.len() && v != s && #[trigger] dist[v as int] != usize::MAX implies exists|u: usize|
        u < adj.len() && #[trigger] adj[u as int].contains(v) && dist[u as int] + 1
            == dist[v as int] by {
        let d = dist[v as int] as nat;
        assert(is_distance(adj, s, v, d));
        assert(d > 0);
        let u = choose|u: usize| walk(adj, s, u, (d - 1) as nat) && #[trigger] edge(adj, u, v);
        assert forall|j: nat| j < d - 1 implies !walk(adj, s, u, j) by {
            if walk(adj, s, u, j) {
                lemma_walk_step(adj, s, u, v, j);
                assert(!walk(adj, s, v, j + 1));
            }
        }
        assert(reachable(adj, s, u));
        assert(dist[u as int] != UNVISITED);
        lemma_distance_unique(adj, s, u, (d - 1) as nat, dist[u as int] as nat);
        assert(adj[u as int].contains(v));
    }
}

} // verus!

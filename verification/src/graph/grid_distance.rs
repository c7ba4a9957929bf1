//! Distances in a grid: as many steps as rows and columns lie between two cells.

use vstd::prelude::*;

use super::grid::{cell, grid_edges, grid_rows, lemma_cell, lemma_place, side_by_side};
use crate::model::{
    edge, is_distance, is_eccentricity, lemma_distance_unique, lemma_walk_step, reachable,
    shortest_distances, walk, UNVISITED,
};

verus! {

/// How far two numbers are apart.
pub open spec fn apart(a: int, b: int) -> int {
    if a <= b {
        b - a
    } else {
        a - b
    }
}

/// The rows and the columns between two cells, added up.
pub open spec fn steps_between(cols: int, u: int, v: int) -> int {
    apart(u / cols, v / cols) + apart(u % cols, v % cols)
}

/// The larger of two numbers.
pub open spec fn larger(a: int, b: int) -> int {
    if a <= b {
        b
    } else {
        a
    }
}

/// The steps from a cell to the corner that is farthest away.
pub open spec fn grid_reach(rows: int, cols: int, u: int) -> int {
    larger(u / cols, rows - 1 - u / cols) + larger(u % cols, cols - 1 - u % cols)
}

/// A walk takes at least the steps between its ends, and stays in the grid.
proof fn lemma_walk_takes(rows: int, cols: int, s: usize, v: usize, k: nat)
    requires
        0 <= rows,
        0 <= cols,
        rows * cols <= usize::MAX,
        s < rows * cols,
        walk(grid_rows(rows, cols), s, v, k),
    ensures
        v < rows * cols,
        steps_between(cols, s as int, v as int) <= k,
    decreases k,
{
    let adj = grid_rows(rows, cols);
    lemma_place(rows, cols, s as int);
    if k > 0 {
        let u = choose|u: usize| walk(adj, s, u, (k - 1) as nat) && #[trigger] edge(adj, u, v);
        lemma_walk_takes(rows, cols, s, u, (k - 1) as nat);
        grid_edges(rows, cols, u, v);
    }
}

/// A walk of as many steps as lie between two cells leads from one to the other.
proof fn lemma_walk_of_steps(rows: int, cols: int, s: usize, v: usize)
    requires
        0 <= rows,
        0 <= cols,
        rows * cols <= usize::MAX,
        s < rows * cols,
        v < rows * cols,
    ensures
        steps_between(cols, s as int, v as int) >= 0,
        walk(
            grid_rows(rows, cols),
            s,
            v,
            steps_between(cols, s as int, v as int) as nat,
        ),
    decreases steps_between(cols, s as int, v as int),
{
    let adj = grid_rows(rows, cols);
    lemma_place(rows, cols, s as int);
    lemma_place(rows, cols, v as int);
    let d = steps_between(cols, s as int, v as int);
    let r = v as int / cols;
    let c = v as int % cols;
    let to_r = s as int / cols;
    let to_c = s as int % cols;
    if d == 0 {
        assert(r == to_r && c == to_c);
        assert(s == v);
    } else {
        let (r2, c2) = if to_r < r {
            (r - 1, c)
        } else if r < to_r {
            (r + 1, c)
        } else if to_c < c {
            (r, c - 1)
        } else {
            (r, c + 1)
        };
        lemma_cell(rows, cols, r2, c2);
        let u = cell(cols, r2, c2) as usize;
        lemma_walk_of_steps(rows, cols, s, u);
        assert(side_by_side(r2, c2, r, c));
        grid_edges(rows, cols, u, v);
        lemma_walk_step(adj, s, u, v, (d - 1) as nat);
    }
}

/// The distance of two cells are the rows and the columns between them.
pub proof fn grid_distance(rows: int, cols: int, s: usize, v: usize)
    requires
        0 <= rows,
        0 <= cols,
        rows * cols <= usize::MAX,
        s < rows * cols,
        v < rows * cols,
    ensures
        steps_between(cols, s as int, v as int) >= 0,
        is_distance(
            grid_rows(rows, cols),
            s,
            v,
            steps_between(cols, s as int, v as int) as nat,
        ),
{
    lemma_walk_of_steps(rows, cols, s, v);
    let d = steps_between(cols, s as int, v as int) as nat;
    assert forall|j: nat| j < d implies !walk(grid_rows(rows, cols), s, v, j) by {
        if walk(grid_rows(rows, cols), s, v, j) {
            lemma_walk_takes(rows, cols, s, v, j);
        }
    }
}

/// The largest distance from a cell is that of a corner.
pub proof fn grid_eccentricity(rows: int, cols: int, s: usize)
    requires
        0 <= rows,
        0 <= cols,
        rows * cols <= usize::MAX,
        s < rows * cols,
    ensures
        grid_reach(rows, cols, s as int) >= 0,
        is_eccentricity(grid_rows(rows, cols), s, grid_reach(rows, cols, s as int) as nat),
{
    let adj = grid_rows(rows, cols);
    lemma_place(rows, cols, s as int);
    let r = s as int / cols;
    let c = s as int % cols;
    let e = grid_reach(rows, cols, s as int) as nat;
    let far_r = if r <= rows - 1 - r {
        rows - 1
    } else {
        0
    };
    let far_c = if c <= cols - 1 - c {
        cols - 1
    } else {
        0
    };
    lemma_cell(rows, cols, far_r, far_c);
    let corner = cell(cols, far_r, far_c) as usize;
    grid_distance(rows, cols, s, corner);
    assert(is_distance(adj, s, corner, e));
    assert forall|v: usize, d: nat| #[trigger] is_distance(adj, s, v, d) implies d <= e by {
        lemma_walk_takes(rows, cols, s, v, d);
        grid_distance(rows, cols, s, v);
        lemma_distance_unique(
            adj,
            s,
            v,
            d,
            steps_between(cols, s as int, v as int) as nat,
        );
        lemma_place(rows, cols, v as int);
    }
}

/// A search over a grid finds, for every cell, the rows and the columns between it and the
/// source.
pub proof fn grid_search_result(rows: int, cols: int, s: usize, dist: Seq<usize>, v: usize)
    requires
        0 <= rows,
        0 <= cols,
        rows * cols <= usize::MAX,
        s < rows * cols,
        v < rows * cols,
        shortest_distances(grid_rows(rows, cols), s, dist),
    ensures
        dist[v as int] == steps_between(cols, s as int, v as int),
{
    let adj = grid_rows(rows, cols);
    grid_distance(rows, cols, s, v);
    let d = steps_between(cols, s as int, v as int) as nat;
    assert(reachable(adj, s, v));
    assert(dist[v as int] != UNVISITED);
    lemma_distance_unique(adj, s, v, dist[v as int] as nat, d);
}

/// In a grid, two searches find the same distance from each one's source to the other's.
pub proof fn grid_search_is_symmetric(
    rows: int,
    cols: int,
    s: usize,
    from_s: Seq<usize>,
    v: usize,
    from_v: Seq<usize>,
)
    requires
        0 <= rows,
        0 <= cols,
        rows * cols <= usize::MAX,
        s < rows * cols,
        v < rows * cols,
        shortest_distances(grid_rows(rows, cols), s, from_s),
        shortest_distances(grid_rows(rows, cols), v, from_v),
    ensures
        from_s[v as int] == from_v[s as int],
{
    grid_search_result(rows, cols, s, from_s, v);
    grid_search_result(rows, cols, v, from_v, s);
}

} // verus!

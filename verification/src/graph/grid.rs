//! Grids: every cell is a node, with edges to the cells above, below, left and
//! right of it.

use vstd::arithmetic::div_mod::{lemma_fundamental_div_mod, lemma_fundamental_div_mod_converse};
use vstd::prelude::*;

use crate::frontier::joined;
use crate::model::edge;

verus! {

/// The node of a cell.
pub open spec fn cell(cols: int, r: int, c: int) -> int {
    r * cols + c
}

/// A list of one node if there is one.
pub open spec fn node_if(there: bool, node: int) -> Seq<usize> {
    if there {
        seq![node as usize]
    } else {
        Seq::empty()
    }
}

/// The neighbors of a cell: above, below, left, right.
pub open spec fn cell_neighbors(rows: int, cols: int, r: int, c: int) -> Seq<usize> {
    node_if(r > 0, cell(cols, r - 1, c)) + node_if(r < rows - 1, cell(cols, r + 1, c)) + node_if(
        c > 0,
        cell(cols, r, c - 1),
    ) + node_if(c < cols - 1, cell(cols, r, c + 1))
}

/// The neighbor lists of a grid, row by row.
pub open spec fn grid_rows(rows: int, cols: int) -> Seq<Seq<usize>> {
    Seq::new(
        (rows * cols) as nat,
        |u: int| cell_neighbors(rows, cols, u / cols, u % cols),
    )
}

/// Two cells share a side.
pub open spec fn side_by_side(r1: int, c1: int, r2: int, c2: int) -> bool {
    ||| c1 == c2 && (r1 == r2 + 1 || r2 == r1 + 1)
    ||| r1 == r2 && (c1 == c2 + 1 || c2 == c1 + 1)
}

/// A cell inside the grid has a node, from which its row and column can be had back.
pub proof fn lemma_cell(rows: int, cols: int, r: int, c: int)
    requires
        0 <= r < rows,
        0 <= c < cols,
    ensures
        0 <= cell(cols, r, c) < rows * cols,
        cell(cols, r, c) / cols == r,
        cell(cols, r, c) % cols == c,
{
    assert(0 <= r * cols) by (nonlinear_arith)
        requires
            0 <= r,
            0 <= cols,
    ;
    assert(r * cols + cols <= rows * cols) by (nonlinear_arith)
        requires
            r + 1 <= rows,
            0 <= cols,
    ;
    lemma_fundamental_div_mod_converse(cell(cols, r, c), cols, r, c);
}

/// The row and the column of a node lie inside the grid.
pub proof fn lemma_place(rows: int, cols: int, u: int)
    requires
        0 <= u < rows * cols,
        0 <= rows,
        0 <= cols,
    ensures
        cols > 0,
        0 <= u / cols < rows,
        0 <= u % cols < cols,
        u == cell(cols, u / cols, u % cols),
{
    assert(cols > 0) by (nonlinear_arith)
        requires
            0 < rows * cols,
            0 <= cols,
    ;
    lemma_fundamental_div_mod(u, cols);
    vstd::arithmetic::mul::lemma_mul_is_commutative(u / cols, cols);
    if u / cols >= rows {
        assert((u / cols) * cols >= rows * cols) by (nonlinear_arith)
            requires
                u / cols >= rows,
                cols > 0,
        ;
    }
    assert(u / cols >= 0) by (nonlinear_arith)
        requires
            u >= 0,
            cols > 0,
    ;
}

/// The edges of a grid lead between cells that share a side, and between all of them.
pub proof fn grid_edges(rows: int, cols: int, u: usize, v: usize)
    requires
        0 <= rows,
        0 <= cols,
        rows * cols <= usize::MAX,
        u < rows * cols,
    ensures
        edge(grid_rows(rows, cols), u, v) <==> v < rows * cols && side_by_side(
            u as int / cols,
            u as int % cols,
            v as int / cols,
            v as int % cols,
        ),
{
    lemma_place(rows, cols, u as int);
    let r = u as int / cols;
    let c = u as int % cols;
    let up = node_if(r > 0, cell(cols, r - 1, c));
    let down = node_if(r < rows - 1, cell(cols, r + 1, c));
    let left = node_if(c > 0, cell(cols, r, c - 1));
    let right = node_if(c < cols - 1, cell(cols, r, c + 1));
    let all = up + down + left + right;
    assert(grid_rows(rows, cols)[u as int] == all);
    if r > 0 {
        lemma_cell(rows, cols, r - 1, c);
        assert(all[0] == up[0]);
    }
    if r < rows - 1 {
        lemma_cell(rows, cols, r + 1, c);
        assert(all[up.len() as int] == down[0]);
    }
    if c > 0 {
        lemma_cell(rows, cols, r, c - 1);
        assert(all[(up + down).len() as int] == left[0]);
    }
    if c < cols - 1 {
        lemma_cell(rows, cols, r, c + 1);
        assert(all[(up + down + left).len() as int] == right[0]);
    }
    if all.contains(v) {
        let i = choose|i: int| 0 <= i < all.len() && all[i] == v;
        if i < up.len() {
            assert(up[i] == v);
        } else if i < (up + down).len() {
            assert(down[i - up.len()] == v);
        } else if i < (up + down + left).len() {
            assert(left[i - (up + down).len()] == v);
        } else {
            assert(right[i - (up + down + left).len()] == v);
        }
    }
    if v < rows * cols {
        lemma_place(rows, cols, v as int);
    }
}

/// A grid has every edge in both directions.
pub proof fn grid_is_symmetric(rows: int, cols: int, u: usize, v: usize)
    requires
        0 <= rows,
        0 <= cols,
        rows * cols <= usize::MAX,
        u < rows * cols,
        v < rows * cols,
    ensures
        edge(grid_rows(rows, cols), u, v) <==> edge(grid_rows(rows, cols), v, u),
{
    grid_edges(rows, cols, u, v);
    grid_edges(rows, cols, v, u);
}

/// One where something holds.
spec fn one_if(holds: bool) -> int {
    if holds {
        1
    } else {
        0
    }
}

/// How many neighbors the cells of the first `r` rows have together.
spec fn above_total(rows: int, cols: int, r: int) -> int {
    (r - one_if(r > 0)) * cols + (r - one_if(r == rows)) * cols + 2 * r * (cols - 1)
}

/// How many neighbors the first `c` cells of row `r` have together.
spec fn left_total(rows: int, cols: int, r: int, c: int) -> int {
    c * one_if(r > 0) + c * one_if(r < rows - 1) + (c - one_if(c > 0)) + (c - one_if(c == cols))
}

/// How many neighbors the cells before a cell have together.
proof fn lemma_neighbors_before(rows: int, cols: int, r: int, c: int)
    requires
        0 <= r < rows,
        0 <= c <= cols,
        0 < cols,
    ensures
        0 <= r * cols + c <= rows * cols,
        joined(grid_rows(rows, cols).take(r * cols + c)).len() == above_total(rows, cols, r)
            + left_total(rows, cols, r, c),
    decreases r, c,
{
    let all = grid_rows(rows, cols);
    let u = r * cols + c;
    assert(0 <= r * cols) by (nonlinear_arith)
        requires
            0 <= r,
            0 < cols,
    ;
    assert(r * cols + cols <= rows * cols) by (nonlinear_arith)
        requires
            r + 1 <= rows,
            0 < cols,
    ;
    if c > 0 {
        lemma_neighbors_before(rows, cols, r, c - 1);
        lemma_cell(rows, cols, r, c - 1);
        assert(all.take(u).drop_last() =~= all.take(u - 1));
        assert(all.take(u).last() == cell_neighbors(rows, cols, r, c - 1));
        assert(c * one_if(r > 0) == (c - 1) * one_if(r > 0) + one_if(r > 0)) by (nonlinear_arith);
        assert(c * one_if(r < rows - 1) == (c - 1) * one_if(r < rows - 1) + one_if(r < rows - 1))
            by (nonlinear_arith);
    } else if r > 0 {
        lemma_neighbors_before(rows, cols, r - 1, cols);
        assert((r - 1) * cols + cols == r * cols) by (nonlinear_arith);
        let a = one_if(r - 1 > 0);
        assert((r - 1) * cols == (r - 1 - a) * cols + cols * a) by (nonlinear_arith);
        assert(2 * r * (cols - 1) == 2 * (r - 1) * (cols - 1) + 2 * (cols - 1))
            by (nonlinear_arith);
        assert(cols * 1 == cols);
        assert(0 * one_if(r > 0) == 0);
        assert(0 * one_if(r < rows - 1) == 0);
    } else {
        assert(all.take(0) =~= Seq::<Seq<usize>>::empty());
        assert((0 - 0) * cols == 0);
        assert(2 * 0 * (cols - 1) == 0) by (nonlinear_arith);
        assert(0 * one_if(r > 0) == 0);
        assert(0 * one_if(r < rows - 1) == 0);
    }
}

/// The neighbor lists of a grid have two entries for every side that two cells share: rows
/// times one fewer than columns, and columns times one fewer than rows.
pub proof fn grid_edge_total(rows: int, cols: int)
    requires
        rows >= 1,
        cols >= 1,
    ensures
        joined(grid_rows(rows, cols)).len() == 2 * (rows * (cols - 1) + cols * (rows - 1)),
        joined(grid_rows(cols, rows)).len() == joined(grid_rows(rows, cols)).len(),
{
    lemma_grid_edge_total(rows, cols);
    lemma_grid_edge_total(cols, rows);
}

/// The total for one way of laying the grid.
proof fn lemma_grid_edge_total(rows: int, cols: int)
    requires
        rows >= 1,
        cols >= 1,
    ensures
        joined(grid_rows(rows, cols)).len() == 2 * (rows * (cols - 1) + cols * (rows - 1)),
{
    let all = grid_rows(rows, cols);
    let r = rows - 1;
    lemma_neighbors_before(rows, cols, r, cols);
    assert(r * cols + cols == rows * cols) by (nonlinear_arith)
        requires
            r == rows - 1,
    ;
    assert(all.take(all.len() as int) =~= all);
    let a = one_if(r > 0);
    assert((r - a) * cols + cols * a == r * cols) by (nonlinear_arith);
    assert(r * cols == cols * (rows - 1)) by (nonlinear_arith)
        requires
            r == rows - 1,
    ;
    assert(2 * r * (cols - 1) + 2 * (cols - 1) == 2 * (rows * (cols - 1))) by (nonlinear_arith)
        requires
            r == rows - 1,
    ;
    assert(cols * 0 == 0);
}

/// Appends the neighbors of a cell.
pub fn push_neighbors(list: &mut Vec<usize>, rows: usize, cols: usize, r: usize, c: usize)
    requires
        r < rows,
        c < cols,
        rows * cols <= usize::MAX,
    ensures
        final(list)@ == old(list)@ + cell_neighbors(rows as int, cols as int, r as int, c as int),
{
    let ghost before = list@;
    let ghost up = node_if(r > 0, cell(cols as int, r - 1, c as int));
    let ghost down = node_if(r < rows - 1, cell(cols as int, r + 1, c as int));
    let ghost left = node_if(c > 0, cell(cols as int, r as int, c - 1));
    let ghost right = node_if(c < cols - 1, cell(cols as int, r as int, c + 1));
    proof {
        lemma_cell(rows as int, cols as int, r as int, c as int);
        assert(r * cols >= 0) by (nonlinear_arith);
        if r > 0 {
            lemma_cell(rows as int, cols as int, r - 1, c as int);
            assert((r - 1) * cols >= 0) by (nonlinear_arith)
                requires
                    r > 0,
            ;
        }
        if r < rows - 1 {
            lemma_cell(rows as int, cols as int, r + 1, c as int);
            assert((r + 1) * cols >= 0) by (nonlinear_arith);
        }
        if c < cols - 1 {
            lemma_cell(rows as int, cols as int, r as int, c + 1);
        }
    }
    if r > 0 {
        list.push((r - 1) * cols + c);
    }
    assert(list@ =~= before + up);
    if r < rows - 1 {
        list.push((r + 1) * cols + c);
    }
    assert(list@ =~= before + (up + down));
    if c > 0 {
        list.push(r * cols + c - 1);
    }
    assert(list@ =~= before + (up + down + left));
    if c < cols - 1 {
        list.push(r * cols + c + 1);
    }
    assert(list@ =~= before + (up + down + left + right));
}

/// A list of one node where the condition holds.
pub open spec fn only_if(holds: bool, node: int) -> Seq<int> {
    if holds {
        seq![node]
    } else {
        Seq::empty()
    }
}

/// The neighbors of a cell in order: the one a row above, unless it is in the first row; the one
/// a row below, unless it is in the last row; the one before it, unless it is the first of its
/// row; and the one behind it, unless it is the last of its row.
pub proof fn grid_lists_are(rows: int, cols: int, u: int)
    requires
        0 <= rows,
        0 <= cols,
        rows * cols <= usize::MAX,
        0 <= u < rows * cols,
    ensures
        grid_rows(rows, cols).len() == rows * cols,
        grid_rows(rows, cols)[u].map_values(|v: usize| v as int) == only_if(u >= cols, u - cols)
            + only_if(u + cols < rows * cols, u + cols) + only_if(u % cols != 0, u - 1) + only_if(
            (u + 1) % cols != 0,
            u + 1,
        ),
{
    lemma_place(rows, cols, u);
    let r = u / cols;
    let c = u % cols;
    assert((r - 1) * cols == r * cols - cols && (r + 1) * cols == r * cols + cols)
        by (nonlinear_arith);
    assert(r > 0 <==> u >= cols) by {
        if r > 0 {
            assert(r * cols >= cols) by (nonlinear_arith)
                requires
                    r >= 1,
                    cols > 0,
            ;
        } else {
            assert(r * cols == 0) by (nonlinear_arith)
                requires
                    r == 0,
            ;
        }
    }
    assert(r < rows - 1 <==> u + cols < rows * cols) by {
        if r < rows - 1 {
            lemma_cell(rows, cols, r + 1, c);
        } else {
            assert((r + 1) * cols >= rows * cols) by (nonlinear_arith)
                requires
                    r + 1 >= rows,
                    cols > 0,
            ;
        }
    }
    if r > 0 {
        lemma_cell(rows, cols, r - 1, c);
    }
    if c > 0 {
        lemma_cell(rows, cols, r, c - 1);
    }
    if c < cols - 1 {
        lemma_cell(rows, cols, r, c + 1);
        assert((u + 1) % cols == c + 1);
    } else {
        lemma_fundamental_div_mod_converse(u + 1, cols, r + 1, 0);
    }
    let list = grid_rows(rows, cols)[u];
    assert(list == cell_neighbors(rows, cols, r, c));
    assert(list.map_values(|v: usize| v as int) =~= only_if(u >= cols, u - cols) + only_if(
        u + cols < rows * cols,
        u + cols,
    ) + only_if(u % cols != 0, u - 1) + only_if((u + 1) % cols != 0, u + 1));
}

} // verus!

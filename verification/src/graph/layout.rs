//! How neighbor lists lie in one array when they fill it, and how the arrays of
//! the parts of a graph make up that of the whole.

use vstd::prelude::*;

use super::adjacency::el_rows;
use super::csr::{
    at_most, el_rows_in, lemma_offsets_ordered, offsets_within, part_has_own_rows, sg_error,
    sg_error_in, Graph,
};
use super::serialized::{destinations, edge_count, node_count, offsets_in};
use crate::frontier::joined;

verus! {

/// The lists of all but the last of the first nodes, and then that of the last one.
proof fn lemma_joined_take(rows: Seq<Seq<usize>>, u: int)
    requires
        0 <= u < rows.len(),
    ensures
        joined(rows.take(u + 1)) == joined(rows.take(u)) + rows[u],
{
    assert(rows.take(u + 1).drop_last() =~= rows.take(u));
}

/// The first neighbor lists make up the edge array as far as it goes.
proof fn lemma_laid_out(graph: &Graph, u: int)
    requires
        graph.compact(),
        forall|x: int| 0 <= x < graph.node_total() ==> #[trigger] graph.row_in_bounds(x),
        0 <= u <= graph@.len(),
    ensures
        graph.offsets@[u] <= graph.edges@.len(),
        graph.edges@.take(graph.offsets@[u] as int) == joined(graph@.take(u)),
    decreases u,
{
    if u == 0 {
        assert(graph.edges@.take(0) =~= joined(graph@.take(0)));
    } else {
        lemma_laid_out(graph, u - 1);
        lemma_joined_take(graph@, u - 1);
        assert(graph.row_in_bounds(u - 1));
        assert(graph.edges@.take(graph.offsets@[u] as int) =~= graph.edges@.take(
            graph.offsets@[u - 1] as int,
        ) + graph@[u - 1]);
    }
}

/// A compact graph is its neighbor lists, one after the other: the edge array is all of them,
/// and each offset counts the neighbors of the nodes before it.
pub proof fn compact_is_laid_out(graph: &Graph)
    requires
        graph.compact(),
        forall|x: int| 0 <= x < graph.node_total() ==> #[trigger] graph.row_in_bounds(x),
    ensures
        graph.edges@ == joined(graph@),
        forall|u: int|
            0 <= u <= graph@.len() ==> #[trigger] graph.offsets@[u] == joined(graph@.take(u)).len(),
{
    assert forall|u: int| 0 <= u <= graph@.len() implies #[trigger] graph.offsets@[u] == joined(
        graph@.take(u),
    ).len() by {
        lemma_laid_out(graph, u);
    }
    lemma_laid_out(graph, graph@.len() as int);
    assert(graph@.take(graph@.len() as int) =~= graph@);
    assert(graph.edges@.take(graph.edges@.len() as int) =~= graph.edges@);
}

/// Compact graphs with the same neighbor lists have the same arrays.
pub proof fn compact_is_unique(a: &Graph, b: &Graph)
    requires
        a.compact(),
        b.compact(),
        a@ == b@,
        forall|x: int| 0 <= x < a.node_total() ==> #[trigger] a.row_in_bounds(x),
        forall|x: int| 0 <= x < b.node_total() ==> #[trigger] b.row_in_bounds(x),
    ensures
        a.offsets@ == b.offsets@,
        a.edges@ == b.edges@,
{
    compact_is_laid_out(a);
    compact_is_laid_out(b);
    assert(a@.len() == b@.len());
    assert forall|u: int| 0 <= u <= a@.len() implies a.offsets@[u] == b.offsets@[u] by {
        assert(a.offsets@[u] == joined(a@.take(u)).len());
        assert(b.offsets@[u] == joined(b@.take(u)).len());
    }
    assert(a.offsets@ =~= b.offsets@);
}

/// `part` has the lists of `whole` for a range of nodes, and empty lists for the others.
pub open spec fn lists_within(
    whole: Seq<Seq<usize>>,
    start: int,
    end: int,
    part: Seq<Seq<usize>>,
) -> bool {
    &&& part.len() == whole.len()
    &&& forall|u: int|
        0 <= u < part.len() ==> #[trigger] part[u] == (if start <= u < end {
            whole[u]
        } else {
            Seq::empty()
        })
}

/// The lists of the first nodes and those of the others make up all of them.
proof fn lemma_lists_join(
    whole: Seq<Seq<usize>>,
    k: int,
    first: Seq<Seq<usize>>,
    second: Seq<Seq<usize>>,
    u: int,
)
    requires
        lists_within(whole, 0, k, first),
        lists_within(whole, k, whole.len() as int, second),
        0 <= u <= whole.len(),
    ensures
        joined(first.take(u)) + joined(second.take(u)) == joined(whole.take(u)),
        u <= k ==> joined(second.take(u)).len() == 0,
    decreases u,
{
    if u == 0 {
        assert(joined(first.take(0)) + joined(second.take(0)) =~= joined(whole.take(0)));
    } else {
        lemma_lists_join(whole, k, first, second, u - 1);
        lemma_joined_take(whole, u - 1);
        lemma_joined_take(first, u - 1);
        lemma_joined_take(second, u - 1);
        assert(first[u - 1] == (if u - 1 < k {
            whole[u - 1]
        } else {
            Seq::empty()
        }));
        assert(second[u - 1] == (if k <= u - 1 {
            whole[u - 1]
        } else {
            Seq::empty()
        }));
        assert(joined(first.take(u)) + joined(second.take(u)) =~= joined(first.take(u - 1))
            + joined(second.take(u - 1)) + whole[u - 1]);
    }
}

/// Where a graph is cut in two at a node, the edge arrays of the parts make up that of the
/// whole, and each node has its neighbors in one part and none in the other.
pub proof fn parts_join(whole: &Graph, k: int, first: &Graph, second: &Graph)
    requires
        whole.compact(),
        first.compact(),
        second.compact(),
        forall|x: int| 0 <= x < whole.node_total() ==> #[trigger] whole.row_in_bounds(x),
        forall|x: int| 0 <= x < first.node_total() ==> #[trigger] first.row_in_bounds(x),
        forall|x: int| 0 <= x < second.node_total() ==> #[trigger] second.row_in_bounds(x),
        lists_within(whole@, 0, k, first@),
        lists_within(whole@, k, whole@.len() as int, second@),
    ensures
        first.edges@ + second.edges@ == whole.edges@,
        forall|u: int|
            0 <= u < whole@.len() ==> first@[u].len() + second@[u].len()
                == (#[trigger] whole@[u]).len() && (u < k ==> second@[u].len() == 0) && (k <= u
                ==> first@[u].len() == 0),
{
    compact_is_laid_out(whole);
    compact_is_laid_out(first);
    compact_is_laid_out(second);
    let n = whole@.len() as int;
    lemma_lists_join(whole@, k, first@, second@, n);
    assert(whole@.take(n) =~= whole@);
    assert(first@.take(n) =~= first@);
    assert(second@.take(n) =~= second@);
    assert forall|u: int| 0 <= u < whole@.len() implies first@[u].len() + second@[u].len()
        == (#[trigger] whole@[u]).len() && (u < k ==> second@[u].len() == 0) && (k <= u
        ==> first@[u].len() == 0) by {
        assert(first@[u].len() == (if u < k {
            whole@[u].len()
        } else {
            0
        }));
        assert(second@[u].len() == (if k <= u {
            whole@[u].len()
        } else {
            0
        }));
    }
}

/// The part of an edge list that is loaded for a range of nodes has the lists of the whole for
/// the nodes of the range, and empty lists for the others.
pub proof fn el_part_has_own_rows(
    data: Seq<u8>,
    start: usize,
    end: usize,
    whole: &Graph,
    part: &Graph,
)
    requires
        whole@ == el_rows(data),
        part@ == el_rows_in(data, start, end),
    ensures
        lists_within(whole@, start as int, end as int, part@),
{
}

/// The parts of an edge list before and from node `k` on make up the whole.
pub proof fn el_parts_join(
    data: Seq<u8>,
    k: usize,
    end: usize,
    whole: &Graph,
    first: &Graph,
    second: &Graph,
)
    requires
        whole@ == el_rows(data),
        first@ == el_rows_in(data, 0, k),
        second@ == el_rows_in(data, k, end),
        end >= whole@.len(),
        whole.well_formed() && whole.compact(),
        first.well_formed() && first.compact(),
        second.well_formed() && second.compact(),
    ensures
        first.edges@ + second.edges@ == whole.edges@,
        forall|u: int|
            0 <= u < whole@.len() ==> first@[u].len() + second@[u].len()
                == (#[trigger] whole@[u]).len() && (u < k ==> second@[u].len() == 0) && (k <= u
                ==> first@[u].len() == 0),
{
    assert(lists_within(whole@, 0, k as int, first@));
    assert(lists_within(whole@, k as int, whole@.len() as int, second@));
    parts_join(whole, k as int, first, second);
}

/// The part of an edge list that has all nodes is the whole, array by array.
pub proof fn el_part_of_all_is_whole(data: Seq<u8>, end: usize, whole: &Graph, part: &Graph)
    requires
        whole@ == el_rows(data),
        part@ == el_rows_in(data, 0, end),
        end >= whole@.len(),
        whole.well_formed() && whole.compact(),
        part.well_formed() && part.compact(),
    ensures
        part.offsets@ == whole.offsets@,
        part.edges@ == whole.edges@,
{
    assert(part@ =~= whole@);
    compact_is_unique(part, whole);
}

/// Where the whole of a binary file can be loaded and its lists lie inside its edge array, every
/// part of it can be loaded too.
pub proof fn sg_parts_load(data: Seq<u8>, start: usize, end: usize, whole: &Graph)
    requires
        data.len() <= usize::MAX,
        sg_error(data) is None,
        whole.offsets@ == offsets_in(data),
        whole.edges@ == destinations(data, 0, edge_count(data) as int),
        whole.offsets@.last() <= whole.edges@.len(),
        forall|x: int| 0 <= x < whole.node_total() ==> #[trigger] whole.row_in_bounds(x),
        start <= end,
    ensures
        sg_error_in(data, start, end) is None,
{
    let offsets = offsets_in(data);
    let n = node_count(data) as int;
    let from = at_most(start, n);
    let to = at_most(end, n);
    assert(whole.node_total() == n);
    lemma_offsets_ordered(whole, from, to);
    lemma_offsets_ordered(whole, to, n);
    assert forall|u: int| from <= u <= to implies #[trigger] offsets[u] >= offsets[from] by {
        lemma_offsets_ordered(whole, from, u);
    }
}

/// The parts of a binary file before and from node `k` on make up the whole, where the lists
/// of the whole fill its edge array.
pub proof fn sg_parts_join(
    data: Seq<u8>,
    k: usize,
    end: usize,
    whole: &Graph,
    first: &Graph,
    second: &Graph,
)
    requires
        sg_error(data) is None,
        whole.offsets@ == offsets_in(data),
        whole.edges@ == destinations(data, 0, edge_count(data) as int),
        whole.compact(),
        forall|x: int| 0 <= x < whole.node_total() ==> #[trigger] whole.row_in_bounds(x),
        k <= end,
        end >= whole@.len(),
        sg_error_in(data, 0, k) is None,
        first.offsets@ == offsets_within(data, 0, k),
        first.edges@ == destinations(
            data,
            offsets_in(data)[0] as int,
            offsets_in(data)[at_most(k, node_count(data) as int)] as int,
        ),
        sg_error_in(data, k, end) is None,
        second.offsets@ == offsets_within(data, k, end),
        second.edges@ == destinations(
            data,
            offsets_in(data)[at_most(k, node_count(data) as int)] as int,
            offsets_in(data)[at_most(end, node_count(data) as int)] as int,
        ),
    ensures
        first.edges@ + second.edges@ == whole.edges@,
        forall|u: int|
            0 <= u < whole@.len() ==> first@[u].len() + second@[u].len()
                == (#[trigger] whole@[u]).len() && (u < k ==> second@[u].len() == 0) && (k <= u
                ==> first@[u].len() == 0),
{
    let n = whole@.len() as int;
    let cut = at_most(k, n);
    lemma_offsets_ordered(whole, 0, cut);
    lemma_offsets_ordered(whole, cut, n);
    assert forall|u: int| 0 <= u < n implies #[trigger] first.row_in_bounds(u) && first@[u] == (
    if u < k {
        whole@[u]
    } else {
        Seq::empty()
    }) by {
        part_has_own_rows(data, 0, k, whole, first, u);
    }
    assert forall|u: int| 0 <= u < n implies #[trigger] second.row_in_bounds(u) && second@[u] == (
    if k <= u {
        whole@[u]
    } else {
        Seq::empty()
    }) by {
        part_has_own_rows(data, k, end, whole, second, u);
    }
    assert forall|u: int| 0 <= u < n implies #[trigger] first@[u] == (if u < k {
        whole@[u]
    } else {
        Seq::empty()
    }) by {
        assert(first.row_in_bounds(u));
    }
    assert forall|u: int| 0 <= u < n implies #[trigger] second@[u] == (if k <= u {
        whole@[u]
    } else {
        Seq::empty()
    }) by {
        assert(second.row_in_bounds(u));
    }
    parts_join(whole, k as int, first, second);
}

} // verus!

//! What a pool of threads does with a table and a frontier: it wipes the one, and
//! collects the neighbors of the other.

use rayon::iter::{IntoParallelRefIterator, IntoParallelRefMutIterator, ParallelIterator};
use vstd::prelude::*;

use crate::frontier::{candidates, lemma_filter_contains, lemma_filter_push};
use crate::graph::csr::Graph;
use crate::model::UNVISITED;

verus! {

/// The test for nodes without a distance.
pub open spec fn unvisited_in(table: Seq<usize>) -> spec_fn(usize) -> bool {
    |v: usize| table[v as int] == UNVISITED
}

/// The graph has a list for every node of the frontier, with numbers below `limit` only.
pub open spec fn expandable_below(graph: &Graph, limit: nat, frontier: Seq<usize>) -> bool {
    &&& forall|i: int|
        0 <= i < frontier.len() ==> graph.row_in_bounds((#[trigger] frontier[i]) as int)
    &&& forall|i: int, j: int|
        0 <= i < frontier.len() && 0 <= j < graph@[frontier[i] as int].len()
            ==> #[trigger] graph@[frontier[i] as int][j] < limit
}

/// The graph has a list for every node of the frontier, and the table an entry for every
/// neighbor.
pub open spec fn expandable(graph: &Graph, table: Seq<usize>, frontier: Seq<usize>) -> bool {
    expandable_below(graph, table.len(), frontier)
}

/// Whether the graph has a list for every node of the frontier, with numbers below `limit` only.
pub fn is_expandable(graph: &Graph, limit: usize, frontier: &[usize]) -> (ok: bool)
    ensures
        ok == expandable_below(graph, limit as nat, frontier@),
{
    let num_nodes: usize = graph.num_nodes();
    assert(graph.offsets.len() == graph.offsets@.len());
    let mut i: usize = 0;
    while i < frontier.len()
        invariant
            i <= frontier@.len(),
            num_nodes == graph@.len(),
            forall|x: int|
                0 <= x < i ==> graph.row_in_bounds((#[trigger] frontier@[x]) as int),
            forall|x: int, j: int|
                0 <= x < i && 0 <= j < graph@[frontier@[x] as int].len()
                    ==> #[trigger] graph@[frontier@[x] as int][j] < limit,
        decreases frontier@.len() - i,
    {
        let u: usize = frontier[i];
        if u >= num_nodes || graph.offsets[u] > graph.offsets[u + 1] || graph.offsets[u + 1]
            > graph.edges.len() {
            assert(!graph.row_in_bounds(frontier@[i as int] as int));
            return false;
        }
        let list = graph.get_neighbors(u);
        let mut j: usize = 0;
        while j < list.len()
            invariant
                j <= list@.len(),
                i < frontier@.len(),
                u == frontier@[i as int],
                list@ == graph@[u as int],
                forall|x: int| 0 <= x < j ==> #[trigger] list@[x] < limit,
            decreases list@.len() - j,
        {
            if list[j] >= limit {
                assert(graph@[frontier@[i as int] as int][j as int] >= limit);
                return false;
            }
            j = j + 1;
        }
        i = i + 1;
    }
    true
}

/// Adds the neighbors of `u` without a distance to `found`.
fn collect_unvisited(graph: &Graph, table: &[usize], found: Vec<usize>, u: usize) -> (more: Vec<
    usize,
>)
    requires
        graph.row_in_bounds(u as int),
        forall|j: int|
            0 <= j < graph@[u as int].len() ==> #[trigger] graph@[u as int][j] < table@.len(),
    ensures
        more@ == found@ + graph@[u as int].filter(unvisited_in(table@)),
{
    let mut more = found;
    let list = graph.get_neighbors(u);
    let ghost keep = unvisited_in(table@);
    let mut j: usize = 0;
    proof {
        reveal(Seq::filter);
        assert(list@.take(0) =~= Seq::<usize>::empty());
        assert(found@ + list@.take(0).filter(keep) =~= found@);
    }
    while j < list.len()
        invariant
            j <= list.len(),
            keep == unvisited_in(table@),
            forall|k: int| 0 <= k < list@.len() ==> #[trigger] list@[k] < table@.len(),
            more@ == found@ + list@.take(j as int).filter(keep),
        decreases list.len() - j,
    {
        let v: usize = list[j];
        proof {
            assert(list@[j as int] < table@.len());
            assert(list@.take(j + 1) =~= list@.take(j as int).push(v));
            lemma_filter_push(list@.take(j as int), v, keep);
            assert(keep(v) == (table@[v as int] == UNVISITED));
        }
        if table[v] == UNVISITED {
            more.push(v);
            assert(more@ =~= found@ + list@.take(j as int).filter(keep).push(v));
        }
        j = j + 1;
    }
    assert(list@.take(list@.len() as int) =~= list@);
    more
}

/// Joins two lists, the shorter one behind the longer one.
fn join_lists(a: Vec<usize>, b: Vec<usize>) -> (joined: Vec<usize>)
    ensures
        joined@ == (if a@.len() > b@.len() {
            a@ + b@
        } else {
            b@ + a@
        }),
{
    let mut a = a;
    let mut b = b;
    if a.len() > b.len() {
        a.append(&mut b);
        a
    } else {
        b.append(&mut a);
        b
    }
}

/// `ParallelIterator::fold` and `ParallelIterator::reduce` of rayon over the frontier: it is
/// cut into pieces, each piece is folded from an empty list by adding the unvisited neighbors
/// of its nodes, and the lists of the pieces are joined pairwise. Neither how the frontier is
/// cut nor in which order lists are joined is fixed, so the contract claims that every
/// unvisited neighbor is there as often as the frontier leads to it, and says nothing of the
/// order.
#[verifier::external_body]
fn fold_frontier(graph: &Graph, table: &[usize], frontier: &[usize]) -> (found: Vec<usize>)
    requires
        expandable(graph, table@, frontier@),
    ensures
        found@.to_multiset() == candidates(graph@, frontier@).filter(
            unvisited_in(table@),
        ).to_multiset(),
{
    frontier
        .par_iter()
        .fold(Vec::new, |found, &u| collect_unvisited(graph, table, found, u))
        .reduce(Vec::new, |a, b| join_lists(a, b))
}

/// Takes the distance out of an entry.
fn wipe_entry(entry: &mut usize)
    ensures
        *final(entry) == UNVISITED,
{
    *entry = UNVISITED;
}

/// `ParallelIterator::for_each` of rayon over the entries of a table: the distance is taken out
/// of every one of them.
#[verifier::external_body]
pub(crate) fn wipe(table: &mut Vec<usize>)
    ensures
        final(table)@.len() == old(table)@.len(),
        forall|i: int|
            0 <= i < final(table)@.len() ==> #[trigger] final(table)@[i] == UNVISITED,
{
    table.par_iter_mut().for_each(|entry| wipe_entry(entry));
}

/// The neighbors of the frontier that the table has no distance for. One to which several
/// nodes of the frontier lead is there several times, and the order is left open.
pub fn unvisited_neighbors(graph: &Graph, table: &[usize], frontier: &[usize]) -> (found: Vec<
    usize,
>)
    requires
        expandable(graph, table@, frontier@),
    ensures
        found@.to_multiset() == candidates(graph@, frontier@).filter(
            unvisited_in(table@),
        ).to_multiset(),
        forall|v: usize| #[trigger]
            found@.contains(v) <==> candidates(graph@, frontier@).contains(v) && table@[v as int]
                == UNVISITED,
{
    let found = fold_frontier(graph, table, frontier);
    proof {
        let all = candidates(graph@, frontier@);
        let keep = unvisited_in(table@);
        assert forall|v: usize| #[trigger] found@.contains(v) <==> all.contains(v)
            && table@[v as int] == UNVISITED by {
            broadcast use vstd::seq_lib::group_to_multiset_ensures;

            lemma_filter_contains(all, keep, v);
            assert(found@.contains(v) <==> found@.to_multiset().count(v) > 0);
            assert(all.filter(keep).contains(v) <==> all.filter(keep).to_multiset().count(v) > 0);
        }
    }
    found
}

} // verus!

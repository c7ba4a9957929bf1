//! Frontiers: the nodes of one level, the nodes that they lead to, and the
//! rule that a node is taken up once.

use vstd::prelude::*;

use crate::model::edge;

verus! {

/// The neighbors of the frontier's nodes, list after list.
pub open spec fn candidates(adj: Seq<Seq<usize>>, frontier: Seq<usize>) -> Seq<usize>
    decreases frontier.len(),
{
    if frontier.len() == 0 {
        Seq::empty()
    } else {
        candidates(adj, frontier.drop_last()) + adj[frontier.last() as int]
    }
}

/// The distinct nodes of `nodes` that pass `keep`, in the order of their first occurrence.
pub open spec fn first_seen(nodes: Seq<usize>, keep: spec_fn(usize) -> bool) -> Seq<usize>
    decreases nodes.len(),
{
    if nodes.len() == 0 {
        Seq::empty()
    } else {
        let earlier = first_seen(nodes.drop_last(), keep);
        if keep(nodes.last()) && !earlier.contains(nodes.last()) {
            earlier.push(nodes.last())
        } else {
            earlier
        }
    }
}

/// The number `x` is listed in `nodes`.
pub open spec fn listed(nodes: Seq<usize>, x: int) -> bool {
    exists|i: int| 0 <= i < nodes.len() && #[trigger] nodes[i] == x
}

/// A frontier's candidates are the heads of the edges that leave it.
pub proof fn lemma_candidates_contains(adj: Seq<Seq<usize>>, frontier: Seq<usize>, v: usize)
    requires
        forall|i: int| 0 <= i < frontier.len() ==> #[trigger] frontier[i] < adj.len(),
    ensures
        candidates(adj, frontier).contains(v) <==> exists|u: usize|
            frontier.contains(u) && #[trigger] edge(adj, u, v),
    decreases frontier.len(),
{
    if frontier.len() > 0 {
        let rest = frontier.drop_last();
        let last = frontier.last();
        let head = candidates(adj, rest);
        let tail = adj[last as int];
        lemma_candidates_contains(adj, rest, v);
        assert(candidates(adj, frontier) == head + tail);
        if candidates(adj, frontier).contains(v) {
            let i = choose|i: int| 0 <= i < (head + tail).len() && (head + tail)[i] == v;
            if i < head.len() {
                assert(head[i] == v);
                let u = choose|u: usize| rest.contains(u) && #[trigger] edge(adj, u, v);
                let j = choose|j: int| 0 <= j < rest.len() && rest[j] == u;
                assert(frontier[j] == u);
                assert(frontier.contains(u) && edge(adj, u, v));
            } else {
                assert(tail[i - head.len()] == v);
                assert(frontier[frontier.len() - 1] == last);
                assert(frontier.contains(last) && edge(adj, last, v));
            }
        }
        if exists|u: usize| frontier.contains(u) && #[trigger] edge(adj, u, v) {
            let u = choose|u: usize| frontier.contains(u) && #[trigger] edge(adj, u, v);
            let j = choose|j: int| 0 <= j < frontier.len() && frontier[j] == u;
            if j < rest.len() {
                assert(rest[j] == u);
                assert(rest.contains(u));
                let i = choose|i: int| 0 <= i < head.len() && head[i] == v;
                assert((head + tail)[i] == v);
            } else {
                let i = choose|i: int| 0 <= i < tail.len() && tail[i] == v;
                assert((head + tail)[head.len() + i] == v);
            }
        }
    }
}

/// The candidates of a frontier to which `u` is added.
pub proof fn lemma_candidates_push(adj: Seq<Seq<usize>>, frontier: Seq<usize>, i: int)
    requires
        0 <= i < frontier.len(),
    ensures
        candidates(adj, frontier.take(i + 1)) == candidates(adj, frontier.take(i))
            + adj[frontier[i] as int],
{
    assert(frontier.take(i + 1).drop_last() =~= frontier.take(i));
    assert(frontier.take(i + 1).last() == frontier[i]);
}

/// The neighbors of each of the frontier's nodes are candidates.
pub proof fn lemma_candidates_row(adj: Seq<Seq<usize>>, frontier: Seq<usize>, i: int)
    requires
        0 <= i < frontier.len(),
    ensures
        forall|k: int|
            0 <= k < adj[frontier[i] as int].len() ==> candidates(adj, frontier).contains(
                #[trigger] adj[frontier[i] as int][k],
            ),
    decreases frontier.len(),
{
    let rest = frontier.drop_last();
    let head = candidates(adj, rest);
    let tail = adj[frontier.last() as int];
    let row = adj[frontier[i] as int];
    if i < rest.len() {
        lemma_candidates_row(adj, rest, i);
        assert forall|k: int| 0 <= k < row.len() implies (head + tail).contains(#[trigger] row[k]) by {
            assert(adj[rest[i] as int][k] == row[k]);
            assert(head.contains(row[k]));
            let j = choose|j: int| 0 <= j < head.len() && head[j] == row[k];
            assert((head + tail)[j] == row[k]);
        }
    } else {
        assert forall|k: int| 0 <= k < row.len() implies (head + tail).contains(#[trigger] row[k]) by {
            assert((head + tail)[head.len() + k] == row[k]);
        }
    }
}

/// `first_seen` keeps each node that passes, and each once.
pub proof fn lemma_first_seen(nodes: Seq<usize>, keep: spec_fn(usize) -> bool)
    ensures
        first_seen(nodes, keep).no_duplicates(),
        forall|v: usize| #[trigger]
            first_seen(nodes, keep).contains(v) <==> nodes.contains(v) && keep(v),
    decreases nodes.len(),
{
    if nodes.len() > 0 {
        let rest = nodes.drop_last();
        lemma_first_seen(rest, keep);
        let earlier = first_seen(rest, keep);
        let all = first_seen(nodes, keep);
        assert forall|v: usize| #[trigger] all.contains(v) <==> nodes.contains(v) && keep(v) by {
            assert(earlier.contains(v) <==> rest.contains(v) && keep(v));
            if all.contains(v) {
                let i = choose|i: int| 0 <= i < all.len() && all[i] == v;
                if i < earlier.len() {
                    assert(earlier[i] == v);
                    assert(earlier.contains(v));
                    let j = choose|j: int| 0 <= j < rest.len() && rest[j] == v;
                    assert(nodes[j] == v);
                } else {
                    assert(v == nodes.last());
                    assert(nodes[nodes.len() - 1] == v);
                }
            }
            if nodes.contains(v) && keep(v) {
                let j = choose|j: int| 0 <= j < nodes.len() && nodes[j] == v;
                if j < rest.len() {
                    assert(rest[j] == v);
                    assert(rest.contains(v));
                    let i = choose|i: int| 0 <= i < earlier.len() && earlier[i] == v;
                    assert(all[i] == v);
                } else if !earlier.contains(v) {
                    assert(all[earlier.len() as int] == v);
                } else {
                    assert(all == earlier);
                }
            }
        }
    }
}

/// One more node at the end of the list.
pub proof fn lemma_first_seen_push(nodes: Seq<usize>, v: usize, keep: spec_fn(usize) -> bool)
    ensures
        first_seen(nodes.push(v), keep) == (if keep(v) && !first_seen(nodes, keep).contains(v) {
            first_seen(nodes, keep).push(v)
        } else {
            first_seen(nodes, keep)
        }),
{
    assert(nodes.push(v).drop_last() =~= nodes);
    assert(nodes.push(v).last() == v);
}

/// Two lists one after the other, where the test on the second knows what the first kept.
pub proof fn lemma_first_seen_more(
    a: Seq<usize>,
    b: Seq<usize>,
    keep: spec_fn(usize) -> bool,
    keep_later: spec_fn(usize) -> bool,
)
    requires
        forall|i: int|
            0 <= i < b.len() ==> #[trigger] keep_later(b[i]) == (keep(b[i]) && !first_seen(
                a,
                keep,
            ).contains(b[i])),
    ensures
        first_seen(a + b, keep) == first_seen(a, keep) + first_seen(b, keep_later),
    decreases b.len(),
{
    let found = first_seen(a, keep);
    if b.len() == 0 {
        assert(a + b =~= a);
        assert(found + first_seen(b, keep_later) =~= found);
    } else {
        let rest = b.drop_last();
        let v = b.last();
        assert forall|i: int| 0 <= i < rest.len() implies #[trigger] keep_later(rest[i]) == (keep(
            rest[i],
        ) && !found.contains(rest[i])) by {
            assert(keep_later(b[i]) == (keep(b[i]) && !found.contains(b[i])));
        }
        lemma_first_seen_more(a, rest, keep, keep_later);
        assert(keep_later(b[b.len() - 1]) == (keep(v) && !found.contains(v)));
        let later = first_seen(rest, keep_later);
        assert((a + b).drop_last() =~= a + rest);
        assert((a + b).last() == v);
        if (found + later).contains(v) {
            let i = choose|i: int| 0 <= i < (found + later).len() && (found + later)[i] == v;
            if i < found.len() {
                assert(found[i] == v);
            } else {
                assert(later[i - found.len()] == v);
            }
        }
        if found.contains(v) {
            let i = choose|i: int| 0 <= i < found.len() && found[i] == v;
            assert((found + later)[i] == v);
        }
        if later.contains(v) {
            let i = choose|i: int| 0 <= i < later.len() && later[i] == v;
            assert((found + later)[found.len() + i] == v);
        }
        assert(first_seen(a + b, keep) =~= found + first_seen(b, keep_later));
    }
}

/// `listed` and `contains` say the same of a node.
pub proof fn lemma_listed(nodes: Seq<usize>, v: usize)
    ensures
        listed(nodes, v as int) <==> nodes.contains(v),
{
    if listed(nodes, v as int) {
        let i = choose|i: int| 0 <= i < nodes.len() && #[trigger] nodes[i] == v as int;
        assert(nodes[i] == v);
    }
}

/// Keeping by a test on the nodes commutes with appending.
pub proof fn lemma_filter_push(nodes: Seq<usize>, v: usize, keep: spec_fn(usize) -> bool)
    ensures
        nodes.push(v).filter(keep) == (if keep(v) {
            nodes.filter(keep).push(v)
        } else {
            nodes.filter(keep)
        }),
{
    reveal(Seq::filter);
    assert(nodes.push(v).drop_last() =~= nodes);
    assert(nodes.push(v).last() == v);
}

/// What a filtered list contains.
pub proof fn lemma_filter_contains(nodes: Seq<usize>, keep: spec_fn(usize) -> bool, v: usize)
    ensures
        nodes.filter(keep).contains(v) <==> nodes.contains(v) && keep(v),
    decreases nodes.len(),
{
    reveal(Seq::filter);
    if nodes.len() > 0 {
        let rest = nodes.drop_last();
        lemma_filter_contains(rest, keep, v);
        assert(nodes =~= rest.push(nodes.last()));
        lemma_filter_push(rest, nodes.last(), keep);
        let kept = rest.filter(keep);
        if nodes.contains(v) {
            let i = choose|i: int| 0 <= i < nodes.len() && nodes[i] == v;
            if i < rest.len() {
                assert(rest[i] == v);
            }
        }
        if rest.contains(v) {
            let i = choose|i: int| 0 <= i < rest.len() && rest[i] == v;
            assert(nodes[i] == v);
        }
        if kept.contains(v) {
            let i = choose|i: int| 0 <= i < kept.len() && kept[i] == v;
            assert(kept.push(nodes.last())[i] == v);
        }
        if kept.push(nodes.last()).contains(v) {
            let i = choose|i: int| 0 <= i <= kept.len() && kept.push(nodes.last())[i] == v;
            if i < kept.len() {
                assert(kept[i] == v);
            }
        }
        assert(kept.push(nodes.last())[kept.len() as int] == nodes.last());
        assert(nodes[nodes.len() - 1] == nodes.last());
    }
}

/// Lists, one after the other.
pub open spec fn joined(lists: Seq<Seq<usize>>) -> Seq<usize>
    decreases lists.len(),
{
    if lists.len() == 0 {
        Seq::empty()
    } else {
        joined(lists.drop_last()) + lists.last()
    }
}

/// A node is in the joined list where it is in one of the lists.
pub proof fn lemma_joined_contains(lists: Seq<Seq<usize>>, v: usize)
    ensures
        joined(lists).contains(v) <==> exists|i: int|
            0 <= i < lists.len() && #[trigger] lists[i].contains(v),
    decreases lists.len(),
{
    if lists.len() > 0 {
        let rest = lists.drop_last();
        let head = joined(rest);
        let tail = lists.last();
        lemma_joined_contains(rest, v);
        if (head + tail).contains(v) {
            let k = choose|k: int| 0 <= k < (head + tail).len() && (head + tail)[k] == v;
            if k < head.len() {
                assert(head[k] == v);
                let i = choose|i: int| 0 <= i < rest.len() && #[trigger] rest[i].contains(v);
                assert(lists[i].contains(v));
            } else {
                assert(tail[k - head.len()] == v);
                assert(lists[lists.len() - 1].contains(v));
            }
        }
        if exists|i: int| 0 <= i < lists.len() && #[trigger] lists[i].contains(v) {
            let i = choose|i: int| 0 <= i < lists.len() && #[trigger] lists[i].contains(v);
            if i < rest.len() {
                assert(rest[i].contains(v));
                let k = choose|k: int| 0 <= k < head.len() && head[k] == v;
                assert((head + tail)[k] == v);
            } else {
                let k = choose|k: int| 0 <= k < tail.len() && tail[k] == v;
                assert((head + tail)[head.len() + k] == v);
            }
        }
    }
}

/// What frontiers lead to, one after the other, and what one node leads to: its neighbor list.
pub proof fn candidates_of_two(adj: Seq<Seq<usize>>, a: Seq<usize>, b: Seq<usize>, u: usize)
    ensures
        candidates(adj, a + b) == candidates(adj, a) + candidates(adj, b),
        candidates(adj, seq![u]) == adj[u as int],
        candidates(adj, Seq::<usize>::empty()).len() == 0,
    decreases b.len(),
{
    assert(seq![u].drop_last() =~= Seq::<usize>::empty());
    assert(candidates(adj, seq![u].drop_last()) =~= Seq::<usize>::empty());
    assert(candidates(adj, seq![u]) =~= adj[u as int]);
    if b.len() == 0 {
        assert(a + b =~= a);
        assert(candidates(adj, a) + candidates(adj, b) =~= candidates(adj, a));
    } else {
        candidates_of_two(adj, a, b.drop_last(), u);
        assert((a + b).drop_last() =~= a + b.drop_last());
        assert(candidates(adj, a + b) =~= candidates(adj, a) + candidates(adj, b));
    }
}

/// Lists and then other lists, and one list alone.
pub proof fn joined_of_two(a: Seq<Seq<usize>>, b: Seq<Seq<usize>>, list: Seq<usize>)
    ensures
        joined(a + b) == joined(a) + joined(b),
        joined(seq![list]) == list,
        joined(Seq::<Seq<usize>>::empty()).len() == 0,
    decreases b.len(),
{
    assert(seq![list].drop_last() =~= Seq::<Seq<usize>>::empty());
    assert(joined(seq![list].drop_last()) =~= Seq::<usize>::empty());
    assert(joined(seq![list]) =~= list);
    if b.len() == 0 {
        assert(a + b =~= a);
        assert(joined(a) + joined(b) =~= joined(a));
    } else {
        joined_of_two(a, b.drop_last(), list);
        assert((a + b).drop_last() =~= a + b.drop_last());
        assert(joined(a + b) =~= joined(a) + joined(b));
    }
}

/// The nodes that are kept stand in the order in which they first occur: of two of them, the one
/// that stands first occurs at a place before which the other one does not.
pub proof fn first_seen_keeps_order(
    nodes: Seq<usize>,
    keep: spec_fn(usize) -> bool,
    i: int,
    j: int,
)
    requires
        0 <= i < j < first_seen(nodes, keep).len(),
    ensures
        exists|k: int|
            0 <= k < nodes.len() && #[trigger] nodes[k] == first_seen(nodes, keep)[i]
                && !nodes.take(k + 1).contains(first_seen(nodes, keep)[j]),
    decreases nodes.len(),
{
    let rest = nodes.drop_last();
    let earlier = first_seen(rest, keep);
    let all = first_seen(nodes, keep);
    if j < earlier.len() {
        first_seen_keeps_order(rest, keep, i, j);
        let k = choose|k: int|
            0 <= k < rest.len() && #[trigger] rest[k] == earlier[i] && !rest.take(k + 1).contains(
                earlier[j],
            );
        assert(nodes[k] == all[i]);
        assert(nodes.take(k + 1) =~= rest.take(k + 1));
    } else {
        let v = all[j];
        assert(v == nodes.last());
        lemma_first_seen(rest, keep);
        assert(earlier[i] == all[i]);
        assert(earlier.contains(earlier[i]));
        assert(rest.contains(earlier[i]));
        let k = choose|k: int| 0 <= k < rest.len() && rest[k] == earlier[i];
        assert(nodes[k] == all[i]);
        if nodes.take(k + 1).contains(v) {
            let head = nodes.take(k + 1);
            let m = choose|m: int| 0 <= m < head.len() && head[m] == v;
            assert(rest[m] == v);
            assert(rest.contains(v) && keep(v));
            assert(earlier.contains(v));
        }
    }
}

} // verus!

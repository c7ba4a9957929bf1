//! One exchange per level, whatever the messages look like: why it finishes a
//! level, why all workers agree on when to stop, and what they have then.

use vstd::prelude::*;

use super::{outgoing, owned_by, shares_of_two};
use crate::frontier::{
    candidates, joined, lemma_candidates_contains, lemma_filter_contains, lemma_first_seen,
    lemma_joined_contains,
};
use crate::lockstep::{
    dealt, exchange_completes_level, expanded_from, frontiers_run_empty, joint_table,
    lemma_frontier_nodes, lemma_joint_entry, lemma_met,
    level_complete, met, met_elsewhere, quiet_level_is_result, some_frontier, synchronized,
};
use crate::model::{
    edge, is_distance, lemma_distance_unique, lemma_walk_step, reachable, shortest_distances, walk,
    UNVISITED,
};
use crate::partition::Partition;
use crate::worker::Worker;

verus! {

/// Whether a worker's expansion leads to any node, its own and unvisited or another's.
pub open spec fn had_work<P: Partition>(adj: Seq<Seq<usize>>, worker: Worker<P>) -> bool {
    worker.fresh_own(candidates(adj, worker.current_frontier@)).len() > 0 || outgoing(
        adj,
        worker,
    ).len() > 0
}

/// What a worker sends: a work mark for all, and to each worker its nodes of `list`.
pub open spec fn parcelled<P: Partition>(
    partition: P,
    list: Seq<usize>,
    work: bool,
    parcels: Seq<(u32, Seq<usize>)>,
) -> bool {
    &&& parcels.len() == partition.worker_total()
    &&& forall|o: int|
        0 <= o < parcels.len() ==> {
            &&& (#[trigger] parcels[o]).1 == list.filter(owned_by(partition, o))
            &&& parcels[o].0 == if work {
                1u32
            } else {
                0u32
            }
        }
}

/// The two lists have the same nodes.
pub open spec fn same_nodes(a: Seq<usize>, b: Seq<usize>) -> bool {
    forall|v: usize| #[trigger] a.contains(v) <==> b.contains(v)
}

/// A worker sends the outgoing nodes of its frontier as `parcels`, in the order of `list`.
pub open spec fn sends<P: Partition>(
    adj: Seq<Seq<usize>>,
    worker: Worker<P>,
    list: Seq<usize>,
    parcels: Seq<(u32, Seq<usize>)>,
) -> bool {
    &&& same_nodes(list, outgoing(adj, worker))
    &&& parcelled(worker.partition, list, had_work(adj, worker), parcels)
}

/// The node lists of parcels.
pub open spec fn node_lists(parcels: Seq<(u32, Seq<usize>)>) -> Seq<Seq<usize>> {
    Seq::new(parcels.len(), |k: int| parcels[k].1)
}

/// Some parcel says that its sender had work.
pub open spec fn any_work(parcels: Seq<(u32, Seq<usize>)>) -> bool {
    exists|k: int| 0 <= k < parcels.len() && (#[trigger] parcels[k]).0 > 0
}

/// Worker `w` got the message that each worker sent it, and no other: the message at place `j`
/// of its inbox is from worker `order[j]`.
pub open spec fn delivered(
    sent: Seq<Seq<(u32, Seq<usize>)>>,
    w: int,
    inbox: Seq<(u32, Seq<usize>)>,
    order: Seq<int>,
) -> bool {
    &&& order.len() == inbox.len()
    &&& forall|k: int| 0 <= k < sent.len() ==> #[trigger] order.contains(k)
    &&& forall|j: int|
        0 <= j < order.len() ==> {
            &&& 0 <= #[trigger] order[j] < sent.len()
            &&& inbox[j].1 == sent[order[j]][w].1
            &&& inbox[j].0 == sent[order[j]][w].0
        }
}

/// One level of all workers: each prepared its messages, the exchange delivered them, and each
/// collected what it got.
pub open spec fn exchange_level<P: Partition>(
    adj: Seq<Seq<usize>>,
    before: Seq<Worker<P>>,
    expanded: Seq<Worker<P>>,
    lists: Seq<Seq<usize>>,
    parcels: Seq<Seq<(u32, Seq<usize>)>>,
    inboxes: Seq<Seq<(u32, Seq<usize>)>>,
    orders: Seq<Seq<int>>,
    after: Seq<Worker<P>>,
) -> bool {
    &&& before.len() == expanded.len() == after.len() == lists.len() == parcels.len() == inboxes.len() == orders.len()
    &&& forall|w: int|
        0 <= w < before.len() ==> {
            &&& expanded_from(adj, before[w], expanded[w])
            &&& sends(adj, before[w], lists[w], #[trigger] parcels[w])
            &&& delivered(parcels, w, inboxes[w], orders[w])
            &&& after[w].well_formed()
            &&& after[w].discovered(
                expanded[w],
                expanded[w].fresh(joined(node_lists(inboxes[w]))),
            )
            &&& after[w].current_frontier@ == expanded[w].current_frontier@
        }
}

/// What worker `w` is sent are the nodes of its own that other workers met.
proof fn lemma_inbox<P: Partition>(
    adj: Seq<Seq<usize>>,
    partition: P,
    before: Seq<Worker<P>>,
    lists: Seq<Seq<usize>>,
    parcels: Seq<Seq<(u32, Seq<usize>)>>,
    w: int,
    inbox: Seq<(u32, Seq<usize>)>,
    order: Seq<int>,
    v: usize,
)
    requires
        0 <= w < before.len(),
        before.len() == lists.len() == parcels.len() == partition.worker_total(),
        forall|k: int|
            0 <= k < before.len() ==> (#[trigger] before[k]).partition == partition
                && before[k].worker_id == k,
        forall|k: int|
            0 <= k < before.len() ==> sends(adj, before[k], lists[k], #[trigger] parcels[k]),
        delivered(parcels, w, inbox, order),
    ensures
        joined(node_lists(inbox)).contains(v) <==> partition.owner_of(v) == w && met_elsewhere(
            adj,
            before,
            w,
            v,
        ),
{
    let got = node_lists(inbox);
    lemma_joined_contains(got, v);
    if joined(got).contains(v) {
        let j = choose|j: int| 0 <= j < got.len() && #[trigger] got[j].contains(v);
        assert(inbox[j].1 == got[j]);
        let k = order[j];
        assert(sends(adj, before[k], lists[k], parcels[k]));
        assert(parcels[k][w].1.contains(v));
        lemma_sent_nodes(adj, before[k], lists[k], parcels[k], w, v);
        assert(before[k].worker_id == k);
        assert(met_elsewhere(adj, before, w, v));
    }
    if partition.owner_of(v) == w && met_elsewhere(adj, before, w, v) {
        let k = choose|k: int|
            0 <= k < before.len() && k != w && #[trigger] candidates(
                adj,
                before[k].current_frontier@,
            ).contains(v);
        assert(before[k].worker_id == k);
        assert(sends(adj, before[k], lists[k], parcels[k]));
        lemma_sent_nodes(adj, before[k], lists[k], parcels[k], w, v);
        assert(order.contains(k));
        let j = choose|j: int| 0 <= j < order.len() && order[j] == k;
        assert(got[j].contains(v));
    }
}

/// The nodes that a worker sends to worker `o`.
proof fn lemma_sent_nodes<P: Partition>(
    adj: Seq<Seq<usize>>,
    before: Worker<P>,
    list: Seq<usize>,
    messages: Seq<(u32, Seq<usize>)>,
    o: int,
    v: usize,
)
    requires
        sends(adj, before, list, messages),
        0 <= o < messages.len(),
    ensures
        messages[o].1.contains(v) <==> candidates(
            adj,
            before.current_frontier@,
        ).contains(v) && !before.mine(v) && before.partition.owner_of(v) == o,
{
    let cands = candidates(adj, before.current_frontier@);
    lemma_filter_contains(cands, |v: usize| !before.mine(v), v);
    assert(list.contains(v) <==> outgoing(adj, before).contains(v));
    lemma_filter_contains(list, owned_by(before.partition, o), v);
}

/// One all-to-all exchange finishes a level.
pub proof fn all_to_all_finishes_level<P: Partition>(
    adj: Seq<Seq<usize>>,
    s: usize,
    partition: P,
    before: Seq<Worker<P>>,
    expanded: Seq<Worker<P>>,
    lists: Seq<Seq<usize>>,
    parcels: Seq<Seq<(u32, Seq<usize>)>>,
    inboxes: Seq<Seq<(u32, Seq<usize>)>>,
    orders: Seq<Seq<int>>,
    after: Seq<Worker<P>>,
    level: nat,
)
    requires
        dealt(adj, s, partition),
        synchronized(adj, s, partition, before, level),
        exchange_level(adj, before, expanded, lists, parcels, inboxes, orders, after),
        level + 1 < UNVISITED,
    ensures
        level_complete(adj, partition, before, after, level),
{
    let taken = Seq::new(
        before.len(),
        |w: int| expanded[w].fresh(joined(node_lists(inboxes[w]))),
    );
    assert forall|w: int| 0 <= w < after.len() implies {
        &&& expanded_from(adj, before[w], expanded[w])
        &&& (#[trigger] after[w]).well_formed()
        &&& after[w].discovered(expanded[w], taken[w])
        &&& after[w].current_frontier@ == expanded[w].current_frontier@
    } by {
        assert(sends(adj, before[w], lists[w], parcels[w]));
    }
    assert forall|w: int, v: usize| 0 <= w < after.len() implies (#[trigger] taken[w].contains(v)
        <==> partition.owner_of(v) == w && met_elsewhere(adj, before, w, v)
        && expanded[w].entry(v) == UNVISITED) by {
        assert(sends(adj, before[w], lists[w], parcels[w]));
        lemma_inbox(adj, partition, before, lists, parcels, w, inboxes[w], orders[w], v);
        lemma_first_seen(
            joined(node_lists(inboxes[w])),
            |x: usize| expanded[w].entry(x) == UNVISITED,
        );
    }
    assert forall|w: int, v: usize| 0 <= w < after.len() && #[trigger] taken[w].contains(v) implies met(
        adj,
        before,
        v,
    ) by {
        let k = choose|k: int|
            0 <= k < before.len() && k != w && #[trigger] candidates(
                adj,
                before[k].current_frontier@,
            ).contains(v);
        assert(candidates(adj, before[k].current_frontier@).contains(v));
    }
    exchange_completes_level(adj, s, partition, before, expanded, after, taken, level);
}

/// Where a frontier leads anywhere, there is one.
pub proof fn work_needs_frontier<P: Partition>(adj: Seq<Seq<usize>>, workers: Seq<Worker<P>>)
    requires
        exists|k: int| 0 <= k < workers.len() && had_work(adj, #[trigger] workers[k]),
    ensures
        some_frontier(workers),
{
    let k = choose|k: int| 0 <= k < workers.len() && had_work(adj, #[trigger] workers[k]);
    let cands = candidates(adj, workers[k].current_frontier@);
    if workers[k].current_frontier@.len() == 0 {
        assert(cands.len() == 0);
        let found = workers[k].fresh_own(cands);
        lemma_first_seen(
            cands,
            |v: usize| workers[k].mine(v) && workers[k].entry(v) == UNVISITED,
        );
        if found.len() > 0 {
            assert(found.contains(found[0]));
        }
        let out = outgoing(adj, workers[k]);
        if out.len() > 0 {
            assert(out.contains(out[0]));
            lemma_filter_contains(cands, |v: usize| !workers[k].mine(v), out[0]);
        }
    }
}

/// At a level of a search from `s`, some node at that distance has an edge to a node of another
/// worker, or to one of its own worker that is one step farther away: some worker has work.
pub open spec fn work_at<P: Partition>(
    adj: Seq<Seq<usize>>,
    s: usize,
    partition: P,
    level: nat,
) -> bool {
    exists|u: usize, v: usize|
        #![trigger edge(adj, u, v)]
        is_distance(adj, s, u, level) && edge(adj, u, v) && (partition.owner_of(v)
            != partition.owner_of(u) || is_distance(adj, s, v, level + 1))
}

/// A search from `s` has so many levels: it goes on while some worker has work, and the first
/// level at which none has any is the last one.
pub open spec fn stops_after<P: Partition>(
    adj: Seq<Seq<usize>>,
    s: usize,
    partition: P,
    levels: nat,
) -> bool {
    &&& levels > 0
    &&& !work_at(adj, s, partition, (levels - 1) as nat)
    &&& forall|l: nat| l < levels - 1 ==> #[trigger] work_at(adj, s, partition, l)
}

/// There is one such number of levels: all workers run equally many.
pub proof fn level_count_unique<P: Partition>(
    adj: Seq<Seq<usize>>,
    s: usize,
    partition: P,
    a: nat,
    b: nat,
)
    requires
        stops_after(adj, s, partition, a),
        stops_after(adj, s, partition, b),
    ensures
        a == b,
{
    if a < b {
        assert(work_at(adj, s, partition, (a - 1) as nat));
    } else if b < a {
        assert(work_at(adj, s, partition, (b - 1) as nat));
    }
}

/// Whether some worker's frontier led to a node that was its own and unvisited, or another's,
/// is settled by the graph, the source and the level.
pub proof fn work_is_known<P: Partition>(
    adj: Seq<Seq<usize>>,
    s: usize,
    partition: P,
    before: Seq<Worker<P>>,
    level: nat,
)
    requires
        dealt(adj, s, partition),
        synchronized(adj, s, partition, before, level),
        level + 1 < UNVISITED,
    ensures
        (exists|k: int| 0 <= k < before.len() && had_work(adj, #[trigger] before[k])) <==> work_at(
            adj,
            s,
            partition,
            level,
        ),
{
    let table = joint_table(partition, before);
    if exists|k: int| 0 <= k < before.len() && had_work(adj, #[trigger] before[k]) {
        let k = choose|k: int| 0 <= k < before.len() && had_work(adj, #[trigger] before[k]);
        assert(before[k].well_formed());
        let frontier = before[k].current_frontier@;
        let cands = candidates(adj, frontier);
        let keep = |v: usize| before[k].mine(v) && before[k].entry(v) == UNVISITED;
        let found = before[k].fresh_own(cands);
        let out = outgoing(adj, before[k]);
        lemma_first_seen(cands, keep);
        let v = if found.len() > 0 {
            found[0]
        } else {
            out[0]
        };
        if found.len() > 0 {
            assert(found.contains(v));
        } else {
            assert(out.contains(v));
            lemma_filter_contains(cands, |v: usize| !before[k].mine(v), v);
        }
        assert(cands.contains(v));
        lemma_frontier_nodes(adj, partition, before, level, k);
        lemma_candidates_contains(adj, frontier, v);
        let u = choose|u: usize| frontier.contains(u) && #[trigger] edge(adj, u, v);
        assert(before[k].current_frontier@.contains(u));
        lemma_joint_entry(partition, before, u);
        assert(table[u as int] == level);
        assert(is_distance(adj, s, u, level));
        assert(met(adj, before, v));
        lemma_met(adj, s, partition, before, level, v);
        if found.len() > 0 {
            lemma_joint_entry(partition, before, v);
            assert(table[v as int] == UNVISITED);
            lemma_walk_step(adj, s, u, v, level);
            assert(is_distance(adj, s, v, level + 1));
        }
        assert(edge(adj, u, v));
    }
    if work_at(adj, s, partition, level) {
        let (u, v) = choose|u: usize, v: usize|
            #![trigger edge(adj, u, v)]
            is_distance(adj, s, u, level) && edge(adj, u, v) && (partition.owner_of(v)
                != partition.owner_of(u) || is_distance(adj, s, v, level + 1));
        assert(walk(adj, s, u, level));
        assert(reachable(adj, s, u));
        partition.owner_holds(u);
        lemma_joint_entry(partition, before, u);
        assert(table[u as int] != UNVISITED);
        lemma_distance_unique(adj, s, u, level, table[u as int] as nat);
        let k = partition.owner_of(u) as int;
        assert(before[k].well_formed());
        let frontier = before[k].current_frontier@;
        assert(before[k].current_frontier@.contains(u));
        let cands = candidates(adj, frontier);
        lemma_frontier_nodes(adj, partition, before, level, k);
        lemma_candidates_contains(adj, frontier, v);
        assert(cands.contains(v));
        if partition.owner_of(v) != partition.owner_of(u) {
            lemma_filter_contains(cands, |v: usize| !before[k].mine(v), v);
            assert(outgoing(adj, before[k]).contains(v));
        } else {
            lemma_walk_step(adj, s, u, v, level);
            lemma_joint_entry(partition, before, v);
            if table[v as int] != UNVISITED {
                lemma_distance_unique(adj, s, v, level + 1, table[v as int] as nat);
            }
            lemma_first_seen(
                cands,
                |v: usize| before[k].mine(v) && before[k].entry(v) == UNVISITED,
            );
            assert(before[k].fresh_own(cands).contains(v));
        }
        assert(had_work(adj, before[k]));
    }
}

/// The work marks that a worker gets tell whether any sender had work.
pub proof fn column_tells_work<P: Partition>(
    adj: Seq<Seq<usize>>,
    before: Seq<Worker<P>>,
    lists: Seq<Seq<usize>>,
    parcels: Seq<Seq<(u32, Seq<usize>)>>,
    w: int,
)
    requires
        before.len() == parcels.len() == lists.len(),
        0 <= w < before.len(),
        forall|k: int|
            0 <= k < before.len() ==> (#[trigger] before[k]).partition.worker_total()
                == before.len(),
        forall|k: int|
            0 <= k < before.len() ==> sends(adj, before[k], lists[k], #[trigger] parcels[k]),
    ensures
        any_work(column(parcels, w)) <==> exists|k: int|
            0 <= k < before.len() && had_work(adj, #[trigger] before[k]),
{
    let inbox = column(parcels, w);
    assert forall|k: int| 0 <= k < before.len() implies ((#[trigger] inbox[k]).0 > 0 <==> had_work(
        adj,
        before[k],
    )) by {
        assert(sends(adj, before[k], lists[k], parcels[k]));
        assert(before[k].partition.worker_total() == before.len());
        assert(inbox[k] == parcels[k][w]);
    }
    if any_work(inbox) {
        let k = choose|k: int| 0 <= k < inbox.len() && (#[trigger] inbox[k]).0 > 0;
        assert(had_work(adj, before[k]));
    }
    if exists|k: int| 0 <= k < before.len() && had_work(adj, #[trigger] before[k]) {
        let k = choose|k: int| 0 <= k < before.len() && had_work(adj, #[trigger] before[k]);
        assert(inbox[k].0 > 0);
    }
}

/// All workers draw the same conclusion from an exchange, and go on exactly as long as some
/// worker's frontier led to a node that was its own and unvisited, or another's.
pub proof fn all_to_all_agrees<P: Partition>(
    adj: Seq<Seq<usize>>,
    before: Seq<Worker<P>>,
    expanded: Seq<Worker<P>>,
    lists: Seq<Seq<usize>>,
    parcels: Seq<Seq<(u32, Seq<usize>)>>,
    inboxes: Seq<Seq<(u32, Seq<usize>)>>,
    orders: Seq<Seq<int>>,
    after: Seq<Worker<P>>,
    w: int,
)
    requires
        exchange_level(adj, before, expanded, lists, parcels, inboxes, orders, after),
        forall|k: int|
            0 <= k < before.len() ==> (#[trigger] before[k]).partition.worker_total() == before.len(),
        0 <= w < before.len(),
    ensures
        any_work(inboxes[w]) <==> exists|k: int|
            0 <= k < before.len() && had_work(adj, #[trigger] before[k]),
{
    assert(sends(adj, before[w], lists[w], parcels[w]));
    let inbox = inboxes[w];
    if any_work(inbox) {
        let j = choose|j: int| 0 <= j < inbox.len() && (#[trigger] inbox[j]).0 > 0;
        let k = orders[w][j];
        assert(sends(adj, before[k], lists[k], parcels[k]));
        assert(before[k].partition.worker_total() == before.len());
        assert(parcels[k][w].0 > 0);
        assert(had_work(adj, before[k]));
    }
    if exists|k: int| 0 <= k < before.len() && had_work(adj, #[trigger] before[k]) {
        let k = choose|k: int| 0 <= k < before.len() && had_work(adj, #[trigger] before[k]);
        assert(sends(adj, before[k], lists[k], parcels[k]));
        assert(orders[w].contains(k));
        let j = choose|j: int| 0 <= j < orders[w].len() && orders[w][j] == k;
        assert(before[k].partition.worker_total() == before.len());
        assert(inbox[j].0 == 1);
    }
}

/// The level at which a worker stops is the same for every worker: the first one at which none
/// has work.
pub proof fn all_to_all_stops_at<P: Partition>(
    adj: Seq<Seq<usize>>,
    s: usize,
    partition: P,
    before: Seq<Worker<P>>,
    expanded: Seq<Worker<P>>,
    lists: Seq<Seq<usize>>,
    parcels: Seq<Seq<(u32, Seq<usize>)>>,
    inboxes: Seq<Seq<(u32, Seq<usize>)>>,
    orders: Seq<Seq<int>>,
    after: Seq<Worker<P>>,
    w: int,
    level: nat,
)
    requires
        dealt(adj, s, partition),
        synchronized(adj, s, partition, before, level),
        level + 1 < UNVISITED,
        exchange_level(adj, before, expanded, lists, parcels, inboxes, orders, after),
        0 <= w < before.len(),
    ensures
        any_work(inboxes[w]) <==> work_at(adj, s, partition, level),
{
    assert forall|k: int| 0 <= k < before.len() implies (
    #[trigger] before[k]).partition.worker_total() == before.len() by {
        assert(before[k].well_formed());
    }
    all_to_all_agrees(adj, before, expanded, lists, parcels, inboxes, orders, after, w);
    work_is_known(adj, s, partition, before, level);
}

/// When the workers stop, their tables together are the breadth-first search result.
pub proof fn all_to_all_result<P: Partition>(
    adj: Seq<Seq<usize>>,
    s: usize,
    partition: P,
    before: Seq<Worker<P>>,
    expanded: Seq<Worker<P>>,
    lists: Seq<Seq<usize>>,
    parcels: Seq<Seq<(u32, Seq<usize>)>>,
    inboxes: Seq<Seq<(u32, Seq<usize>)>>,
    orders: Seq<Seq<int>>,
    after: Seq<Worker<P>>,
    level: nat,
)
    requires
        adj.len() <= usize::MAX,
        dealt(adj, s, partition),
        synchronized(adj, s, partition, before, level),
        exchange_level(adj, before, expanded, lists, parcels, inboxes, orders, after),
        exists|w: int| 0 <= w < before.len() && !any_work(#[trigger] inboxes[w]),
        level + 1 < UNVISITED,
    ensures
        shortest_distances(adj, s, joint_table(partition, after)),
{
    all_to_all_finishes_level(
        adj,
        s,
        partition,
        before,
        expanded,
        lists,
        parcels,
        inboxes,
        orders,
        after,
        level,
    );
    let w0 = choose|w: int| 0 <= w < before.len() && !any_work(#[trigger] inboxes[w]);
    assert forall|k: int| 0 <= k < before.len() implies (
    #[trigger] before[k]).partition.worker_total() == before.len() by {}
    all_to_all_agrees(adj, before, expanded, lists, parcels, inboxes, orders, after, w0);
    assert forall|w: int| 0 <= w < after.len() implies (
    #[trigger] after[w]).next_frontier@.len() == 0 by {
        assert(sends(adj, before[w], lists[w], parcels[w]));
        if after[w].next_frontier@.len() > 0 {
            let v = after[w].next_frontier@[0];
            assert(after[w].next_frontier@.contains(v));
            assert(met(adj, before, v));
            let k = choose|k: int|
                0 <= k < before.len() && #[trigger] candidates(
                    adj,
                    before[k].current_frontier@,
                ).contains(v);
            assert(!had_work(adj, before[k]));
            let cands = candidates(adj, before[k].current_frontier@);
            lemma_filter_contains(cands, |x: usize| !before[k].mine(x), v);
            lemma_first_seen(
                cands,
                |x: usize| before[k].mine(x) && before[k].entry(x) == UNVISITED,
            );
            if before[k].mine(v) {
                assert(k == w);
                assert(before[k].fresh_own(cands).contains(v));
            } else {
                assert(outgoing(adj, before[k]).contains(v));
            }
        }
    }
    quiet_level_is_result(adj, s, partition, before, after, level);
}

/// From as many levels on as the graph has nodes, no worker has work: the workers stop.
pub proof fn all_to_all_stops<P: Partition>(
    adj: Seq<Seq<usize>>,
    s: usize,
    partition: P,
    before: Seq<Worker<P>>,
    level: nat,
    w: int,
)
    requires
        dealt(adj, s, partition),
        synchronized(adj, s, partition, before, level),
        adj.len() <= level < UNVISITED,
        0 <= w < before.len(),
    ensures
        !had_work(adj, before[w]),
{
    frontiers_run_empty(adj, s, partition, before, level);
    assert(before[w].current_frontier@.len() == 0);
    assert(candidates(adj, before[w].current_frontier@) =~= Seq::<usize>::empty());
    reveal(Seq::filter);
}

/// What a worker collects are nodes of its own that the division deals out.
pub proof fn inbox_is_own<P: Partition>(
    adj: Seq<Seq<usize>>,
    s: usize,
    partition: P,
    before: Seq<Worker<P>>,
    lists: Seq<Seq<usize>>,
    parcels: Seq<Seq<(u32, Seq<usize>)>>,
    w: int,
    inbox: Seq<(u32, Seq<usize>)>,
    order: Seq<int>,
    level: nat,
)
    requires
        dealt(adj, s, partition),
        synchronized(adj, s, partition, before, level),
        level < UNVISITED,
        before.len() == lists.len() == parcels.len(),
        forall|k: int|
            0 <= k < before.len() ==> sends(adj, before[k], lists[k], #[trigger] parcels[k]),
        0 <= w < before.len(),
        delivered(parcels, w, inbox, order),
    ensures
        forall|v: usize| #[trigger]
            joined(node_lists(inbox)).contains(v) ==> partition.places(v) && partition.owner_of(v)
                == w,
{
    assert forall|v: usize| #[trigger] joined(node_lists(inbox)).contains(
        v,
    ) implies partition.places(v) && partition.owner_of(v) == w by {
        lemma_inbox(adj, partition, before, lists, parcels, w, inbox, order, v);
        let k = choose|k: int|
            0 <= k < before.len() && k != w && #[trigger] candidates(
                adj,
                before[k].current_frontier@,
            ).contains(v);
        assert(candidates(adj, before[k].current_frontier@).contains(v));
        assert(met(adj, before, v));
        lemma_met(adj, s, partition, before, level, v);
    }
}

/// What all workers sent to worker `w`, in the order of the senders.
pub open spec fn column(parcels: Seq<Seq<(u32, Seq<usize>)>>, w: int) -> Seq<(u32, Seq<usize>)> {
    Seq::new(parcels.len(), |k: int| parcels[k][w])
}

/// What all workers got, each in the order of the senders.
pub open spec fn columns(parcels: Seq<Seq<(u32, Seq<usize>)>>) -> Seq<
    Seq<(u32, Seq<usize>)>,
> {
    Seq::new(parcels.len(), |w: int| column(parcels, w))
}

/// The workers in the order of their numbers.
pub open spec fn in_order(n: nat) -> Seq<int> {
    Seq::new(n, |j: int| j)
}

/// Handing every worker what was sent to it, sender after sender, is a delivery.
pub proof fn columns_are_delivered(parcels: Seq<Seq<(u32, Seq<usize>)>>, w: int)
    requires
        0 <= w < parcels.len(),
    ensures
        delivered(parcels, w, columns(parcels)[w], in_order(parcels.len())),
{
    let order = in_order(parcels.len());
    assert forall|k: int| 0 <= k < parcels.len() implies #[trigger] order.contains(k) by {
        assert(order[k] == k);
    }
}

/// One level of workers that take turns: what each sent, and that each collected its column.
pub open spec fn exchanged_in_turn<P: Partition>(
    adj: Seq<Seq<usize>>,
    before: Seq<Worker<P>>,
    expanded: Seq<Worker<P>>,
    lists: Seq<Seq<usize>>,
    parcels: Seq<Seq<(u32, Seq<usize>)>>,
    after: Seq<Worker<P>>,
) -> bool {
    &&& before.len() == expanded.len() == after.len()
    &&& before.len() == lists.len() == parcels.len()
    &&& forall|w: int|
        0 <= w < before.len() ==> expanded_from(adj, before[w], #[trigger] expanded[w])
    &&& forall|w: int|
        0 <= w < before.len() ==> sends(adj, before[w], lists[w], #[trigger] parcels[w])
    &&& forall|w: int|
        0 <= w < before.len() ==> {
            &&& (#[trigger] after[w]).well_formed()
            &&& after[w].discovered(
                expanded[w],
                expanded[w].fresh(joined(node_lists(column(parcels, w)))),
            )
            &&& after[w].current_frontier@ == expanded[w].current_frontier@
        }
}

/// What an exchange in turn does to a search: the level is finished, the first worker's
/// conclusion is that of all, it is the breadth-first search result where that worker saw no
/// work, and that is so at the level whose number is the node count.
pub proof fn turn_finishes_level<P: Partition>(
    adj: Seq<Seq<usize>>,
    s: usize,
    partition: P,
    before: Seq<Worker<P>>,
    expanded: Seq<Worker<P>>,
    lists: Seq<Seq<usize>>,
    parcels: Seq<Seq<(u32, Seq<usize>)>>,
    after: Seq<Worker<P>>,
    level: nat,
)
    requires
        adj.len() <= usize::MAX,
        dealt(adj, s, partition),
        synchronized(adj, s, partition, before, level),
        before.len() > 0,
        exchanged_in_turn(adj, before, expanded, lists, parcels, after),
        level + 1 < UNVISITED,
    ensures
        level_complete(adj, partition, before, after, level),
        !any_work(column(parcels, 0)) ==> shortest_distances(
            adj,
            s,
            joint_table(partition, after),
        ),
        adj.len() <= level ==> !any_work(column(parcels, 0)),
{
    let n = before.len();
    let inboxes = columns(parcels);
    let orders = Seq::new(n, |w: int| in_order(n));
    assert forall|w: int| 0 <= w < n implies {
        &&& expanded_from(adj, before[w], expanded[w])
        &&& sends(adj, before[w], lists[w], #[trigger] parcels[w])
        &&& delivered(parcels, w, inboxes[w], orders[w])
        &&& after[w].well_formed()
        &&& after[w].discovered(expanded[w], expanded[w].fresh(joined(node_lists(inboxes[w]))))
        &&& after[w].current_frontier@ == expanded[w].current_frontier@
    } by {
        columns_are_delivered(parcels, w);
        assert(expanded_from(adj, before[w], expanded[w]));
        assert(sends(adj, before[w], lists[w], parcels[w]));
        assert(after[w].well_formed());
    }
    assert(exchange_level(adj, before, expanded, lists, parcels, inboxes, orders, after));
    all_to_all_finishes_level(
        adj,
        s,
        partition,
        before,
        expanded,
        lists,
        parcels,
        inboxes,
        orders,
        after,
        level,
    );
    assert(inboxes[0] == column(parcels, 0));
    if !any_work(column(parcels, 0)) {
        assert(!any_work(inboxes[0]));
        all_to_all_result(
            adj,
            s,
            partition,
            before,
            expanded,
            lists,
            parcels,
            inboxes,
            orders,
            after,
            level,
        );
    }
    if adj.len() <= level {
        assert forall|k: int| 0 <= k < n implies (
        #[trigger] before[k]).partition.worker_total() == n by {}
        all_to_all_agrees(adj, before, expanded, lists, parcels, inboxes, orders, after, 0);
        assert forall|k: int| 0 <= k < n implies !had_work(adj, #[trigger] before[k]) by {
            all_to_all_stops(adj, s, partition, before, level, k);
        }
    }
}

/// What a worker finds in its column are nodes of its own that the division deals out.
pub proof fn column_is_own<P: Partition>(
    adj: Seq<Seq<usize>>,
    s: usize,
    partition: P,
    before: Seq<Worker<P>>,
    lists: Seq<Seq<usize>>,
    parcels: Seq<Seq<(u32, Seq<usize>)>>,
    w: int,
    level: nat,
)
    requires
        dealt(adj, s, partition),
        synchronized(adj, s, partition, before, level),
        level < UNVISITED,
        before.len() == lists.len() == parcels.len(),
        forall|k: int|
            0 <= k < before.len() ==> sends(adj, before[k], lists[k], #[trigger] parcels[k]),
        0 <= w < before.len(),
    ensures
        forall|v: usize| #[trigger]
            joined(node_lists(column(parcels, w))).contains(v) ==> partition.places(v)
                && partition.owner_of(v) == w && partition.holds(w as u32, v),
{
    columns_are_delivered(parcels, w);
    let inbox = column(parcels, w);
    assert(columns(parcels)[w] == inbox);
    inbox_is_own(
        adj,
        s,
        partition,
        before,
        lists,
        parcels,
        w,
        inbox,
        in_order(parcels.len()),
        level,
    );
    assert forall|v: usize| #[trigger] joined(node_lists(inbox)).contains(
        v,
    ) implies partition.holds(w as u32, v) by {
        partition.owner_holds(v);
    }
}


/// What goes to a worker of a list is what goes to it of one part, and then what goes to it of
/// the rest. A single node goes to its owner, once, and to no other. The work mark is one where
/// there is work and zero where there is none.
pub proof fn parcels_of_two<P: Partition>(
    partition: P,
    first: Seq<usize>,
    second: Seq<usize>,
    work: bool,
    ours: Seq<(u32, Seq<usize>)>,
    rest: Seq<(u32, Seq<usize>)>,
    whole: Seq<(u32, Seq<usize>)>,
    o: int,
)
    requires
        parcelled(partition, first, work, ours),
        parcelled(partition, second, work, rest),
        parcelled(partition, first + second, work, whole),
        0 <= o < partition.worker_total(),
    ensures
        whole.len() == partition.worker_total(),
        whole[o].1 == ours[o].1 + rest[o].1,
        whole[o].0 == 1 <==> work,
        whole[o].0 == 0 <==> !work,
        first.len() == 1 ==> ours[o].1 == (if partition.owner_of(first[0]) == o {
            first
        } else {
            Seq::empty()
        }),
        first.len() == 0 ==> ours[o].1.len() == 0,
{
    assert(ours[o].1 == first.filter(owned_by(partition, o)));
    assert(rest[o].1 == second.filter(owned_by(partition, o)));
    assert(whole[o].1 == (first + second).filter(owned_by(partition, o)));
    shares_of_two(partition, first, second, first[0], o);
    if first.len() == 1 {
        assert(first =~= seq![first[0]]);
    }
    if first.len() == 0 {
        first.lemma_filter_len(owned_by(partition, o));
    }
}

/// A worker has work exactly where its frontier leads to a node of another worker, or to a node
/// of its own that it has no distance for.
pub proof fn work_is_something_to_do<P: Partition>(adj: Seq<Seq<usize>>, worker: Worker<P>)
    ensures
        had_work(adj, worker) <==> exists|v: usize|
            {
                &&& #[trigger] candidates(adj, worker.current_frontier@).contains(v)
                &&& worker.partition.owner_of(v) != worker.worker_id || worker.entry(v)
                    == UNVISITED
            },
{
    let cands = candidates(adj, worker.current_frontier@);
    let own = worker.fresh_own(cands);
    let out = outgoing(adj, worker);
    let keep = |v: usize| worker.mine(v) && worker.entry(v) == UNVISITED;
    let foreign = |v: usize| !worker.mine(v);
    lemma_first_seen(cands, keep);
    if own.len() > 0 {
        assert(own.contains(own[0]));
        assert(cands.contains(own[0]));
    }
    if out.len() > 0 {
        assert(out.contains(out[0]));
        lemma_filter_contains(cands, foreign, out[0]);
        assert(cands.contains(out[0]));
    }
    if exists|v: usize|
        {
            &&& #[trigger] cands.contains(v)
            &&& worker.partition.owner_of(v) != worker.worker_id || worker.entry(v) == UNVISITED
        } {
        let v = choose|v: usize|
            {
                &&& #[trigger] cands.contains(v)
                &&& worker.partition.owner_of(v) != worker.worker_id || worker.entry(v)
                    == UNVISITED
            };
        lemma_filter_contains(cands, foreign, v);
        assert(own.contains(v) || out.contains(v));
    }
}

} // verus!

//! The nodes that workers find for others are reduced to one sorted list at the
//! root worker, which hands it to all.

use vstd::prelude::*;

use super::broadcast::{
    broadcast_finishes_level, broadcast_result, contributes, gathered_is_dealt, gathering_composes,
    gathers,
};
use super::exchange::{had_work, work_at, work_is_known};
use super::outcome::{list_all, Found, TrialsResult};
use super::outgoing;
use super::turns::{
    advance_all, all_expandable, gather_all, lemma_all_expandable, searchable, start_all,
};
use crate::frontier::{candidates, first_seen, lemma_filter_contains, lemma_first_seen};
use crate::graph::{usable_from, NeighborLists};
use crate::lockstep::{
    dealt, expanded_from, frontiers_run_empty, in_step, joint_table, level_complete,
    level_keeps_step, quiet_level_is_result, synchronized,
};
use crate::message::packed::{
    deliver, mark_of, packed_round_trip, sealed_survives_wire, BfsMessage,
};
use crate::model::{shortest_distances, UNVISITED};
use crate::moments::{ended_search_has_all_keys, note, texts, Pattern, Steps};
use crate::partition::{PackedStripes, Partition};
use crate::raw_bytes::bytes_of;
use crate::sent_set::send_once;
use crate::worker::Worker;

verus! {

/// The strategy, which holds nothing itself.
pub struct BroadcastReduceStrategy;

/// Each number is smaller than the next.
pub open spec fn ascending(nodes: Seq<usize>) -> bool {
    forall|i: int, j: int| 0 <= i < j < nodes.len() ==> #[trigger] nodes[i] < #[trigger] nodes[j]
}

/// `<[usize]>::sort_unstable`: the same numbers, in an order in which none is followed by a
/// smaller one.
#[verifier::external_body]
fn sort_unstable(nodes: &mut Vec<usize>)
    ensures
        final(nodes)@.to_multiset() == old(nodes)@.to_multiset(),
        forall|i: int, j: int|
            0 <= i <= j < final(nodes)@.len() ==> #[trigger] final(nodes)@[i]
                <= #[trigger] final(nodes)@[j],
{
    nodes.sort_unstable();
}

/// Drops each number that equals the one before it.
fn dedup(nodes: &[usize]) -> (out: Vec<usize>)
    requires
        forall|i: int, j: int|
            0 <= i <= j < nodes@.len() ==> #[trigger] nodes@[i] <= #[trigger] nodes@[j],
    ensures
        ascending(out@),
        forall|v: usize| #[trigger] out@.contains(v) <==> nodes@.contains(v),
{
    let mut out: Vec<usize> = Vec::new();
    let mut k: usize = 0;
    while k < nodes.len()
        invariant
            k <= nodes.len(),
            forall|i: int, j: int|
                0 <= i <= j < nodes@.len() ==> #[trigger] nodes@[i] <= #[trigger] nodes@[j],
            ascending(out@),
            forall|i: int|
                0 <= i < out@.len() ==> nodes@.contains(#[trigger] out@[i]),
            forall|i: int| 0 <= i < k ==> out@.contains(#[trigger] nodes@[i]),
            k > 0 ==> out@.len() > 0 && out@.last() == nodes@[k - 1],
            k == 0 ==> out@.len() == 0,
        decreases nodes.len() - k,
    {
        let v: usize = nodes[k];
        let ghost before = out@;
        if k == 0 || nodes[k - 1] != v {
            proof {
                assert forall|i: int| 0 <= i < before.len() implies #[trigger] before[i] < v by {
                    assert(before[i] <= before.last());
                    assert(nodes@[k - 1] <= nodes@[k as int]);
                }
            }
            out.push(v);
            assert(out@.last() == v);
        }
        proof {
            assert forall|i: int| 0 <= i < k + 1 implies out@.contains(#[trigger] nodes@[i]) by {
                if i < k {
                    assert(before.contains(nodes@[i]));
                    let j = choose|j: int| 0 <= j < before.len() && before[j] == nodes@[i];
                    assert(out@[j] == nodes@[i]);
                } else {
                    assert(out@[out@.len() - 1] == v);
                }
            }
            assert forall|i: int| 0 <= i < out@.len() implies nodes@.contains(#[trigger] out@[i]) by {
                if i < before.len() {
                    assert(nodes@.contains(before[i]));
                } else {
                    assert(nodes@[k as int] == out@[i]);
                }
            }
        }
        k = k + 1;
    }
    proof {
        assert forall|v: usize| #[trigger] out@.contains(v) <==> nodes@.contains(v) by {
            if out@.contains(v) {
                let i = choose|i: int| 0 <= i < out@.len() && out@[i] == v;
                assert(nodes@.contains(out@[i]));
            }
            if nodes@.contains(v) {
                let i = choose|i: int| 0 <= i < nodes@.len() && nodes@[i] == v;
                assert(out@.contains(nodes@[i]));
            }
        }
    }
    out
}

/// The outgoing nodes of a worker's frontier, each once.
pub open spec fn outgoing_once(adj: Seq<Seq<usize>>, worker: Worker<PackedStripes>) -> Seq<usize> {
    first_seen(outgoing(adj, worker), |v: usize| true)
}

/// What a worker sends to the reduction is a contribution to the next frontier.
pub proof fn outgoing_contributes(adj: Seq<Seq<usize>>, worker: Worker<PackedStripes>)
    ensures
        contributes(adj, worker, outgoing_once(adj, worker)),
{
    let cands = candidates(adj, worker.current_frontier@);
    lemma_first_seen(outgoing(adj, worker), |v: usize| true);
    assert forall|v: usize| #[trigger] outgoing_once(adj, worker).contains(v) implies cands.contains(
        v,
    ) by {
        lemma_filter_contains(cands, |v: usize| !worker.mine(v), v);
    }
    assert forall|v: usize| #[trigger] cands.contains(v) && !worker.mine(v) implies outgoing_once(
        adj,
        worker,
    ).contains(v) by {
        lemma_filter_contains(cands, |v: usize| !worker.mine(v), v);
    }
}

impl BroadcastReduceStrategy {
    /// Expands the frontier and makes up the message for the reduction: the nodes that belong
    /// to others, each once, and whether the worker discovered a node of its own.
    pub fn prepare<G: NeighborLists>(
        &self,
        worker: &mut Worker<PackedStripes>,
        graph: &G,
    ) -> (message: BfsMessage)
        requires
            old(worker).well_formed(),
            old(worker).current_level + 1 < UNVISITED,
            forall|i: int|
                0 <= i < old(worker).current_frontier@.len() ==> graph.readable(
                    #[trigger] old(worker).current_frontier@[i],
                ),
            forall|v: usize| #[trigger]
                candidates(graph.rows(), old(worker).current_frontier@).contains(v)
                    ==> old(worker).partition.places(v),
        ensures
            expanded_from(graph.rows(), *old(worker), *final(worker)),
            message.node_list() == outgoing_once(graph.rows(), *old(worker)),
            message.has_work == (if old(worker).fresh_own(
                candidates(graph.rows(), old(worker).current_frontier@),
            ).len() > 0 {
                1u32
            } else {
                0u32
            }),
            message.sealed(),
    {
        let ghost before = *worker;
        let ghost adj = graph.rows();
        let (external, discoveries) = worker.expand(graph);
        let num_nodes: usize = worker.partition.num_nodes;
        proof {
            assert(external@ == outgoing(adj, before));
            assert forall|k: int| 0 <= k < external@.len() implies #[trigger] external@[k]
                <= num_nodes by {
                lemma_filter_contains(
                    candidates(adj, before.current_frontier@),
                    |v: usize| !before.mine(v),
                    external@[k],
                );
                assert(external@.contains(external@[k]));
            }
        }
        let once = send_once(external.as_slice(), num_nodes);
        let has_work: u32 = if discoveries > 0 {
            1
        } else {
            0
        };
        BfsMessage::from_vec(once, has_work)
    }

    /// Joins two messages of a reduction: the nodes of both in ascending order, each once, and
    /// the work marks of both.
    pub fn merge(&self, a: BfsMessage, b: BfsMessage) -> (joined: BfsMessage)
        ensures
            merged(a, b, joined),
            joined.has_work > 0 <==> a.has_work > 0 || b.has_work > 0,
    {
        let mut merged: Vec<usize> = a.payload();
        let mut more: Vec<usize> = b.payload();
        merged.append(&mut more);
        let ghost both = merged@;
        sort_unstable(&mut merged);
        let ghost sorted = merged@;
        let nodes = dedup(merged.as_slice());
        let left: u32 = a.has_work;
        let right: u32 = b.has_work;
        proof {
            assert forall|v: usize| #[trigger] nodes@.contains(v) <==> a.node_list().contains(v)
                || b.node_list().contains(v) by {
                broadcast use vstd::seq_lib::group_to_multiset_ensures;

                assert(sorted.contains(v) <==> sorted.to_multiset().count(v) > 0);
                assert(both.contains(v) <==> both.to_multiset().count(v) > 0);
                let x = a.node_list();
                let y = b.node_list();
                if both.contains(v) {
                    let i = choose|i: int| 0 <= i < both.len() && both[i] == v;
                    if i < x.len() {
                        assert(x[i] == v);
                    } else {
                        assert(y[i - x.len()] == v);
                    }
                }
                if x.contains(v) {
                    let i = choose|i: int| 0 <= i < x.len() && x[i] == v;
                    assert(both[i] == v);
                }
                if y.contains(v) {
                    let i = choose|i: int| 0 <= i < y.len() && y[i] == v;
                    assert(both[x.len() + i] == v);
                }
            }
            assert((left | right) > 0 <==> left > 0 || right > 0) by (bit_vector);
        }
        BfsMessage::from_vec_in(a.order, nodes, left | right)
    }

    /// Discovers the own nodes of the frontier that the root worker handed out, unless the
    /// search is over: then no worker had work and the frontier is empty, and the worker stays
    /// as it is.
    pub fn finish(&self, worker: &mut Worker<PackedStripes>, message: &BfsMessage) -> (stop: bool)
        requires
            old(worker).well_formed(),
            old(worker).current_level + 1 < UNVISITED,
            forall|v: usize| #[trigger]
                message.node_list().contains(v) ==> old(worker).partition.places(v),
        ensures
            stop == (message.has_work == 0 && message.node_list().len() == 0),
            final(worker).well_formed(),
            final(worker).discovered(*old(worker), old(worker).fresh_own(message.node_list())),
            final(worker).current_frontier@ == old(worker).current_frontier@,
    {
        let global_frontier: Vec<usize> = message.payload();
        proof {
            assert forall|k: int| 0 <= k < global_frontier@.len() implies worker.partition.places(
                #[trigger] global_frontier@[k],
            ) by {
                assert(message.node_list().contains(global_frontier@[k]));
            }
        }
        let stop: bool = message.has_work == 0 && global_frontier.len() == 0;
        if !stop {
            worker.absorb_own(global_frontier.as_slice());
        } else {
            proof {
                worker.lemma_discovered_none(
                    old(worker).fresh_own(message.node_list()),
                );
            }
        }
        stop
    }
}

/// The node lists of messages.
pub open spec fn lists_of(messages: Seq<BfsMessage>) -> Seq<Seq<usize>> {
    Seq::new(messages.len(), |k: int| messages[k].node_list())
}

/// `whole` is what the messages are reduced to: the nodes of all, and a work mark where any
/// message has one.
pub open spec fn reduced(messages: Seq<BfsMessage>, whole: BfsMessage) -> bool {
    &&& gathers(lists_of(messages), whole.node_list())
    &&& whole.has_work > 0 <==> exists|k: int|
        0 <= k < messages.len() && (#[trigger] messages[k]).has_work > 0
}

/// A message alone is reduced to itself.
pub proof fn one_is_reduced(message: BfsMessage)
    ensures
        reduced(seq![message], message),
{
    let lists = lists_of(seq![message]);
    assert(lists[0] == message.node_list());
    assert forall|v: usize| #[trigger] message.node_list().contains(v) <==> exists|k: int|
        0 <= k < lists.len() && #[trigger] lists[k].contains(v) by {
        if message.node_list().contains(v) {
            assert(lists[0].contains(v));
        }
    }
    assert(seq![message][0] == message);
}

/// Merging reduces: in whatever pairs the messages of the workers are merged, the last one has
/// the nodes and the work marks of all.
pub proof fn merging_reduces(
    left: Seq<BfsMessage>,
    right: Seq<BfsMessage>,
    a: BfsMessage,
    b: BfsMessage,
    joined: BfsMessage,
)
    requires
        reduced(left, a),
        reduced(right, b),
        joined.has_work > 0 <==> a.has_work > 0 || b.has_work > 0,
        forall|v: usize| #[trigger]
            joined.node_list().contains(v) <==> a.node_list().contains(v)
                || b.node_list().contains(v),
    ensures
        reduced(left + right, joined),
{
    gathering_composes(
        lists_of(left),
        lists_of(right),
        a.node_list(),
        b.node_list(),
        joined.node_list(),
    );
    assert(lists_of(left + right) =~= lists_of(left) + lists_of(right));
    let all = left + right;
    if a.has_work > 0 {
        let k = choose|k: int| 0 <= k < left.len() && (#[trigger] left[k]).has_work > 0;
        assert(all[k].has_work > 0);
    }
    if b.has_work > 0 {
        let k = choose|k: int| 0 <= k < right.len() && (#[trigger] right[k]).has_work > 0;
        assert(all[left.len() + k].has_work > 0);
    }
    if exists|k: int| 0 <= k < all.len() && (#[trigger] all[k]).has_work > 0 {
        let k = choose|k: int| 0 <= k < all.len() && (#[trigger] all[k]).has_work > 0;
        if k < left.len() {
            assert(left[k].has_work > 0);
        } else {
            assert(right[k - left.len()].has_work > 0);
        }
    }
}

/// Two ascending lists with the same nodes are the same.
proof fn lemma_ascending_unique(a: Seq<usize>, b: Seq<usize>)
    requires
        ascending(a),
        ascending(b),
        forall|v: usize| #[trigger] a.contains(v) <==> b.contains(v),
    ensures
        a == b,
    decreases a.len(),
{
    if a.len() == 0 {
        if b.len() > 0 {
            assert(b.contains(b[0]));
            assert(a.contains(b[0]));
        }
        assert(a =~= b);
    } else {
        assert(a.contains(a[0]));
        assert(b.len() > 0);
        let x = a.last();
        let y = b.last();
        assert(a[a.len() - 1] == x && b[b.len() - 1] == y);
        assert(a.contains(x) && b.contains(y));
        assert(a.contains(y));
        let i = choose|i: int| 0 <= i < b.len() && b[i] == x;
        let j = choose|j: int| 0 <= j < a.len() && a[j] == y;
        assert(x == y);
        assert forall|v: usize| #[trigger] a.drop_last().contains(v) <==> b.drop_last().contains(
            v,
        ) by {
            if a.drop_last().contains(v) {
                let k = choose|k: int| 0 <= k < a.len() - 1 && a.drop_last()[k] == v;
                assert(a[k] == v && v < x);
                assert(a.contains(v));
                let m = choose|m: int| 0 <= m < b.len() && b[m] == v;
                assert(b.drop_last()[m] == v);
            }
            if b.drop_last().contains(v) {
                let k = choose|k: int| 0 <= k < b.len() - 1 && b.drop_last()[k] == v;
                assert(b[k] == v && v < y);
                assert(b.contains(v) && a.contains(v));
                let m = choose|m: int| 0 <= m < a.len() && a[m] == v;
                assert(a.drop_last()[m] == v);
            }
        }
        lemma_ascending_unique(a.drop_last(), b.drop_last());
        assert(a =~= a.drop_last().push(x));
        assert(b =~= b.drop_last().push(y));
    }
}

/// `joined` is what [`BroadcastReduceStrategy::merge`] makes of two messages.
pub open spec fn merged(a: BfsMessage, b: BfsMessage, joined: BfsMessage) -> bool {
    &&& joined.has_work == a.has_work | b.has_work
    &&& ascending(joined.node_list())
    &&& forall|v: usize| #[trigger]
        joined.node_list().contains(v) <==> a.node_list().contains(v) || b.node_list().contains(v)
    &&& joined.sealed()
    &&& joined.order == a.order
}

/// Merging is symmetric: the same bytes and the same work mark come of two messages in either
/// order.
pub proof fn merging_is_symmetric(a: BfsMessage, b: BfsMessage, ab: BfsMessage, ba: BfsMessage)
    requires
        merged(a, b, ab),
        merged(b, a, ba),
        a.order == b.order,
    ensures
        ab.has_work == ba.has_work,
        ab.node_list() == ba.node_list(),
        bytes_of(ab.nodes) == bytes_of(ba.nodes),
{
    let left = a.has_work;
    let right = b.has_work;
    assert(left | right == right | left) by (bit_vector);
    lemma_ascending_unique(ab.node_list(), ba.node_list());
}

/// All workers draw the same conclusion from the message that the root worker hands them over
/// the wire, and go on exactly as long as some worker's frontier led to a node that was its own
/// and unvisited, or another's.
pub proof fn broadcast_reduce_agrees(
    adj: Seq<Seq<usize>>,
    before: Seq<Worker<PackedStripes>>,
    expanded: Seq<Worker<PackedStripes>>,
    messages: Seq<BfsMessage>,
    whole: BfsMessage,
    got: BfsMessage,
)
    requires
        prepared(adj, before, expanded, messages),
        reduced(messages, whole),
        whole.sealed(),
        got.has_work == mark_of(whole.order, bytes_of(whole.nodes)),
        got.order == whole.order,
        bytes_of(got.nodes) == bytes_of(whole.nodes),
    ensures
        (got.has_work == 0 && got.node_list().len() == 0) <==> forall|k: int|
            0 <= k < before.len() ==> !had_work(adj, #[trigger] before[k]),
{
    sealed_survives_wire(whole, got);
    let lists = lists_of(messages);
    let nodes = whole.node_list();
    if got.has_work == 0 && got.node_list().len() == 0 {
        assert forall|k: int| 0 <= k < before.len() implies !had_work(adj, #[trigger] before[k]) by {
            assert(expanded_from(adj, before[k], expanded[k]));
            assert(!(messages[k].has_work > 0));
            let out = outgoing(adj, before[k]);
            if out.len() > 0 {
                let v = out[0];
                assert(out.contains(v));
                lemma_first_seen(out, |v: usize| true);
                assert(lists[k].contains(v));
                assert(nodes.contains(v));
            }
        }
    }
    if forall|k: int| 0 <= k < before.len() ==> !had_work(adj, #[trigger] before[k]) {
        if whole.has_work > 0 {
            let k = choose|k: int| 0 <= k < messages.len() && (#[trigger] messages[k]).has_work > 0;
            assert(expanded_from(adj, before[k], expanded[k]));
            assert(!had_work(adj, before[k]));
        }
        if nodes.len() > 0 {
            let v = nodes[0];
            assert(nodes.contains(v));
            let k = choose|k: int| 0 <= k < lists.len() && #[trigger] lists[k].contains(v);
            assert(expanded_from(adj, before[k], expanded[k]));
            assert(!had_work(adj, before[k]));
            lemma_first_seen(outgoing(adj, before[k]), |v: usize| true);
            assert(outgoing(adj, before[k]).contains(v));
        }
    }
}

/// What a worker hands to the reduction are nodes of others, none of them twice.
pub proof fn sent_is_foreign_and_distinct(
    adj: Seq<Seq<usize>>,
    worker: Worker<PackedStripes>,
    message: BfsMessage,
)
    requires
        message.node_list() == outgoing_once(adj, worker),
    ensures
        message.node_list().no_duplicates(),
        forall|v: usize| #[trigger]
            message.node_list().contains(v) ==> worker.partition.owner_of(v) != worker.worker_id,
{
    let out = outgoing(adj, worker);
    lemma_first_seen(out, |v: usize| true);
    assert forall|v: usize| #[trigger] message.node_list().contains(v) implies !worker.mine(v) by {
        assert(out.contains(v));
        lemma_filter_contains(
            candidates(adj, worker.current_frontier@),
            |v: usize| !worker.mine(v),
            v,
        );
    }
}

/// The level at which a worker stops is the same for every worker: the first one at which none
/// has work.
pub proof fn broadcast_reduce_stops_at(
    adj: Seq<Seq<usize>>,
    s: usize,
    partition: PackedStripes,
    before: Seq<Worker<PackedStripes>>,
    expanded: Seq<Worker<PackedStripes>>,
    messages: Seq<BfsMessage>,
    whole: BfsMessage,
    got: BfsMessage,
    level: nat,
)
    requires
        dealt(adj, s, partition),
        synchronized(adj, s, partition, before, level),
        level + 1 < UNVISITED,
        prepared(adj, before, expanded, messages),
        reduced(messages, whole),
        whole.sealed(),
        got.has_work == mark_of(whole.order, bytes_of(whole.nodes)),
        got.order == whole.order,
        bytes_of(got.nodes) == bytes_of(whole.nodes),
    ensures
        (got.has_work == 0 && got.node_list().len() == 0) <==> !work_at(adj, s, partition, level),
{
    broadcast_reduce_agrees(adj, before, expanded, messages, whole, got);
    work_is_known(adj, s, partition, before, level);
}

/// What each worker made up for the reduction.
pub open spec fn prepared(
    adj: Seq<Seq<usize>>,
    before: Seq<Worker<PackedStripes>>,
    expanded: Seq<Worker<PackedStripes>>,
    messages: Seq<BfsMessage>,
) -> bool {
    &&& before.len() == expanded.len() == messages.len()
    &&& forall|w: int|
        0 <= w < before.len() ==> {
            &&& expanded_from(adj, before[w], #[trigger] expanded[w])
            &&& messages[w].node_list() == outgoing_once(adj, before[w])
            &&& messages[w].has_work > 0 <==> before[w].fresh_own(
                candidates(adj, before[w].current_frontier@),
            ).len() > 0
        }
}

/// A reduction to the root worker, which hands the result to all, finishes a level.
pub proof fn broadcast_reduce_finishes_level(
    adj: Seq<Seq<usize>>,
    s: usize,
    partition: PackedStripes,
    before: Seq<Worker<PackedStripes>>,
    expanded: Seq<Worker<PackedStripes>>,
    messages: Seq<BfsMessage>,
    whole: BfsMessage,
    after: Seq<Worker<PackedStripes>>,
    level: nat,
)
    requires
        dealt(adj, s, partition),
        synchronized(adj, s, partition, before, level),
        prepared(adj, before, expanded, messages),
        reduced(messages, whole),
        after.len() == before.len(),
        forall|w: int|
            0 <= w < before.len() ==> (#[trigger] after[w]).well_formed() && after[w].discovered(
                expanded[w],
                expanded[w].fresh_own(whole.node_list()),
            ) && after[w].current_frontier@ == expanded[w].current_frontier@,
        level + 1 < UNVISITED,
    ensures
        level_complete(adj, partition, before, after, level),
{
    let lists = lists_of(messages);
    assert forall|w: int| 0 <= w < before.len() implies {
        &&& (#[trigger] after[w]).well_formed()
        &&& expanded_from(adj, before[w], expanded[w])
        &&& contributes(adj, before[w], lists[w])
        &&& after[w].discovered(expanded[w], expanded[w].fresh_own(whole.node_list()))
        &&& after[w].current_frontier@ == expanded[w].current_frontier@
    } by {
        assert(expanded_from(adj, before[w], expanded[w]));
        outgoing_contributes(adj, before[w]);
    }
    broadcast_finishes_level(
        adj,
        s,
        partition,
        before,
        expanded,
        lists,
        whole.node_list(),
        after,
        level,
    );
}

/// When the workers stop, their tables together are the breadth-first search result.
pub proof fn broadcast_reduce_result(
    adj: Seq<Seq<usize>>,
    s: usize,
    partition: PackedStripes,
    before: Seq<Worker<PackedStripes>>,
    expanded: Seq<Worker<PackedStripes>>,
    messages: Seq<BfsMessage>,
    whole: BfsMessage,
    level: nat,
)
    requires
        adj.len() <= usize::MAX,
        dealt(adj, s, partition),
        synchronized(adj, s, partition, before, level),
        prepared(adj, before, expanded, messages),
        reduced(messages, whole),
        whole.has_work == 0 && whole.node_list().len() == 0,
        level + 1 < UNVISITED,
    ensures
        shortest_distances(adj, s, joint_table(partition, expanded)),
{
    let lists = lists_of(messages);
    assert forall|w: int| 0 <= w < before.len() implies {
        &&& (#[trigger] expanded[w]).well_formed()
        &&& expanded_from(adj, before[w], expanded[w])
        &&& contributes(adj, before[w], lists[w])
        &&& expanded[w].discovered(expanded[w], expanded[w].fresh_own(whole.node_list()))
    } by {
        outgoing_contributes(adj, before[w]);
        expanded[w].lemma_discovered_none(expanded[w].fresh_own(whole.node_list()));
    }
    assert forall|w: int| 0 <= w < before.len() implies (#[trigger] before[w]).fresh_own(
        candidates(adj, before[w].current_frontier@),
    ).len() == 0 by {
        assert(expanded_from(adj, before[w], expanded[w]));
        assert(!(messages[w].has_work > 0));
    }
    broadcast_result(
        adj,
        s,
        partition,
        before,
        expanded,
        lists,
        whole.node_list(),
        level,
    );
}

/// From as many levels on as the graph has nodes, the reduction brings neither work nor nodes:
/// the workers stop.
pub proof fn broadcast_reduce_stops(
    adj: Seq<Seq<usize>>,
    s: usize,
    partition: PackedStripes,
    before: Seq<Worker<PackedStripes>>,
    expanded: Seq<Worker<PackedStripes>>,
    messages: Seq<BfsMessage>,
    whole: BfsMessage,
    level: nat,
)
    requires
        dealt(adj, s, partition),
        synchronized(adj, s, partition, before, level),
        prepared(adj, before, expanded, messages),
        reduced(messages, whole),
        adj.len() <= level < UNVISITED,
    ensures
        whole.has_work == 0 && whole.node_list().len() == 0,
{
    let lists = lists_of(messages);
    frontiers_run_empty(adj, s, partition, before, level);
    assert forall|w: int| 0 <= w < messages.len() implies (#[trigger] messages[w]).has_work == 0
        && messages[w].node_list().len() == 0 by {
        assert(expanded_from(adj, before[w], expanded[w]));
        assert(before[w].current_frontier@.len() == 0);
        let cands = candidates(adj, before[w].current_frontier@);
        assert(cands =~= Seq::<usize>::empty());
        reveal(Seq::filter);
    }
    if whole.node_list().len() > 0 {
        let v = whole.node_list()[0];
        assert(whole.node_list().contains(v));
        let k = choose|k: int| 0 <= k < lists.len() && #[trigger] lists[k].contains(v);
        assert(messages[k].node_list().len() == 0);
    }
}

/// Every worker expands its frontier and makes up its message, and the messages are merged one
/// after the other, each sent over the wire. Returns the messages, for the proof.
fn reduce_all<G: NeighborLists>(
    workers: &mut Vec<Worker<PackedStripes>>,
    graph: &G,
    Ghost(partition): Ghost<PackedStripes>,
) -> (out: (BfsMessage, Ghost<Seq<BfsMessage>>))
    requires
        all_expandable(partition, graph, old(workers)@),
        old(workers)@.len() > 0,
    ensures
        prepared(graph.rows(), old(workers)@, final(workers)@, out.1@),
        reduced(out.1@, out.0),
        out.0.sealed(),
{
    let ghost before = workers@;
    let ghost adj = graph.rows();
    let strategy = BroadcastReduceStrategy;
    let ghost mut messages: Seq<BfsMessage> = Seq::empty();
    assert(before[0].well_formed());
    let mut whole = deliver(strategy.prepare(&mut workers[0], graph));
    proof {
        messages = seq![whole];
        one_is_reduced(whole);
    }
    let mut id: usize = 1;
    while id < workers.len()
        invariant
            adj == graph.rows(),
            1 <= id <= before.len(),
            before == old(workers)@,
            workers@.len() == before.len(),
            all_expandable(partition, graph, before),
            messages.len() == id,
            reduced(messages, whole),
            whole.sealed(),
            forall|w: int| id <= w < before.len() ==> #[trigger] workers@[w] == before[w],
            forall|w: int|
                0 <= w < id ==> {
                    &&& expanded_from(adj, before[w], #[trigger] workers@[w])
                    &&& messages[w].node_list() == outgoing_once(adj, before[w])
                    &&& messages[w].has_work > 0 <==> before[w].fresh_own(
                        candidates(adj, before[w].current_frontier@),
                    ).len() > 0
                },
        decreases before.len() - id,
    {
        let ghost earlier = workers@;
        let ghost old_messages = messages;
        proof {
            assert(workers@[id as int] == before[id as int]);
            assert(before[id as int].well_formed());
        }
        let message = deliver(strategy.prepare(&mut workers[id], graph));
        let ghost last = message;
        let ghost so_far = whole;
        whole = deliver(strategy.merge(whole, message));
        proof {
            one_is_reduced(last);
            merging_reduces(messages, seq![last], so_far, last, whole);
            messages = messages + seq![last];
            assert forall|w: int| 0 <= w < id + 1 implies {
                &&& expanded_from(adj, before[w], #[trigger] workers@[w])
                &&& messages[w].node_list() == outgoing_once(adj, before[w])
                &&& messages[w].has_work > 0 <==> before[w].fresh_own(
                    candidates(adj, before[w].current_frontier@),
                ).len() > 0
            } by {
                if w < id {
                    assert(workers@[w] == earlier[w]);
                    assert(messages[w] == old_messages[w]);
                    assert(expanded_from(adj, before[w], earlier[w]));
                } else {
                    assert(messages[w] == last);
                }
            }
        }
        id = id + 1;
    }
    (whole, Ghost(messages))
}

impl BroadcastReduceStrategy {
    /// Searches a graph from `source` by workers that take turns.
    pub fn search<G: NeighborLists>(
        &self,
        num_threads: u32,
        graph: &G,
        trial: Option<usize>,
        source: usize,
    ) -> (found: Found)
        requires
            num_threads > 0,
            graph.rows().len() <= u32::MAX + 1,
            graph.rows().len() + 1 < UNVISITED,
            usable_from(graph, source),
        ensures
            found.tells(
                graph.rows(),
                source,
                (PackedStripes { num_nodes: graph.rows().len() as usize, num_threads }),
                Pattern::Reduction,
                trial,
            ),
    {
        let num_nodes: usize = graph.node_count();
        let partition = PackedStripes { num_nodes, num_threads };
        let ghost adj = graph.rows();
        proof {
            assert(num_nodes as int / num_threads as int <= num_nodes) by (nonlinear_arith)
                requires
                    num_threads > 0,
                    num_nodes >= 0,
            ;
        }
        let mut workers = start_all(partition, num_threads, graph, source);
        let mut level: usize = 0;
        let mut keys: Vec<String> = Vec::new();
        let mut steps = Steps::new(trial, Pattern::Reduction);
        let ghost head: Seq<Seq<char>> = Seq::empty();
        assert(texts(keys@) =~= head + steps.passed());
        loop
            invariant_except_break
                level <= num_nodes,
                steps.phase == 0,
                synchronized(adj, source, partition, workers@, level as nat),
            invariant
                adj == graph.rows(),
                num_nodes == adj.len(),
                num_threads > 0,
                partition == (PackedStripes { num_nodes, num_threads }),
                searchable(partition, graph, source),
                steps.trial == trial,
                steps.pattern == Pattern::Reduction,
                steps.level == level,
                head.len() == 0,
                texts(keys@) == head + steps.passed(),
                forall|l: nat| l < level ==> #[trigger] work_at(adj, source, partition, l),
            ensures
                steps.at_end(),
                level < UNVISITED,
                !work_at(adj, source, partition, level as nat),
                in_step(partition, workers@, level as nat),
                shortest_distances(adj, source, joint_table(partition, workers@)),
            decreases num_nodes + 1 - level,
        {
            let ghost before = workers@;
            proof {
                lemma_all_expandable(partition, graph, source, before, level as nat);
            }
            let (whole, messages) = reduce_all(&mut workers, graph, Ghost(partition));
            note(&mut keys, &mut steps, Ghost(head));
            note(&mut keys, &mut steps, Ghost(head));
            let ghost expanded = workers@;
            let ghost lists = lists_of(messages@);
            proof {
                assert forall|w: int| 0 <= w < before.len() implies contributes(
                    adj,
                    before[w],
                    #[trigger] lists[w],
                ) by {
                    assert(expanded_from(adj, before[w], expanded[w]));
                    outgoing_contributes(adj, before[w]);
                }
                gathered_is_dealt(
                    adj,
                    source,
                    partition,
                    before,
                    lists,
                    whole.node_list(),
                    level as nat,
                );
                if level == num_nodes {
                    broadcast_reduce_stops(
                        adj,
                        source,
                        partition,
                        before,
                        expanded,
                        messages@,
                        whole,
                        level as nat,
                    );
                }
            }
            note(&mut keys, &mut steps, Ghost(head));
            let mut stop: bool = false;
            let mut id: usize = 0;
            while id < workers.len()
                invariant
                    id <= before.len(),
                    before.len() == num_threads,
                    num_threads > 0,
                    workers@.len() == before.len(),
                    expanded.len() == before.len(),
                    level + 1 < UNVISITED,
                    synchronized(adj, source, partition, before, level as nat),
                    whole.sealed(),
                    forall|v: usize| #[trigger]
                        whole.node_list().contains(v) ==> partition.places(v),
                    forall|w: int|
                        0 <= w < before.len() ==> expanded_from(adj, before[w], #[trigger] expanded[w]),
                    forall|w: int| id <= w < before.len() ==> #[trigger] workers@[w] == expanded[w],
                    forall|w: int|
                        0 <= w < id ==> {
                            &&& (#[trigger] workers@[w]).well_formed()
                            &&& workers@[w].discovered(
                                expanded[w],
                                expanded[w].fresh_own(whole.node_list()),
                            )
                            &&& workers@[w].current_frontier@ == expanded[w].current_frontier@
                        },
                    id > 0 ==> stop == (whole.has_work == 0 && whole.node_list().len() == 0),
                decreases before.len() - id,
            {
                proof {
                    assert(before[id as int].well_formed());
                    assert(workers@[id as int] == expanded[id as int]);
                    assert(expanded_from(adj, before[id as int], expanded[id as int]));
                }
                let got = deliver(whole.clone());
                stop = self.finish(&mut workers[id], &got);
                id = id + 1;
            }
            let ghost after = workers@;
            proof {
                packed_round_trip(whole.order, whole.has_work, whole.node_list());
                broadcast_reduce_agrees(adj, before, expanded, messages@, whole, whole);
                work_is_known(adj, source, partition, before, level as nat);
                broadcast_reduce_finishes_level(
                    adj,
                    source,
                    partition,
                    before,
                    expanded,
                    messages@,
                    whole,
                    after,
                    level as nat,
                );
            }
            if stop {
                proof {
                    lemma_quiet_broadcast(
                        adj,
                        source,
                        partition,
                        before,
                        expanded,
                        messages@,
                        whole,
                        after,
                        level as nat,
                    );
                }
                break;
            }
            assert forall|w: int| 0 <= w < after.len() implies (#[trigger] after[w]).current_level
                < usize::MAX by {}
            advance_all(&mut workers);
            proof {
                level_keeps_step(adj, source, partition, before, after, workers@, level as nat);
            }
            let _ok: bool = steps.next_level();
            level = level + 1;
        }
        proof {
            ended_search_has_all_keys(steps);
            assert(head + steps.passed() =~= steps.passed());
        }
        let lists = list_all(&workers, Ghost(partition), Ghost(level as nat));
        let distances = gather_all(&workers, &partition, num_nodes);
        Found { keys, levels: level + 1, distances, lists }
    }

    /// Searches a graph from each of the sources by workers that take turns.
    pub fn execute<G: NeighborLists>(&self, num_threads: u32, graph: &G, sources: &[usize]) -> (run:
        TrialsResult)
        requires
            num_threads > 0,
            graph.rows().len() <= u32::MAX + 1,
            graph.rows().len() + 1 < UNVISITED,
            forall|t: int| 0 <= t < sources@.len() ==> usable_from(graph, #[trigger] sources@[t]),
        ensures
            run.tells(
                graph.rows(),
                sources@,
                (PackedStripes { num_nodes: graph.rows().len() as usize, num_threads }),
                Pattern::Reduction,
            ),
    {
        let num_nodes: usize = graph.node_count();
        let ghost adj = graph.rows();
        let ghost partition = PackedStripes { num_nodes, num_threads };
        let mut run = TrialsResult::open::<PackedStripes>(
            num_threads,
            Ghost(adj),
            Ghost(sources@),
            Ghost(partition),
            Ghost(Pattern::Reduction),
        );
        let mut trial: usize = 0;
        while trial < sources.len()
            invariant
                adj == graph.rows(),
                num_nodes == adj.len(),
                partition == (PackedStripes { num_nodes, num_threads }),
                num_threads > 0,
                graph.rows().len() <= u32::MAX + 1,
                graph.rows().len() + 1 < UNVISITED,
                forall|t: int|
                    0 <= t < sources@.len() ==> usable_from(graph, #[trigger] sources@[t]),
                trial <= sources@.len(),
                run.tells_first(
                    adj,
                    sources@,
                    partition,
                    Pattern::Reduction,
                    trial as nat,
                ),
            decreases sources@.len() - trial,
        {
            let found = self.search(num_threads, graph, Some(trial), sources[trial]);
            run.record::<PackedStripes>(
                found,
                Ghost(adj),
                Ghost(sources@),
                Ghost(partition),
                Ghost(Pattern::Reduction),
            );
            trial = trial + 1;
        }
        run.close::<PackedStripes>(
            Ghost(adj),
            Ghost(sources@),
            Ghost(partition),
            Ghost(Pattern::Reduction),
        );
        run
    }
}

/// A level whose reduction brought neither work nor nodes has discovered nothing.
proof fn lemma_quiet_broadcast(
    adj: Seq<Seq<usize>>,
    s: usize,
    partition: PackedStripes,
    before: Seq<Worker<PackedStripes>>,
    expanded: Seq<Worker<PackedStripes>>,
    messages: Seq<BfsMessage>,
    whole: BfsMessage,
    after: Seq<Worker<PackedStripes>>,
    level: nat,
)
    requires
        adj.len() <= usize::MAX,
        dealt(adj, s, partition),
        synchronized(adj, s, partition, before, level),
        prepared(adj, before, expanded, messages),
        reduced(messages, whole),
        whole.has_work == 0 && whole.node_list().len() == 0,
        level_complete(adj, partition, before, after, level),
        forall|w: int|
            0 <= w < before.len() ==> (#[trigger] after[w]).discovered(
                expanded[w],
                expanded[w].fresh_own(whole.node_list()),
            ),
        level + 1 < UNVISITED,
    ensures
        shortest_distances(adj, s, joint_table(partition, after)),
{
    assert forall|w: int| 0 <= w < after.len() implies (
    #[trigger] after[w]).next_frontier@.len() == 0 by {
        assert(expanded_from(adj, before[w], expanded[w]));
        assert(before[w].next_frontier@.len() == 0);
        assert(!(messages[w].has_work > 0));
        assert(after[w].discovered(expanded[w], expanded[w].fresh_own(whole.node_list())));
    }
    quiet_level_is_result(adj, s, partition, before, after, level);
}

/// What merging makes of two messages: each node is larger than the one before it, the nodes are
/// those of either message, and a work mark has the bits of both.
pub proof fn merged_is_sorted_union(a: BfsMessage, b: BfsMessage, joined: BfsMessage)
    requires
        merged(a, b, joined),
    ensures
        forall|i: int|
            0 <= i < joined.node_list().len() - 1 ==> #[trigger] joined.node_list()[i]
                < joined.node_list()[i + 1],
        forall|v: usize|
            a.node_list().contains(v) || b.node_list().contains(v) <==> #[trigger]
                joined.node_list().contains(v),
        joined.has_work & a.has_work == a.has_work,
        joined.has_work & b.has_work == b.has_work,
        joined.has_work & !a.has_work & !b.has_work == 0,
{
    let x = a.has_work;
    let y = b.has_work;
    assert((x | y) & x == x && (x | y) & y == y && (x | y) & !x & !y == 0) by (bit_vector);
}

} // verus!

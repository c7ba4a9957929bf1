//! One frontier that all workers put together and then all get: why handing it
//! round finishes a level, and what the workers have when it is empty.

use vstd::prelude::*;

use crate::frontier::{candidates, lemma_first_seen};
use crate::lockstep::{
    dealt, exchange_completes_level, expanded_from, joint_table, lemma_met, level_complete, met,
    met_elsewhere, quiet_level_is_result, synchronized,
};
use crate::model::{shortest_distances, UNVISITED};
use crate::partition::Partition;
use crate::worker::Worker;

verus! {

/// `whole` has the nodes of all the lists, and no other.
pub open spec fn gathers(lists: Seq<Seq<usize>>, whole: Seq<usize>) -> bool {
    forall|v: usize| #[trigger]
        whole.contains(v) <==> exists|k: int| 0 <= k < lists.len() && #[trigger] lists[k].contains(v)
}

/// A worker contributes nodes that its frontier leads to, among them all that are not its own.
pub open spec fn contributes<P: Partition>(
    adj: Seq<Seq<usize>>,
    worker: Worker<P>,
    list: Seq<usize>,
) -> bool {
    &&& forall|v: usize| #[trigger]
        list.contains(v) ==> candidates(adj, worker.current_frontier@).contains(v)
    &&& forall|v: usize| #[trigger]
        candidates(adj, worker.current_frontier@).contains(v) && !worker.mine(v) ==> list.contains(
            v,
        )
}

/// One level of all workers: each expanded its frontier and contributed a list, the lists were
/// gathered, and each worker discovered its own nodes of the whole.
pub open spec fn broadcast_level<P: Partition>(
    adj: Seq<Seq<usize>>,
    before: Seq<Worker<P>>,
    expanded: Seq<Worker<P>>,
    lists: Seq<Seq<usize>>,
    whole: Seq<usize>,
    after: Seq<Worker<P>>,
) -> bool {
    &&& before.len() == expanded.len() == after.len() == lists.len()
    &&& gathers(lists, whole)
    &&& forall|w: int|
        0 <= w < before.len() ==> {
            &&& (#[trigger] after[w]).well_formed()
            &&& expanded_from(adj, before[w], expanded[w])
            &&& contributes(adj, before[w], lists[w])
            &&& after[w].discovered(expanded[w], expanded[w].fresh_own(whole))
            &&& after[w].current_frontier@ == expanded[w].current_frontier@
        }
}

/// Gathering two gathered halves gathers all lists: a reduction may join them in any shape.
pub proof fn gathering_composes(
    left: Seq<Seq<usize>>,
    right: Seq<Seq<usize>>,
    left_whole: Seq<usize>,
    right_whole: Seq<usize>,
    whole: Seq<usize>,
)
    requires
        gathers(left, left_whole),
        gathers(right, right_whole),
        forall|v: usize| #[trigger]
            whole.contains(v) <==> left_whole.contains(v) || right_whole.contains(v),
    ensures
        gathers(left + right, whole),
{
    assert forall|v: usize| #[trigger] whole.contains(v) <==> exists|k: int|
        0 <= k < (left + right).len() && #[trigger] (left + right)[k].contains(v) by {
        assert(left_whole.contains(v) <==> exists|k: int|
            0 <= k < left.len() && #[trigger] left[k].contains(v));
        assert(right_whole.contains(v) <==> exists|k: int|
            0 <= k < right.len() && #[trigger] right[k].contains(v));
        if left_whole.contains(v) {
            let k = choose|k: int| 0 <= k < left.len() && #[trigger] left[k].contains(v);
            assert((left + right)[k].contains(v));
        }
        if right_whole.contains(v) {
            let k = choose|k: int| 0 <= k < right.len() && #[trigger] right[k].contains(v);
            assert((left + right)[left.len() + k].contains(v));
        }
        if exists|k: int| 0 <= k < (left + right).len() && #[trigger] (left + right)[k].contains(v) {
            let k = choose|k: int|
                0 <= k < (left + right).len() && #[trigger] (left + right)[k].contains(v);
            if k < left.len() {
                assert(left[k].contains(v));
            } else {
                assert(right[k - left.len()].contains(v));
            }
        }
    }
}

/// A frontier that is gathered from all workers and handed to all finishes a level.
pub proof fn broadcast_finishes_level<P: Partition>(
    adj: Seq<Seq<usize>>,
    s: usize,
    partition: P,
    before: Seq<Worker<P>>,
    expanded: Seq<Worker<P>>,
    lists: Seq<Seq<usize>>,
    whole: Seq<usize>,
    after: Seq<Worker<P>>,
    level: nat,
)
    requires
        dealt(adj, s, partition),
        synchronized(adj, s, partition, before, level),
        broadcast_level(adj, before, expanded, lists, whole, after),
        level + 1 < UNVISITED,
    ensures
        level_complete(adj, partition, before, after, level),
{
    let taken = Seq::new(before.len(), |w: int| expanded[w].fresh_own(whole));
    assert forall|w: int, v: usize| 0 <= w < after.len() implies (#[trigger] taken[w].contains(v)
        <==> whole.contains(v) && partition.owner_of(v) == w && expanded[w].entry(v)
        == UNVISITED) by {
        assert(after[w].well_formed());
        assert(before[w].well_formed());
        lemma_first_seen(
            whole,
            |v: usize| expanded[w].mine(v) && expanded[w].entry(v) == UNVISITED,
        );
    }
    assert forall|w: int, v: usize| 0 <= w < after.len() && #[trigger] taken[w].contains(v) implies met(
        adj,
        before,
        v,
    ) by {
        let k = choose|k: int| 0 <= k < lists.len() && #[trigger] lists[k].contains(v);
        assert(after[k].well_formed());
        assert(candidates(adj, before[k].current_frontier@).contains(v));
    }
    assert forall|w: int, v: usize|
        0 <= w < after.len() && partition.places(v) && partition.owner_of(v) == w
            && expanded[w].entry(v) == UNVISITED && met_elsewhere(
            adj,
            before,
            w,
            v,
        ) implies #[trigger] taken[w].contains(v) by {
        let k = choose|k: int|
            0 <= k < before.len() && k != w && #[trigger] candidates(
                adj,
                before[k].current_frontier@,
            ).contains(v);
        assert(after[k].well_formed());
        assert(before[k].well_formed());
        assert(lists[k].contains(v));
        assert(whole.contains(v));
    }
    assert forall|w: int| 0 <= w < after.len() implies {
        &&& (#[trigger] after[w]).well_formed()
        &&& expanded_from(adj, before[w], expanded[w])
        &&& after[w].discovered(expanded[w], taken[w])
        &&& after[w].current_frontier@ == expanded[w].current_frontier@
    } by {}
    exchange_completes_level(adj, s, partition, before, expanded, after, taken, level);
}

/// When nothing was gathered and no worker discovered a node of its own, the tables together
/// are the breadth-first search result.
pub proof fn broadcast_result<P: Partition>(
    adj: Seq<Seq<usize>>,
    s: usize,
    partition: P,
    before: Seq<Worker<P>>,
    expanded: Seq<Worker<P>>,
    lists: Seq<Seq<usize>>,
    whole: Seq<usize>,
    level: nat,
)
    requires
        adj.len() <= usize::MAX,
        dealt(adj, s, partition),
        synchronized(adj, s, partition, before, level),
        broadcast_level(adj, before, expanded, lists, whole, expanded),
        whole.len() == 0,
        forall|w: int|
            0 <= w < before.len() ==> (#[trigger] before[w]).fresh_own(
                candidates(adj, before[w].current_frontier@),
            ).len() == 0,
        level + 1 < UNVISITED,
    ensures
        shortest_distances(adj, s, joint_table(partition, expanded)),
{
    broadcast_finishes_level(
        adj,
        s,
        partition,
        before,
        expanded,
        lists,
        whole,
        expanded,
        level,
    );
    assert forall|w: int| 0 <= w < expanded.len() implies (
    #[trigger] expanded[w]).next_frontier@.len() == 0 by {
        assert(before[w].well_formed());
        assert(before[w].next_frontier@.len() == 0);
    }
    quiet_level_is_result(adj, s, partition, before, expanded, level);
}

/// What is gathered are nodes that the division deals out.
pub proof fn gathered_is_dealt<P: Partition>(
    adj: Seq<Seq<usize>>,
    s: usize,
    partition: P,
    before: Seq<Worker<P>>,
    lists: Seq<Seq<usize>>,
    whole: Seq<usize>,
    level: nat,
)
    requires
        dealt(adj, s, partition),
        synchronized(adj, s, partition, before, level),
        level < UNVISITED,
        before.len() == lists.len(),
        forall|w: int|
            0 <= w < before.len() ==> contributes(adj, before[w], #[trigger] lists[w]),
        gathers(lists, whole),
    ensures
        forall|v: usize| #[trigger] whole.contains(v) ==> partition.places(v),
{
    assert forall|v: usize| #[trigger] whole.contains(v) implies partition.places(v) by {
        let k = choose|k: int| 0 <= k < lists.len() && #[trigger] lists[k].contains(v);
        assert(contributes(adj, before[k], lists[k]));
        assert(candidates(adj, before[k].current_frontier@).contains(v));
        assert(met(adj, before, v));
        lemma_met(adj, s, partition, before, level, v);
    }
}

} // verus!

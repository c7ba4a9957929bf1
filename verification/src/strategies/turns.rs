//! Workers that take turns in one thread: what every strategy does with all of
//! them.

use vstd::prelude::*;

use crate::frontier::candidates;
use crate::graph::{usable_from, NeighborLists};
use crate::lockstep::{
    advanced, dealt, frontier_can_be_expanded, joint_table, start_is_synchronized, started,
    synchronized, trials_start_search,
};
use crate::model::{reachable, walk, UNVISITED};
use crate::partition::Partition;
use crate::worker::Worker;

verus! {

/// A division deals out every node of a graph that can be searched from `source`.
pub open spec fn searchable<P: Partition, G: NeighborLists>(
    partition: P,
    graph: &G,
    source: usize,
) -> bool {
    &&& partition.valid()
    &&& partition.worker_total() <= u32::MAX
    &&& graph.rows().len() + 1 < UNVISITED
    &&& usable_from(graph, source)
    &&& dealt(graph.rows(), source, partition)
}

/// Every worker can expand its frontier.
pub open spec fn all_expandable<P: Partition, G: NeighborLists>(
    partition: P,
    graph: &G,
    workers: Seq<Worker<P>>,
) -> bool {
    &&& forall|w: int|
        0 <= w < workers.len() ==> {
            &&& (#[trigger] workers[w]).well_formed()
            &&& workers[w].partition == partition
            &&& workers[w].worker_id == w
            &&& workers[w].current_level + 1 < UNVISITED
        }
    &&& forall|w: int, i: int|
        0 <= w < workers.len() && 0 <= i < workers[w].current_frontier@.len() ==> graph.readable(
            #[trigger] workers[w].current_frontier@[i],
        )
    &&& forall|w: int, v: usize|
        0 <= w < workers.len() && #[trigger] candidates(
            graph.rows(),
            workers[w].current_frontier@,
        ).contains(v) ==> partition.places(v)
}

/// Between two levels every worker can expand its frontier.
pub proof fn lemma_all_expandable<P: Partition, G: NeighborLists>(
    partition: P,
    graph: &G,
    source: usize,
    workers: Seq<Worker<P>>,
    level: nat,
)
    requires
        searchable(partition, graph, source),
        synchronized(graph.rows(), source, partition, workers, level),
        level + 1 < UNVISITED,
    ensures
        all_expandable(partition, graph, workers),
{
    assert forall|w: int, i: int|
        0 <= w < workers.len() && 0 <= i
            < workers[w].current_frontier@.len() implies graph.readable(
        #[trigger] workers[w].current_frontier@[i],
    ) by {
        frontier_can_be_expanded(graph, source, partition, workers, level, w);
    }
    assert forall|w: int, v: usize|
        0 <= w < workers.len() && #[trigger] candidates(
            graph.rows(),
            workers[w].current_frontier@,
        ).contains(v) implies partition.places(v) by {
        frontier_can_be_expanded(graph, source, partition, workers, level, w);
    }
}

/// Sets up the workers of a search.
pub fn start_all<P: Partition + Copy, G: NeighborLists>(
    partition: P,
    num_threads: u32,
    graph: &G,
    source: usize,
) -> (workers: Vec<Worker<P>>)
    requires
        searchable(partition, graph, source),
        partition.worker_total() == num_threads,
    ensures
        started(partition, source, workers@),
        synchronized(graph.rows(), source, partition, workers@, 0),
{
    let mut workers: Vec<Worker<P>> = Vec::new();
    let mut id: u32 = 0;
    proof {
        assert(walk(graph.rows(), source, source, 0));
        assert(reachable(graph.rows(), source, source));
    }
    while id < num_threads
        invariant
            id <= num_threads,
            partition.valid(),
            partition.worker_total() == num_threads,
            partition.places(source),
            workers@.len() == id,
            forall|w: int|
                0 <= w < workers@.len() ==> (#[trigger] workers@[w]).partition == partition
                    && workers@[w].worker_id == w && workers@[w].trial_started(source),
        decreases num_threads - id,
    {
        let mut worker = Worker::new(partition, id);
        worker.start_trial(source);
        workers.push(worker);
        id = id + 1;
    }
    proof {
        trials_start_search(partition, source, workers@);
        start_is_synchronized(graph.rows(), source, partition, workers@);
    }
    workers
}

/// Every worker goes on to the next level.
pub fn advance_all<P: Partition>(workers: &mut Vec<Worker<P>>)
    requires
        forall|w: int|
            0 <= w < old(workers)@.len() ==> (#[trigger] old(workers)@[w]).current_level
                < usize::MAX,
    ensures
        advanced(old(workers)@, final(workers)@),
{
    let ghost before = workers@;
    let mut id: usize = 0;
    while id < workers.len()
        invariant
            id <= before.len(),
            before == old(workers)@,
            workers@.len() == before.len(),
            forall|w: int|
                0 <= w < before.len() ==> (#[trigger] before[w]).current_level < usize::MAX,
            forall|w: int| id <= w < before.len() ==> #[trigger] workers@[w] == before[w],
            forall|w: int|
                0 <= w < id ==> {
                    &&& (#[trigger] workers@[w]).partition == before[w].partition
                    &&& workers@[w].worker_id == before[w].worker_id
                    &&& workers@[w].distances@ == before[w].distances@
                    &&& workers@[w].current_frontier@ == before[w].next_frontier@
                    &&& workers@[w].next_frontier@ == before[w].current_frontier@
                    &&& workers@[w].current_level == before[w].current_level + 1
                },
        decreases before.len() - id,
    {
        assert(workers@[id as int] == before[id as int]);
        assert(before[id as int].current_level < usize::MAX);
        workers[id].advance();
        id = id + 1;
    }
}

/// The distance of every node, as its owner has it.
pub fn gather_all<P: Partition>(workers: &Vec<Worker<P>>, partition: &P, num_nodes: usize) -> (
distances: Vec<usize>)
    requires
        partition.valid(),
        partition.node_total() == num_nodes,
        workers@.len() == partition.worker_total(),
        forall|w: int|
            0 <= w < workers@.len() ==> (#[trigger] workers@[w]).well_formed()
                && workers@[w].partition == partition && workers@[w].worker_id == w,
    ensures
        distances@ == joint_table(*partition, workers@),
{
    let mut distances: Vec<usize> = Vec::new();
    let mut node: usize = 0;
    while node < num_nodes
        invariant
            node <= num_nodes,
            partition.valid(),
            partition.node_total() == num_nodes,
            workers@.len() == partition.worker_total(),
            forall|w: int|
                0 <= w < workers@.len() ==> (#[trigger] workers@[w]).well_formed()
                    && workers@[w].partition == partition && workers@[w].worker_id == w,
            distances@ =~= joint_table(*partition, workers@).take(node as int),
        decreases num_nodes - node,
    {
        if partition.is_placed(node) {
            proof {
                partition.owner_holds(node);
                partition.slot_inverts(partition.owner_of(node), node);
            }
            let owner: u32 = partition.owner(node);
            assert(workers@[owner as int].well_formed());
            let slot: usize = partition.slot(owner, node);
            distances.push(workers[owner as usize].distances[slot]);
        } else {
            distances.push(UNVISITED);
        }
        node = node + 1;
    }
    assert(distances@ =~= joint_table(*partition, workers@));
    distances
}

} // verus!

//! The ways in which workers exchange what they discover.

pub mod all_to_all;
pub mod all_to_all_numa;
pub mod broadcast;
pub mod broadcast_reduce;
pub mod delegate_runs;
pub mod delegates;
pub mod exchange;
pub mod frontier_reduce;
pub mod in_process;
pub mod outcome;
pub mod shared_table;
pub mod signals;
pub mod turns;

use vstd::prelude::*;

use crate::frontier::{candidates, candidates_of_two, lemma_filter_push};
use crate::partition::Partition;
use crate::worker::Worker;

verus! {

/// The worker that decides for all where one has to.
pub const ROOT_WORKER: u32 = 0;

/// The neighbors of a worker's frontier that belong to other workers, in the order in which
/// the worker meets them.
pub open spec fn outgoing<P: Partition>(adj: Seq<Seq<usize>>, worker: Worker<P>) -> Seq<usize> {
    candidates(adj, worker.current_frontier@).filter(|v: usize| !worker.mine(v))
}

/// The test for the nodes of worker `o`.
pub open spec fn owned_by<P: Partition>(partition: P, o: int) -> spec_fn(usize) -> bool {
    |v: usize| partition.owner_of(v) == o
}

/// Deals nodes out to their owners, in order.
pub fn deal<P: Partition>(partition: &P, num_threads: u32, nodes: &[usize]) -> (chunks: Vec<
    Vec<usize>,
>)
    requires
        partition.valid(),
        partition.worker_total() == num_threads,
        forall|k: int| 0 <= k < nodes@.len() ==> partition.places(#[trigger] nodes@[k]),
    ensures
        chunks@.len() == num_threads,
        forall|o: int|
            0 <= o < num_threads ==> (#[trigger] chunks@[o])@ == nodes@.filter(owned_by(*partition, o)),
{
    let mut chunks: Vec<Vec<usize>> = Vec::new();
    let mut t: u32 = 0;
    while t < num_threads
        invariant
            t <= num_threads,
            chunks@.len() == t,
            forall|o: int| 0 <= o < t ==> (#[trigger] chunks@[o])@ == Seq::<usize>::empty(),
        decreases num_threads - t,
    {
        chunks.push(Vec::new());
        t = t + 1;
    }
    let mut j: usize = 0;
    proof {
        reveal(Seq::filter);
        assert(nodes@.take(0) =~= Seq::<usize>::empty());
    }
    while j < nodes.len()
        invariant
            j <= nodes.len(),
            partition.valid(),
            partition.worker_total() == num_threads,
            forall|k: int| 0 <= k < nodes@.len() ==> partition.places(#[trigger] nodes@[k]),
            chunks@.len() == num_threads,
            forall|o: int|
                0 <= o < num_threads ==> (#[trigger] chunks@[o])@ == nodes@.take(j as int).filter(
                    owned_by(*partition, o),
                ),
        decreases nodes.len() - j,
    {
        let v: usize = nodes[j];
        let ghost before = chunks@;
        proof {
            assert(partition.places(nodes@[j as int]));
            partition.owner_holds(v);
            assert(nodes@.take(j + 1) =~= nodes@.take(j as int).push(v));
        }
        let owner: u32 = partition.owner(v);
        chunks[owner as usize].push(v);
        proof {
            assert forall|o: int| 0 <= o < num_threads implies (#[trigger] chunks@[o])@
                == nodes@.take(j + 1).filter(owned_by(*partition, o)) by {
                lemma_filter_push(nodes@.take(j as int), v, owned_by(*partition, o));
                assert(before[o]@ == nodes@.take(j as int).filter(owned_by(*partition, o)));
            }
        }
        j = j + 1;
    }
    assert(nodes@.take(nodes@.len() as int) =~= nodes@);
    chunks
}


/// What a worker sends out from a frontier is what it sends out from one part of it, and then
/// what it sends out from the rest. From a single node it sends out the neighbors that belong to
/// others, in their order and as often as they are listed.
pub proof fn outgoing_of_two<P: Partition>(
    adj: Seq<Seq<usize>>,
    first: Worker<P>,
    second: Worker<P>,
    both: Worker<P>,
    u: usize,
)
    requires
        first.partition == both.partition && first.worker_id == both.worker_id,
        second.partition == both.partition && second.worker_id == both.worker_id,
        both.current_frontier@ == first.current_frontier@ + second.current_frontier@,
    ensures
        outgoing(adj, both) == outgoing(adj, first) + outgoing(adj, second),
        first.current_frontier@ == seq![u] ==> outgoing(adj, first) == adj[u as int].filter(
            |v: usize| first.partition.owner_of(v) != first.worker_id,
        ),
        first.current_frontier@.len() == 0 ==> outgoing(adj, first).len() == 0,
{
    let a = first.current_frontier@;
    let b = second.current_frontier@;
    let foreign = |v: usize| !both.mine(v);
    candidates_of_two(adj, a, b, u);
    Seq::filter_distributes_over_add(candidates(adj, a), candidates(adj, b), foreign);
    assert((|v: usize| !first.mine(v)) =~= foreign);
    assert((|v: usize| !second.mine(v)) =~= foreign);
    assert((|v: usize| first.partition.owner_of(v) != first.worker_id) =~= foreign);
    if a.len() == 0 {
        assert(a =~= Seq::<usize>::empty());
        candidates(adj, a).lemma_filter_len(foreign);
    }
}

/// The nodes of a list that go to a worker are those of one part of it, and then those of the
/// rest. A single node goes to its owner and to no other worker.
pub proof fn shares_of_two<P: Partition>(
    partition: P,
    first: Seq<usize>,
    second: Seq<usize>,
    v: usize,
    o: int,
)
    ensures
        (first + second).filter(owned_by(partition, o)) == first.filter(owned_by(partition, o))
            + second.filter(owned_by(partition, o)),
        seq![v].filter(owned_by(partition, o)) == (if partition.owner_of(v) == o {
            seq![v]
        } else {
            Seq::empty()
        }),
{
    let test = owned_by(partition, o);
    Seq::filter_distributes_over_add(first, second, test);
    lemma_filter_push(Seq::<usize>::empty(), v, test);
    reveal(Seq::filter);
    assert(Seq::<usize>::empty().push(v) =~= seq![v]);
}

} // verus!

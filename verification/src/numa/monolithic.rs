//! All memory on one node.

use vstd::prelude::*;

use super::{bind_words, bound_to, laid_out, word_bytes, Addresses, Binding, NumaPolicy};
use crate::graph::csr::Graph;

verus! {

/// The graph goes to node 0, and the threads to the two nodes in turn.
pub struct MonolithicNumaPolicy;

impl NumaPolicy for MonolithicNumaPolicy {
    open spec fn places(&self, graph: &Graph) -> bool {
        true
    }

    open spec fn memory_plan(&self, graph: &Graph, at: Addresses, num_distances: nat) -> Seq<
        Binding,
    > {
        let offsets = bound_to(
            at.offsets as int,
            word_bytes(graph.offsets@.len() as int),
            0,
        );
        if graph.edges@.len() == 0 {
            seq![offsets]
        } else {
            seq![
                offsets,
                bound_to(at.edges as int, word_bytes(graph.edges@.len() as int), 0),
            ]
        }
    }

    open spec fn thread_node(&self, worker_id: u32) -> u32 {
        worker_id % 2
    }

    fn can_place(&self, graph: &Graph) -> (ok: bool) {
        true
    }

    fn apply_memory_policy(&self, graph: &Graph, at: Addresses, num_distances: usize) -> (plan: Vec<
        Binding,
    >) {
        let mut plan: Vec<Binding> = Vec::new();
        plan.push(bind_words(at.offsets, graph.offsets.len(), 0));
        if graph.edges.len() > 0 {
            plan.push(bind_words(at.edges, graph.edges.len(), 0));
        }
        assert(plan@ =~= self.memory_plan(graph, at, num_distances as nat));
        plan
    }

    fn apply_thread_policy(&self, worker_id: u32) -> (node: u32) {
        worker_id % 2
    }
}

/// The monolithic plan requests all of the offsets and all of the edges, from the page that each
/// array begins in to its end, for node 0, and nothing else.
pub proof fn monolithic_plan_covers_graph(
    policy: MonolithicNumaPolicy,
    graph: &Graph,
    at: Addresses,
    num_distances: nat,
)
    requires
        laid_out(graph, at, num_distances),
    ensures
        ({
            let plan = policy.memory_plan(graph, at, num_distances);
            let word = usize::BITS as int / 8;
            &&& plan.len() == (if graph.edges@.len() == 0 {
                1nat
            } else {
                2nat
            })
            &&& forall|i: int| 0 <= i < plan.len() ==> (#[trigger] plan[i]).node == 0
            &&& forall|i: int|
                0 <= i < plan.len() ==> (#[trigger] plan[i]).start as int % 4096 == 0
            &&& plan[0].start <= at.offsets < plan[0].start + 4096
            &&& plan[0].start + plan[0].bytes == at.offsets + word * graph.offsets@.len()
            &&& graph.edges@.len() > 0 ==> plan[1].start <= at.edges < plan[1].start + 4096
                && plan[1].start + plan[1].bytes == at.edges + word * graph.edges@.len()
        }),
{
    let w = usize::BITS / 8;
    let word = usize::BITS as int / 8;
    let a = graph.offsets@.len() as int;
    let b = graph.edges@.len() as int;
    assert(a * w >= 0 && b * w >= 0 && a * w == word * a && b * w == word * b)
        by (nonlinear_arith)
        requires
            a >= 0,
            b >= 0,
            w >= 0,
            w == word,
    ;
    super::binding_covers(at.offsets as int, word_bytes(a), 0);
    super::binding_covers(at.edges as int, word_bytes(b), 0);
}

/// Threads go to the two nodes in turn: the first worker to node 0, and each to another node
/// than the one before.
pub proof fn monolithic_threads_alternate(policy: MonolithicNumaPolicy, worker_id: u32)
    ensures
        policy.thread_node(0) == 0,
        policy.thread_node(worker_id) == 0 || policy.thread_node(worker_id) == 1,
        worker_id < u32::MAX ==> policy.thread_node((worker_id + 1) as u32)
            != policy.thread_node(worker_id),
{
}

} // verus!

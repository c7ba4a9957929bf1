//! Memory in two halves on two nodes.

use vstd::prelude::*;

use super::{bind_words, bound_to, laid_out, word_bytes, Addresses, Binding, NumaPolicy};
use crate::graph::csr::{lemma_offsets_ordered, Graph};

verus! {

/// The first half of each array goes to node 0 and the second half to node 1, and the threads
/// to the two nodes in turn. The edges are cut where the neighbor lists of the second half of
/// the offsets begin.
pub struct DividedNumaPolicy;

/// The requests for an array of `total` words that is cut after `mid` words.
pub open spec fn halves(address: int, mid: int, total: int) -> Seq<Binding> {
    seq![
        bound_to(address, word_bytes(mid), 0),
        bound_to(address + word_bytes(mid), word_bytes(total - mid), 1),
    ]
}

/// Adds the requests for an array of `total` words that is cut after `mid` words.
fn push_halves(plan: &mut Vec<Binding>, address: usize, mid: usize, total: usize)
    requires
        mid <= total,
        address + word_bytes(total as int) <= usize::MAX,
    ensures
        final(plan)@ == old(plan)@ + halves(address as int, mid as int, total as int),
{
    let ghost before = plan@;
    let word: usize = (usize::BITS / 8) as usize;
    proof {
        let w = usize::BITS / 8;
        assert(mid * w <= total * w && mid * w + (total - mid) * w == total * w && mid * w >= 0
            && (total - mid) * w >= 0) by (nonlinear_arith)
            requires
                mid <= total,
                w >= 0,
        ;
        assert(mid * word == mid * w) by (nonlinear_arith)
            requires
                word == w,
        ;
    }
    plan.push(bind_words(address, mid, 0));
    plan.push(bind_words(address + mid * word, total - mid, 1));
    assert(plan@ =~= before + halves(address as int, mid as int, total as int));
}

impl NumaPolicy for DividedNumaPolicy {
    open spec fn places(&self, graph: &Graph) -> bool {
        &&& graph.offsets@.len() > 0
        &&& graph.offsets@[graph.offsets@.len() as int / 2] <= graph.edges@.len()
    }

    open spec fn memory_plan(&self, graph: &Graph, at: Addresses, num_distances: nat) -> Seq<
        Binding,
    > {
        let mid = graph.offsets@.len() as int / 2;
        halves(at.offsets as int, mid, graph.offsets@.len() as int) + halves(
            at.edges as int,
            graph.offsets@[mid] as int,
            graph.edges@.len() as int,
        ) + match at.distances {
            Some(address) => halves(
                address as int,
                num_distances as int / 2,
                num_distances as int,
            ),
            None => Seq::empty(),
        }
    }

    open spec fn thread_node(&self, worker_id: u32) -> u32 {
        worker_id % 2
    }

    fn can_place(&self, graph: &Graph) -> (ok: bool) {
        graph.offsets.len() > 0 && graph.offsets[graph.offsets.len() / 2] <= graph.edges.len()
    }

    fn apply_memory_policy(&self, graph: &Graph, at: Addresses, num_distances: usize) -> (plan: Vec<
        Binding,
    >) {
        let mut plan: Vec<Binding> = Vec::new();
        let offsets_len: usize = graph.offsets.len();
        let offsets_mid: usize = offsets_len / 2;
        push_halves(&mut plan, at.offsets, offsets_mid, offsets_len);
        push_halves(&mut plan, at.edges, graph.offsets[offsets_mid], graph.edges.len());
        if let Some(address) = at.distances {
            push_halves(&mut plan, address, num_distances / 2, num_distances);
        }
        assert(plan@ =~= self.memory_plan(graph, at, num_distances as nat));
        plan
    }

    fn apply_thread_policy(&self, worker_id: u32) -> (node: u32) {
        worker_id % 2
    }
}

/// The two requests for an array join without a gap: the words of the first end where those of
/// the second begin, and together they end where the array ends.
pub proof fn halves_cover(address: int, mid: int, total: int)
    requires
        0 <= address,
        0 <= mid <= total,
        address + word_bytes(total) <= usize::MAX,
    ensures
        halves(address, mid, total).len() == 2,
        halves(address, mid, total)[0].start <= address,
        halves(address, mid, total)[1].start <= halves(address, mid, total)[0].start + halves(
            address,
            mid,
            total,
        )[0].bytes,
        halves(address, mid, total)[1].start + halves(address, mid, total)[1].bytes == address
            + word_bytes(total),
        halves(address, mid, total)[0].node == 0 && halves(address, mid, total)[1].node == 1,
{
    let w = usize::BITS / 8;
    assert(mid * w <= total * w && mid * w + (total - mid) * w == total * w && mid * w >= 0 && (
    total - mid) * w >= 0) by (nonlinear_arith)
        requires
            0 <= mid <= total,
            w >= 0,
    ;
    super::binding_covers(address, word_bytes(mid), 0);
    super::binding_covers(address + word_bytes(mid), word_bytes(total - mid), 1);
}

/// The bytes of words `from` to `to` of an array at `address` lie within a request, but for what
/// stands before the first page boundary: the request begins no later and ends no earlier.
pub open spec fn holds_words(binding: Binding, address: int, from: int, to: int) -> bool {
    &&& binding.start <= address + from * (usize::BITS / 8)
    &&& address + to * (usize::BITS / 8) <= binding.start + binding.bytes
}

/// Words of either part of an array lie within the request for that part.
proof fn lemma_part_holds(address: int, mid: int, total: int, from: int, to: int)
    requires
        0 <= address,
        0 <= mid <= total,
        address + word_bytes(total) <= usize::MAX,
        0 <= from <= to <= total,
    ensures
        to <= mid ==> holds_words(halves(address, mid, total)[0], address, from, to),
        mid <= from ==> holds_words(halves(address, mid, total)[1], address, from, to),
        halves(address, mid, total)[0].start + halves(address, mid, total)[0].bytes == address
            + mid * (usize::BITS / 8),
        halves(address, mid, total)[0].node == 0,
        halves(address, mid, total)[1].node == 1,
{
    let w = usize::BITS / 8;
    assert(mid * w <= total * w && mid * w + (total - mid) * w == total * w && mid * w >= 0 && (
    total - mid) * w >= 0 && 0 <= from * w <= to * w <= total * w) by (nonlinear_arith)
        requires
            0 <= mid <= total,
            0 <= from <= to <= total,
            w >= 0,
    ;
    if to <= mid {
        assert(to * w <= mid * w) by (nonlinear_arith)
            requires
                to <= mid,
                w >= 0,
        ;
    }
    if mid <= from {
        assert(mid * w <= from * w) by (nonlinear_arith)
            requires
                mid <= from,
                w >= 0,
        ;
    }
    super::binding_covers(address, word_bytes(mid), 0);
    super::binding_covers(address + word_bytes(mid), word_bytes(total - mid), 1);
}

/// The divided plan keeps a node's data together: the offset of every node and all of its
/// neighbor list are requested for the same NUMA node, the first one for the lower half of the
/// offsets and the second one for the others, and no neighbor list is split.
pub proof fn divided_plan_keeps_lists_whole(
    policy: DividedNumaPolicy,
    graph: &Graph,
    at: Addresses,
    num_distances: nat,
    u: int,
)
    requires
        laid_out(graph, at, num_distances),
        policy.places(graph),
        forall|x: int| 0 <= x < graph.node_total() ==> #[trigger] graph.row_in_bounds(x),
        0 <= u < graph.node_total(),
    ensures
        ({
            let plan = policy.memory_plan(graph, at, num_distances);
            let half = if u < graph.offsets@.len() as int / 2 {
                0int
            } else {
                1int
            };
            &&& plan[half].node == half
            &&& plan[2 + half].node == half
            &&& holds_words(plan[half], at.offsets as int, u, u + 1)
            &&& holds_words(
                plan[2 + half],
                at.edges as int,
                graph.offsets@[u] as int,
                graph.offsets@[u + 1] as int,
            )
        }),
{
    let mid = graph.offsets@.len() as int / 2;
    let total = graph.offsets@.len() as int;
    assert(graph.row_in_bounds(u));
    lemma_part_holds(at.offsets as int, mid, total, u, u + 1);
    if u < mid {
        lemma_offsets_ordered(graph, u + 1, mid);
    } else {
        lemma_offsets_ordered(graph, mid, u);
    }
    lemma_part_holds(
        at.edges as int,
        graph.offsets@[mid] as int,
        graph.edges@.len() as int,
        graph.offsets@[u] as int,
        graph.offsets@[u + 1] as int,
    );
    let plan = policy.memory_plan(graph, at, num_distances);
    let first = halves(at.offsets as int, mid, total);
    let second = halves(
        at.edges as int,
        graph.offsets@[mid] as int,
        graph.edges@.len() as int,
    );
    assert(plan[0] == first[0] && plan[1] == first[1]);
    assert(plan[2] == second[0] && plan[3] == second[1]);
}

/// The first request for each array of the divided plan ends where the second half begins: at
/// half of the offsets, at the first list of the second half, and at half of the distances. The
/// second one goes to the end of the array. There are two requests for each array that is there.
pub proof fn divided_plan_cuts_arrays(
    policy: DividedNumaPolicy,
    graph: &Graph,
    at: Addresses,
    num_distances: nat,
)
    requires
        laid_out(graph, at, num_distances),
        policy.places(graph),
    ensures
        ({
            let plan = policy.memory_plan(graph, at, num_distances);
            let word = usize::BITS as int / 8;
            let half = graph.offsets@.len() as int / 2;
            &&& plan.len() == (if at.distances is Some {
                6nat
            } else {
                4nat
            })
            &&& forall|i: int| 0 <= i < plan.len() ==> (#[trigger] plan[i]).node == i % 2
            &&& forall|i: int|
                0 <= i < plan.len() ==> (#[trigger] plan[i]).start as int % 4096 == 0
            &&& plan[0].start + plan[0].bytes == at.offsets + word * half
            &&& plan[1].start + plan[1].bytes == at.offsets + word * graph.offsets@.len()
            &&& plan[2].start + plan[2].bytes == at.edges + word * graph.offsets@[half]
            &&& plan[3].start + plan[3].bytes == at.edges + word * graph.edges@.len()
            &&& at.distances matches Some(table) ==> {
                &&& plan[4].start + plan[4].bytes == table + word * (num_distances as int / 2)
                &&& plan[5].start + plan[5].bytes == table + word * num_distances
                &&& plan[4].start <= table < plan[4].start + 4096
                &&& plan[5].start <= table + word * (num_distances as int / 2) < plan[5].start
                    + 4096
            }
            &&& plan[0].start <= at.offsets < plan[0].start + 4096
            &&& plan[1].start <= at.offsets + word * half < plan[1].start + 4096
            &&& plan[2].start <= at.edges < plan[2].start + 4096
            &&& plan[3].start <= at.edges + word * graph.offsets@[half] < plan[3].start + 4096
        }),
{
    let plan = policy.memory_plan(graph, at, num_distances);
    let mid = graph.offsets@.len() as int / 2;
    let total = graph.offsets@.len() as int;
    lemma_cut(at.offsets as int, mid, total);
    lemma_cut(at.edges as int, graph.offsets@[mid] as int, graph.edges@.len() as int);
    let first = halves(at.offsets as int, mid, total);
    let second = halves(
        at.edges as int,
        graph.offsets@[mid] as int,
        graph.edges@.len() as int,
    );
    assert(plan[0] == first[0] && plan[1] == first[1]);
    assert(plan[2] == second[0] && plan[3] == second[1]);
    if let Some(table) = at.distances {
        lemma_cut(table as int, num_distances as int / 2, num_distances as int);
        let third = halves(table as int, num_distances as int / 2, num_distances as int);
        assert(plan[4] == third[0] && plan[5] == third[1]);
    }
}

/// Where the two requests for an array begin and end.
proof fn lemma_cut(address: int, mid: int, total: int)
    requires
        0 <= address,
        0 <= mid <= total,
        address + word_bytes(total) <= usize::MAX,
    ensures
        ({
            let word = usize::BITS as int / 8;
            let pair = halves(address, mid, total);
            &&& pair[0].start as int % 4096 == 0 && pair[1].start as int % 4096 == 0
            &&& pair[0].start <= address < pair[0].start + 4096
            &&& pair[0].start + pair[0].bytes == address + word * mid
            &&& pair[1].start <= address + word * mid < pair[1].start + 4096
            &&& pair[1].start + pair[1].bytes == address + word * total
        }),
{
    let w = usize::BITS / 8;
    let word = usize::BITS as int / 8;
    assert(mid * w <= total * w && mid * w + (total - mid) * w == total * w && mid * w >= 0 && (
    total - mid) * w >= 0 && mid * w == word * mid && total * w == word * total)
        by (nonlinear_arith)
        requires
            0 <= mid <= total,
            w >= 0,
            w == word,
    ;
    super::binding_covers(address, word_bytes(mid), 0);
    super::binding_covers(address + word_bytes(mid), word_bytes(total - mid), 1);
}

/// Threads go to the two nodes in turn: the first worker to node 0, and each to another node
/// than the one before.
pub proof fn divided_threads_alternate(policy: DividedNumaPolicy, worker_id: u32)
    ensures
        policy.thread_node(0) == 0,
        policy.thread_node(worker_id) == 0 || policy.thread_node(worker_id) == 1,
        worker_id < u32::MAX ==> policy.thread_node((worker_id + 1) as u32)
            != policy.thread_node(worker_id),
{
}

} // verus!

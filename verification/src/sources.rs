//! The nodes that trials start from, drawn by a seeded generator.

use rand::rngs::StdRng;
use rand::{Rng, SeedableRng};
use vstd::prelude::*;

use crate::graph::csr::Graph;

verus! {

/// The generator of rand.
#[verifier::external_type_specification]
#[verifier::external_body]
pub struct ExStdRng(StdRng);

/// The number at place `k` of those that a generator with this seed draws.
pub uninterp spec fn seeded_draw(seed: u64, k: nat) -> u64;

/// The number at place `k` of those that a generator will draw.
pub uninterp spec fn coming_draw(rng: StdRng, k: nat) -> u64;

/// `SeedableRng::seed_from_u64` of rand for `StdRng`: what the generator will draw is fixed by
/// the seed.
#[verifier::external_body]
fn seed_from_u64(seed: u64) -> (rng: StdRng)
    ensures
        forall|k: nat| #[trigger] coming_draw(rng, k) == seeded_draw(seed, k),
{
    StdRng::seed_from_u64(seed)
}

/// `Rng::next_u64` of rand for `StdRng`: the first of the coming numbers, after which the
/// others move up by one place.
#[verifier::external_body]
fn next_u64(rng: &mut StdRng) -> (x: u64)
    ensures
        x == coming_draw(*old(rng), 0),
        forall|k: nat| #[trigger] coming_draw(*final(rng), k) == coming_draw(*old(rng), k + 1),
{
    rng.next_u64()
}

/// The node that a drawn number stands for.
pub open spec fn drawn_node(seed: u64, num_nodes: usize, k: nat) -> usize {
    (seeded_draw(seed, k) as usize) % num_nodes
}

/// The nodes with neighbors among the first `k` that are drawn, in order.
pub open spec fn picks(degrees: Seq<nat>, seed: u64, k: nat) -> Seq<usize>
    decreases k,
{
    if k == 0 {
        Seq::empty()
    } else {
        let earlier = picks(degrees, seed, (k - 1) as nat);
        let u = drawn_node(seed, degrees.len() as usize, (k - 1) as nat);
        if degrees[u as int] > 0 {
            earlier.push(u)
        } else {
            earlier
        }
    }
}

/// The picks among fewer draws come first among those of more.
pub proof fn lemma_picks_prefix(degrees: Seq<nat>, seed: u64, j: nat, k: nat)
    requires
        j <= k,
    ensures
        picks(degrees, seed, j).is_prefix_of(picks(degrees, seed, k)),
    decreases k,
{
    if j < k {
        lemma_picks_prefix(degrees, seed, j, (k - 1) as nat);
    }
}

/// Every pick is a node that has neighbors.
pub proof fn picks_have_neighbors(degrees: Seq<nat>, seed: u64, k: nat, i: int)
    requires
        0 < degrees.len() <= usize::MAX,
        0 <= i < picks(degrees, seed, k).len(),
    ensures
        picks(degrees, seed, k)[i] < degrees.len(),
        degrees[picks(degrees, seed, k)[i] as int] > 0,
    decreases k,
{
    if i < picks(degrees, seed, (k - 1) as nat).len() {
        picks_have_neighbors(degrees, seed, (k - 1) as nat, i);
    }
}

/// Draws nodes until as many as there are trials had neighbors. Gives up after `limit` draws.
pub fn pick_sources(graph: &Graph, trials: u32, seed: u64, limit: usize) -> (sources: Option<
    Vec<usize>,
>)
    requires
        graph@.len() > 0,
        graph.ordered(),
    ensures
        sources is Some <==> picks(graph.degrees(), seed, limit as nat).len() >= trials,
        sources is Some ==> sources->0@ == picks(graph.degrees(), seed, limit as nat).take(trials as int),
{
    let ghost degrees = graph.degrees();
    let num_nodes: usize = graph.num_nodes();
    let mut rng = seed_from_u64(seed);
    let mut sources: Vec<usize> = Vec::new();
    let mut drawn: usize = 0;
    while sources.len() < trials as usize
        invariant
            degrees == graph.degrees(),
            num_nodes == graph@.len(),
            num_nodes > 0,
            graph.ordered(),
            drawn <= limit,
            sources@ == picks(degrees, seed, drawn as nat),
            sources@.len() <= trials,
            forall|k: nat| #[trigger] coming_draw(rng, k) == seeded_draw(seed, drawn as nat + k),
        decreases limit - drawn,
    {
        if drawn == limit {
            return None;
        }
        let ghost before = rng;
        let u: usize = (next_u64(&mut rng) as usize) % num_nodes;
        proof {
            assert(coming_draw(before, 0) == seeded_draw(seed, drawn as nat + 0));
            assert(u == drawn_node(seed, num_nodes, drawn as nat));
            assert forall|k: nat| #[trigger] coming_draw(rng, k) == seeded_draw(
                seed,
                (drawn + 1) as nat + k,
            ) by {
                assert(coming_draw(before, k + 1) == seeded_draw(seed, drawn as nat + (k + 1)));
            }
            assert(graph.offsets@[u as int] <= graph.offsets@[u + 1]);
        }
        if graph.degree(u) > 0 {
            sources.push(u);
        }
        drawn = drawn + 1;
    }
    proof {
        lemma_picks_prefix(degrees, seed, drawn as nat, limit as nat);
        assert(sources@ =~= picks(degrees, seed, limit as nat).take(trials as int));
    }
    Some(sources)
}

/// The node that a single trial starts from.
pub fn pick_source(graph: &Graph, seed: u64, limit: usize) -> (source: Option<usize>)
    requires
        graph@.len() > 0,
        graph.ordered(),
    ensures
        source is Some <==> picks(graph.degrees(), seed, limit as nat).len() >= 1,
        source is Some ==> source->0 == picks(graph.degrees(), seed, limit as nat)[0],
{
    match pick_sources(graph, 1, seed, limit) {
        Some(sources) => Some(sources[0]),
        None => None,
    }
}

/// Draws one node for every trial, whether it has neighbors or not.
pub fn pick_any(num_nodes: usize, trials: u32, seed: u64) -> (sources: Vec<usize>)
    requires
        num_nodes > 0,
    ensures
        sources@.len() == trials,
        forall|i: int|
            0 <= i < trials ==> #[trigger] sources@[i] == drawn_node(seed, num_nodes, i as nat),
{
    let mut rng = seed_from_u64(seed);
    let mut sources: Vec<usize> = Vec::new();
    while sources.len() < trials as usize
        invariant
            num_nodes > 0,
            sources@.len() <= trials,
            forall|i: int|
                0 <= i < sources@.len() ==> #[trigger] sources@[i] == drawn_node(
                    seed,
                    num_nodes,
                    i as nat,
                ),
            forall|k: nat| #[trigger]
                coming_draw(rng, k) == seeded_draw(seed, sources@.len() + k),
        decreases trials - sources@.len(),
    {
        let ghost before = rng;
        let ghost drawn = sources@.len();
        let u: usize = (next_u64(&mut rng) as usize) % num_nodes;
        proof {
            assert(coming_draw(before, 0) == seeded_draw(seed, drawn + 0));
            assert forall|k: nat| #[trigger] coming_draw(rng, k) == seeded_draw(
                seed,
                (drawn + 1) + k,
            ) by {
                assert(coming_draw(before, k + 1) == seeded_draw(seed, drawn + (k + 1)));
            }
        }
        sources.push(u);
    }
    sources
}

/// The first source of the trials is the one of a single trial, however many draws each was
/// given: who knows the seed can search from it again.
pub proof fn first_source_is_known(
    degrees: Seq<nat>,
    seed: u64,
    trials_limit: nat,
    single_limit: nat,
)
    requires
        picks(degrees, seed, trials_limit).len() > 0,
        picks(degrees, seed, single_limit).len() > 0,
    ensures
        picks(degrees, seed, trials_limit)[0] == picks(degrees, seed, single_limit)[0],
{
    if trials_limit <= single_limit {
        lemma_picks_prefix(degrees, seed, trials_limit, single_limit);
    } else {
        lemma_picks_prefix(degrees, seed, single_limit, trials_limit);
    }
}

/// A drawn number stands for the node that it leaves over when the nodes are counted off.
pub proof fn drawn_node_is_remainder(seed: u64, num_nodes: usize, k: nat)
    requires
        num_nodes > 0,
    ensures
        drawn_node(seed, num_nodes, k) < num_nodes,
        exists|q: int|
            (seeded_draw(seed, k) as usize) as int == #[trigger] (q * num_nodes as int)
                + drawn_node(seed, num_nodes, k),
{
    let x = (seeded_draw(seed, k) as usize) as int;
    let n = num_nodes as int;
    vstd::arithmetic::div_mod::lemma_fundamental_div_mod(x, n);
    vstd::arithmetic::mul::lemma_mul_is_commutative(n, x / n);
    assert(x == (x / n) * n + drawn_node(seed, num_nodes, k));
}

/// The nodes that the first `k` numbers stand for, in order.
pub open spec fn drawn_nodes(seed: u64, num_nodes: usize, k: nat) -> Seq<usize> {
    Seq::new(k, |i: int| drawn_node(seed, num_nodes, i as nat))
}

/// The test for nodes that have neighbors.
pub open spec fn has_neighbors(degrees: Seq<nat>) -> spec_fn(usize) -> bool {
    |u: usize| degrees[u as int] > 0
}

/// The picks are the drawn nodes that have neighbors, however many: all of them, each as often
/// as it is drawn, in order.
pub proof fn picks_are_drawn_nodes(degrees: Seq<nat>, seed: u64, k: nat)
    ensures
        picks(degrees, seed, k) == drawn_nodes(seed, degrees.len() as usize, k).filter(
            has_neighbors(degrees),
        ),
    decreases k,
{
    reveal(Seq::filter);
    let n = degrees.len() as usize;
    let keep = has_neighbors(degrees);
    let all = drawn_nodes(seed, n, k);
    if k == 0 {
        assert(picks(degrees, seed, k) =~= all.filter(keep));
    } else {
        let last = (k - 1) as nat;
        picks_are_drawn_nodes(degrees, seed, last);
        assert(all.drop_last() =~= drawn_nodes(seed, n, last));
        assert(all.last() == drawn_node(seed, n, last));
    }
}

/// A node that is drawn and has a neighbor is picked.
pub proof fn drawn_node_with_neighbor_is_picked(degrees: Seq<nat>, seed: u64, k: nat, i: nat)
    requires
        i < k,
        0 < degrees.len() <= usize::MAX,
        degrees[drawn_node(seed, degrees.len() as usize, i) as int] >= 1,
    ensures
        picks(degrees, seed, k).contains(drawn_node(seed, degrees.len() as usize, i)),
    decreases k,
{
    let u = drawn_node(seed, degrees.len() as usize, i);
    let last = (k - 1) as nat;
    let earlier = picks(degrees, seed, last);
    let all = picks(degrees, seed, k);
    if i < last {
        drawn_node_with_neighbor_is_picked(degrees, seed, last, i);
        let j = choose|j: int| 0 <= j < earlier.len() && earlier[j] == u;
        assert(all[j] == u);
    } else {
        assert(all[all.len() - 1] == u);
    }
}

/// A node's degree is the length of its neighbor list.
pub proof fn degrees_are_list_lengths(graph: &Graph, u: int)
    requires
        graph.row_in_bounds(u),
    ensures
        graph.degrees().len() == graph@.len(),
        graph.degrees()[u] == graph@[u].len(),
{
}

} // verus!

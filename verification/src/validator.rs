//! Holding the distances of a distributed run against those of a sequential one.

use std::collections::HashMap;

use vstd::prelude::*;
use vstd::std_specs::hash::group_hash_axioms;

use crate::lockstep::{in_step, joint_table};
use crate::model::{shortest_distances, shortest_distances_unique, UNVISITED};
use crate::params::trials::Output;
use crate::partition::Partition;
use crate::worker::{answers, Worker};

verus! {

/// The distances that pairs give to nodes. A later pair for a node counts.
pub open spec fn distances_of(pairs: Seq<(usize, usize)>) -> Map<usize, usize>
    decreases pairs.len(),
{
    if pairs.len() == 0 {
        Map::empty()
    } else {
        distances_of(pairs.drop_last()).insert(pairs.last().0, pairs.last().1)
    }
}

/// The pairs of all outputs, one output behind the other.
pub open spec fn all_pairs(outputs: Seq<Output>) -> Seq<(usize, usize)>
    decreases outputs.len(),
{
    if outputs.len() == 0 {
        Seq::empty()
    } else {
        all_pairs(outputs.drop_last()) + outputs.last().local_distances@
    }
}

/// How many of the first `k` nodes have a distance.
pub open spec fn reached(expected: Seq<usize>, k: nat) -> nat
    decreases k,
{
    if k == 0 {
        0
    } else if expected[k - 1] != UNVISITED {
        reached(expected, (k - 1) as nat) + 1
    } else {
        reached(expected, (k - 1) as nat)
    }
}

/// A node whose distance differs.
#[derive(Clone, Copy, Debug, PartialEq, Eq, Structural)]
pub struct Mismatch {
    pub node: usize,
    pub expected: usize,
    pub found: usize,
}

/// What comes of holding two results against each other.
#[derive(Debug, PartialEq)]
pub enum Verdict {
    /// The distributed run did not reach as many nodes as the sequential one.
    WrongCount { found: usize, expected: usize },
    /// The distributed run has a distance for what is no node of the graph.
    UnknownNode,
    /// Some distances differ: the first ones in node order, at most [`SHOWN`] of them.
    WrongDistances(Vec<Mismatch>),
    /// All distances are the same.
    Same,
}

/// How many differences are told before the rest is left out.
pub const SHOWN: usize = 11;

/// The nodes below `k` whose distances differ, in node order.
pub open spec fn mismatches(expected: Seq<usize>, found: Map<usize, usize>, k: nat) -> Seq<Mismatch>
    decreases k,
{
    if k == 0 {
        Seq::empty()
    } else {
        let earlier = mismatches(expected, found, (k - 1) as nat);
        let node = (k - 1) as usize;
        if found.dom().contains(node) && found[node] != expected[k - 1] {
            earlier.push(Mismatch { node, expected: expected[k - 1], found: found[node] })
        } else {
            earlier
        }
    }
}

/// Every distance is for a node of the graph.
pub open spec fn known_nodes(found: Map<usize, usize>, n: nat) -> bool {
    forall|v: usize| #[trigger] found.dom().contains(v) ==> v < n
}

/// Takes the distances of all outputs together.
pub fn merge_outputs(outputs: &Vec<Output>) -> (merged: HashMap<usize, usize>)
    ensures
        merged@ == distances_of(all_pairs(outputs@)),
{
    broadcast use group_hash_axioms;

    let mut merged: HashMap<usize, usize> = HashMap::new();
    let mut i: usize = 0;
    assert(outputs@.take(0) =~= Seq::<Output>::empty());
    while i < outputs.len()
        invariant
            i <= outputs@.len(),
            merged@ == distances_of(all_pairs(outputs@.take(i as int))),
        decreases outputs.len() - i,
    {
        let ghost before = all_pairs(outputs@.take(i as int));
        let pairs = &outputs[i].local_distances;
        proof {
            assert(outputs@.take(i + 1).drop_last() =~= outputs@.take(i as int));
            assert(outputs@.take(i + 1).last() == outputs@[i as int]);
            assert(before + pairs@.take(0) =~= before);
        }
        let mut j: usize = 0;
        while j < pairs.len()
            invariant
                j <= pairs@.len(),
                merged@ == distances_of(before + pairs@.take(j as int)),
            decreases pairs.len() - j,
        {
            let (node, dist) = pairs[j];
            proof {
                let more = before + pairs@.take(j + 1);
                assert(more.drop_last() =~= before + pairs@.take(j as int));
                assert(more.last() == (node, dist));
            }
            merged.insert(node, dist);
            j = j + 1;
        }
        assert(pairs@.take(pairs@.len() as int) =~= pairs@);
        i = i + 1;
    }
    assert(outputs@.take(outputs@.len() as int) =~= outputs@);
    merged
}

/// How many nodes have a distance.
pub fn reachable_nodes(expected: &[usize]) -> (count: usize)
    ensures
        count == reached(expected@, expected@.len()),
{
    let mut count: usize = 0;
    let mut i: usize = 0;
    while i < expected.len()
        invariant
            i <= expected@.len(),
            count <= i,
            count == reached(expected@, i as nat),
        decreases expected.len() - i,
    {
        if expected[i] != UNVISITED {
            count = count + 1;
        }
        i = i + 1;
    }
    count
}

/// The nodes of the graph for which there is a distance.
spec fn found_below(found: Map<usize, usize>, k: nat) -> Set<usize> {
    found.dom().filter(|v: usize| v < k)
}

/// Holds the distances of a distributed run against the expected ones.
pub fn validate(expected: &[usize], found: &HashMap<usize, usize>) -> (verdict: Verdict)
    ensures
        verdict is WrongCount <==> found@.len() != reached(expected@, expected@.len()),
        verdict is WrongCount ==> verdict->WrongCount_found == found@.len()
            && verdict->WrongCount_expected == reached(expected@, expected@.len()),
        verdict is UnknownNode <==> found@.len() == reached(expected@, expected@.len())
            && !known_nodes(found@, expected@.len()),
        verdict is WrongDistances <==> found@.len() == reached(expected@, expected@.len())
            && known_nodes(found@, expected@.len()) && mismatches(
            expected@,
            found@,
            expected@.len(),
        ).len() > 0,
        verdict is WrongDistances ==> verdict->WrongDistances_0@ == (if mismatches(
            expected@,
            found@,
            expected@.len(),
        ).len() <= SHOWN {
            mismatches(expected@, found@, expected@.len())
        } else {
            mismatches(expected@, found@, expected@.len()).take(SHOWN as int)
        }),
{
    broadcast use group_hash_axioms;

    let reachable: usize = reachable_nodes(expected);
    if found.len() != reachable {
        return Verdict::WrongCount { found: found.len(), expected: reachable };
    }
    let mut seen: usize = 0;
    let mut wrong: Vec<Mismatch> = Vec::new();
    let mut node: usize = 0;
    let ghost total = mismatches(expected@, found@, expected@.len());
    proof {
        assert(found_below(found@, 0) =~= Set::<usize>::empty());
        assert(total.take(0) =~= Seq::<Mismatch>::empty());
    }
    while node < expected.len()
        invariant
            node <= expected@.len(),
            found@.dom().finite(),
            seen == found_below(found@, node as nat).len(),
            seen <= node,
            found_below(found@, node as nat).finite(),
            wrong@ == (if mismatches(expected@, found@, node as nat).len() <= SHOWN {
                mismatches(expected@, found@, node as nat)
            } else {
                mismatches(expected@, found@, node as nat).take(SHOWN as int)
            }),
        decreases expected.len() - node,
    {
        let ghost before = mismatches(expected@, found@, node as nat);
        match found.get(&node) {
            Some(dist) => {
                let d: usize = *dist;
                proof {
                    assert(found_below(found@, (node + 1) as nat) =~= found_below(
                        found@,
                        node as nat,
                    ).insert(node));
                }
                seen = seen + 1;
                if d != expected[node] {
                    let m = Mismatch { node, expected: expected[node], found: d };
                    if wrong.len() < SHOWN {
                        wrong.push(m);
                    }
                    proof {
                        if before.len() >= SHOWN {
                            assert(before.push(m).take(SHOWN as int) =~= before.take(SHOWN as int));
                            assert(before.take(before.len() as int) =~= before);
                        }
                    }
                }
            },
            None => {
                proof {
                    assert(found_below(found@, (node + 1) as nat) =~= found_below(
                        found@,
                        node as nat,
                    ));
                }
            },
        }
        node = node + 1;
    }
    let ghost below = found_below(found@, expected@.len());
    proof {
        assert(below.subset_of(found@.dom()));
        vstd::set_lib::lemma_len_subset(below, found@.dom());
        if seen == found@.len() {
            vstd::set_lib::lemma_subset_equality(below, found@.dom());
            assert forall|v: usize| #[trigger] found@.dom().contains(v) implies v
                < expected@.len() by {
                assert(below.contains(v));
            }
        } else if known_nodes(found@, expected@.len()) {
            assert(below =~= found@.dom());
        }
    }
    if seen < found.len() {
        return Verdict::UnknownNode;
    }
    if wrong.len() > 0 {
        Verdict::WrongDistances(wrong)
    } else {
        Verdict::Same
    }
}

/// The nodes that a table has a distance for, with that distance.
pub open spec fn finite_part(table: Seq<usize>) -> Map<usize, usize> {
    Map::new(
        |v: usize| v < table.len() && table[v as int] != UNVISITED,
        |v: usize| table[v as int],
    )
}

/// The nodes below `k` that have a distance.
spec fn reached_below(expected: Seq<usize>, k: nat) -> Set<usize> {
    Set::new(|v: usize| v < k && v < expected.len() && expected[v as int] != UNVISITED)
}

/// The number of nodes with a distance.
proof fn lemma_reached(expected: Seq<usize>, k: nat)
    requires
        k <= expected.len() <= usize::MAX,
    ensures
        reached_below(expected, k).finite(),
        reached_below(expected, k).len() == reached(expected, k),
    decreases k,
{
    if k == 0 {
        assert(reached_below(expected, 0) =~= Set::<usize>::empty());
    } else {
        lemma_reached(expected, (k - 1) as nat);
        let node = (k - 1) as usize;
        if expected[k - 1] != UNVISITED {
            assert(reached_below(expected, k) =~= reached_below(expected, (k - 1) as nat).insert(
                node,
            ));
        } else {
            assert(reached_below(expected, k) =~= reached_below(expected, (k - 1) as nat));
        }
    }
}

/// There are no differences where all distances are the same.
proof fn lemma_no_mismatch(expected: Seq<usize>, found: Map<usize, usize>, k: nat)
    requires
        k <= expected.len() <= usize::MAX,
    ensures
        mismatches(expected, found, k).len() == 0 <==> forall|v: usize|
            v < k && #[trigger] found.dom().contains(v) ==> found[v] == expected[v as int],
    decreases k,
{
    if k > 0 {
        lemma_no_mismatch(expected, found, (k - 1) as nat);
        let node = (k - 1) as usize;
        if mismatches(expected, found, k).len() == 0 {
            assert forall|v: usize| v < k && #[trigger] found.dom().contains(v) implies found[v]
                == expected[v as int] by {
                if v == node {
                    assert(found[node] == expected[k - 1]);
                }
            }
        }
        if forall|v: usize|
            v < k && #[trigger] found.dom().contains(v) ==> found[v] == expected[v as int] {
            assert(found.dom().contains(node) ==> found[node] == expected[node as int]);
        }
    }
}

/// A run whose distances are found to be the same has exactly the expected distances, and one
/// that has them is found to be the same. A run has a distance for the nodes it reached only.
pub proof fn same_is_exact(expected: Seq<usize>, found: Map<usize, usize>)
    requires
        expected.len() <= usize::MAX,
        found.dom().finite(),
        forall|v: usize| #[trigger] found.dom().contains(v) ==> found[v] != UNVISITED,
    ensures
        found == finite_part(expected) <==> found.len() == reached(expected, expected.len())
            && known_nodes(found, expected.len()) && mismatches(
            expected,
            found,
            expected.len(),
        ).len() == 0,
{
    let n = expected.len();
    let all = reached_below(expected, n);
    lemma_reached(expected, n);
    lemma_no_mismatch(expected, found, n);
    assert(finite_part(expected).dom() =~= all);
    if found.len() == reached(expected, n) && known_nodes(found, n) && mismatches(
        expected,
        found,
        n,
    ).len() == 0 {
        assert forall|v: usize| #[trigger] found.dom().contains(v) implies all.contains(v) by {
            assert(found[v] == expected[v as int]);
        }
        vstd::set_lib::lemma_subset_equality(found.dom(), all);
        assert(found =~= finite_part(expected));
    }
    if found == finite_part(expected) {
        assert(found.dom() == all);
        assert forall|v: usize| v < n && #[trigger] found.dom().contains(v) implies found[v]
            == expected[v as int] by {}
    }
}

/// A worker answers for its own nodes only.
pub open spec fn answers_are_own<P: Partition>(partition: P) -> bool {
    forall|w: u32, i: int|
        w < partition.worker_total() && 0 <= i < partition.table_len()
            && #[trigger] partition.answers_for(w, i) ==> {
            &&& 0 <= partition.node_at(w, i) <= usize::MAX
            &&& partition.places(partition.node_at(w, i) as usize)
            &&& partition.owner_of(partition.node_at(w, i) as usize) == w
            &&& partition.slot_of(w, partition.node_at(w, i) as usize) == i
        }
}

/// The pairs that a worker answers with: an entry for each, and one for every entry.
proof fn lemma_answers<P: Partition>(partition: P, w: u32, table: Seq<usize>, k: nat)
    requires
        k <= table.len(),
    ensures
        forall|j: int|
            0 <= j < answers(partition, w, table, k).len() ==> exists|i: int|
                0 <= i < k && table[i] != UNVISITED && #[trigger] partition.answers_for(w, i)
                    && #[trigger] answers(partition, w, table, k)[j] == (
                    partition.node_at(w, i) as usize,
                    table[i],
                ),
        forall|i: int|
            0 <= i < k && table[i] != UNVISITED && #[trigger] partition.answers_for(w, i)
                ==> answers(partition, w, table, k).contains(
                (partition.node_at(w, i) as usize, table[i]),
            ),
    decreases k,
{
    if k > 0 {
        let earlier = answers(partition, w, table, (k - 1) as nat);
        let all = answers(partition, w, table, k);
        lemma_answers(partition, w, table, (k - 1) as nat);
        assert forall|j: int| 0 <= j < all.len() implies exists|i: int|
            0 <= i < k && table[i] != UNVISITED && #[trigger] partition.answers_for(w, i)
                && #[trigger] all[j] == (partition.node_at(w, i) as usize, table[i]) by {
            if j < earlier.len() {
                assert(all[j] == earlier[j]);
                let i = choose|i: int|
                    0 <= i < k - 1 && table[i] != UNVISITED && #[trigger] partition.answers_for(
                        w,
                        i,
                    ) && earlier[j] == (partition.node_at(w, i) as usize, table[i]);
                assert(partition.answers_for(w, i));
            } else {
                assert(partition.answers_for(w, k - 1));
            }
        }
        assert forall|i: int|
            0 <= i < k && table[i] != UNVISITED && #[trigger] partition.answers_for(
                w,
                i,
            ) implies all.contains((partition.node_at(w, i) as usize, table[i])) by {
            let pair = (partition.node_at(w, i) as usize, table[i]);
            if i < k - 1 {
                assert(earlier.contains(pair));
                let j = choose|j: int| 0 <= j < earlier.len() && earlier[j] == pair;
                assert(all[j] == pair);
            } else {
                assert(all[earlier.len() as int] == pair);
            }
        }
    }
}

/// Some output has the pair.
spec fn told(outputs: Seq<Output>, pair: (usize, usize)) -> bool {
    exists|w: int|
        0 <= w < outputs.len() && #[trigger] outputs[w].local_distances@.contains(pair)
}

/// The pairs of all outputs are those of the single ones.
proof fn lemma_all_pairs(outputs: Seq<Output>)
    ensures
        forall|w: int, j: int|
            0 <= w < outputs.len() && 0 <= j < outputs[w].local_distances@.len() ==> all_pairs(
                outputs,
            ).contains(#[trigger] outputs[w].local_distances@[j]),
        forall|i: int|
            0 <= i < all_pairs(outputs).len() ==> told(outputs, #[trigger] all_pairs(outputs)[i]),
    decreases outputs.len(),
{
    if outputs.len() > 0 {
        let rest = outputs.drop_last();
        let head = all_pairs(rest);
        let tail = outputs.last().local_distances@;
        let all = all_pairs(outputs);
        lemma_all_pairs(rest);
        assert forall|w: int, j: int|
            0 <= w < outputs.len() && 0 <= j
                < outputs[w].local_distances@.len() implies all.contains(
            #[trigger] outputs[w].local_distances@[j],
        ) by {
            let pair = outputs[w].local_distances@[j];
            if w < rest.len() {
                assert(rest[w].local_distances@[j] == pair);
                let i = choose|i: int| 0 <= i < head.len() && head[i] == pair;
                assert(all[i] == pair);
            } else {
                assert(all[head.len() + j] == pair);
            }
        }
        assert forall|i: int| 0 <= i < all.len() implies told(outputs, #[trigger] all[i]) by {
            if i < head.len() {
                assert(all[i] == head[i]);
                assert(told(rest, head[i]));
                let w = choose|w: int|
                    0 <= w < rest.len() && #[trigger] rest[w].local_distances@.contains(head[i]);
                assert(outputs[w].local_distances@.contains(all[i]));
            } else {
                assert(tail[i - head.len()] == all[i]);
                assert(outputs[outputs.len() - 1].local_distances@.contains(all[i]));
            }
        }
    }
}

/// The nodes that pairs name, and whose distance counts.
proof fn lemma_distances_of(pairs: Seq<(usize, usize)>, v: usize)
    ensures
        distances_of(pairs).dom().contains(v) <==> exists|i: int|
            0 <= i < pairs.len() && (#[trigger] pairs[i]).0 == v,
        distances_of(pairs).dom().contains(v) ==> pairs.contains((v, distances_of(pairs)[v])),
        distances_of(pairs).dom().finite(),
    decreases pairs.len(),
{
    if pairs.len() > 0 {
        let rest = pairs.drop_last();
        lemma_distances_of(rest, v);
        if exists|i: int| 0 <= i < pairs.len() && (#[trigger] pairs[i]).0 == v {
            let i = choose|i: int| 0 <= i < pairs.len() && (#[trigger] pairs[i]).0 == v;
            if i < rest.len() {
                assert(rest[i].0 == v);
            }
        }
        if distances_of(pairs).dom().contains(v) {
            if v == pairs.last().0 {
                assert(pairs[pairs.len() - 1] == (v, distances_of(pairs)[v]));
            } else {
                let i = choose|i: int|
                    0 <= i < rest.len() && rest[i] == (v, distances_of(rest)[v]);
                assert(pairs[i] == (v, distances_of(pairs)[v]));
            }
        }
    }
}

/// The outputs of all workers, taken together, have exactly the distances of the joint table:
/// what the workers hand back is their common result, no more and no less.
pub proof fn outputs_are_joint_table<P: Partition>(
    partition: P,
    workers: Seq<Worker<P>>,
    level: nat,
    outputs: Seq<Output>,
)
    requires
        in_step(partition, workers, level),
        answers_are_own(partition),
        partition.worker_total() <= u32::MAX,
        outputs.len() == workers.len(),
        forall|w: int|
            0 <= w < outputs.len() ==> (#[trigger] outputs[w]).local_distances@ == answers(
                partition,
                w as u32,
                workers[w].distances@,
                workers[w].distances@.len(),
            ),
    ensures
        distances_of(all_pairs(outputs)) == finite_part(joint_table(partition, workers)),
{
    let table = joint_table(partition, workers);
    let pairs = all_pairs(outputs);
    let found = distances_of(pairs);
    lemma_all_pairs(outputs);
    assert forall|i: int| 0 <= i < pairs.len() implies (#[trigger] pairs[i]).0 < table.len()
        && pairs[i].1 == table[pairs[i].0 as int] && pairs[i].1 != UNVISITED by {
        assert(told(outputs, pairs[i]));
        let w = choose|w: int|
            0 <= w < outputs.len() && #[trigger] outputs[w].local_distances@.contains(pairs[i]);
        let list = outputs[w].local_distances@;
        assert(workers[w].well_formed());
        lemma_answers(partition, w as u32, workers[w].distances@, workers[w].distances@.len());
        let j = choose|j: int| 0 <= j < list.len() && list[j] == pairs[i];
        let slot = choose|slot: int|
            0 <= slot < workers[w].distances@.len() && workers[w].distances@[slot] != UNVISITED
                && #[trigger] partition.answers_for(w as u32, slot) && list[j] == (
                partition.node_at(w as u32, slot) as usize,
                workers[w].distances@[slot],
            );
        partition.owner_holds(pairs[i].0);
    }
    assert forall|v: usize| #[trigger] found.dom().contains(v) <==> finite_part(
        table,
    ).dom().contains(v) by {
        lemma_distances_of(pairs, v);
        if found.dom().contains(v) {
            let i = choose|i: int| 0 <= i < pairs.len() && (#[trigger] pairs[i]).0 == v;
            assert(pairs[i].0 < table.len());
        }
        if finite_part(table).dom().contains(v) {
            assert(partition.places(v));
            partition.owner_holds(v);
            let w = partition.owner_of(v);
            let slot = partition.slot_of(w, v);
            assert(workers[w as int].well_formed());
            partition.slot_inverts(w, v);
            lemma_answers(
                partition,
                w,
                workers[w as int].distances@,
                workers[w as int].distances@.len(),
            );
            let list = outputs[w as int].local_distances@;
            assert(list.contains((v, table[v as int])));
            let j = choose|j: int| 0 <= j < list.len() && list[j] == (v, table[v as int]);
            assert(pairs.contains(outputs[w as int].local_distances@[j]));
            let i = choose|i: int| 0 <= i < pairs.len() && pairs[i] == (v, table[v as int]);
            assert(pairs[i].0 == v);
        }
    }
    assert forall|v: usize| #[trigger] found.dom().contains(v) implies found[v]
        == finite_part(table)[v] by {
        lemma_distances_of(pairs, v);
        let i = choose|i: int| 0 <= i < pairs.len() && pairs[i] == (v, found[v]);
        assert(pairs[i].1 == table[pairs[i].0 as int]);
        assert(finite_part(table).dom().contains(v));
    }
    assert(found =~= finite_part(table));
}

/// Where every node is dealt out, every worker answers for its own nodes only.
pub proof fn division_answers_own<P: Partition>(partition: P)
    requires
        partition.valid(),
        forall|v: usize| v < partition.node_total() ==> #[trigger] partition.places(v),
    ensures
        answers_are_own(partition),
{
    assert forall|w: u32, i: int|
        w < partition.worker_total() && 0 <= i < partition.table_len()
            && #[trigger] partition.answers_for(w, i) implies {
        &&& 0 <= partition.node_at(w, i) <= usize::MAX
        &&& partition.places(partition.node_at(w, i) as usize)
        &&& partition.owner_of(partition.node_at(w, i) as usize) == w
        &&& partition.slot_of(w, partition.node_at(w, i) as usize) == i
    } by {
        partition.answers_own(w, i);
        assert(partition.places(partition.node_at(w, i) as usize));
    }
}

/// A run that has found the breadth-first search result is found to be the same as any other
/// search from the same node.
pub proof fn correct_run_is_same<P: Partition>(
    adj: Seq<Seq<usize>>,
    s: usize,
    partition: P,
    workers: Seq<Worker<P>>,
    level: nat,
    outputs: Seq<Output>,
    expected: Seq<usize>,
)
    requires
        adj.len() <= usize::MAX,
        in_step(partition, workers, level),
        answers_are_own(partition),
        partition.worker_total() <= u32::MAX,
        outputs.len() == workers.len(),
        forall|w: int|
            0 <= w < outputs.len() ==> (#[trigger] outputs[w]).local_distances@ == answers(
                partition,
                w as u32,
                workers[w].distances@,
                workers[w].distances@.len(),
            ),
        shortest_distances(adj, s, joint_table(partition, workers)),
        shortest_distances(adj, s, expected),
    ensures
        distances_of(all_pairs(outputs)).len() == reached(expected, expected.len()),
        known_nodes(distances_of(all_pairs(outputs)), expected.len()),
        mismatches(expected, distances_of(all_pairs(outputs)), expected.len()).len() == 0,
{
    let found = distances_of(all_pairs(outputs));
    shortest_distances_unique(adj, s, joint_table(partition, workers), expected);
    outputs_are_joint_table(partition, workers, level, outputs);
    lemma_distances_of(all_pairs(outputs), 0);
    assert forall|v: usize| #[trigger] found.dom().contains(v) implies found[v] != UNVISITED by {
        assert(finite_part(expected).dom().contains(v));
    }
    same_is_exact(expected, found);
}

/// The differences are told in ascending node order: every node for which the two have another
/// distance, with both distances, and no other node.
pub proof fn mismatches_are_differences(expected: Seq<usize>, found: Map<usize, usize>, k: nat)
    requires
        k <= expected.len() <= usize::MAX,
    ensures
        forall|i: int|
            0 <= i < mismatches(expected, found, k).len() ==> {
                let m = #[trigger] mismatches(expected, found, k)[i];
                &&& m.node < k
                &&& found.dom().contains(m.node)
                &&& m.found == found[m.node]
                &&& m.expected == expected[m.node as int]
                &&& m.found != m.expected
            },
        forall|i: int, j: int|
            0 <= i < j < mismatches(expected, found, k).len() ==> (#[trigger] mismatches(
                expected,
                found,
                k,
            )[i]).node < (#[trigger] mismatches(expected, found, k)[j]).node,
        forall|v: usize|
            v < k && #[trigger] found.dom().contains(v) && found[v] != expected[v as int]
                ==> exists|i: int|
                0 <= i < mismatches(expected, found, k).len() && (#[trigger] mismatches(
                    expected,
                    found,
                    k,
                )[i]).node == v,
        SHOWN == 11,
    decreases k,
{
    if k > 0 {
        let last = (k - 1) as nat;
        mismatches_are_differences(expected, found, last);
        let earlier = mismatches(expected, found, last);
        let all = mismatches(expected, found, k);
        assert forall|i: int| 0 <= i < all.len() implies {
            let m = #[trigger] all[i];
            &&& m.node < k
            &&& found.dom().contains(m.node)
            &&& m.found == found[m.node]
            &&& m.expected == expected[m.node as int]
            &&& m.found != m.expected
        } by {
            if i < earlier.len() {
                assert(all[i] == earlier[i]);
            }
        }
        assert forall|i: int, j: int| 0 <= i < j < all.len() implies (#[trigger] all[i]).node < (
        #[trigger] all[j]).node by {
            assert(all[i] == earlier[i]);
            if j < earlier.len() {
                assert(all[j] == earlier[j]);
            }
        }
        assert forall|v: usize|
            v < k && #[trigger] found.dom().contains(v) && found[v]
                != expected[v as int] implies exists|i: int|
            0 <= i < all.len() && (#[trigger] all[i]).node == v by {
            if v < last {
                let i = choose|i: int| 0 <= i < earlier.len() && (#[trigger] earlier[i]).node == v;
                assert(all[i] == earlier[i]);
            } else {
                assert(all[all.len() - 1].node == v);
            }
        }
    }
}

/// The last pair for a node counts, and only nodes that a pair names have a distance.
pub proof fn last_pair_counts(pairs: Seq<(usize, usize)>, i: int)
    requires
        0 <= i < pairs.len(),
        forall|j: int| i < j < pairs.len() ==> (#[trigger] pairs[j]).0 != pairs[i].0,
    ensures
        distances_of(pairs).dom().contains(pairs[i].0),
        distances_of(pairs)[pairs[i].0] == pairs[i].1,
        forall|v: usize| #[trigger]
            distances_of(pairs).dom().contains(v) ==> exists|j: int|
                0 <= j < pairs.len() && (#[trigger] pairs[j]).0 == v,
    decreases pairs.len(),
{
    assert forall|v: usize| #[trigger]
        distances_of(pairs).dom().contains(v) implies exists|j: int|
        0 <= j < pairs.len() && (#[trigger] pairs[j]).0 == v by {
        lemma_distances_of(pairs, v);
    }
    let rest = pairs.drop_last();
    if i < rest.len() {
        assert forall|j: int| i < j < rest.len() implies (#[trigger] rest[j]).0 != rest[i].0 by {
            assert(pairs[j].0 != pairs[i].0);
        }
        last_pair_counts(rest, i);
        assert(pairs[pairs.len() - 1].0 != pairs[i].0);
    }
}

/// The pairs of outputs and then of others, and those of one output alone.
pub proof fn pairs_of_two(a: Seq<Output>, b: Seq<Output>, one: Output)
    ensures
        all_pairs(a + b) == all_pairs(a) + all_pairs(b),
        all_pairs(seq![one]) == one.local_distances@,
        all_pairs(Seq::<Output>::empty()).len() == 0,
    decreases b.len(),
{
    assert(seq![one].drop_last() =~= Seq::<Output>::empty());
    assert(all_pairs(seq![one].drop_last()) =~= Seq::<(usize, usize)>::empty());
    assert(all_pairs(seq![one]) =~= one.local_distances@);
    if b.len() == 0 {
        assert(a + b =~= a);
        assert(all_pairs(a) + all_pairs(b) =~= all_pairs(a));
    } else {
        pairs_of_two(a, b.drop_last(), one);
        assert((a + b).drop_last() =~= a + b.drop_last());
        assert(all_pairs(a + b) =~= all_pairs(a) + all_pairs(b));
    }
}

/// The test for entries that are distances.
pub open spec fn is_finite() -> spec_fn(usize) -> bool {
    |d: usize| d != usize::MAX
}

/// The nodes that can be reached are counted one by one: as many as entries are distances.
pub proof fn reached_counts_distances(expected: Seq<usize>, k: nat)
    requires
        k <= expected.len(),
    ensures
        reached(expected, k) == expected.take(k as int).filter(is_finite()).len(),
    decreases k,
{
    reveal(Seq::filter);
    let part = expected.take(k as int);
    if k > 0 {
        reached_counts_distances(expected, (k - 1) as nat);
        assert(part.drop_last() =~= expected.take(k - 1));
        assert(part.last() == expected[k - 1]);
    }
}

} // verus!

//! All workers of a search together: what their tables say as one table, and
//! why a level that every worker has finished is a level of breadth-first search.

use vstd::prelude::*;

use crate::frontier::{candidates, lemma_candidates_contains, lemma_first_seen, lemma_listed};
use crate::graph::{usable_from, NeighborLists};
use crate::model::{
    closed_from, edge, explored, follows, is_eccentricity, last_level_is_eccentricity,
    lemma_start_explored, lemma_walk_step, level_step, level_step_explores, no_level_past_node_count, quiet_level_finishes, reachable,
    shortest_distances, start_table, walk, UNVISITED,
};
use crate::partition::Partition;
use crate::worker::Worker;

verus! {

/// The workers of one division, each in its place and at the same level.
pub open spec fn in_step<P: Partition>(partition: P, workers: Seq<Worker<P>>, level: nat) -> bool {
    &&& partition.valid()
    &&& workers.len() == partition.worker_total()
    &&& forall|w: int|
        0 <= w < workers.len() ==> {
            &&& (#[trigger] workers[w]).well_formed()
            &&& workers[w].partition == partition
            &&& workers[w].worker_id == w
            &&& workers[w].current_level == level
        }
}

/// The distance of every node, as the worker that owns it has it.
pub open spec fn joint_table<P: Partition>(partition: P, workers: Seq<Worker<P>>) -> Seq<usize> {
    Seq::new(
        partition.node_total(),
        |v: int|
            if partition.places(v as usize) {
                workers[partition.owner_of(v as usize) as int].entry(v as usize)
            } else {
                UNVISITED
            },
    )
}

/// The current frontiers hold the nodes at `level`, each with its owner.
pub open spec fn current_at<P: Partition>(
    partition: P,
    workers: Seq<Worker<P>>,
    level: nat,
) -> bool {
    forall|w: int, v: usize|
        0 <= w < workers.len() ==> (#[trigger] workers[w].current_frontier@.contains(v)
            <==> partition.places(v) && partition.owner_of(v) == w && workers[w].entry(v) == level)
}

/// The next frontiers hold the nodes at `level`, each with its owner.
pub open spec fn next_at<P: Partition>(
    partition: P,
    workers: Seq<Worker<P>>,
    level: nat,
) -> bool {
    forall|w: int, v: usize|
        0 <= w < workers.len() ==> (#[trigger] workers[w].next_frontier@.contains(v)
            <==> partition.places(v) && partition.owner_of(v) == w && workers[w].entry(v) == level)
}

/// Between two levels of a search from `s`: the tables together hold what is explored, and
/// the frontiers what was discovered last.
pub open spec fn synchronized<P: Partition>(
    adj: Seq<Seq<usize>>,
    s: usize,
    partition: P,
    workers: Seq<Worker<P>>,
    level: nat,
) -> bool {
    &&& in_step(partition, workers, level)
    &&& explored(adj, s, level, joint_table(partition, workers))
    &&& current_at(partition, workers, level)
    &&& forall|w: int| 0 <= w < workers.len() ==> (#[trigger] workers[w]).next_frontier@.len() == 0
}

/// The division deals out every node that a search from `s` meets.
pub open spec fn dealt<P: Partition>(adj: Seq<Seq<usize>>, s: usize, partition: P) -> bool {
    &&& partition.node_total() == adj.len()
    &&& forall|v: usize| #[trigger] reachable(adj, s, v) ==> partition.places(v)
}

/// Some worker's frontier leads to `v`.
pub open spec fn met<P: Partition>(adj: Seq<Seq<usize>>, workers: Seq<Worker<P>>, v: usize) -> bool {
    exists|w: int|
        0 <= w < workers.len() && #[trigger] candidates(adj, workers[w].current_frontier@).contains(
            v,
        )
}

/// Every worker has finished a level: each owns, as its next frontier, the unvisited nodes
/// that some worker met, and has given them the next level.
pub open spec fn level_complete<P: Partition>(
    adj: Seq<Seq<usize>>,
    partition: P,
    before: Seq<Worker<P>>,
    after: Seq<Worker<P>>,
    level: nat,
) -> bool {
    &&& in_step(partition, after, level)
    &&& forall|w: int|
        0 <= w < after.len() ==> (#[trigger] after[w]).current_frontier@.len() == 0
    &&& forall|w: int, v: usize|
        0 <= w < after.len() ==> (#[trigger] after[w].next_frontier@.contains(v)
            <==> partition.places(v) && partition.owner_of(v) == w && before[w].entry(v)
            == UNVISITED && met(adj, before, v))
    &&& forall|w: int, v: usize|
        0 <= w < after.len() && partition.places(v) && partition.owner_of(v) == w
            ==> #[trigger] after[w].entry(v) == (if after[w].next_frontier@.contains(v) {
            level + 1
        } else {
            before[w].entry(v) as nat
        })
}

/// The workers at the start of a search from `s`: the owner of `s` has it as its frontier and
/// at distance zero, and there is no other distance for a worker's own nodes.
pub open spec fn started<P: Partition>(partition: P, s: usize, workers: Seq<Worker<P>>) -> bool {
    &&& in_step(partition, workers, 0)
    &&& forall|w: int|
        0 <= w < workers.len() ==> {
            &&& (#[trigger] workers[w]).next_frontier@.len() == 0
            &&& workers[w].current_frontier@ == (if workers[w].mine(s) {
                seq![s]
            } else {
                Seq::empty()
            })
        }
    &&& forall|w: int, v: usize|
        0 <= w < workers.len() && partition.places(v) && partition.owner_of(v) == w
            ==> #[trigger] workers[w].entry(v) == (if v == s {
            0
        } else {
            UNVISITED
        })
}

/// Workers that each started a trial from `s` are at the start of a search.
pub proof fn trials_start_search<P: Partition>(partition: P, s: usize, workers: Seq<Worker<P>>)
    requires
        partition.valid(),
        partition.places(s),
        workers.len() == partition.worker_total(),
        forall|w: int|
            0 <= w < workers.len() ==> (#[trigger] workers[w]).partition == partition
                && workers[w].worker_id == w && workers[w].trial_started(s),
    ensures
        started(partition, s, workers),
{
    assert forall|w: int, v: usize|
        0 <= w < workers.len() && partition.places(v) && partition.owner_of(
            v,
        ) == w implies #[trigger] workers[w].entry(v) == (if v == s {
        0
    } else {
        UNVISITED
    }) by {
        assert(workers[w].trial_started(s));
        partition.owner_holds(v);
        partition.slot_inverts(w as u32, v);
        let slot = partition.slot_of(w as u32, v);
        assert(workers[w].distances@[slot] == workers[w].entry(v));
        if partition.holds(w as u32, s) && slot == partition.slot_of(w as u32, s) {
            partition.slot_inverts(w as u32, s);
        }
    }
}

/// The workers after each went on to the next level.
pub open spec fn advanced<P: Partition>(before: Seq<Worker<P>>, after: Seq<Worker<P>>) -> bool {
    &&& before.len() == after.len()
    &&& forall|w: int|
        0 <= w < after.len() ==> {
            &&& (#[trigger] after[w]).partition == before[w].partition
            &&& after[w].worker_id == before[w].worker_id
            &&& after[w].distances@ == before[w].distances@
            &&& after[w].current_frontier@ == before[w].next_frontier@
            &&& after[w].next_frontier@ == before[w].current_frontier@
            &&& after[w].current_level == before[w].current_level + 1
        }
}

/// What the joint table says of a node that is dealt out.
pub proof fn lemma_joint_entry<P: Partition>(partition: P, workers: Seq<Worker<P>>, v: usize)
    requires
        partition.valid(),
        partition.places(v),
    ensures
        v < partition.node_total(),
        joint_table(partition, workers)[v as int]
            == workers[partition.owner_of(v) as int].entry(v),
{
    partition.owner_holds(v);
}

/// A search starts synchronized.
pub proof fn start_is_synchronized<P: Partition>(
    adj: Seq<Seq<usize>>,
    s: usize,
    partition: P,
    workers: Seq<Worker<P>>,
)
    requires
        adj.len() <= usize::MAX,
        dealt(adj, s, partition),
        started(partition, s, workers),
    ensures
        synchronized(adj, s, partition, workers, 0),
{
    assert(walk(adj, s, s, 0));
    assert(reachable(adj, s, s));
    partition.owner_holds(s);
    let table = joint_table(partition, workers);
    assert forall|x: int| 0 <= x < table.len() implies table[x] == start_table(adj.len(), s)[x] by {
        let v = x as usize;
        if partition.places(v) {
            partition.owner_holds(v);
            let w = partition.owner_of(v);
            assert(workers[w as int].entry(v) == (if v == s {
                0
            } else {
                UNVISITED
            }));
        }
    }
    assert(table =~= start_table(adj.len(), s));
    lemma_start_explored(adj, s);
    assert forall|w: int, v: usize| 0 <= w < workers.len() implies (
    #[trigger] workers[w].current_frontier@.contains(v) <==> partition.places(v)
        && partition.owner_of(v) == w && workers[w].entry(v) == 0) by {
        assert(workers[w].well_formed());
        if workers[w].current_frontier@.contains(v) {
            assert(v == s);
        }
        if partition.places(v) && partition.owner_of(v) == w && workers[w].entry(v) == 0 {
            assert(v == s);
            assert(workers[w].current_frontier@[0] == s);
        }
    }
}

/// The frontiers together lead to the nodes that follow the current level.
pub proof fn lemma_met<P: Partition>(
    adj: Seq<Seq<usize>>,
    s: usize,
    partition: P,
    workers: Seq<Worker<P>>,
    level: nat,
    v: usize,
)
    requires
        dealt(adj, s, partition),
        synchronized(adj, s, partition, workers, level),
        level < UNVISITED,
    ensures
        met(adj, workers, v) <==> follows(adj, level, joint_table(partition, workers), v),
        met(adj, workers, v) ==> reachable(adj, s, v) && partition.places(v),
{
    let table = joint_table(partition, workers);
    if met(adj, workers, v) {
        let w = choose|w: int|
            0 <= w < workers.len() && #[trigger] candidates(
                adj,
                workers[w].current_frontier@,
            ).contains(v);
        lemma_frontier_nodes(adj, partition, workers, level, w);
        lemma_candidates_contains(adj, workers[w].current_frontier@, v);
        let u = choose|u: usize|
            workers[w].current_frontier@.contains(u) && #[trigger] edge(adj, u, v);
        assert(workers[w].current_frontier@.contains(u));
        lemma_joint_entry(partition, workers, u);
        assert(table[u as int] == level);
        assert(follows(adj, level, table, v));
        lemma_walk_step(adj, s, u, v, level);
    }
    if follows(adj, level, table, v) {
        let u = choose|u: usize|
            u < table.len() && table[u as int] == level && #[trigger] edge(adj, u, v);
        assert(partition.places(u));
        partition.owner_holds(u);
        let w = partition.owner_of(u) as int;
        assert(workers[w].current_frontier@.contains(u));
        lemma_frontier_nodes(adj, partition, workers, level, w);
        lemma_candidates_contains(adj, workers[w].current_frontier@, v);
        assert(met(adj, workers, v));
    }
}

/// The nodes of a frontier are nodes of the graph.
pub proof fn lemma_frontier_nodes<P: Partition>(
    adj: Seq<Seq<usize>>,
    partition: P,
    workers: Seq<Worker<P>>,
    level: nat,
    w: int,
)
    requires
        partition.valid(),
        partition.node_total() == adj.len(),
        current_at(partition, workers, level),
        0 <= w < workers.len(),
    ensures
        forall|i: int|
            0 <= i < workers[w].current_frontier@.len() ==> #[trigger] workers[w].current_frontier@[i]
                < adj.len(),
{
    assert forall|i: int| 0 <= i < workers[w].current_frontier@.len() implies #[trigger] workers[w].current_frontier@[i]
        < adj.len() by {
        let u = workers[w].current_frontier@[i];
        assert(workers[w].current_frontier@.contains(u));
        partition.owner_holds(u);
    }
}

/// A level that every worker has finished is one synchronous level of the joint table: it
/// explores one level further, and the next frontiers hold what it discovered.
pub proof fn complete_level_explores<P: Partition>(
    adj: Seq<Seq<usize>>,
    s: usize,
    partition: P,
    before: Seq<Worker<P>>,
    after: Seq<Worker<P>>,
    level: nat,
)
    requires
        adj.len() <= usize::MAX,
        dealt(adj, s, partition),
        synchronized(adj, s, partition, before, level),
        level_complete(adj, partition, before, after, level),
        level + 1 < UNVISITED,
    ensures
        level_step(
            adj,
            level,
            joint_table(partition, before),
            joint_table(partition, after),
        ),
        explored(adj, s, level + 1, joint_table(partition, after)),
        next_at(partition, after, level + 1),
{
    let old_table = joint_table(partition, before);
    let new_table = joint_table(partition, after);
    lemma_dealt_closed(adj, s, partition);
    assert forall|v: usize| v < old_table.len() implies #[trigger] new_table[v as int] == (
    if old_table[v as int] == UNVISITED && follows(adj, level, old_table, v) {
        level + 1
    } else {
        old_table[v as int] as nat
    }) by {
        lemma_met(adj, s, partition, before, level, v);
        if partition.places(v) {
            partition.owner_holds(v);
            let w = partition.owner_of(v) as int;
            lemma_joint_entry(partition, before, v);
            lemma_joint_entry(partition, after, v);
            assert(after[w].next_frontier@.contains(v) <==> before[w].entry(v) == UNVISITED && met(
                adj,
                before,
                v,
            ));
            assert(after[w].entry(v) == (if after[w].next_frontier@.contains(v) {
                level + 1
            } else {
                before[w].entry(v) as nat
            }));
        }
    }
    level_step_explores(adj, s, level, old_table, new_table);
    assert forall|w: int, v: usize| 0 <= w < after.len() implies (
    #[trigger] after[w].next_frontier@.contains(v) <==> partition.places(v)
        && partition.owner_of(v) == w && after[w].entry(v) == level + 1) by {
        if partition.places(v) && partition.owner_of(v) == w {
            lemma_joint_entry(partition, before, v);
            assert(old_table[v as int] == before[w].entry(v));
            assert(after[w].entry(v) == (if after[w].next_frontier@.contains(v) {
                level + 1
            } else {
                before[w].entry(v) as nat
            }));
        }
    }
}

/// Where every node that can be reached is dealt out, no walk leaves the graph.
proof fn lemma_dealt_closed<P: Partition>(adj: Seq<Seq<usize>>, s: usize, partition: P)
    requires
        partition.valid(),
        dealt(adj, s, partition),
    ensures
        closed_from(adj, s),
{
    assert forall|v: usize| #[trigger] reachable(adj, s, v) implies v < adj.len() by {
        partition.owner_holds(v);
    }
}

/// A finished level, once every worker has gone on, leaves the search synchronized one
/// level further.
pub proof fn level_keeps_step<P: Partition>(
    adj: Seq<Seq<usize>>,
    s: usize,
    partition: P,
    before: Seq<Worker<P>>,
    finished: Seq<Worker<P>>,
    after: Seq<Worker<P>>,
    level: nat,
)
    requires
        adj.len() <= usize::MAX,
        dealt(adj, s, partition),
        synchronized(adj, s, partition, before, level),
        level_complete(adj, partition, before, finished, level),
        advanced(finished, after),
        level + 1 < UNVISITED,
    ensures
        synchronized(adj, s, partition, after, level + 1),
{
    complete_level_explores(adj, s, partition, before, finished, level);
    assert forall|w: int| 0 <= w < after.len() implies {
        &&& (#[trigger] after[w]).well_formed()
        &&& after[w].partition == partition
        &&& after[w].worker_id == w
        &&& after[w].current_level == level + 1
        &&& after[w].next_frontier@.len() == 0
    } by {
        assert(finished[w].well_formed());
    }
    assert(joint_table(partition, after) =~= joint_table(partition, finished)) by {
        assert forall|x: int| 0 <= x < partition.node_total() implies joint_table(
            partition,
            after,
        )[x] == joint_table(partition, finished)[x] by {
            let v = x as usize;
            if partition.places(v) {
                partition.owner_holds(v);
                let w = partition.owner_of(v) as int;
                assert(after[w].entry(v) == finished[w].entry(v));
            }
        }
    }
    assert forall|w: int, v: usize| 0 <= w < after.len() implies (
    #[trigger] after[w].current_frontier@.contains(v) <==> partition.places(v)
        && partition.owner_of(v) == w && after[w].entry(v) == level + 1) by {
        assert(after[w].current_frontier@ == finished[w].next_frontier@);
        assert(finished[w].next_frontier@.contains(v) == after[w].current_frontier@.contains(v));
        assert(after[w].entry(v) == finished[w].entry(v));
    }
}

/// When a finished level has discovered nothing, the tables together are the breadth-first
/// search result: the distributed search ends with exactly the sequential distances.
pub proof fn quiet_level_is_result<P: Partition>(
    adj: Seq<Seq<usize>>,
    s: usize,
    partition: P,
    before: Seq<Worker<P>>,
    after: Seq<Worker<P>>,
    level: nat,
)
    requires
        adj.len() <= usize::MAX,
        dealt(adj, s, partition),
        synchronized(adj, s, partition, before, level),
        level_complete(adj, partition, before, after, level),
        forall|w: int| 0 <= w < after.len() ==> (#[trigger] after[w]).next_frontier@.len() == 0,
        level + 1 < UNVISITED,
    ensures
        shortest_distances(adj, s, joint_table(partition, after)),
{
    complete_level_explores(adj, s, partition, before, after, level);
    lemma_dealt_closed(adj, s, partition);
    let old_table = joint_table(partition, before);
    let new_table = joint_table(partition, after);
    assert(new_table =~= old_table) by {
        assert forall|x: int| 0 <= x < new_table.len() implies new_table[x] == old_table[x] by {
            let v = x as usize;
            if partition.places(v) {
                partition.owner_holds(v);
                let w = partition.owner_of(v) as int;
                assert(!after[w].next_frontier@.contains(v));
                assert(after[w].entry(v) == before[w].entry(v));
            }
        }
    }
    quiet_level_finishes(adj, s, level, old_table);
}

/// After as many levels as the graph has nodes, every frontier is empty: the search ends.
pub proof fn frontiers_run_empty<P: Partition>(
    adj: Seq<Seq<usize>>,
    s: usize,
    partition: P,
    workers: Seq<Worker<P>>,
    level: nat,
)
    requires
        dealt(adj, s, partition),
        synchronized(adj, s, partition, workers, level),
        level >= adj.len(),
        level < UNVISITED,
    ensures
        forall|w: int|
            0 <= w < workers.len() ==> (#[trigger] workers[w]).current_frontier@.len() == 0,
{
    lemma_dealt_closed(adj, s, partition);
    let table = joint_table(partition, workers);
    no_level_past_node_count(adj, s, level, table);
    assert forall|w: int| 0 <= w < workers.len() implies (
    #[trigger] workers[w]).current_frontier@.len() == 0 by {
        if workers[w].current_frontier@.len() > 0 {
            let v = workers[w].current_frontier@[0];
            assert(workers[w].current_frontier@.contains(v));
            lemma_joint_entry(partition, workers, v);
            assert(table[v as int] == level);
        }
    }
}

/// What expanding its frontier makes of a worker.
pub open spec fn expanded_from<P: Partition>(
    adj: Seq<Seq<usize>>,
    before: Worker<P>,
    after: Worker<P>,
) -> bool {
    &&& after.well_formed()
    &&& after.discovered(before, before.fresh_own(candidates(adj, before.current_frontier@)))
    &&& after.current_frontier@.len() == 0
}

/// A worker other than `w` has a frontier that leads to `v`.
pub open spec fn met_elsewhere<P: Partition>(
    adj: Seq<Seq<usize>>,
    workers: Seq<Worker<P>>,
    w: int,
    v: usize,
) -> bool {
    exists|k: int|
        0 <= k < workers.len() && k != w && #[trigger] candidates(
            adj,
            workers[k].current_frontier@,
        ).contains(v)
}

/// After the expansion, each worker discovered the list `taken[w]`: unvisited nodes of its own
/// that the frontiers led to, among them all that other workers met.
pub open spec fn exchanged<P: Partition>(
    adj: Seq<Seq<usize>>,
    partition: P,
    before: Seq<Worker<P>>,
    expanded: Seq<Worker<P>>,
    after: Seq<Worker<P>>,
    taken: Seq<Seq<usize>>,
) -> bool {
    &&& before.len() == expanded.len() == after.len() == taken.len()
    &&& forall|w: int|
        0 <= w < after.len() ==> {
            &&& (#[trigger] after[w]).well_formed()
            &&& expanded_from(adj, before[w], expanded[w])
            &&& after[w].discovered(expanded[w], taken[w])
            &&& after[w].current_frontier@ == expanded[w].current_frontier@
        }
    &&& forall|w: int, v: usize|
        0 <= w < after.len() && #[trigger] taken[w].contains(v) ==> partition.owner_of(v) == w
            && expanded[w].entry(v) == UNVISITED && met(adj, before, v)
    &&& forall|w: int, v: usize|
        0 <= w < after.len() && partition.places(v) && partition.owner_of(v) == w
            && expanded[w].entry(v) == UNVISITED && met_elsewhere(adj, before, w, v)
            ==> #[trigger] taken[w].contains(v)
}

/// What discovering nodes does to the entry of a node.
pub proof fn lemma_discovered_entry<P: Partition>(
    before: Worker<P>,
    after: Worker<P>,
    nodes: Seq<usize>,
    v: usize,
)
    requires
        before.well_formed(),
        after.discovered(before, nodes),
        before.partition.holds(before.worker_id, v),
    ensures
        after.entry(v) == (if nodes.contains(v) {
            (before.current_level + 1) as usize
        } else {
            before.entry(v)
        }),
{
    before.partition.slot_inverts(before.worker_id, v);
    lemma_listed(nodes, v);
}

/// A level at which every worker expands its frontier, and then discovers what the others
/// met of its nodes, is finished. It makes no difference in which order the nodes arrive or
/// how often.
pub proof fn exchange_completes_level<P: Partition>(
    adj: Seq<Seq<usize>>,
    s: usize,
    partition: P,
    before: Seq<Worker<P>>,
    expanded: Seq<Worker<P>>,
    after: Seq<Worker<P>>,
    taken: Seq<Seq<usize>>,
    level: nat,
)
    requires
        dealt(adj, s, partition),
        synchronized(adj, s, partition, before, level),
        exchanged(adj, partition, before, expanded, after, taken),
        level + 1 < UNVISITED,
    ensures
        level_complete(adj, partition, before, after, level),
{
    assert forall|w: int| 0 <= w < after.len() implies {
        &&& (#[trigger] after[w]).well_formed()
        &&& after[w].partition == partition
        &&& after[w].worker_id == w
        &&& after[w].current_level == level
        &&& after[w].current_frontier@.len() == 0
    } by {
        assert(before[w].well_formed());
    }
    assert forall|w: int, v: usize| 0 <= w < after.len() implies (
    #[trigger] after[w].next_frontier@.contains(v) <==> partition.places(v)
        && partition.owner_of(v) == w && before[w].entry(v) == UNVISITED && met(adj, before, v))
        && (partition.places(v) && partition.owner_of(v) == w ==> after[w].entry(v) == (
    if after[w].next_frontier@.contains(v) {
        level + 1
    } else {
        before[w].entry(v) as nat
    })) by {
        assert(after[w].well_formed());
        assert(before[w].well_formed());
        let cands = candidates(adj, before[w].current_frontier@);
        let keep = |x: usize| before[w].mine(x) && before[w].entry(x) == UNVISITED;
        let found = before[w].fresh_own(cands);
        lemma_first_seen(cands, keep);
        assert(found.contains(v) <==> cands.contains(v) && keep(v));
        assert(before[w].next_frontier@.len() == 0);
        assert(expanded[w].next_frontier@ =~= found);
        assert(after[w].next_frontier@ =~= found + taken[w]);
        if found.contains(v) {
            let i = choose|i: int| 0 <= i < found.len() && found[i] == v;
            assert((found + taken[w])[i] == v);
        }
        if taken[w].contains(v) {
            let i = choose|i: int| 0 <= i < taken[w].len() && taken[w][i] == v;
            assert((found + taken[w])[found.len() + i] == v);
        }
        if after[w].next_frontier@.contains(v) {
            let i = choose|i: int| 0 <= i < (found + taken[w]).len() && (found + taken[w])[i] == v;
            if i < found.len() {
                assert(found[i] == v);
            } else {
                assert(taken[w][i - found.len()] == v);
            }
        }
        lemma_met(adj, s, partition, before, level, v);
        if cands.contains(v) {
            assert(met(adj, before, v));
        }
        if partition.places(v) && partition.owner_of(v) == w {
            partition.owner_holds(v);
            lemma_discovered_entry(before[w], expanded[w], found, v);
            lemma_discovered_entry(expanded[w], after[w], taken[w], v);
            if met(adj, before, v) && !cands.contains(v) {
                let k = choose|k: int|
                    0 <= k < before.len() && #[trigger] candidates(
                        adj,
                        before[k].current_frontier@,
                    ).contains(v);
                assert(k != w);
                assert(met_elsewhere(adj, before, w, v));
            }
        }
    }
}

/// At the level whose number is the node count, nothing is discovered any more.
pub proof fn last_level_is_quiet<P: Partition>(
    adj: Seq<Seq<usize>>,
    s: usize,
    partition: P,
    before: Seq<Worker<P>>,
    after: Seq<Worker<P>>,
    level: nat,
)
    requires
        dealt(adj, s, partition),
        synchronized(adj, s, partition, before, level),
        level_complete(adj, partition, before, after, level),
        adj.len() <= level < UNVISITED,
    ensures
        forall|w: int| 0 <= w < after.len() ==> (#[trigger] after[w]).next_frontier@.len() == 0,
{
    frontiers_run_empty(adj, s, partition, before, level);
    assert forall|w: int| 0 <= w < after.len() implies (
    #[trigger] after[w]).next_frontier@.len() == 0 by {
        if after[w].next_frontier@.len() > 0 {
            let v = after[w].next_frontier@[0];
            assert(after[w].next_frontier@.contains(v));
            let k = choose|k: int|
                0 <= k < before.len() && #[trigger] candidates(
                    adj,
                    before[k].current_frontier@,
                ).contains(v);
            assert(before[k].current_frontier@.len() == 0);
        }
    }
}

/// A search from `s`, level by level: how the workers began each level and how they finished
/// it.
pub open spec fn search_run<P: Partition>(
    adj: Seq<Seq<usize>>,
    s: usize,
    partition: P,
    begun: Seq<Seq<Worker<P>>>,
    finished: Seq<Seq<Worker<P>>>,
) -> bool {
    &&& begun.len() == finished.len()
    &&& begun.len() > 0
    &&& started(partition, s, begun[0])
    &&& forall|i: int|
        0 <= i < begun.len() ==> level_complete(
            adj,
            partition,
            #[trigger] begun[i],
            finished[i],
            i as nat,
        )
    &&& forall|i: int, j: int|
        0 <= i && j == i + 1 && j < begun.len() ==> advanced(
            #[trigger] finished[i],
            #[trigger] begun[j],
        )
}

/// Each level of a run begins synchronized.
pub proof fn run_stays_synchronized<P: Partition>(
    adj: Seq<Seq<usize>>,
    s: usize,
    partition: P,
    begun: Seq<Seq<Worker<P>>>,
    finished: Seq<Seq<Worker<P>>>,
    level: nat,
)
    requires
        adj.len() <= usize::MAX,
        dealt(adj, s, partition),
        search_run(adj, s, partition, begun, finished),
        level < begun.len(),
        level < UNVISITED,
    ensures
        synchronized(adj, s, partition, begun[level as int], level),
    decreases level,
{
    if level == 0 {
        start_is_synchronized(adj, s, partition, begun[0]);
    } else {
        let i = (level - 1) as nat;
        run_stays_synchronized(adj, s, partition, begun, finished, i);
        assert(level_complete(adj, partition, begun[i as int], finished[i as int], i));
        assert(advanced(finished[i as int], begun[level as int]));
        level_keeps_step(
            adj,
            s,
            partition,
            begun[i as int],
            finished[i as int],
            begun[level as int],
            i,
        );
    }
}

/// A run whose last level discovered nothing has found the breadth-first search result.
pub proof fn run_ends_with_distances<P: Partition>(
    adj: Seq<Seq<usize>>,
    s: usize,
    partition: P,
    begun: Seq<Seq<Worker<P>>>,
    finished: Seq<Seq<Worker<P>>>,
)
    requires
        adj.len() <= usize::MAX,
        dealt(adj, s, partition),
        search_run(adj, s, partition, begun, finished),
        begun.len() < UNVISITED,
        forall|w: int|
            0 <= w < finished.last().len() ==> (
            #[trigger] finished.last()[w]).next_frontier@.len() == 0,
    ensures
        shortest_distances(adj, s, joint_table(partition, finished.last())),
{
    let last = (begun.len() - 1) as nat;
    run_stays_synchronized(adj, s, partition, begun, finished, last);
    let end = finished[last as int];
    assert(level_complete(adj, partition, begun[last as int], end, last));
    assert forall|w: int| 0 <= w < end.len() implies (#[trigger] end[w]).next_frontier@.len()
        == 0 by {
        assert(finished.last()[w].next_frontier@.len() == 0);
    }
    quiet_level_is_result(
        adj,
        s,
        partition,
        begun[last as int],
        finished[last as int],
        last,
    );
}

/// Some worker has nodes to expand.
pub open spec fn some_frontier<P: Partition>(workers: Seq<Worker<P>>) -> bool {
    exists|w: int|
        0 <= w < workers.len() && (#[trigger] workers[w]).current_frontier@.len() > 0
}

/// No worker has discovered anything.
pub open spec fn quiet<P: Partition>(workers: Seq<Worker<P>>) -> bool {
    forall|w: int| 0 <= w < workers.len() ==> (#[trigger] workers[w]).next_frontier@.len() == 0
}

/// A level that some worker had nodes to expand at, and that discovered nothing, is the largest
/// distance from the source.
pub proof fn quiet_level_is_eccentricity<P: Partition>(
    adj: Seq<Seq<usize>>,
    s: usize,
    partition: P,
    before: Seq<Worker<P>>,
    after: Seq<Worker<P>>,
    level: nat,
)
    requires
        adj.len() <= usize::MAX,
        dealt(adj, s, partition),
        synchronized(adj, s, partition, before, level),
        level_complete(adj, partition, before, after, level),
        some_frontier(before),
        quiet(after),
        level + 1 < UNVISITED,
    ensures
        is_eccentricity(adj, s, level),
{
    quiet_level_is_result(adj, s, partition, before, after, level);
    lemma_dealt_closed(adj, s, partition);
    let table = joint_table(partition, before);
    assert(table =~= joint_table(partition, after)) by {
        assert forall|x: int| 0 <= x < table.len() implies table[x] == joint_table(
            partition,
            after,
        )[x] by {
            let v = x as usize;
            if partition.places(v) {
                partition.owner_holds(v);
                let w = partition.owner_of(v) as int;
                assert(!after[w].next_frontier@.contains(v));
                assert(after[w].entry(v) == before[w].entry(v));
            }
        }
    }
    let w = choose|w: int|
        0 <= w < before.len() && (#[trigger] before[w]).current_frontier@.len() > 0;
    let v = before[w].current_frontier@[0];
    assert(before[w].current_frontier@.contains(v));
    lemma_joint_entry(partition, before, v);
    last_level_is_eccentricity(adj, s, level, table, v);
}

/// A search begins with the source to expand.
pub proof fn start_has_frontier<P: Partition>(partition: P, s: usize, workers: Seq<Worker<P>>)
    requires
        partition.places(s),
        started(partition, s, workers),
    ensures
        some_frontier(workers),
{
    partition.owner_holds(s);
    let w = partition.owner_of(s) as int;
    assert(workers[w].well_formed());
    assert(workers[w].current_frontier@.len() > 0);
}

/// What a level discovered is what the next one has to expand.
pub proof fn discoveries_are_next_frontier<P: Partition>(
    before: Seq<Worker<P>>,
    after: Seq<Worker<P>>,
)
    requires
        advanced(before, after),
    ensures
        some_frontier(after) <==> !quiet(before),
{
    if some_frontier(after) {
        let w = choose|w: int|
            0 <= w < after.len() && (#[trigger] after[w]).current_frontier@.len() > 0;
        assert(before[w].next_frontier@.len() > 0);
    }
    if !quiet(before) {
        let w = choose|w: int|
            0 <= w < before.len() && (#[trigger] before[w]).next_frontier@.len() != 0;
        assert(after[w].current_frontier@.len() > 0);
    }
}

/// The levels of a run that ends at the first one to discover nothing are as many as the
/// largest distance from the source, and one more.
pub proof fn run_length<P: Partition>(
    adj: Seq<Seq<usize>>,
    s: usize,
    partition: P,
    begun: Seq<Seq<Worker<P>>>,
    finished: Seq<Seq<Worker<P>>>,
)
    requires
        adj.len() <= usize::MAX,
        dealt(adj, s, partition),
        search_run(adj, s, partition, begun, finished),
        begun.len() < UNVISITED,
        quiet(finished.last()),
        forall|i: int| 0 <= i < finished.len() - 1 ==> !quiet(#[trigger] finished[i]),
    ensures
        is_eccentricity(adj, s, (begun.len() - 1) as nat),
{
    let last = begun.len() - 1;
    run_stays_synchronized(adj, s, partition, begun, finished, last as nat);
    assert(some_frontier(begun[last])) by {
        if last == 0 {
            assert(walk(adj, s, s, 0));
            assert(reachable(adj, s, s));
            start_has_frontier(partition, s, begun[0]);
        } else {
            assert(advanced(finished[last - 1], begun[last]));
            discoveries_are_next_frontier(finished[last - 1], begun[last]);
        }
    }
    assert(level_complete(adj, partition, begun[last], finished[last], last as nat));
    quiet_level_is_eccentricity(adj, s, partition, begun[last], finished[last], last as nat);
}

/// A run that goes on only while some worker has nodes to expand, and ends at a level that
/// discovers nothing, has as many levels as the largest distance from the source, and one or
/// two more: workers that go on for nodes met again may find at one more level that there is
/// nothing left.
pub proof fn run_length_by_work<P: Partition>(
    adj: Seq<Seq<usize>>,
    s: usize,
    partition: P,
    begun: Seq<Seq<Worker<P>>>,
    finished: Seq<Seq<Worker<P>>>,
) -> (e: nat)
    requires
        adj.len() <= usize::MAX,
        dealt(adj, s, partition),
        search_run(adj, s, partition, begun, finished),
        begun.len() < UNVISITED,
        quiet(finished.last()),
        forall|i: int| 0 <= i < begun.len() - 1 ==> some_frontier(#[trigger] begun[i]),
    ensures
        is_eccentricity(adj, s, e),
        e + 1 <= begun.len() <= e + 2,
{
    let last = begun.len() - 1;
    assert(finished[last] == finished.last());
    let level = if some_frontier(begun[last]) {
        last
    } else {
        if last == 0 {
            assert(walk(adj, s, s, 0));
            assert(reachable(adj, s, s));
            start_has_frontier(partition, s, begun[0]);
        } else {
            assert(advanced(finished[last - 1], begun[last]));
            discoveries_are_next_frontier(finished[last - 1], begun[last]);
        }
        last - 1
    };
    run_stays_synchronized(adj, s, partition, begun, finished, level as nat);
    assert(level_complete(adj, partition, begun[level], finished[level], level as nat));
    quiet_level_is_eccentricity(adj, s, partition, begun[level], finished[level], level as nat);
    level as nat
}

/// A run discovers nothing at the level whose number is the node count: it need go no further.
pub proof fn run_ends<P: Partition>(
    adj: Seq<Seq<usize>>,
    s: usize,
    partition: P,
    begun: Seq<Seq<Worker<P>>>,
    finished: Seq<Seq<Worker<P>>>,
)
    requires
        adj.len() < UNVISITED,
        dealt(adj, s, partition),
        search_run(adj, s, partition, begun, finished),
        begun.len() > adj.len(),
    ensures
        forall|w: int|
            0 <= w < finished[adj.len() as int].len() ==> (
            #[trigger] finished[adj.len() as int][w]).next_frontier@.len() == 0,
{
    let n = adj.len();
    run_stays_synchronized(adj, s, partition, begun, finished, n);
    assert(level_complete(adj, partition, begun[n as int], finished[n as int], n));
    last_level_is_quiet(adj, s, partition, begun[n as int], finished[n as int], n);
}

/// Between two levels every worker can expand its frontier: the graph has the neighbor lists,
/// and the division deals out all neighbors.
pub proof fn frontier_can_be_expanded<P: Partition, G: NeighborLists>(
    graph: &G,
    s: usize,
    partition: P,
    workers: Seq<Worker<P>>,
    level: nat,
    w: int,
)
    requires
        usable_from(graph, s),
        dealt(graph.rows(), s, partition),
        synchronized(graph.rows(), s, partition, workers, level),
        level < UNVISITED,
        0 <= w < workers.len(),
    ensures
        forall|i: int|
            0 <= i < workers[w].current_frontier@.len() ==> graph.readable(
                #[trigger] workers[w].current_frontier@[i],
            ),
        forall|v: usize| #[trigger]
            candidates(graph.rows(), workers[w].current_frontier@).contains(v)
                ==> partition.places(v),
{
    let adj = graph.rows();
    let frontier = workers[w].current_frontier@;
    assert forall|i: int| 0 <= i < frontier.len() implies graph.readable(
        #[trigger] frontier[i],
    ) by {
        let u = frontier[i];
        assert(workers[w].current_frontier@.contains(u));
        lemma_joint_entry(partition, workers, u);
        let table = joint_table(partition, workers);
        assert(table[u as int] == level);
        assert(walk(adj, s, u, level));
        assert(reachable(adj, s, u));
    }
    assert forall|v: usize| #[trigger] candidates(
        adj,
        frontier,
    ).contains(v) implies partition.places(v) by {
        assert(met(adj, workers, v));
        lemma_met(adj, s, partition, workers, level, v);
    }
}

} // verus!

//! Two delegates, each with half of the nodes and a pool of threads, that hand
//! each other the nodes of the other half.

use vstd::prelude::*;

use crate::frontier::{candidates, lemma_candidates_contains, lemma_first_seen};
use crate::graph::csr::Graph;
use crate::lockstep::{
    dealt, joint_table, lemma_discovered_entry, lemma_met, level_complete, met,
    quiet_level_is_result, started, synchronized,
};
use crate::model::{edge, reachable, shortest_distances, walk, UNVISITED};
use crate::parallel::{expandable, unvisited_neighbors, wipe};
use crate::partition::{Halves, Partition};
use crate::sent_set::SentSet;
use crate::worker::Worker;

verus! {

/// Half of all threads, and at least one.
pub open spec fn threads_each(threads: usize) -> int {
    if threads as int / 2 < 1 {
        1
    } else {
        threads as int / 2
    }
}

/// The threads of each pool: half of all, and at least one.
pub fn threads_per_node(threads: usize) -> (count: usize)
    ensures
        count == threads_each(threads),
        count == (if threads / 2 < 1 {
            1
        } else {
            threads / 2
        }),
{
    let half: usize = threads / 2;
    if half < 1 {
        1
    } else {
        half
    }
}

/// Whether a delegate stops: neither it nor the other one has a next frontier.
pub fn search_over(next_local: usize, remote_len: usize) -> (over: bool)
    ensures
        over == (next_local == 0 && remote_len == 0),
{
    next_local == 0 && remote_len == 0
}

/// The next frontier after an expansion: own nodes without a distance to which the frontier
/// leads, each once, in any order, behind what was there.
pub open spec fn found_own(before: Worker<Halves>, after: Worker<Halves>, met: Seq<usize>) -> bool {
    let old_len = before.next_frontier@.len() as int;
    &&& after.next_frontier@.len() >= old_len
    &&& after.next_frontier@.take(old_len) == before.next_frontier@
    &&& after.next_frontier@.skip(old_len).no_duplicates()
    &&& forall|v: usize| #[trigger]
        after.next_frontier@.skip(old_len).contains(v) <==> met.contains(v) && before.mine(v)
            && before.entry(v) == UNVISITED
}

/// What an expansion makes of a delegate that marks in its own table also what it exports.
pub open spec fn claimed_from(
    before: Worker<Halves>,
    after: Worker<Halves>,
    met: Seq<usize>,
    export: Seq<usize>,
) -> bool {
    &&& after.well_formed()
    &&& after.same_place(before)
    &&& after.current_frontier@.len() == 0
    &&& found_own(before, after, met)
    &&& export.no_duplicates()
    &&& forall|v: usize| #[trigger]
        export.contains(v) <==> met.contains(v) && !before.mine(v) && before.entry(v) == UNVISITED
    &&& forall|v: usize|
        v < before.distances@.len() ==> #[trigger] after.entry(v) == (if met.contains(v)
            && before.entry(v) == UNVISITED {
            (before.current_level + 1) as usize
        } else {
            before.entry(v)
        })
}

/// What an expansion makes of a delegate that exports what it has seen unvisited in the
/// table of the other one.
pub open spec fn observed_from(
    before: Worker<Halves>,
    after: Worker<Halves>,
    met: Seq<usize>,
    observed: Seq<usize>,
    export: Seq<usize>,
) -> bool {
    &&& after.well_formed()
    &&& after.same_place(before)
    &&& after.current_frontier@.len() == 0
    &&& found_own(before, after, met)
    &&& export.no_duplicates()
    &&& forall|v: usize| #[trigger]
        export.contains(v) <==> met.contains(v) && !before.mine(v) && before.entry(v) == UNVISITED
            && observed[v as int] == UNVISITED
    &&& forall|v: usize|
        v < before.distances@.len() ==> #[trigger] after.entry(v) == (if met.contains(v)
            && before.mine(v) && before.entry(v) == UNVISITED {
            (before.current_level + 1) as usize
        } else {
            before.entry(v)
        })
}

/// Expands the frontier over the thread pool. Each neighbor without a distance gets the next
/// level in the delegate's own table. The own ones among them join the next frontier, the
/// others are exported.
pub fn expand_claiming(worker: &mut Worker<Halves>, graph: &Graph) -> (export: Vec<usize>)
    requires
        old(worker).well_formed(),
        old(worker).current_level + 1 < UNVISITED,
        expandable(graph, old(worker).distances@, old(worker).current_frontier@),
    ensures
        claimed_from(
            *old(worker),
            *final(worker),
            candidates(graph@, old(worker).current_frontier@),
            export@,
        ),
{
    let ghost before = *worker;
    let ghost met = candidates(graph@, before.current_frontier@);
    let found = unvisited_neighbors(
        graph,
        worker.distances.as_slice(),
        worker.current_frontier.as_slice(),
    );
    let mut export: Vec<usize> = Vec::new();
    let mut j: usize = 0;
    let ghost old_len = before.next_frontier@.len() as int;
    let ghost d = (before.current_level + 1) as usize;
    proof {
        lemma_candidates_in_table(graph, before.distances@, before.current_frontier@);
        assert(before.next_frontier@.take(old_len) =~= before.next_frontier@);
        assert(before.next_frontier@.skip(old_len) =~= Seq::<usize>::empty());
    }
    while j < found.len()
        invariant
            worker.well_formed(),
            before.well_formed(),
            worker.same_place(before),
            worker.current_frontier@ == before.current_frontier@,
            before.current_level + 1 < UNVISITED,
            d == before.current_level + 1,
            old_len == before.next_frontier@.len(),
            j <= found.len(),
            met == candidates(graph@, before.current_frontier@),
            forall|v: usize| #[trigger] met.contains(v) ==> v < before.distances@.len(),
            forall|v: usize| #[trigger]
                found@.contains(v) <==> met.contains(v) && before.distances@[v as int] == UNVISITED,
            worker.next_frontier@.len() >= old_len,
            worker.next_frontier@.take(old_len) == before.next_frontier@,
            worker.next_frontier@.skip(old_len).no_duplicates(),
            forall|v: usize| #[trigger]
                worker.next_frontier@.skip(old_len).contains(v) <==> found@.take(j as int).contains(
                    v,
                ) && before.mine(v),
            export@.no_duplicates(),
            forall|v: usize| #[trigger]
                export@.contains(v) <==> found@.take(j as int).contains(v) && !before.mine(v),
            forall|v: usize|
                v < before.distances@.len() ==> #[trigger] worker.distances@[v as int] == (
                if found@.take(j as int).contains(v) {
                    d
                } else {
                    before.distances@[v as int]
                }),
        decreases found.len() - j,
    {
        let v: usize = found[j];
        let ghost seen = found@.take(j as int);
        let ghost next = worker.next_frontier@;
        let ghost sent = export@;
        let ghost table = worker.distances@;
        proof {
            assert(found@.contains(found@[j as int]));
            assert(table[v as int] == UNVISITED <==> !seen.contains(v));
            lemma_take_more(found@, j as int);
        }
        if worker.distances[v] == UNVISITED {
            worker.distances[v] = worker.current_level + 1;
            if worker.partition.owner(v) == worker.worker_id {
                worker.next_frontier.push(v);
                proof {
                    assert(worker.next_frontier@.take(old_len) =~= before.next_frontier@);
                    assert(worker.next_frontier@.skip(old_len) =~= next.skip(old_len).push(v));
                    lemma_push_contains(next.skip(old_len), v);
                }
            } else {
                export.push(v);
                proof {
                    lemma_push_contains(sent, v);
                }
            }
        }
        j = j + 1;
    }
    worker.current_frontier.clear();
    assert(found@.take(found@.len() as int) =~= found@);
    export
}

/// Expands the frontier over the thread pool. Own neighbors without a distance get the next
/// level and join the next frontier. A neighbor of the other half is exported once, where the
/// delegate has no distance for it and saw none in the table of the other delegate.
pub fn expand_observing(worker: &mut Worker<Halves>, graph: &Graph, observed: &[usize]) -> (export:
    Vec<usize>)
    requires
        old(worker).well_formed(),
        old(worker).current_level + 1 < UNVISITED,
        expandable(graph, old(worker).distances@, old(worker).current_frontier@),
        observed@.len() == old(worker).distances@.len(),
    ensures
        observed_from(
            *old(worker),
            *final(worker),
            candidates(graph@, old(worker).current_frontier@),
            observed@,
            export@,
        ),
{
    let ghost before = *worker;
    let ghost met = candidates(graph@, before.current_frontier@);
    let found = unvisited_neighbors(
        graph,
        worker.distances.as_slice(),
        worker.current_frontier.as_slice(),
    );
    let mut sent_set = SentSet::new(worker.partition.num_nodes);
    let mut export: Vec<usize> = Vec::new();
    let mut j: usize = 0;
    let ghost old_len = before.next_frontier@.len() as int;
    let ghost d = (before.current_level + 1) as usize;
    proof {
        lemma_candidates_in_table(graph, before.distances@, before.current_frontier@);
        assert(before.next_frontier@.take(old_len) =~= before.next_frontier@);
        assert(before.next_frontier@.skip(old_len) =~= Seq::<usize>::empty());
    }
    while j < found.len()
        invariant
            worker.well_formed(),
            before.well_formed(),
            worker.same_place(before),
            worker.current_frontier@ == before.current_frontier@,
            before.current_level + 1 < UNVISITED,
            d == before.current_level + 1,
            old_len == before.next_frontier@.len(),
            j <= found.len(),
            observed@.len() == before.distances@.len(),
            met == candidates(graph@, before.current_frontier@),
            forall|v: usize| #[trigger] met.contains(v) ==> v < before.distances@.len(),
            forall|v: usize| #[trigger]
                found@.contains(v) <==> met.contains(v) && before.distances@[v as int] == UNVISITED,
            worker.next_frontier@.len() >= old_len,
            worker.next_frontier@.take(old_len) == before.next_frontier@,
            worker.next_frontier@.skip(old_len).no_duplicates(),
            forall|v: usize| #[trigger]
                worker.next_frontier@.skip(old_len).contains(v) <==> found@.take(j as int).contains(
                    v,
                ) && before.mine(v),
            export@.no_duplicates(),
            forall|v: usize| #[trigger]
                export@.contains(v) <==> found@.take(j as int).contains(v) && !before.mine(v)
                    && observed@[v as int] == UNVISITED,
            forall|v: usize| v < before.distances@.len() ==> #[trigger] sent_set.has_room(v),
            forall|v: usize|
                v < before.distances@.len() ==> #[trigger] sent_set.has(v) == export@.contains(v),
            forall|v: usize|
                v < before.distances@.len() ==> #[trigger] worker.distances@[v as int] == (
                if found@.take(j as int).contains(v) && before.mine(v) {
                    d
                } else {
                    before.distances@[v as int]
                }),
        decreases found.len() - j,
    {
        let v: usize = found[j];
        let ghost seen = found@.take(j as int);
        let ghost next = worker.next_frontier@;
        let ghost sent = export@;
        let ghost table = worker.distances@;
        proof {
            assert(found@.contains(found@[j as int]));
            assert(table[v as int] == UNVISITED <==> !(seen.contains(v) && before.mine(v)));
            lemma_take_more(found@, j as int);
        }
        if worker.partition.owner(v) == worker.worker_id {
            if worker.distances[v] == UNVISITED {
                worker.distances[v] = worker.current_level + 1;
                worker.next_frontier.push(v);
                proof {
                    assert(worker.next_frontier@.take(old_len) =~= before.next_frontier@);
                    assert(worker.next_frontier@.skip(old_len) =~= next.skip(old_len).push(v));
                    lemma_push_contains(next.skip(old_len), v);
                }
            }
        } else if observed[v] == UNVISITED {
            proof {
                assert(sent_set.has_room(v));
                assert(sent_set.has(v) == sent.contains(v));
            }
            let ghost old_set = sent_set;
            if sent_set.insert(v) {
                export.push(v);
                proof {
                    lemma_push_contains(sent, v);
                }
            }
            proof {
                assert forall|x: usize|
                    x < before.distances@.len() implies #[trigger] sent_set.has_room(x) by {
                    assert(old_set.has_room(x));
                }
                assert forall|x: usize|
                    x < before.distances@.len() implies #[trigger] sent_set.has(x)
                    == export@.contains(x) by {
                    assert(sent_set.has_room(x));
                    assert(old_set.has(x) == sent.contains(x));
                }
            }
        }
        j = j + 1;
    }
    worker.current_frontier.clear();
    assert(found@.take(found@.len() as int) =~= found@);
    export
}

/// One element more at the front of a list.
proof fn lemma_take_more(list: Seq<usize>, j: int)
    requires
        0 <= j < list.len(),
    ensures
        forall|x: usize| #[trigger]
            list.take(j + 1).contains(x) <==> list.take(j).contains(x) || x == list[j],
{
    assert(list.take(j + 1) =~= list.take(j).push(list[j]));
    lemma_push_contains(list.take(j), list[j]);
}

/// What a list contains after one element was added.
proof fn lemma_push_contains(list: Seq<usize>, v: usize)
    ensures
        forall|x: usize| #[trigger] list.push(v).contains(x) <==> list.contains(x) || x == v,
        list.no_duplicates() && !list.contains(v) ==> list.push(v).no_duplicates(),
{
    assert forall|x: usize| #[trigger] list.push(v).contains(x) <==> list.contains(x) || x == v by {
        if list.push(v).contains(x) {
            let i = choose|i: int| 0 <= i <= list.len() && list.push(v)[i] == x;
            if i < list.len() {
                assert(list[i] == x);
            }
        }
        if list.contains(x) {
            let i = choose|i: int| 0 <= i < list.len() && list[i] == x;
            assert(list.push(v)[i] == x);
        }
        assert(list.push(v)[list.len() as int] == v);
    }
}

/// The neighbors of an expandable frontier have entries in the table.
proof fn lemma_candidates_in_table(graph: &Graph, table: Seq<usize>, frontier: Seq<usize>)
    requires
        expandable(graph, table, frontier),
    ensures
        forall|v: usize| #[trigger]
            candidates(graph@, frontier).contains(v) ==> v < table.len(),
{
    assert forall|v: usize| #[trigger] candidates(graph@, frontier).contains(v) implies v
        < table.len() by {
        assert forall|i: int| 0 <= i < frontier.len() implies #[trigger] frontier[i]
            < graph@.len() by {
            assert(graph.row_in_bounds(frontier[i] as int));
        }
        lemma_candidates_contains(graph@, frontier, v);
        let u = choose|u: usize| frontier.contains(u) && #[trigger] edge(graph@, u, v);
        let i = choose|i: int| 0 <= i < frontier.len() && frontier[i] == u;
        let j = choose|j: int| 0 <= j < graph@[u as int].len() && graph@[u as int][j] == v;
        assert(graph@[frontier[i] as int][j] < table.len());
    }
}

/// Starts a search from `source` on a delegate that marks what it exports: the table is wiped
/// over the thread pool, and only the owner of the source has a distance for it.
pub fn start_half(worker: &mut Worker<Halves>, source: usize)
    requires
        old(worker).well_formed(),
        source < old(worker).partition.num_nodes,
    ensures
        final(worker).partition == old(worker).partition,
        final(worker).worker_id == old(worker).worker_id,
        half_started(*final(worker), source),
{
    wipe(&mut worker.distances);
    worker.current_frontier.clear();
    worker.next_frontier.clear();
    worker.current_level = 0;
    if worker.partition.owner(source) == worker.worker_id {
        worker.distances[source] = 0;
        worker.current_frontier.push(source);
        assert(worker.current_frontier@ =~= seq![source]);
    }
}

/// A delegate that marks what it exports has started a search from `source`.
pub open spec fn half_started(worker: Worker<Halves>, source: usize) -> bool {
    &&& worker.well_formed()
    &&& worker.current_level == 0
    &&& worker.next_frontier@.len() == 0
    &&& worker.current_frontier@ == (if worker.mine(source) {
        seq![source]
    } else {
        Seq::empty()
    })
    &&& forall|v: usize|
        v < worker.distances@.len() ==> #[trigger] worker.entry(v) == (if v == source
            && worker.mine(source) {
            0
        } else {
            UNVISITED
        })
}

/// What an expansion makes of the own nodes of a delegate, whatever it does with the others.
pub open spec fn half_expanded(
    adj: Seq<Seq<usize>>,
    before: Worker<Halves>,
    after: Worker<Halves>,
) -> bool {
    let met = candidates(adj, before.current_frontier@);
    &&& after.well_formed()
    &&& after.same_place(before)
    &&& after.current_frontier@.len() == 0
    &&& found_own(before, after, met)
    &&& forall|v: usize|
        v < before.distances@.len() && before.mine(v) ==> #[trigger] after.entry(v) == (
        if met.contains(v) && before.entry(v) == UNVISITED {
            (before.current_level + 1) as usize
        } else {
            before.entry(v)
        })
}

/// One level of both delegates: each expanded its frontier and imported what the other one
/// exported. An export has nodes of the other half to which the frontier leads, among them all
/// that the other delegate has no distance for after its own expansion.
pub open spec fn half_level(
    adj: Seq<Seq<usize>>,
    before: Seq<Worker<Halves>>,
    expanded: Seq<Worker<Halves>>,
    exports: Seq<Seq<usize>>,
    after: Seq<Worker<Halves>>,
) -> bool {
    &&& before.len() == 2
    &&& expanded.len() == 2
    &&& exports.len() == 2
    &&& after.len() == 2
    &&& forall|w: int|
        0 <= w < 2 ==> {
            &&& half_expanded(adj, before[w], expanded[w])
            &&& (#[trigger] after[w]).well_formed()
            &&& after[w].discovered(expanded[w], expanded[w].fresh(exports[1 - w]))
            &&& after[w].current_frontier@ == expanded[w].current_frontier@
        }
    &&& forall|k: int, v: usize|
        0 <= k < 2 && #[trigger] exports[k].contains(v) ==> candidates(
            adj,
            before[k].current_frontier@,
        ).contains(v) && !before[k].mine(v)
    &&& forall|k: int, v: usize|
        0 <= k < 2 && candidates(adj, before[k].current_frontier@).contains(v) && !before[k].mine(v)
            && expanded[1 - k].entry(v) == UNVISITED ==> #[trigger] exports[k].contains(v)
}

/// Two delegates that hand each other the nodes of the other half finish a level.
pub proof fn halves_finish_level(
    adj: Seq<Seq<usize>>,
    s: usize,
    partition: Halves,
    before: Seq<Worker<Halves>>,
    expanded: Seq<Worker<Halves>>,
    exports: Seq<Seq<usize>>,
    after: Seq<Worker<Halves>>,
    level: nat,
)
    requires
        dealt(adj, s, partition),
        synchronized(adj, s, partition, before, level),
        half_level(adj, before, expanded, exports, after),
        level + 1 < UNVISITED,
    ensures
        level_complete(adj, partition, before, after, level),
{
    assert forall|w: int| 0 <= w < after.len() implies {
        &&& (#[trigger] after[w]).well_formed()
        &&& after[w].partition == partition
        &&& after[w].worker_id == w
        &&& after[w].current_level == level
        &&& after[w].current_frontier@.len() == 0
    } by {
        assert(before[w].well_formed());
    }
    assert forall|w: int, v: usize| 0 <= w < after.len() implies (
    #[trigger] after[w].next_frontier@.contains(v) <==> partition.places(v)
        && partition.owner_of(v) == w && before[w].entry(v) == UNVISITED && met(adj, before, v))
        && (partition.places(v) && partition.owner_of(v) == w ==> after[w].entry(v) == (
    if after[w].next_frontier@.contains(v) {
        level + 1
    } else {
        before[w].entry(v) as nat
    })) by {
        lemma_half_node(adj, s, partition, before, expanded, exports, after, level, w, v);
    }
}

/// What a level of both delegates makes of one node.
proof fn lemma_half_node(
    adj: Seq<Seq<usize>>,
    s: usize,
    partition: Halves,
    before: Seq<Worker<Halves>>,
    expanded: Seq<Worker<Halves>>,
    exports: Seq<Seq<usize>>,
    after: Seq<Worker<Halves>>,
    level: nat,
    w: int,
    v: usize,
)
    requires
        dealt(adj, s, partition),
        synchronized(adj, s, partition, before, level),
        half_level(adj, before, expanded, exports, after),
        level + 1 < UNVISITED,
        0 <= w < 2,
    ensures
        after[w].next_frontier@.contains(v) <==> partition.places(v) && partition.owner_of(v) == w
            && before[w].entry(v) == UNVISITED && met(adj, before, v),
        partition.places(v) && partition.owner_of(v) == w ==> after[w].entry(v) == (
        if after[w].next_frontier@.contains(v) {
            level + 1
        } else {
            before[w].entry(v) as nat
        }),
{
    let k = 1 - w;
    assert(after[w].well_formed());
    assert(before[w].well_formed() && before[k].well_formed());
    let own = candidates(adj, before[w].current_frontier@);
    let other = candidates(adj, before[k].current_frontier@);
    let imported = expanded[w].fresh(exports[k]);
    let found = expanded[w].next_frontier@;
    lemma_first_seen(exports[k], |x: usize| expanded[w].entry(x) == UNVISITED);
    assert(before[w].next_frontier@.len() == 0);
    assert(found.skip(0) =~= found);
    assert(found.contains(v) <==> own.contains(v) && before[w].mine(v) && before[w].entry(v)
        == UNVISITED);
    assert(after[w].next_frontier@ == found + imported);
    lemma_met(adj, s, partition, before, level, v);
    if own.contains(v) || other.contains(v) {
        assert(met(adj, before, v));
    }
    if met(adj, before, v) {
        let m = choose|m: int|
            0 <= m < before.len() && #[trigger] candidates(
                adj,
                before[m].current_frontier@,
            ).contains(v);
        assert(m == w || m == k);
    }
    assert(exports[k].contains(v) ==> other.contains(v) && !before[k].mine(v));
    if found.contains(v) {
        let i = choose|i: int| 0 <= i < found.len() && found[i] == v;
        assert((found + imported)[i] == v);
    }
    if imported.contains(v) {
        let i = choose|i: int| 0 <= i < imported.len() && imported[i] == v;
        assert((found + imported)[found.len() + i] == v);
    }
    if after[w].next_frontier@.contains(v) {
        let i = choose|i: int| 0 <= i < (found + imported).len() && (found + imported)[i] == v;
        if i < found.len() {
            assert(found[i] == v);
        } else {
            assert(imported[i - found.len()] == v);
        }
    }
    if partition.places(v) && partition.owner_of(v) == w {
        lemma_discovered_entry(expanded[w], after[w], imported, v);
        assert(expanded[w].entry(v) == (if own.contains(v) && before[w].entry(v) == UNVISITED {
            (before[w].current_level + 1) as usize
        } else {
            before[w].entry(v)
        }));
        if other.contains(v) && expanded[w].entry(v) == UNVISITED {
            assert(exports[k].contains(v));
        }
    }
}

/// A delegate has marked a node of the other half only where the other delegate has a
/// distance for it.
pub open spec fn exports_known(workers: Seq<Worker<Halves>>) -> bool {
    forall|k: int, v: usize|
        0 <= k < 2 && v < workers[k].distances@.len() && !workers[k].mine(v)
            && #[trigger] workers[k].entry(v) != UNVISITED ==> workers[1 - k].entry(v) != UNVISITED
}

/// The exports of both delegates that mark what they export, and what they do with them.
pub open spec fn claimed_level(
    adj: Seq<Seq<usize>>,
    before: Seq<Worker<Halves>>,
    expanded: Seq<Worker<Halves>>,
    exports: Seq<Seq<usize>>,
    after: Seq<Worker<Halves>>,
) -> bool {
    &&& before.len() == 2
    &&& expanded.len() == 2
    &&& exports.len() == 2
    &&& after.len() == 2
    &&& forall|w: int|
        0 <= w < 2 ==> {
            &&& claimed_from(
                before[w],
                expanded[w],
                candidates(adj, before[w].current_frontier@),
                exports[w],
            )
            &&& (#[trigger] after[w]).well_formed()
            &&& after[w].discovered(expanded[w], expanded[w].fresh(exports[1 - w]))
            &&& after[w].current_frontier@ == expanded[w].current_frontier@
        }
}

/// Delegates that mark what they export start with no mark on the nodes of the other half.
pub proof fn halves_start_search(partition: Halves, s: usize, workers: Seq<Worker<Halves>>)
    requires
        partition.valid(),
        workers.len() == 2,
        s < partition.num_nodes,
        forall|w: int|
            0 <= w < 2 ==> (#[trigger] workers[w]).partition == partition && workers[w].worker_id
                == w && half_started(workers[w], s),
    ensures
        started(partition, s, workers),
        exports_known(workers),
{
    assert forall|w: int, v: usize|
        0 <= w < workers.len() && partition.places(v) && partition.owner_of(
            v,
        ) == w implies #[trigger] workers[w].entry(v) == (if v == s {
        0
    } else {
        UNVISITED
    }) by {
        assert(half_started(workers[w], s));
    }
    assert forall|k: int, v: usize|
        0 <= k < 2 && v < workers[k].distances@.len() && !workers[k].mine(v)
            && #[trigger] workers[k].entry(v) != UNVISITED implies workers[1 - k].entry(v)
        != UNVISITED by {
        assert(half_started(workers[k], s));
        assert(half_started(workers[1 - k], s));
    }
    assert forall|w: int| 0 <= w < workers.len() implies {
        &&& (#[trigger] workers[w]).well_formed()
        &&& workers[w].current_level == 0
        &&& workers[w].next_frontier@.len() == 0
    } by {
        assert(half_started(workers[w], s));
    }
}

/// Delegates that look into each other's tables start with the same distance for the source.
pub proof fn shared_start_is_known(partition: Halves, s: usize, workers: Seq<Worker<Halves>>)
    requires
        workers.len() == 2,
        s < partition.num_nodes,
        forall|w: int|
            0 <= w < 2 ==> (#[trigger] workers[w]).partition == partition
                && workers[w].trial_started(s),
    ensures
        exports_known(workers),
{
    assert forall|k: int, v: usize|
        0 <= k < 2 && v < workers[k].distances@.len() && !workers[k].mine(v)
            && #[trigger] workers[k].entry(v) != UNVISITED implies workers[1 - k].entry(v)
        != UNVISITED by {
        assert(workers[k].trial_started(s));
        assert(workers[1 - k].trial_started(s));
        assert(workers[k].distances@[v as int] == workers[k].entry(v));
        assert(workers[1 - k].distances@[v as int] == workers[1 - k].entry(v));
    }
}

/// Marking what is exported loses nothing: the level is finished, and the marks stay true.
pub proof fn claiming_finishes_level(
    adj: Seq<Seq<usize>>,
    s: usize,
    partition: Halves,
    before: Seq<Worker<Halves>>,
    expanded: Seq<Worker<Halves>>,
    exports: Seq<Seq<usize>>,
    after: Seq<Worker<Halves>>,
    level: nat,
)
    requires
        dealt(adj, s, partition),
        synchronized(adj, s, partition, before, level),
        exports_known(before),
        claimed_level(adj, before, expanded, exports, after),
        level + 1 < UNVISITED,
    ensures
        level_complete(adj, partition, before, after, level),
        exports_known(after),
{
    assert(before[0].well_formed() && before[1].well_formed());
    assert(after[0].well_formed() && after[1].well_formed());
    assert forall|k: int, v: usize|
        0 <= k < 2 && candidates(adj, before[k].current_frontier@).contains(v) && !before[k].mine(v)
            && expanded[1 - k].entry(v) == UNVISITED implies #[trigger] exports[k].contains(v) by {
        assert(candidates(adj, before[k].current_frontier@).contains(v));
        assert(met(adj, before, v));
        lemma_met(adj, s, partition, before, level, v);
        assert(before[k].well_formed() && before[1 - k].well_formed());
        assert(expanded[1 - k].entry(v) == (if candidates(
            adj,
            before[1 - k].current_frontier@,
        ).contains(v) && before[1 - k].entry(v) == UNVISITED {
            (before[1 - k].current_level + 1) as usize
        } else {
            before[1 - k].entry(v)
        }));
        assert(before[1 - k].entry(v) == UNVISITED);
        assert(before[k].entry(v) == UNVISITED);
    }
    assert forall|w: int| 0 <= w < 2 implies {
        &&& half_expanded(adj, before[w], expanded[w])
        &&& (#[trigger] after[w]).well_formed()
        &&& after[w].discovered(expanded[w], expanded[w].fresh(exports[1 - w]))
        &&& after[w].current_frontier@ == expanded[w].current_frontier@
    } by {
        assert(before[w].well_formed());
    }
    halves_finish_level(adj, s, partition, before, expanded, exports, after, level);
    assert forall|k: int, v: usize|
        0 <= k < 2 && v < after[k].distances@.len() && !after[k].mine(v)
            && #[trigger] after[k].entry(v) != UNVISITED implies after[1 - k].entry(v)
        != UNVISITED by {
        assert(before[k].well_formed() && before[1 - k].well_formed());
        assert(after[k].well_formed() && after[1 - k].well_formed());
        let here = expanded[k].fresh(exports[1 - k]);
        let there = expanded[1 - k].fresh(exports[k]);
        lemma_first_seen(exports[1 - k], |x: usize| expanded[k].entry(x) == UNVISITED);
        lemma_first_seen(exports[k], |x: usize| expanded[1 - k].entry(x) == UNVISITED);
        lemma_discovered_entry(expanded[k], after[k], here, v);
        lemma_discovered_entry(expanded[1 - k], after[1 - k], there, v);
        assert(exports[1 - k].contains(v) ==> !before[1 - k].mine(v));
        assert(!here.contains(v));
        assert(expanded[k].entry(v) != UNVISITED);
        if before[k].entry(v) != UNVISITED {
            assert(before[1 - k].entry(v) != UNVISITED);
            assert(expanded[1 - k].entry(v) == before[1 - k].entry(v));
        } else {
            assert(exports[k].contains(v));
        }
    }
}

/// The exports of both delegates that look into the other one's table, and what they do with
/// them. A distance that was seen there is one that the other delegate still has after its own
/// expansion.
pub open spec fn observed_level(
    adj: Seq<Seq<usize>>,
    before: Seq<Worker<Halves>>,
    expanded: Seq<Worker<Halves>>,
    observed: Seq<Seq<usize>>,
    exports: Seq<Seq<usize>>,
    after: Seq<Worker<Halves>>,
) -> bool {
    &&& before.len() == 2
    &&& expanded.len() == 2
    &&& observed.len() == 2
    &&& exports.len() == 2
    &&& after.len() == 2
    &&& forall|w: int|
        0 <= w < 2 ==> {
            &&& observed_from(
                before[w],
                expanded[w],
                candidates(adj, before[w].current_frontier@),
                observed[w],
                exports[w],
            )
            &&& (#[trigger] after[w]).well_formed()
            &&& after[w].discovered(expanded[w], expanded[w].fresh(exports[1 - w]))
            &&& after[w].current_frontier@ == expanded[w].current_frontier@
        }
    &&& forall|k: int, v: usize|
        0 <= k < 2 && v < observed[k].len() && #[trigger] observed[k][v as int] != UNVISITED
            && !before[k].mine(v) ==> expanded[1 - k].entry(v) != UNVISITED
}

/// Looking into the other delegate's table loses nothing, however far the other one has come
/// meanwhile: the level is finished, and what a delegate has for nodes of the other half is
/// still only what the other delegate knows.
pub proof fn observing_finishes_level(
    adj: Seq<Seq<usize>>,
    s: usize,
    partition: Halves,
    before: Seq<Worker<Halves>>,
    expanded: Seq<Worker<Halves>>,
    observed: Seq<Seq<usize>>,
    exports: Seq<Seq<usize>>,
    after: Seq<Worker<Halves>>,
    level: nat,
)
    requires
        dealt(adj, s, partition),
        synchronized(adj, s, partition, before, level),
        exports_known(before),
        observed_level(adj, before, expanded, observed, exports, after),
        forall|k: int| 0 <= k < 2 ==> (#[trigger] observed[k]).len() == partition.num_nodes,
        level + 1 < UNVISITED,
    ensures
        level_complete(adj, partition, before, after, level),
        exports_known(after),
{
    assert(before[0].well_formed() && before[1].well_formed());
    assert(after[0].well_formed() && after[1].well_formed());
    assert forall|k: int, v: usize|
        0 <= k < 2 && candidates(adj, before[k].current_frontier@).contains(v) && !before[k].mine(v)
            && expanded[1 - k].entry(v) == UNVISITED implies #[trigger] exports[k].contains(v) by {
        assert(candidates(adj, before[k].current_frontier@).contains(v));
        assert(met(adj, before, v));
        lemma_met(adj, s, partition, before, level, v);
        assert(before[k].well_formed() && before[1 - k].well_formed());
        assert(after[1 - k].well_formed());
        assert(expanded[1 - k].entry(v) == (if candidates(
            adj,
            before[1 - k].current_frontier@,
        ).contains(v) && before[1 - k].mine(v) && before[1 - k].entry(v) == UNVISITED {
            (before[1 - k].current_level + 1) as usize
        } else {
            before[1 - k].entry(v)
        }));
        assert(before[k].entry(v) == UNVISITED);
        assert(observed[k].len() == partition.num_nodes);
        assert(observed[k][v as int] == UNVISITED);
    }
    assert forall|w: int| 0 <= w < 2 implies {
        &&& half_expanded(adj, before[w], expanded[w])
        &&& (#[trigger] after[w]).well_formed()
        &&& after[w].discovered(expanded[w], expanded[w].fresh(exports[1 - w]))
        &&& after[w].current_frontier@ == expanded[w].current_frontier@
    } by {
        assert(before[w].well_formed());
    }
    halves_finish_level(adj, s, partition, before, expanded, exports, after, level);
    assert forall|k: int, v: usize|
        0 <= k < 2 && v < after[k].distances@.len() && !after[k].mine(v)
            && #[trigger] after[k].entry(v) != UNVISITED implies after[1 - k].entry(v)
        != UNVISITED by {
        assert(before[k].well_formed() && before[1 - k].well_formed());
        assert(after[k].well_formed() && after[1 - k].well_formed());
        let here = expanded[k].fresh(exports[1 - k]);
        let there = expanded[1 - k].fresh(exports[k]);
        lemma_first_seen(exports[1 - k], |x: usize| expanded[k].entry(x) == UNVISITED);
        lemma_discovered_entry(expanded[k], after[k], here, v);
        lemma_discovered_entry(expanded[1 - k], after[1 - k], there, v);
        assert(exports[1 - k].contains(v) ==> !before[1 - k].mine(v));
        assert(!here.contains(v));
        assert(before[k].entry(v) != UNVISITED);
        assert(before[1 - k].entry(v) != UNVISITED);
        assert(expanded[1 - k].entry(v) == before[1 - k].entry(v));
    }
}

/// Both delegates get the same answer to whether the search is over, and when it is, the
/// tables together are the breadth-first search result.
pub proof fn halves_result(
    adj: Seq<Seq<usize>>,
    s: usize,
    partition: Halves,
    before: Seq<Worker<Halves>>,
    expanded: Seq<Worker<Halves>>,
    exports: Seq<Seq<usize>>,
    after: Seq<Worker<Halves>>,
    level: nat,
)
    requires
        adj.len() <= usize::MAX,
        dealt(adj, s, partition),
        synchronized(adj, s, partition, before, level),
        half_level(adj, before, expanded, exports, after),
        after[0].next_frontier@.len() == 0 && after[1].next_frontier@.len() == 0,
        level + 1 < UNVISITED,
    ensures
        shortest_distances(adj, s, joint_table(partition, after)),
{
    halves_finish_level(adj, s, partition, before, expanded, exports, after, level);
    quiet_level_is_result(adj, s, partition, before, after, level);
}

/// A delegate can do with a graph that has the neighbor lists of its own half only: its
/// frontier leads to the same nodes.
pub proof fn own_rows_suffice(
    adj: Seq<Seq<usize>>,
    part: Seq<Seq<usize>>,
    frontier: Seq<usize>,
)
    requires
        forall|i: int|
            0 <= i < frontier.len() ==> part[(#[trigger] frontier[i]) as int]
                == adj[frontier[i] as int],
    ensures
        candidates(part, frontier) == candidates(adj, frontier),
    decreases frontier.len(),
{
    if frontier.len() > 0 {
        let rest = frontier.drop_last();
        assert forall|i: int| 0 <= i < rest.len() implies part[(#[trigger] rest[i]) as int]
            == adj[rest[i] as int] by {
            assert(part[frontier[i] as int] == adj[frontier[i] as int]);
        }
        own_rows_suffice(adj, part, rest);
        assert(part[frontier[frontier.len() - 1] as int] == adj[frontier.last() as int]);
    }
}

/// Between two levels a delegate can expand its frontier over a graph that has the neighbor
/// lists of its own half.
pub proof fn half_can_be_expanded(
    adj: Seq<Seq<usize>>,
    s: usize,
    partition: Halves,
    workers: Seq<Worker<Halves>>,
    level: nat,
    graph: &Graph,
    w: int,
)
    requires
        adj.len() <= usize::MAX,
        dealt(adj, s, partition),
        synchronized(adj, s, partition, workers, level),
        level < UNVISITED,
        0 <= w < 2,
        graph@.len() == adj.len(),
        forall|u: usize| #[trigger]
            reachable(adj, s, u) && partition.owner_of(u) == w ==> graph.row_in_bounds(u as int),
        forall|u: int|
            0 <= u < adj.len() && partition.owner_of(u as usize) == w ==> #[trigger] graph@[u]
                == adj[u],
    ensures
        expandable(graph, workers[w].distances@, workers[w].current_frontier@),
        candidates(graph@, workers[w].current_frontier@) == candidates(
            adj,
            workers[w].current_frontier@,
        ),
{
    let frontier = workers[w].current_frontier@;
    assert(workers[w].well_formed());
    assert forall|i: int| 0 <= i < frontier.len() implies graph.row_in_bounds(
        (#[trigger] frontier[i]) as int,
    ) && graph@[frontier[i] as int] == adj[frontier[i] as int] && frontier[i] < adj.len() by {
        let u = frontier[i];
        assert(workers[w].current_frontier@.contains(u));
        let table = joint_table(partition, workers);
        assert(table[u as int] == level);
        assert(walk(adj, s, u, level));
        assert(reachable(adj, s, u));
    }
    own_rows_suffice(adj, graph@, frontier);
    assert forall|i: int, j: int|
        0 <= i < frontier.len() && 0 <= j
            < graph@[frontier[i] as int].len() implies #[trigger] graph@[frontier[i] as int][j]
        < workers[w].distances@.len() by {
        let u = frontier[i];
        let v = graph@[u as int][j];
        assert(workers[w].current_frontier@.contains(u));
        assert(adj[u as int].contains(v));
        assert(edge(adj, u, v));
        lemma_candidates_contains(adj, frontier, v);
        assert(met(adj, workers, v));
        lemma_met(adj, s, partition, workers, level, v);
    }
}


/// What a delegate that marks its exports does with a node that its frontier leads to and that it
/// has no distance for: the node gets the next level, and is put into the next frontier or the
/// export by the half that it is of, once. No other node is touched.
pub proof fn claims_are_new_nodes(
    before: Worker<Halves>,
    after: Worker<Halves>,
    met: Seq<usize>,
    export: Seq<usize>,
    v: usize,
)
    requires
        claimed_from(before, after, met, export),
        before.next_frontier@.len() == 0,
        before.current_level < usize::MAX,
        v < before.distances@.len(),
    ensures
        after.next_frontier@.no_duplicates(),
        export.no_duplicates(),
        met.contains(v) && before.entry(v) == UNVISITED ==> {
            &&& after.entry(v) == before.current_level + 1
            &&& export.contains(v) == (before.partition.owner_of(v) != before.worker_id)
            &&& after.next_frontier@.contains(v) == (before.partition.owner_of(v)
                == before.worker_id)
        },
        !met.contains(v) || before.entry(v) != UNVISITED ==> {
            &&& after.entry(v) == before.entry(v)
            &&& !export.contains(v)
            &&& !after.next_frontier@.contains(v)
        },
{
    assert(after.next_frontier@.skip(0) =~= after.next_frontier@);
}

/// What a delegate that looks into the other table does with a node that its frontier leads to
/// and that it has no distance for. One of its own half gets the next level and joins the next
/// frontier. One of the other half is exported where the other table was seen without a distance
/// for it, and gets none here.
pub proof fn observations_are_new_nodes(
    before: Worker<Halves>,
    after: Worker<Halves>,
    met: Seq<usize>,
    observed: Seq<usize>,
    export: Seq<usize>,
    v: usize,
)
    requires
        observed_from(before, after, met, observed, export),
        before.next_frontier@.len() == 0,
        before.current_level < usize::MAX,
        v < before.distances@.len(),
    ensures
        after.next_frontier@.no_duplicates(),
        export.no_duplicates(),
        before.partition.owner_of(v) == before.worker_id && met.contains(v) && before.entry(v)
            == UNVISITED ==> {
            &&& after.entry(v) == before.current_level + 1
            &&& after.next_frontier@.contains(v)
            &&& !export.contains(v)
        },
        before.partition.owner_of(v) != before.worker_id ==> {
            &&& after.entry(v) == before.entry(v)
            &&& !after.next_frontier@.contains(v)
            &&& export.contains(v) == (met.contains(v) && before.entry(v) == UNVISITED
                && observed[v as int] == UNVISITED)
        },
        !met.contains(v) || before.entry(v) != UNVISITED ==> {
            &&& after.entry(v) == before.entry(v)
            &&& !export.contains(v)
            &&& !after.next_frontier@.contains(v)
        },
{
    assert(after.next_frontier@.skip(0) =~= after.next_frontier@);
}


/// Two pools of a delegate each have not more threads than there are, and leave over at most one;
/// a pool always has one.
pub proof fn pools_share_threads(threads: usize)
    ensures
        threads_each(threads) >= 1,
        threads >= 2 ==> 2 * threads_each(threads) <= threads <= 2 * threads_each(threads) + 1,
        threads < 2 ==> threads_each(threads) == 1,
{
}

} // verus!

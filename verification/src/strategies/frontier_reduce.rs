//! Whole frontiers are reduced by joining them at the root worker, which hands
//! the joined frontier to all.

use vstd::prelude::*;
use vstd::string::StringExecFns;

use super::broadcast::{
    broadcast_finishes_level, broadcast_result, contributes, gathered_is_dealt, gathering_composes,
    gathers,
};
use super::exchange::{had_work, stops_after, work_at, work_is_known};
use super::outcome::{list_all, lists_own, Found};
use super::outgoing;
use super::turns::{
    advance_all, all_expandable, gather_all, lemma_all_expandable, searchable, start_all,
};
use crate::frontier::{candidates, lemma_filter_contains, lemma_first_seen};
use crate::graph::adjacency::{well_formed_is_usable, Graph};
use crate::graph::grid::grid_rows;
use crate::graph::{usable_from, NeighborLists};
use crate::lockstep::{
    dealt, expanded_from, frontiers_run_empty, in_step, joint_table, level_complete,
    level_keeps_step, synchronized,
};
use crate::message::frontier::BfsMessage;
use crate::model::{shortest_distances, UNVISITED};
use crate::moments::{
    ended_search_has_all_keys, note, opening_keys, single_run_keys, texts, Pattern, Steps,
};
use crate::params::single::Input;
use crate::partition::{Partition, Stripes};
use crate::worker::Worker;

verus! {

/// Expands the frontier and makes up the message for the reduction: the own nodes that were
/// discovered, and then the nodes that belong to others.
pub fn prepare<G: NeighborLists>(worker: &mut Worker<Stripes>, graph: &G) -> (message: BfsMessage)
    requires
        old(worker).well_formed(),
        old(worker).current_level + 1 < UNVISITED,
        forall|i: int|
            0 <= i < old(worker).current_frontier@.len() ==> graph.readable(
                #[trigger] old(worker).current_frontier@[i],
            ),
        forall|v: usize| #[trigger]
            candidates(graph.rows(), old(worker).current_frontier@).contains(v)
                ==> old(worker).partition.places(v),
    ensures
        expanded_from(graph.rows(), *old(worker), *final(worker)),
        message.0@ == final(worker).next_frontier@ + outgoing(graph.rows(), *old(worker)),
{
    let (external, _discoveries) = worker.expand(graph);
    let mut nodes: Vec<usize> = worker.next_frontier.clone();
    assert(nodes@ =~= worker.next_frontier@);
    let mut more = external;
    nodes.append(&mut more);
    BfsMessage(nodes)
}

/// Discovers the own nodes of the frontier that the root worker handed out. An empty frontier
/// ends the search.
pub fn finish(worker: &mut Worker<Stripes>, message: &BfsMessage) -> (stop: bool)
    requires
        old(worker).well_formed(),
        old(worker).current_level + 1 < UNVISITED,
        forall|v: usize| #[trigger]
            message.0@.contains(v) ==> old(worker).partition.places(v),
    ensures
        stop == (message.0@.len() == 0),
        final(worker).well_formed(),
        final(worker).discovered(*old(worker), old(worker).fresh_own(message.0@)),
        final(worker).current_frontier@ == old(worker).current_frontier@,
{
    proof {
        assert forall|k: int| 0 <= k < message.0@.len() implies worker.partition.places(
            #[trigger] message.0@[k],
        ) by {
            assert(message.0@.contains(message.0@[k]));
        }
    }
    worker.absorb_own(message.0.as_slice());
    message.0.len() == 0
}

/// What a worker sends to the reduction is a contribution to the next frontier. It is empty
/// only where the worker has discovered nothing.
pub proof fn frontier_contributes(
    adj: Seq<Seq<usize>>,
    before: Worker<Stripes>,
    after: Worker<Stripes>,
    list: Seq<usize>,
)
    requires
        expanded_from(adj, before, after),
        before.next_frontier@.len() == 0,
        list == after.next_frontier@ + outgoing(adj, before),
    ensures
        contributes(adj, before, list),
        list.len() == 0 ==> before.fresh_own(candidates(adj, before.current_frontier@)).len() == 0,
{
    let cands = candidates(adj, before.current_frontier@);
    let found = before.fresh_own(cands);
    let keep = |v: usize| before.mine(v) && before.entry(v) == UNVISITED;
    assert(after.next_frontier@ =~= found);
    lemma_first_seen(cands, keep);
    let out = outgoing(adj, before);
    assert forall|v: usize| #[trigger] list.contains(v) implies cands.contains(v) by {
        lemma_filter_contains(cands, |v: usize| !before.mine(v), v);
        let i = choose|i: int| 0 <= i < list.len() && list[i] == v;
        if i < found.len() {
            assert(found[i] == v);
            assert(found.contains(v));
        } else {
            assert(out[i - found.len()] == v);
            assert(out.contains(v));
        }
    }
    assert forall|v: usize| #[trigger] cands.contains(v) && !before.mine(v) implies list.contains(
        v,
    ) by {
        lemma_filter_contains(cands, |v: usize| !before.mine(v), v);
        let i = choose|i: int| 0 <= i < out.len() && out[i] == v;
        assert(list[found.len() + i] == v);
    }
}

/// The frontiers that workers made up for the reduction.
pub open spec fn prepared(
    adj: Seq<Seq<usize>>,
    before: Seq<Worker<Stripes>>,
    expanded: Seq<Worker<Stripes>>,
    lists: Seq<Seq<usize>>,
) -> bool {
    &&& before.len() == expanded.len() == lists.len()
    &&& forall|w: int|
        0 <= w < before.len() ==> {
            &&& expanded_from(adj, before[w], #[trigger] expanded[w])
            &&& lists[w] == expanded[w].next_frontier@ + outgoing(adj, before[w])
        }
}

/// Joining all frontiers and handing the whole to all workers finishes a level.
pub proof fn frontier_reduce_finishes_level(
    adj: Seq<Seq<usize>>,
    s: usize,
    partition: Stripes,
    before: Seq<Worker<Stripes>>,
    expanded: Seq<Worker<Stripes>>,
    lists: Seq<Seq<usize>>,
    whole: Seq<usize>,
    after: Seq<Worker<Stripes>>,
    level: nat,
)
    requires
        dealt(adj, s, partition),
        synchronized(adj, s, partition, before, level),
        prepared(adj, before, expanded, lists),
        gathers(lists, whole),
        after.len() == before.len(),
        forall|w: int|
            0 <= w < before.len() ==> (#[trigger] after[w]).well_formed() && after[w].discovered(
                expanded[w],
                expanded[w].fresh_own(whole),
            ) && after[w].current_frontier@ == expanded[w].current_frontier@,
        level + 1 < UNVISITED,
    ensures
        level_complete(adj, partition, before, after, level),
{
    assert forall|w: int| 0 <= w < before.len() implies {
        &&& (#[trigger] after[w]).well_formed()
        &&& expanded_from(adj, before[w], expanded[w])
        &&& contributes(adj, before[w], lists[w])
        &&& after[w].discovered(expanded[w], expanded[w].fresh_own(whole))
        &&& after[w].current_frontier@ == expanded[w].current_frontier@
    } by {
        assert(expanded_from(adj, before[w], expanded[w]));
        assert(before[w].well_formed());
        frontier_contributes(adj, before[w], expanded[w], lists[w]);
    }
    broadcast_finishes_level(
        adj,
        s,
        partition,
        before,
        expanded,
        lists,
        whole,
        after,
        level,
    );
}

/// All workers draw the same conclusion from the joined frontier, and go on exactly as long as
/// some worker's frontier led to a node that was its own and unvisited, or another's.
pub proof fn frontier_reduce_agrees(
    adj: Seq<Seq<usize>>,
    before: Seq<Worker<Stripes>>,
    expanded: Seq<Worker<Stripes>>,
    lists: Seq<Seq<usize>>,
    whole: Seq<usize>,
)
    requires
        prepared(adj, before, expanded, lists),
        forall|w: int|
            0 <= w < before.len() ==> (#[trigger] before[w]).next_frontier@.len() == 0,
        gathers(lists, whole),
    ensures
        whole.len() == 0 <==> forall|k: int|
            0 <= k < before.len() ==> !had_work(adj, #[trigger] before[k]),
{
    assert forall|k: int| 0 <= k < before.len() implies (lists[k].len() == 0 <==> !had_work(
        adj,
        #[trigger] before[k],
    )) by {
        assert(expanded_from(adj, before[k], expanded[k]));
        assert(before[k].next_frontier@.len() == 0);
    }
    if whole.len() == 0 {
        assert forall|k: int| 0 <= k < before.len() implies !had_work(
            adj,
            #[trigger] before[k],
        ) by {
            if lists[k].len() > 0 {
                assert(lists[k].contains(lists[k][0]));
                assert(whole.contains(lists[k][0]));
            }
        }
    } else {
        let v = whole[0];
        assert(whole.contains(v));
        let k = choose|k: int| 0 <= k < lists.len() && #[trigger] lists[k].contains(v);
        assert(had_work(adj, before[k]));
    }
}

/// When the joined frontier is empty, the tables together are the breadth-first search result.
pub proof fn frontier_reduce_result(
    adj: Seq<Seq<usize>>,
    s: usize,
    partition: Stripes,
    before: Seq<Worker<Stripes>>,
    expanded: Seq<Worker<Stripes>>,
    lists: Seq<Seq<usize>>,
    whole: Seq<usize>,
    level: nat,
)
    requires
        adj.len() <= usize::MAX,
        dealt(adj, s, partition),
        synchronized(adj, s, partition, before, level),
        prepared(adj, before, expanded, lists),
        gathers(lists, whole),
        whole.len() == 0,
        level + 1 < UNVISITED,
    ensures
        shortest_distances(adj, s, joint_table(partition, expanded)),
{
    assert forall|w: int| 0 <= w < before.len() implies {
        &&& (#[trigger] expanded[w]).well_formed()
        &&& expanded_from(adj, before[w], expanded[w])
        &&& contributes(adj, before[w], lists[w])
        &&& expanded[w].discovered(expanded[w], expanded[w].fresh_own(whole))
    } by {
        assert(before[w].well_formed());
        frontier_contributes(adj, before[w], expanded[w], lists[w]);
        expanded[w].lemma_discovered_none(expanded[w].fresh_own(whole));
    }
    assert forall|w: int| 0 <= w < before.len() implies (#[trigger] before[w]).fresh_own(
        candidates(adj, before[w].current_frontier@),
    ).len() == 0 by {
        assert(expanded_from(adj, before[w], expanded[w]));
        frontier_contributes(adj, before[w], expanded[w], lists[w]);
        if lists[w].len() > 0 {
            let v = lists[w][0];
            assert(lists[w].contains(v));
            assert(whole.contains(v));
        }
    }
    broadcast_result(adj, s, partition, before, expanded, lists, whole, level);
}

/// From as many levels on as the graph has nodes, the joined frontier is empty: the workers
/// stop.
pub proof fn frontier_reduce_stops(
    adj: Seq<Seq<usize>>,
    s: usize,
    partition: Stripes,
    before: Seq<Worker<Stripes>>,
    expanded: Seq<Worker<Stripes>>,
    lists: Seq<Seq<usize>>,
    whole: Seq<usize>,
    level: nat,
)
    requires
        dealt(adj, s, partition),
        synchronized(adj, s, partition, before, level),
        prepared(adj, before, expanded, lists),
        gathers(lists, whole),
        adj.len() <= level < UNVISITED,
    ensures
        whole.len() == 0,
{
    frontiers_run_empty(adj, s, partition, before, level);
    if whole.len() > 0 {
        let v = whole[0];
        assert(whole.contains(v));
        let w = choose|w: int| 0 <= w < lists.len() && #[trigger] lists[w].contains(v);
        assert(expanded_from(adj, before[w], expanded[w]));
        assert(before[w].current_frontier@.len() == 0);
        assert(candidates(adj, before[w].current_frontier@) =~= Seq::<usize>::empty());
        frontier_contributes(adj, before[w], expanded[w], lists[w]);
        assert(candidates(adj, before[w].current_frontier@).contains(v));
    }
}

/// Every worker expands its frontier and makes up its message, and the frontiers are joined one
/// after the other. Returns the frontiers, for the proof.
fn reduce_all<G: NeighborLists>(
    workers: &mut Vec<Worker<Stripes>>,
    graph: &G,
    Ghost(partition): Ghost<Stripes>,
) -> (out: (BfsMessage, Ghost<Seq<Seq<usize>>>))
    requires
        all_expandable(partition, graph, old(workers)@),
    ensures
        prepared(graph.rows(), old(workers)@, final(workers)@, out.1@),
        gathers(out.1@, out.0.0@),
{
    let ghost before = workers@;
    let ghost adj = graph.rows();
    let ghost mut lists: Seq<Seq<usize>> = Seq::empty();
    let mut whole: Vec<usize> = Vec::new();
    let mut id: usize = 0;
    while id < workers.len()
        invariant
            adj == graph.rows(),
            id <= before.len(),
            before == old(workers)@,
            workers@.len() == before.len(),
            all_expandable(partition, graph, before),
            lists.len() == id,
            gathers(lists, whole@),
            forall|w: int| id <= w < before.len() ==> #[trigger] workers@[w] == before[w],
            forall|w: int|
                0 <= w < id ==> {
                    &&& expanded_from(adj, before[w], #[trigger] workers@[w])
                    &&& lists[w] == workers@[w].next_frontier@ + outgoing(adj, before[w])
                },
        decreases before.len() - id,
    {
        let ghost earlier = workers@;
        let ghost so_far = whole@;
        proof {
            assert(workers@[id as int] == before[id as int]);
            assert(before[id as int].well_formed());
        }
        let message = prepare(&mut workers[id], graph);
        let ghost last = message.0@;
        let mut more = message.0;
        whole.append(&mut more);
        proof {
            let old_lists = lists;
            let one = seq![last];
            assert forall|v: usize| #[trigger] last.contains(v) <==> exists|k: int|
                0 <= k < one.len() && #[trigger] one[k].contains(v) by {
                assert(one[0] == last);
            }
            assert forall|v: usize| #[trigger] whole@.contains(v) <==> so_far.contains(v)
                || last.contains(v) by {
                lemma_joined_contains(so_far, last, v);
            }
            gathering_composes(lists, one, so_far, last, whole@);
            lists = lists + one;
            assert forall|w: int| 0 <= w < id + 1 implies {
                &&& expanded_from(adj, before[w], #[trigger] workers@[w])
                &&& lists[w] == workers@[w].next_frontier@ + outgoing(adj, before[w])
            } by {
                if w < id {
                    assert(workers@[w] == earlier[w]);
                    assert(lists[w] == old_lists[w]);
                    assert(expanded_from(adj, before[w], earlier[w]));
                } else {
                    assert(lists[w] == last);
                }
            }
        }
        id = id + 1;
    }
    (BfsMessage(whole), Ghost(lists))
}

/// A sequence that is joined from two has the elements of both.
proof fn lemma_joined_contains(left: Seq<usize>, right: Seq<usize>, v: usize)
    ensures
        (left + right).contains(v) <==> left.contains(v) || right.contains(v),
{
    if left.contains(v) {
        let i = choose|i: int| 0 <= i < left.len() && left[i] == v;
        assert((left + right)[i] == v);
    }
    if right.contains(v) {
        let i = choose|i: int| 0 <= i < right.len() && right[i] == v;
        assert((left + right)[left.len() + i] == v);
    }
    if (left + right).contains(v) {
        let i = choose|i: int| 0 <= i < (left + right).len() && (left + right)[i] == v;
        if i < left.len() {
            assert(left[i] == v);
        } else {
            assert(right[i - left.len()] == v);
        }
    }
}

/// Searches a graph from `source` by workers that take turns.
pub fn search<G: NeighborLists>(
    num_threads: u32,
    graph: &G,
    trial: Option<usize>,
    source: usize,
) -> (found: Found)
    requires
        num_threads > 0,
        graph.rows().len() + 1 < UNVISITED,
        usable_from(graph, source),
    ensures
        found.tells(
            graph.rows(),
            source,
            (Stripes { num_nodes: graph.rows().len() as usize, num_threads }),
            Pattern::Reduction,
            trial,
        ),
{
    let num_nodes: usize = graph.node_count();
    let partition = Stripes { num_nodes, num_threads };
    let ghost adj = graph.rows();
    let mut workers = start_all(partition, num_threads, graph, source);
    let mut level: usize = 0;
    let mut keys: Vec<String> = Vec::new();
    let mut steps = Steps::new(trial, Pattern::Reduction);
    let ghost head: Seq<Seq<char>> = Seq::empty();
    assert(texts(keys@) =~= head + steps.passed());
    loop
        invariant_except_break
            level <= num_nodes,
            steps.phase == 0,
            synchronized(adj, source, partition, workers@, level as nat),
        invariant
            adj == graph.rows(),
            num_nodes == adj.len(),
            num_threads > 0,
            partition == (Stripes { num_nodes, num_threads }),
            searchable(partition, graph, source),
            steps.trial == trial,
            steps.pattern == Pattern::Reduction,
            steps.level == level,
            head.len() == 0,
            texts(keys@) == head + steps.passed(),
            forall|l: nat| l < level ==> #[trigger] work_at(adj, source, partition, l),
        ensures
            steps.at_end(),
            level < UNVISITED,
            !work_at(adj, source, partition, level as nat),
            in_step(partition, workers@, level as nat),
            shortest_distances(adj, source, joint_table(partition, workers@)),
        decreases num_nodes + 1 - level,
    {
        let ghost before = workers@;
        proof {
            lemma_all_expandable(partition, graph, source, before, level as nat);
        }
        let (whole, lists) = reduce_all(&mut workers, graph, Ghost(partition));
        note(&mut keys, &mut steps, Ghost(head));
        note(&mut keys, &mut steps, Ghost(head));
        note(&mut keys, &mut steps, Ghost(head));
        let ghost expanded = workers@;
        proof {
            frontier_reduce_agrees(adj, before, expanded, lists@, whole.0@);
            work_is_known(adj, source, partition, before, level as nat);
            assert forall|w: int| 0 <= w < before.len() implies contributes(
                adj,
                before[w],
                #[trigger] lists@[w],
            ) by {
                assert(expanded_from(adj, before[w], expanded[w]));
                assert(before[w].well_formed());
                frontier_contributes(adj, before[w], expanded[w], lists@[w]);
            }
            gathered_is_dealt(adj, source, partition, before, lists@, whole.0@, level as nat);
            if level == num_nodes {
                frontier_reduce_stops(
                    adj,
                    source,
                    partition,
                    before,
                    expanded,
                    lists@,
                    whole.0@,
                    level as nat,
                );
            }
        }
        if whole.0.len() == 0 {
            proof {
                frontier_reduce_result(
                    adj,
                    source,
                    partition,
                    before,
                    expanded,
                    lists@,
                    whole.0@,
                    level as nat,
                );
                assert forall|w: int| 0 <= w < expanded.len() implies {
                    &&& (#[trigger] expanded[w]).well_formed()
                    &&& expanded[w].partition == partition
                    &&& expanded[w].worker_id == w
                    &&& expanded[w].current_level == level
                } by {
                    assert(before[w].well_formed());
                }
            }
            break;
        }
        let mut id: usize = 0;
        while id < workers.len()
            invariant
                id <= before.len(),
                workers@.len() == before.len(),
                expanded.len() == before.len(),
                level + 1 < UNVISITED,
                synchronized(adj, source, partition, before, level as nat),
                forall|v: usize| #[trigger] whole.0@.contains(v) ==> partition.places(v),
                forall|w: int|
                    0 <= w < before.len() ==> expanded_from(adj, before[w], #[trigger] expanded[w]),
                forall|w: int| id <= w < before.len() ==> #[trigger] workers@[w] == expanded[w],
                forall|w: int|
                    0 <= w < id ==> {
                        &&& (#[trigger] workers@[w]).well_formed()
                        &&& workers@[w].discovered(expanded[w], expanded[w].fresh_own(whole.0@))
                        &&& workers@[w].current_frontier@ == expanded[w].current_frontier@
                    },
            decreases before.len() - id,
        {
            proof {
                assert(before[id as int].well_formed());
                assert(workers@[id as int] == expanded[id as int]);
                assert(expanded_from(adj, before[id as int], expanded[id as int]));
            }
            let _stop: bool = finish(&mut workers[id], &whole);
            id = id + 1;
        }
        let ghost after = workers@;
        proof {
            frontier_reduce_finishes_level(
                adj,
                source,
                partition,
                before,
                expanded,
                lists@,
                whole.0@,
                after,
                level as nat,
            );
        }
        assert forall|w: int| 0 <= w < after.len() implies (#[trigger] after[w]).current_level
            < usize::MAX by {}
        advance_all(&mut workers);
        proof {
            level_keeps_step(adj, source, partition, before, after, workers@, level as nat);
        }
        let _ok: bool = steps.next_level();
        level = level + 1;
    }
    proof {
        ended_search_has_all_keys(steps);
        assert(head + steps.passed() =~= steps.passed());
    }
    let lists = list_all(&workers, Ghost(partition), Ghost(level as nat));
    let distances = gather_all(&workers, &partition, num_nodes);
    Found { keys, levels: level + 1, distances, lists }
}

/// Searches a grid by workers that take turns: the keys of the whole run, and the distance of
/// every cell.
pub fn bfs(params: &Input) -> (found: Found)
    requires
        params.num_threads > 0,
        params.source < params.rows * params.cols,
        params.rows * params.cols + 1 < UNVISITED,
    ensures
        shortest_distances(
            grid_rows(params.rows as int, params.cols as int),
            params.source,
            found.distances@,
        ),
        lists_own(
            (Stripes {
                num_nodes: (params.rows * params.cols) as usize,
                num_threads: params.num_threads,
            }),
            found.distances@,
            found.lists@,
        ),
        stops_after(
            grid_rows(params.rows as int, params.cols as int),
            params.source,
            (Stripes {
                num_nodes: (params.rows * params.cols) as usize,
                num_threads: params.num_threads,
            }),
            found.levels as nat,
        ),
        texts(found.keys@) == single_run_keys(Pattern::Reduction, found.levels as nat),
{
    let graph = Graph::new_grid(params.rows, params.cols);
    proof {
        well_formed_is_usable(&graph, params.source);
    }
    let found = search(params.num_threads, &graph, None, params.source);
    let mut keys: Vec<String> = Vec::new();
    keys.push(String::from_str("worker_start"));
    keys.push(String::from_str("graph_generated"));
    assert(texts(keys@) =~= opening_keys());
    let ghost searched = texts(found.keys@);
    let mut more = found.keys;
    keys.append(&mut more);
    assert(texts(keys@) =~= opening_keys() + searched);
    let ghost done = texts(keys@);
    keys.push(String::from_str("worker_end"));
    proof {
        assert(texts(keys@) =~= done.push("worker_end"@));
        assert(texts(keys@) =~= single_run_keys(Pattern::Reduction, found.levels as nat));
    }
    Found { keys, levels: found.levels, distances: found.distances, lists: found.lists }
}

} // verus!

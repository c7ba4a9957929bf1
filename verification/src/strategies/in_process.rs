//! All workers in one thread, taking turns: the search by single nodes and
//! flushes from beginning to end.

use vstd::prelude::*;
use vstd::string::StringExecFns;

use super::signals::{
    accept, flush_count, flush_mail, lemma_all_flushed, lemma_flushes_total, lemma_letters_push,
    lemma_more_messages, lemma_no_letters, lemma_one_message, letters, mail_ends_with_flush,
    no_work_is_zero, node_mail, nodes_in, opened, outbox, prepare, received, signalled_level,
    signals_finish_level, signals_result, takes_in, taking_composes, took, total_work, work_mark,
    work_marks,
};
use super::turns::{
    advance_all, all_expandable, gather_all, lemma_all_expandable, searchable, start_all,
};
use crate::frontier::{candidates, lemma_filter_contains};
use crate::graph::adjacency::{well_formed_is_usable, Graph};
use crate::graph::grid::grid_rows;
use crate::graph::grid_distance::{grid_eccentricity, grid_reach};
use crate::graph::{usable_from, NeighborLists};
use crate::lockstep::{
    dealt, discoveries_are_next_frontier, expanded_from, in_step, joint_table, last_level_is_quiet,
    lemma_met, level_keeps_step, met, quiet_level_is_eccentricity, some_frontier,
    start_has_frontier, synchronized,
};
use crate::message::signal::BfsMessage;
use crate::model::{
    eccentricity_unique, is_eccentricity, reachable, shortest_distances, walk, UNVISITED,
};
use crate::moments::{
    ended_search_has_all_keys, note, opening_keys, search_keys, single_run_keys, texts, Pattern,
    Steps,
};
use crate::params::single::Input;
use crate::partition::{Partition, Stripes};
use crate::strategies::outgoing;
use crate::worker::Worker;

verus! {

/// What every worker sends at a level.
pub open spec fn sent_by_all(
    adj: Seq<Seq<usize>>,
    before: Seq<Worker<Stripes>>,
    sent: Seq<Vec<(u32, BfsMessage)>>,
) -> bool {
    &&& sent.len() == before.len()
    &&& forall|k: int| 0 <= k < sent.len() ==> (#[trigger] sent[k])@ == outbox(adj, before[k])
}

/// Every node that is sent is a node of the graph.
pub open spec fn nodes_below(sent: Seq<Vec<(u32, BfsMessage)>>, n: nat) -> bool {
    forall|k: int, j: int|
        0 <= k < sent.len() && 0 <= j < sent[k]@.len() && (#[trigger] sent[k]@[j]).1 is Node
            ==> sent[k]@[j].1->Node_0 < n
}

/// Every worker expands its frontier and makes up its mail.
fn expand_all<G: NeighborLists>(
    workers: &mut Vec<Worker<Stripes>>,
    graph: &G,
    partition: Stripes,
) -> (sent: Vec<Vec<(u32, BfsMessage)>>)
    requires
        old(workers)@.len() == partition.num_threads,
        all_expandable(partition, graph, old(workers)@),
    ensures
        final(workers)@.len() == old(workers)@.len(),
        forall|w: int|
            0 <= w < final(workers)@.len() ==> expanded_from(
                graph.rows(),
                old(workers)@[w],
                #[trigger] final(workers)@[w],
            ),
        sent_by_all(graph.rows(), old(workers)@, sent@),
{
    let ghost before = workers@;
    let ghost adj = graph.rows();
    let num_threads: u32 = partition.num_threads;
    let mut sent: Vec<Vec<(u32, BfsMessage)>> = Vec::new();
    let mut id: usize = 0;
    while id < workers.len()
        invariant
            adj == graph.rows(),
            num_threads == partition.num_threads,
            id <= before.len(),
            workers@.len() == before.len(),
            before == old(workers)@,
            before.len() == num_threads,
            sent@.len() == id,
            all_expandable(partition, graph, before),
            forall|w: int| id <= w < before.len() ==> #[trigger] workers@[w] == before[w],
            forall|w: int|
                0 <= w < id ==> expanded_from(adj, before[w], #[trigger] workers@[w]),
            forall|w: int| 0 <= w < id ==> (#[trigger] sent@[w])@ == outbox(adj, before[w]),
        decreases before.len() - id,
    {
        assert(workers@[id as int] == before[id as int]);
        assert(before[id as int].well_formed());
        let mail = prepare(&mut workers[id], graph, num_threads);
        sent.push(mail);
        id = id + 1;
    }
    sent
}

/// Hands a worker all that the others sent it, sender after sender. Returns what arrived, for
/// the proof.
fn deliver(
    worker: &mut Worker<Stripes>,
    sent: &Vec<Vec<(u32, BfsMessage)>>,
    num_threads: u32,
    Ghost(adj): Ghost<Seq<Seq<usize>>>,
    Ghost(before): Ghost<Seq<Worker<Stripes>>>,
) -> (arrivals: Ghost<Seq<(u32, BfsMessage)>>)
    requires
        old(worker).well_formed(),
        old(worker).current_level + 1 < UNVISITED,
        old(worker).worker_id < num_threads,
        before.len() == num_threads,
        forall|j: int|
            0 <= j < before.len() ==> (#[trigger] before[j]).well_formed() && before[j].worker_id
                == j && before[j].partition == old(worker).partition,
        old(worker).partition.num_threads == num_threads,
        sent_by_all(adj, before, sent@),
        nodes_below(sent@, old(worker).partition.num_nodes as nat),
    ensures
        received(adj, before, old(worker).worker_id, arrivals@),
        took(*old(worker), opened(arrivals@), *final(worker)),
{
    let id: u32 = worker.worker_id;
    let ghost start = *worker;
    let ghost mut arrivals: Seq<(u32, BfsMessage)> = Seq::empty();
    let mut k: u32 = 0;
    proof {
        assert(opened(arrivals) =~= Seq::<BfsMessage>::empty());
        worker.lemma_discovered_none(start.fresh(nodes_in(opened(arrivals))));
    }
    while k < num_threads
        invariant
            k <= num_threads,
            id == start.worker_id,
            start.well_formed(),
            start.current_level + 1 < UNVISITED,
            start.partition.num_threads == num_threads,
            sent@.len() == num_threads,
            before.len() == num_threads,
            sent_by_all(adj, before, sent@),
            nodes_below(sent@, start.partition.num_nodes as nat),
            took(start, opened(arrivals), *worker),
            takes_in(start, opened(arrivals)),
            forall|i: int| 0 <= i < arrivals.len() ==> (#[trigger] arrivals[i]).0 < k,
            forall|i: int| 0 <= i < arrivals.len() ==> (#[trigger] arrivals[i]).0 != id,
            forall|x: u32|
                x < k && x != id ==> #[trigger] letters(arrivals, x) == letters(
                    outbox(adj, before[x as int]),
                    id,
                ),
        decreases num_threads - k,
    {
        if k != id {
            let mail = &sent[k as usize];
            let ghost earlier = arrivals;
            let mut j: usize = 0;
            proof {
                assert(mail@ == outbox(adj, before[k as int]));
                assert(mail@.take(0) =~= Seq::<(u32, BfsMessage)>::empty());
                assert forall|i: int| 0 <= i < arrivals.len() implies (#[trigger] arrivals[i]).0
                    != k by {}
                lemma_no_letters(arrivals, k);
            }
            while j < mail.len()
                invariant
                    j <= mail@.len(),
                    k < num_threads,
                    k != id,
                    id == start.worker_id,
                    start.well_formed(),
                    start.current_level + 1 < UNVISITED,
                    mail@ == sent@[k as int]@,
                    sent@.len() == num_threads,
                    nodes_below(sent@, start.partition.num_nodes as nat),
                    took(start, opened(arrivals), *worker),
                    takes_in(start, opened(arrivals)),
                    forall|i: int| 0 <= i < arrivals.len() ==> (#[trigger] arrivals[i]).0 <= k,
                    forall|i: int| 0 <= i < arrivals.len() ==> (#[trigger] arrivals[i]).0 != id,
                    letters(arrivals, k) == letters(mail@.take(j as int), id),
                    forall|x: u32|
                        x < k ==> #[trigger] letters(arrivals, x) == letters(earlier, x),
                decreases mail.len() - j,
            {
                let (to, message) = mail[j];
                let ghost more = mail@.take(j + 1);
                proof {
                    assert(more =~= mail@.take(j as int).push((to, message)));
                    lemma_letters_push(mail@.take(j as int), (to, message), id);
                }
                if to == id {
                    let ghost between = *worker;
                    let ghost letter = (k, message);
                    let ghost one = seq![message];
                    proof {
                        assert(sent@[k as int]@[j as int].1 == message);
                        lemma_one_message(message);
                    }
                    accept(worker, message);
                    proof {
                        taking_composes(start, opened(arrivals), between, one, *worker);
                        assert(opened(arrivals.push(letter)) =~= opened(arrivals) + one);
                        lemma_more_messages(opened(arrivals), one);
                        assert forall|x: u32| x <= k implies #[trigger] letters(
                            arrivals.push(letter),
                            x,
                        ) == (if x == k {
                            letters(arrivals, k).push(message)
                        } else {
                            letters(arrivals, x)
                        }) by {
                            lemma_letters_push(arrivals, letter, x);
                        }
                        assert forall|i: int|
                            0 <= i < nodes_in(
                                opened(arrivals.push(letter)),
                            ).len() implies start.partition.holds(
                            id,
                            #[trigger] nodes_in(opened(arrivals.push(letter)))[i],
                        ) by {
                            let head = nodes_in(opened(arrivals));
                            if i < head.len() {
                                assert(start.partition.holds(id, head[i]));
                            } else {
                                assert(nodes_in(one)[i - head.len()]
                                    == nodes_in(opened(arrivals.push(letter)))[i]);
                            }
                        }
                        arrivals = arrivals.push(letter);
                    }
                }
                j = j + 1;
            }
            assert(mail@.take(mail@.len() as int) =~= mail@);
        }
        k = k + 1;
    }
    proof {
        let t = num_threads as nat;
        assert forall|x: u32| x < t && x != id implies #[trigger] flush_count(letters(arrivals, x))
            == 1 by {
            assert(before[x as int].worker_id == x);
            mail_ends_with_flush(adj, before[x as int], id);
        }
        lemma_all_flushed(arrivals, id, t);
        lemma_flushes_total(arrivals, t);
        assert forall|x: u32| x < before.len() && x != id implies (
        #[trigger] letters(arrivals, x)).is_prefix_of(
            letters(outbox(adj, before[x as int]), id),
        ) by {}
    }
    Ghost(arrivals)
}

/// Every worker takes in what the others sent it. Returns what arrived at each, for the proof.
fn deliver_all(
    workers: &mut Vec<Worker<Stripes>>,
    sent: &Vec<Vec<(u32, BfsMessage)>>,
    num_threads: u32,
    Ghost(adj): Ghost<Seq<Seq<usize>>>,
    Ghost(before): Ghost<Seq<Worker<Stripes>>>,
) -> (arrivals: Ghost<Seq<Seq<(u32, BfsMessage)>>>)
    requires
        old(workers)@.len() == before.len() == num_threads,
        forall|w: int|
            0 <= w < before.len() ==> {
                &&& (#[trigger] before[w]).well_formed()
                &&& before[w].worker_id == w
                &&& before[w].partition == before[0].partition
                &&& before[w].current_level + 1 < UNVISITED
            },
        before[0].partition.num_threads == num_threads,
        forall|w: int|
            0 <= w < before.len() ==> expanded_from(
                adj,
                before[w],
                #[trigger] old(workers)@[w],
            ),
        sent_by_all(adj, before, sent@),
        nodes_below(sent@, before[0].partition.num_nodes as nat),
    ensures
        signalled_level(adj, before, old(workers)@, arrivals@, final(workers)@),
{
    let ghost expanded = workers@;
    let ghost mut arrivals: Seq<Seq<(u32, BfsMessage)>> = Seq::empty();
    let mut id: usize = 0;
    while id < workers.len()
        invariant
            id <= before.len(),
            expanded == old(workers)@,
            workers@.len() == before.len() == num_threads,
            expanded.len() == before.len(),
            arrivals.len() == id,
            forall|w: int|
                0 <= w < before.len() ==> {
                    &&& (#[trigger] before[w]).well_formed()
                    &&& before[w].worker_id == w
                    &&& before[w].partition == before[0].partition
                    &&& before[w].current_level + 1 < UNVISITED
                },
            before[0].partition.num_threads == num_threads,
            forall|w: int|
                0 <= w < before.len() ==> expanded_from(adj, before[w], #[trigger] expanded[w]),
            sent_by_all(adj, before, sent@),
            nodes_below(sent@, before[0].partition.num_nodes as nat),
            forall|w: int| id <= w < before.len() ==> #[trigger] workers@[w] == expanded[w],
            forall|w: int|
                0 <= w < id ==> received(adj, before, w as u32, #[trigger] arrivals[w]),
            forall|w: int|
                0 <= w < id ==> took(
                    expanded[w],
                    opened(arrivals[w]),
                    #[trigger] workers@[w],
                ),
        decreases before.len() - id,
    {
        proof {
            assert(workers@[id as int] == expanded[id as int]);
            assert(expanded_from(adj, before[id as int], expanded[id as int]));
            assert(before[id as int].well_formed());
        }
        let ghost earlier = workers@;
        let came = deliver(&mut workers[id], sent, num_threads, Ghost(adj), Ghost(before));
        proof {
            let heard = arrivals;
            arrivals = arrivals.push(came@);
            assert(expanded[id as int].worker_id == before[id as int].worker_id);
            assert forall|w: int| 0 <= w < id + 1 implies received(
                adj,
                before,
                w as u32,
                #[trigger] arrivals[w],
            ) by {
                if w < id {
                    assert(arrivals[w] == heard[w]);
                }
            }
            assert forall|w: int| 0 <= w < id + 1 implies took(
                expanded[w],
                opened(arrivals[w]),
                #[trigger] workers@[w],
            ) by {
                if w < id {
                    assert(workers@[w] == earlier[w]);
                    assert(arrivals[w] == heard[w]);
                }
            }
        }
        id = id + 1;
    }
    proof {
        assert forall|w: int| 0 <= w < before.len() implies {
            &&& expanded_from(adj, before[w], expanded[w])
            &&& received(adj, before, w as u32, arrivals[w])
            &&& took(expanded[w], opened(arrivals[w]), #[trigger] workers@[w])
        } by {
            assert(received(adj, before, w as u32, arrivals[w]));
        }
    }
    Ghost(arrivals)
}

/// Every worker puts down whether it has work.
fn mark_all(workers: &Vec<Worker<Stripes>>) -> (marks: Vec<usize>)
    ensures
        marks@.map_values(|m: usize| m as nat) == work_marks(workers@),
        forall|i: int| 0 <= i < marks@.len() ==> #[trigger] marks@[i] <= 1,
{
    let mut marks: Vec<usize> = Vec::new();
    let mut id: usize = 0;
    while id < workers.len()
        invariant
            id <= workers@.len(),
            marks@.len() == id,
            forall|i: int|
                0 <= i < marks@.len() ==> #[trigger] marks@[i] == work_mark(workers@[i]),
        decreases workers.len() - id,
    {
        let has_work: usize = if workers[id].next_frontier.len() == 0 {
            0
        } else {
            1
        };
        marks.push(has_work);
        id = id + 1;
    }
    assert(marks@.map_values(|m: usize| m as nat) =~= work_marks(workers@));
    marks
}

/// What is sent are nodes of the graph.
proof fn lemma_nodes_below(
    adj: Seq<Seq<usize>>,
    s: usize,
    partition: Stripes,
    before: Seq<Worker<Stripes>>,
    sent: Seq<Vec<(u32, BfsMessage)>>,
    level: nat,
)
    requires
        dealt(adj, s, partition),
        synchronized(adj, s, partition, before, level),
        level < UNVISITED,
        sent_by_all(adj, before, sent),
    ensures
        nodes_below(sent, partition.num_nodes as nat),
{
    assert forall|k: int, j: int|
        0 <= k < sent.len() && 0 <= j < sent[k]@.len() && (
        #[trigger] sent[k]@[j]).1 is Node implies sent[k]@[j].1->Node_0 < partition.num_nodes by {
        assert(sent[k]@ == outbox(adj, before[k]));
        assert(before[k].well_formed());
        let out = outgoing(adj, before[k]);
        let nodes = node_mail(partition, out);
        let ends = flush_mail(before[k].worker_id, partition.worker_total());
        if j < nodes.len() {
            let v = out[j];
            assert(out.contains(v));
            lemma_filter_contains(
                candidates(adj, before[k].current_frontier@),
                |v: usize| !before[k].mine(v),
                v,
            );
            assert(candidates(adj, before[k].current_frontier@).contains(v));
            assert(met(adj, before, v));
            lemma_met(adj, s, partition, before, level, v);
        } else {
            lemma_flushes_only(before[k].worker_id, partition.worker_total(), j - nodes.len());
            assert(sent[k]@[j] == ends[j - nodes.len()]);
        }
    }
}

/// The mail that ends a sender's nodes has flushes only.
proof fn lemma_flushes_only(sender: u32, t: nat, i: int)
    requires
        0 <= i < flush_mail(sender, t).len(),
    ensures
        flush_mail(sender, t)[i].1 is Flush,
    decreases t,
{
    if t > 0 {
        let earlier = flush_mail(sender, (t - 1) as nat);
        if i < earlier.len() {
            lemma_flushes_only(sender, (t - 1) as nat, i);
        }
    }
}

/// What a search leaves: the keys of its levels, how many there were, and the distances.
pub struct SearchResult {
    pub keys: Vec<String>,
    pub levels: usize,
    pub distances: Vec<usize>,
}

/// Searches a graph from `source` by workers that take turns. The result is the distance of
/// every node, after as many levels as the largest distance and one more.
fn search<G: NeighborLists>(num_threads: u32, graph: &G, source: usize, num_nodes: usize) -> (found:
    SearchResult)
    requires
        num_threads > 0,
        num_nodes == graph.rows().len(),
        num_nodes + 1 < UNVISITED,
        usable_from(graph, source),
    ensures
        shortest_distances(graph.rows(), source, found.distances@),
        found.levels > 0,
        is_eccentricity(graph.rows(), source, (found.levels - 1) as nat),
        texts(found.keys@) == search_keys(None, Pattern::Signals, found.levels as nat),
{
    let ghost adj = graph.rows();
    let partition = Stripes { num_nodes, num_threads };
    let mut workers = start_all(partition, num_threads, graph, source);
    let mut level: usize = 0;
    let mut keys: Vec<String> = Vec::new();
    let mut steps = Steps::new(None, Pattern::Signals);
    let ghost head: Seq<Seq<char>> = Seq::empty();
    proof {
        assert(texts(keys@) =~= head + steps.passed());
        assert(walk(adj, source, source, 0));
        assert(reachable(adj, source, source));
        start_has_frontier(partition, source, workers@);
    }
    loop
        invariant_except_break
            level <= num_nodes,
            some_frontier(workers@),
            steps.phase == 0,
            synchronized(adj, source, partition, workers@, level as nat),
        invariant
            adj == graph.rows(),
            num_nodes == adj.len(),
            num_threads > 0,
            partition == (Stripes { num_nodes, num_threads }),
            searchable(partition, graph, source),
            steps.trial is None,
            steps.pattern == Pattern::Signals,
            steps.level == level,
            head.len() == 0,
            texts(keys@) == head + steps.passed(),
        ensures
            steps.at_end(),
            level < UNVISITED,
            is_eccentricity(adj, source, level as nat),
            in_step(partition, workers@, level as nat),
            shortest_distances(adj, source, joint_table(partition, workers@)),
        decreases num_nodes + 1 - level,
    {
        let ghost before = workers@;
        proof {
            lemma_all_expandable(partition, graph, source, before, level as nat);
        }
        let sent = expand_all(&mut workers, graph, partition);
        let ghost expanded = workers@;
        proof {
            lemma_nodes_below(adj, source, partition, before, sent@, level as nat);
            assert(before[0].well_formed());
        }
        let arrivals = deliver_all(
            &mut workers,
            &sent,
            num_threads,
            Ghost(adj),
            Ghost(before),
        );
        note(&mut keys, &mut steps, Ghost(head));
        let ghost after = workers@;
        proof {
            signals_finish_level(
                adj,
                source,
                partition,
                before,
                expanded,
                arrivals@,
                after,
                level as nat,
            );
            if level == num_nodes {
                last_level_is_quiet(adj, source, partition, before, after, level as nat);
            }
            no_work_is_zero(after);
        }
        let marks = mark_all(&workers);
        let total: usize = total_work(marks.as_slice());
        note(&mut keys, &mut steps, Ghost(head));
        if total == 0 {
            proof {
                signals_result(
                    adj,
                    source,
                    partition,
                    before,
                    expanded,
                    arrivals@,
                    after,
                    level as nat,
                );
                quiet_level_is_eccentricity(
                    adj,
                    source,
                    partition,
                    before,
                    after,
                    level as nat,
                );
            }
            break;
        }
        assert forall|w: int| 0 <= w < after.len() implies (#[trigger] after[w]).current_level
            < usize::MAX by {}
        advance_all(&mut workers);
        proof {
            level_keeps_step(adj, source, partition, before, after, workers@, level as nat);
            discoveries_are_next_frontier(after, workers@);
        }
        let _ok: bool = steps.next_level();
        level = level + 1;
    }
    proof {
        ended_search_has_all_keys(steps);
        assert(head + steps.passed() =~= steps.passed());
    }
    SearchResult { keys, levels: level + 1, distances: gather_all(&workers, &partition, num_nodes) }
}

/// Searches a graph from `source` by workers that take turns. The result is the distance of
/// every node. Without workers there is no search, and no table either.
pub fn run_bfs_iteration<G: NeighborLists>(
    num_threads: u32,
    graph: &G,
    source: usize,
    num_nodes: usize,
) -> (distances: Vec<usize>)
    requires
        num_nodes == graph.rows().len(),
        num_nodes + 1 < UNVISITED,
        source < num_nodes,
        num_threads > 0 ==> usable_from(graph, source),
    ensures
        num_threads > 0 ==> shortest_distances(graph.rows(), source, distances@),
        num_threads == 0 ==> distances@.len() == 0,
{
    if num_threads == 0 {
        return Vec::new();
    }
    search(num_threads, graph, source, num_nodes).distances
}

/// Searches a grid by workers that take turns: the keys of the whole run, which has as many
/// levels as the farthest corner has steps and one more, and the distance of every cell.
pub fn bfs(params: &Input) -> (found: SearchResult)
    requires
        params.num_threads > 0,
        params.source < params.rows * params.cols,
        params.rows * params.cols + 1 < UNVISITED,
    ensures
        shortest_distances(
            grid_rows(params.rows as int, params.cols as int),
            params.source,
            found.distances@,
        ),
        found.levels == grid_reach(params.rows as int, params.cols as int, params.source as int)
            + 1,
        texts(found.keys@) == single_run_keys(Pattern::Signals, found.levels as nat),
{
    let graph = Graph::new_grid(params.rows, params.cols);
    let num_nodes: usize = graph.node_count();
    proof {
        well_formed_is_usable(&graph, params.source);
    }
    let found = search(params.num_threads, &graph, params.source, num_nodes);
    let mut keys: Vec<String> = Vec::new();
    keys.push(String::from_str("worker_start"));
    keys.push(String::from_str("graph_generated"));
    assert(texts(keys@) =~= opening_keys());
    let ghost searched = texts(found.keys@);
    let mut more = found.keys;
    keys.append(&mut more);
    assert(texts(keys@) =~= opening_keys() + searched);
    let ghost done = texts(keys@);
    keys.push(String::from_str("worker_end"));
    proof {
        assert(texts(keys@) =~= done.push("worker_end"@));
        assert(texts(keys@) =~= single_run_keys(Pattern::Signals, found.levels as nat));
        let (rows, cols) = (params.rows as int, params.cols as int);
        grid_eccentricity(rows, cols, params.source);
        eccentricity_unique(
            grid_rows(rows, cols),
            params.source,
            (found.levels - 1) as nat,
            grid_reach(rows, cols, params.source as int) as nat,
        );
    }
    SearchResult { keys, levels: found.levels, distances: found.distances }
}

} // verus!

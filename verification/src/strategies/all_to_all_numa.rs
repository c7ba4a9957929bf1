//! The all-to-all exchange over blocks of consecutive nodes: each worker keeps
//! the distances of its block alone, and sends a node once per level.

use vstd::prelude::*;

use super::exchange::{
    any_work, column, column_is_own, column_tells_work, exchanged_in_turn, had_work, node_lists,
    parcelled, same_nodes, sends, turn_finishes_level, work_at, work_is_known,
};
use super::outcome::{list_all, Found, TrialsResult};
use super::turns::{
    advance_all, all_expandable, gather_all, lemma_all_expandable, searchable, start_all,
};
use super::{deal, outgoing};
use crate::frontier::{
    candidates, first_seen, first_seen_keeps_order, joined, lemma_filter_contains, lemma_first_seen,
};
use crate::graph::{usable_from, NeighborLists};
use crate::lockstep::{
    dealt, expanded_from, in_step, joint_table, level_keeps_step, synchronized,
};
use crate::message::packed::{deliver, BfsMessage};
use crate::model::{shortest_distances, UNVISITED};
use crate::moments::{ended_search_has_all_keys, note, texts, Pattern, Steps};
use crate::partition::{Blocks, Partition};
use crate::sent_set::send_once;
use crate::worker::Worker;

verus! {

/// The strategy, which holds nothing itself.
pub struct AllToAllNumaStrategy;

/// The work marks and node lists of messages.
pub open spec fn parcels_of(messages: Seq<BfsMessage>) -> Seq<(u32, Seq<usize>)> {
    Seq::new(messages.len(), |k: int| (messages[k].has_work, messages[k].node_list()))
}

/// The outgoing nodes of a worker's frontier, each once.
pub open spec fn outgoing_once(adj: Seq<Seq<usize>>, worker: Worker<Blocks>) -> Seq<usize> {
    first_seen(outgoing(adj, worker), |v: usize| true)
}

/// Sending a node once sends the outgoing nodes all the same.
pub proof fn once_is_enough(
    adj: Seq<Seq<usize>>,
    worker: Worker<Blocks>,
    parcels: Seq<(u32, Seq<usize>)>,
)
    requires
        parcelled(
            worker.partition,
            outgoing_once(adj, worker),
            had_work(adj, worker),
            parcels,
        ),
    ensures
        sends(adj, worker, outgoing_once(adj, worker), parcels),
{
    lemma_first_seen(outgoing(adj, worker), |v: usize| true);
    assert(same_nodes(outgoing_once(adj, worker), outgoing(adj, worker)));
}

impl AllToAllNumaStrategy {
    /// Expands the frontier and makes up one message for each worker.
    pub fn prepare<G: NeighborLists>(
        &self,
        worker: &mut Worker<Blocks>,
        graph: &G,
    ) -> (messages: Vec<BfsMessage>)
        requires
            old(worker).well_formed(),
            old(worker).current_level + 1 < UNVISITED,
            forall|i: int|
                0 <= i < old(worker).current_frontier@.len() ==> graph.readable(
                    #[trigger] old(worker).current_frontier@[i],
                ),
            forall|v: usize| #[trigger]
                candidates(graph.rows(), old(worker).current_frontier@).contains(v)
                    ==> old(worker).partition.places(v),
        ensures
            expanded_from(graph.rows(), *old(worker), *final(worker)),
            parcelled(
                old(worker).partition,
                outgoing_once(graph.rows(), *old(worker)),
                had_work(graph.rows(), *old(worker)),
                parcels_of(messages@),
            ),
            forall|k: int| 0 <= k < messages@.len() ==> (#[trigger] messages@[k]).sealed(),
    {
        let ghost before = *worker;
        let ghost adj = graph.rows();
        let (external, discoveries) = worker.expand(graph);
        let num_nodes: usize = worker.partition.num_nodes;
        let num_threads: u32 = worker.partition.num_threads;
        proof {
            assert(external@ == outgoing(adj, before));
            assert forall|k: int| 0 <= k < external@.len() implies before.partition.places(
                #[trigger] external@[k],
            ) by {
                lemma_filter_contains(
                    candidates(adj, before.current_frontier@),
                    |v: usize| !before.mine(v),
                    external@[k],
                );
                assert(external@.contains(external@[k]));
            }
        }
        let once = send_once(external.as_slice(), num_nodes);
        proof {
            lemma_first_seen(external@, |v: usize| true);
            assert forall|k: int| 0 <= k < once@.len() implies before.partition.places(
                #[trigger] once@[k],
            ) by {
                assert(once@.contains(once@[k]));
                let i = choose|i: int| 0 <= i < external@.len() && external@[i] == once@[k];
                assert(before.partition.places(external@[i]));
            }
            if external@.len() > 0 {
                assert(external@.contains(external@[0]));
                assert(once@.contains(external@[0]));
            }
            if once@.len() > 0 {
                assert(once@.contains(once@[0]));
            }
        }
        let chunks = deal(&worker.partition, num_threads, once.as_slice());
        let has_work: u32 = if discoveries > 0 || once.len() > 0 {
            1
        } else {
            0
        };
        let mut messages: Vec<BfsMessage> = Vec::new();
        let mut rest = chunks;
        let ghost whole = chunks@;
        let mut o: usize = 0;
        while o < num_threads as usize
            invariant
                o <= num_threads,
                rest@.len() == num_threads,
                whole.len() == num_threads,
                messages@.len() == o,
                forall|k: int| o <= k < num_threads ==> #[trigger] rest@[k] == whole[k],
                forall|k: int|
                    0 <= k < o ==> (#[trigger] messages@[k]).node_list() == whole[k]@
                        && messages@[k].has_work == has_work && messages@[k].sealed(),
            decreases num_threads - o,
        {
            let mut nodes: Vec<usize> = Vec::new();
            assert(rest@[o as int] == whole[o as int]);
            std::mem::swap(&mut nodes, &mut rest[o]);
            messages.push(BfsMessage::from_vec(nodes, has_work));
            o = o + 1;
        }
        messages
    }

    /// Discovers the nodes that the messages bring. Tells whether any sender had work, and how
    /// many nodes came in.
    pub fn collect(&self, worker: &mut Worker<Blocks>, messages: &[BfsMessage]) -> (out: (
        bool,
        usize,
    ))
        requires
            old(worker).well_formed(),
            old(worker).current_level + 1 < UNVISITED,
            forall|v: usize| #[trigger]
                joined(node_lists(parcels_of(messages@))).contains(v)
                    ==> old(worker).partition.holds(old(worker).worker_id, v),
        ensures
            final(worker).well_formed(),
            final(worker).discovered(
                *old(worker),
                old(worker).fresh(joined(node_lists(parcels_of(messages@)))),
            ),
            final(worker).current_frontier@ == old(worker).current_frontier@,
            out.0 == any_work(parcels_of(messages@)),
            out.1 == joined(node_lists(parcels_of(messages@))).len(),
    {
        let mut incoming: Vec<usize> = Vec::new();
        let mut any: bool = false;
        let mut k: usize = 0;
        let ghost parcels = parcels_of(messages@);
        let ghost lists = node_lists(parcels);
        assert(lists.take(0) =~= Seq::<Seq<usize>>::empty());
        while k < messages.len()
            invariant
                k <= messages.len(),
                parcels == parcels_of(messages@),
                lists == node_lists(parcels),
                incoming@ == joined(lists.take(k as int)),
                any == exists|j: int| 0 <= j < k && (#[trigger] parcels[j]).0 > 0,
            decreases messages.len() - k,
        {
            proof {
                assert(lists.take(k + 1).drop_last() =~= lists.take(k as int));
                assert(lists.take(k + 1).last() == messages@[k as int].node_list());
                assert(parcels[k as int].0 == messages@[k as int].has_work);
            }
            if messages[k].has_work > 0 {
                any = true;
            }
            let mut nodes: Vec<usize> = messages[k].payload();
            incoming.append(&mut nodes);
            k = k + 1;
        }
        proof {
            assert(lists.take(lists.len() as int) =~= lists);
            assert forall|i: int| 0 <= i < incoming@.len() implies worker.partition.holds(
                worker.worker_id,
                #[trigger] incoming@[i],
            ) by {
                assert(incoming@.contains(incoming@[i]));
            }
        }
        worker.absorb(incoming.as_slice());
        (any, incoming.len())
    }
}

/// The parcels of all workers.
pub open spec fn all_parcels(sent: Seq<Vec<BfsMessage>>) -> Seq<Seq<(u32, Seq<usize>)>> {
    Seq::new(sent.len(), |k: int| parcels_of(sent[k]@))
}

/// Every message can be sent over the wire.
pub open spec fn all_sealed(sent: Seq<Vec<BfsMessage>>) -> bool {
    forall|k: int, w: int|
        0 <= k < sent.len() && 0 <= w < sent[k]@.len() ==> (#[trigger] sent[k]@[w]).sealed()
}

/// What all workers send at a level.
pub open spec fn all_outgoing(adj: Seq<Seq<usize>>, before: Seq<Worker<Blocks>>) -> Seq<
    Seq<usize>,
> {
    Seq::new(before.len(), |k: int| outgoing_once(adj, before[k]))
}

/// Every worker expands its frontier and makes up its messages.
fn prepare_all<G: NeighborLists>(
    workers: &mut Vec<Worker<Blocks>>,
    graph: &G,
    Ghost(partition): Ghost<Blocks>,
) -> (sent: Vec<Vec<BfsMessage>>)
    requires
        all_expandable(partition, graph, old(workers)@),
        old(workers)@.len() == partition.num_threads,
    ensures
        final(workers)@.len() == old(workers)@.len(),
        sent@.len() == old(workers)@.len(),
        forall|w: int|
            0 <= w < sent@.len() ==> expanded_from(
                graph.rows(),
                old(workers)@[w],
                #[trigger] final(workers)@[w],
            ),
        forall|w: int|
            0 <= w < sent@.len() ==> sends(
                graph.rows(),
                old(workers)@[w],
                all_outgoing(graph.rows(), old(workers)@)[w],
                #[trigger] all_parcels(sent@)[w],
            ),
        forall|w: int| 0 <= w < sent@.len() ==> (#[trigger] sent@[w])@.len() == sent@.len(),
        all_sealed(sent@),
{
    let ghost before = workers@;
    let ghost adj = graph.rows();
    let strategy = AllToAllNumaStrategy;
    let mut sent: Vec<Vec<BfsMessage>> = Vec::new();
    let mut id: usize = 0;
    while id < workers.len()
        invariant
            adj == graph.rows(),
            id <= before.len(),
            before == old(workers)@,
            workers@.len() == before.len(),
            before.len() == partition.num_threads,
            all_expandable(partition, graph, before),
            sent@.len() == id,
            forall|w: int| id <= w < before.len() ==> #[trigger] workers@[w] == before[w],
            forall|w: int|
                0 <= w < id ==> expanded_from(adj, before[w], #[trigger] workers@[w]),
            forall|w: int|
                0 <= w < id ==> parcelled(
                    partition,
                    outgoing_once(adj, before[w]),
                    had_work(adj, before[w]),
                    parcels_of((#[trigger] sent@[w])@),
                ) && sent@[w]@.len() == before.len(),
            all_sealed(sent@),
        decreases before.len() - id,
    {
        proof {
            assert(workers@[id as int] == before[id as int]);
            assert(before[id as int].well_formed());
        }
        let messages = strategy.prepare(&mut workers[id], graph);
        sent.push(messages);
        id = id + 1;
    }
    proof {
        assert forall|w: int| 0 <= w < sent@.len() implies sends(
            adj,
            before[w],
            all_outgoing(adj, before)[w],
            #[trigger] all_parcels(sent@)[w],
        ) by {
            assert(parcelled(
                partition,
                outgoing_once(adj, before[w]),
                had_work(adj, before[w]),
                parcels_of(sent@[w]@),
            ));
            assert(before[w].well_formed());
            once_is_enough(adj, before[w], parcels_of(sent@[w]@));
        }
    }
    sent
}

/// What worker `w` gets over the wire, in the order of the senders.
fn inbox_of(sent: &Vec<Vec<BfsMessage>>, w: usize) -> (inbox: Vec<BfsMessage>)
    requires
        w < sent@.len(),
        forall|k: int| 0 <= k < sent@.len() ==> (#[trigger] sent@[k])@.len() == sent@.len(),
        all_sealed(sent@),
    ensures
        parcels_of(inbox@) == column(all_parcels(sent@), w as int),
{
    let mut inbox: Vec<BfsMessage> = Vec::new();
    let mut k: usize = 0;
    while k < sent.len()
        invariant
            k <= sent@.len(),
            w < sent@.len(),
            forall|k: int| 0 <= k < sent@.len() ==> (#[trigger] sent@[k])@.len() == sent@.len(),
            all_sealed(sent@),
            inbox@.len() == k,
            forall|j: int|
                0 <= j < k ==> (#[trigger] inbox@[j]).has_work == sent@[j]@[w as int].has_work
                    && inbox@[j].node_list() == sent@[j]@[w as int].node_list(),
        decreases sent.len() - k,
    {
        assert(sent@[k as int]@.len() == sent@.len());
        assert(sent@[k as int]@[w as int].sealed());
        inbox.push(deliver(sent[k][w].clone()));
        k = k + 1;
    }
    assert(parcels_of(inbox@) =~= column(all_parcels(sent@), w as int));
    inbox
}

impl AllToAllNumaStrategy {
    /// Searches a graph from `source` by workers that take turns.
    pub fn search<G: NeighborLists>(
        &self,
        num_threads: u32,
        graph: &G,
        trial: Option<usize>,
        source: usize,
    ) -> (found: Found)
        requires
            num_threads > 0,
            graph.rows().len() <= u32::MAX + 1,
            graph.rows().len() + 1 < UNVISITED,
            (Blocks { num_nodes: graph.rows().len() as usize, num_threads }).valid(),
            usable_from(graph, source),
        ensures
            found.tells(
                graph.rows(),
                source,
                (Blocks { num_nodes: graph.rows().len() as usize, num_threads }),
                Pattern::Exchange,
                trial,
            ),
    {
        let num_nodes: usize = graph.node_count();
        let partition = Blocks { num_nodes, num_threads };
        let ghost adj = graph.rows();
        let mut workers = start_all(partition, num_threads, graph, source);
        let mut level: usize = 0;
        let mut keys: Vec<String> = Vec::new();
        let mut steps = Steps::new(trial, Pattern::Exchange);
        let ghost head: Seq<Seq<char>> = Seq::empty();
        assert(texts(keys@) =~= head + steps.passed());
        loop
            invariant_except_break
                level <= num_nodes,
                steps.phase == 0,
                synchronized(adj, source, partition, workers@, level as nat),
            invariant
                adj == graph.rows(),
                num_nodes == adj.len(),
                num_threads > 0,
                partition == (Blocks { num_nodes, num_threads }),
                searchable(partition, graph, source),
                steps.trial == trial,
                steps.pattern == Pattern::Exchange,
                steps.level == level,
                head.len() == 0,
                texts(keys@) == head + steps.passed(),
                forall|l: nat| l < level ==> #[trigger] work_at(adj, source, partition, l),
            ensures
                steps.at_end(),
                level < UNVISITED,
                !work_at(adj, source, partition, level as nat),
                in_step(partition, workers@, level as nat),
                shortest_distances(adj, source, joint_table(partition, workers@)),
            decreases num_nodes + 1 - level,
        {
            let ghost before = workers@;
            proof {
                lemma_all_expandable(partition, graph, source, before, level as nat);
            }
            let sent = prepare_all(&mut workers, graph, Ghost(partition));
            note(&mut keys, &mut steps, Ghost(head));
            let ghost expanded = workers@;
            let ghost parcels = all_parcels(sent@);
            let ghost lists = all_outgoing(adj, before);
            note(&mut keys, &mut steps, Ghost(head));
            let mut any_worker_had_work: bool = false;
            let mut id: usize = 0;
            while id < workers.len()
                invariant
                    id <= before.len(),
                    before.len() == num_threads,
                    num_threads > 0,
                    workers@.len() == before.len(),
                    expanded.len() == before.len(),
                    sent@.len() == before.len(),
                    parcels == all_parcels(sent@),
                    lists == all_outgoing(adj, before),
                    dealt(adj, source, partition),
                    all_sealed(sent@),
                    synchronized(adj, source, partition, before, level as nat),
                    level + 1 < UNVISITED,
                    partition == (Blocks { num_nodes, num_threads }),
                    forall|w: int|
                        0 <= w < before.len() ==> expanded_from(adj, before[w], #[trigger] expanded[w]),
                    forall|w: int|
                        0 <= w < before.len() ==> sends(
                            adj,
                            before[w],
                            lists[w],
                            #[trigger] parcels[w],
                        ),
                    forall|w: int|
                        0 <= w < before.len() ==> (#[trigger] sent@[w])@.len() == before.len(),
                    forall|w: int| id <= w < before.len() ==> #[trigger] workers@[w] == expanded[w],
                    forall|w: int|
                        0 <= w < id ==> {
                            &&& (#[trigger] workers@[w]).well_formed()
                            &&& workers@[w].discovered(
                                expanded[w],
                                expanded[w].fresh(joined(node_lists(column(parcels, w)))),
                            )
                            &&& workers@[w].current_frontier@ == expanded[w].current_frontier@
                        },
                    id > 0 ==> any_worker_had_work == any_work(column(parcels, 0)),
                decreases before.len() - id,
            {
                let inbox = inbox_of(&sent, id);
                proof {
                    assert(before[id as int].well_formed());
                    assert(sends(adj, before[id as int], lists[id as int], parcels[id as int]));
                    column_is_own(
                        adj,
                        source,
                        partition,
                        before,
                        lists,
                        parcels,
                        id as int,
                        level as nat,
                    );
                    assert(workers@[id as int] == expanded[id as int]);
                }
                let (had_work, _incoming) = self.collect(&mut workers[id], inbox.as_slice());
                if id == 0 {
                    any_worker_had_work = had_work;
                }
                id = id + 1;
            }
            note(&mut keys, &mut steps, Ghost(head));
            let ghost after = workers@;
            proof {
                assert forall|k: int| 0 <= k < before.len() implies (
                #[trigger] before[k]).partition.worker_total() == before.len() by {
                    assert(before[k].well_formed());
                }
                column_tells_work(adj, before, lists, parcels, 0);
                work_is_known(adj, source, partition, before, level as nat);
                assert(exchanged_in_turn(adj, before, expanded, lists, parcels, after));
                turn_finishes_level(
                    adj,
                    source,
                    partition,
                    before,
                    expanded,
                    lists,
                    parcels,
                    after,
                    level as nat,
                );
            }
            if !any_worker_had_work {
                break;
            }
            assert forall|w: int| 0 <= w < after.len() implies (#[trigger] after[w]).current_level
                < usize::MAX by {}
            advance_all(&mut workers);
            proof {
                level_keeps_step(adj, source, partition, before, after, workers@, level as nat);
            }
            let _ok: bool = steps.next_level();
            level = level + 1;
        }
        proof {
            ended_search_has_all_keys(steps);
            assert(head + steps.passed() =~= steps.passed());
        }
        let lists = list_all(&workers, Ghost(partition), Ghost(level as nat));
        let distances = gather_all(&workers, &partition, num_nodes);
        Found { keys, levels: level + 1, distances, lists }
    }

    /// Searches a graph from each of the sources by workers that take turns.
    pub fn execute<G: NeighborLists>(&self, num_threads: u32, graph: &G, sources: &[usize]) -> (run:
        TrialsResult)
        requires
            num_threads > 0,
            graph.rows().len() <= u32::MAX + 1,
            graph.rows().len() + 1 < UNVISITED,
            (Blocks { num_nodes: graph.rows().len() as usize, num_threads }).valid(),
            forall|t: int| 0 <= t < sources@.len() ==> usable_from(graph, #[trigger] sources@[t]),
        ensures
            run.tells(
                graph.rows(),
                sources@,
                (Blocks { num_nodes: graph.rows().len() as usize, num_threads }),
                Pattern::Exchange,
            ),
    {
        let num_nodes: usize = graph.node_count();
        let ghost adj = graph.rows();
        let ghost partition = Blocks { num_nodes, num_threads };
        let mut run = TrialsResult::open::<Blocks>(
            num_threads,
            Ghost(adj),
            Ghost(sources@),
            Ghost(partition),
            Ghost(Pattern::Exchange),
        );
        let mut trial: usize = 0;
        while trial < sources.len()
            invariant
                adj == graph.rows(),
                num_nodes == adj.len(),
                partition == (Blocks { num_nodes, num_threads }),
                num_threads > 0,
                graph.rows().len() <= u32::MAX + 1,
                graph.rows().len() + 1 < UNVISITED,
                (Blocks { num_nodes: graph.rows().len() as usize, num_threads }).valid(),
                forall|t: int|
                    0 <= t < sources@.len() ==> usable_from(graph, #[trigger] sources@[t]),
                trial <= sources@.len(),
                run.tells_first(
                    adj,
                    sources@,
                    partition,
                    Pattern::Exchange,
                    trial as nat,
                ),
            decreases sources@.len() - trial,
        {
            let found = self.search(num_threads, graph, Some(trial), sources[trial]);
            run.record::<Blocks>(
                found,
                Ghost(adj),
                Ghost(sources@),
                Ghost(partition),
                Ghost(Pattern::Exchange),
            );
            trial = trial + 1;
        }
        run.close::<Blocks>(
            Ghost(adj),
            Ghost(sources@),
            Ghost(partition),
            Ghost(Pattern::Exchange),
        );
        run
    }
}


/// What a worker sends are the nodes of others that its frontier leads to, each once, in the
/// order in which it meets them: of two of them, the one that stands first is met at a place
/// before which the other one is not.
pub proof fn sent_once_in_order(
    adj: Seq<Seq<usize>>,
    worker: Worker<Blocks>,
    v: usize,
    i: int,
    j: int,
)
    ensures
        outgoing_once(adj, worker).no_duplicates(),
        outgoing_once(adj, worker).contains(v) <==> candidates(
            adj,
            worker.current_frontier@,
        ).contains(v) && worker.partition.owner_of(v) != worker.worker_id,
        0 <= i < j < outgoing_once(adj, worker).len() ==> exists|k: int|
            0 <= k < outgoing(adj, worker).len() && #[trigger] outgoing(adj, worker)[k]
                == outgoing_once(adj, worker)[i] && !outgoing(adj, worker).take(k + 1).contains(
                outgoing_once(adj, worker)[j],
            ),
{
    let out = outgoing(adj, worker);
    let all = |v: usize| true;
    lemma_first_seen(out, all);
    lemma_filter_contains(
        candidates(adj, worker.current_frontier@),
        |v: usize| !worker.mine(v),
        v,
    );
    if 0 <= i < j < outgoing_once(adj, worker).len() {
        first_seen_keeps_order(out, all, i, j);
    }
}

} // verus!

//! Both delegates in one thread, taking turns: searches from beginning to end.

use vstd::prelude::*;
use vstd::string::StringExecFns;

use super::delegates::{
    claiming_finishes_level, claimed_level, expand_claiming, expand_observing, exports_known,
    half_can_be_expanded, halves_start_search, observed_level, observing_finishes_level,
    search_over, shared_start_is_known, start_half,
};
use super::shared_table::{visited, visited_is_ascending, visited_nodes};
use crate::frontier::candidates;
use crate::graph::csr::Graph;
use crate::graph::layout::lists_within;
use crate::graph::{lemma_walk_stays, usable_from, NeighborLists};
use crate::lockstep::{
    advanced, dealt, discoveries_are_next_frontier, in_step, joint_table, last_level_is_quiet,
    lemma_met, level_keeps_step, met, quiet_level_is_eccentricity, quiet_level_is_result,
    some_frontier, start_has_frontier, start_is_synchronized, synchronized, trials_start_search,
};
use crate::model::{
    eccentricity_unique, is_distance, is_eccentricity, lemma_distance_unique, reachable,
    shortest_distances, shortest_distances_unique, walk, UNVISITED,
};
use crate::moments::{
    ended_search_has_all_keys, note, opening_keys, run_keys, search_keys, texts, trial_keys,
    trials_keys, Pattern, Steps,
};
use crate::partition::{Halves, Partition};
use crate::text::decimal_of;
use crate::timestamps::{trial_end_key, trial_start_key};
use crate::worker::{answers, Worker};

verus! {

/// The neighbor lists of a graph of which each delegate has its own half.
pub open spec fn rows_of_halves(
    first: Seq<Seq<usize>>,
    second: Seq<Seq<usize>>,
    split_point: int,
) -> Seq<Seq<usize>> {
    Seq::new(
        first.len(),
        |u: int|
            if u < split_point {
                first[u]
            } else {
                second[u]
            },
    )
}

/// The neighbor list of every node that a search from `s` meets can be handed out by the
/// delegate that the node is dealt to.
pub open spec fn halves_usable_from(
    graph_0: &Graph,
    graph_1: &Graph,
    num_nodes: usize,
    s: usize,
) -> bool {
    forall|v: usize| #[trigger]
        reachable(rows_of_halves(graph_0@, graph_1@, num_nodes as int / 2), s, v) ==> v < num_nodes
            && if v < num_nodes / 2 {
            graph_0.row_in_bounds(v as int)
        } else {
            graph_1.row_in_bounds(v as int)
        }
}

/// Well-formed halves can be searched from each of their nodes.
pub proof fn well_formed_halves_are_usable(
    graph_0: &Graph,
    graph_1: &Graph,
    num_nodes: usize,
    s: usize,
)
    requires
        graph_0@.len() == num_nodes,
        graph_1@.len() == num_nodes,
        graph_0.well_formed(),
        graph_1.well_formed(),
        s < num_nodes,
    ensures
        halves_usable_from(graph_0, graph_1, num_nodes, s),
{
    let adj = rows_of_halves(graph_0@, graph_1@, num_nodes as int / 2);
    assert forall|u: int, i: int| 0 <= u < adj.len() && 0 <= i < adj[u].len() implies #[trigger] adj[u][i]
        < adj.len() by {
        if u < num_nodes as int / 2 {
            assert(graph_0@[u][i] < graph_0.node_total());
        } else {
            assert(graph_1@[u][i] < graph_1.node_total());
        }
    }
    assert forall|v: usize| #[trigger] reachable(adj, s, v) implies v < num_nodes && if v
        < num_nodes / 2 {
        graph_0.row_in_bounds(v as int)
    } else {
        graph_1.row_in_bounds(v as int)
    } by {
        let k = choose|k: nat| walk(adj, s, v, k);
        lemma_walk_stays(adj, s, v, k);
    }
}

/// Where each delegate has the lists of its half of a graph, they search the whole.
pub proof fn halves_of_whole(
    whole: Seq<Seq<usize>>,
    first: Seq<Seq<usize>>,
    second: Seq<Seq<usize>>,
    split_point: int,
)
    requires
        0 <= split_point <= whole.len(),
        lists_within(whole, 0, split_point, first),
        lists_within(whole, split_point, whole.len() as int, second),
    ensures
        rows_of_halves(first, second, split_point) == whole,
{
    let both = rows_of_halves(first, second, split_point);
    assert forall|u: int| 0 <= u < whole.len() implies both[u] == whole[u] by {
        assert(first[u] == (if u < split_point {
            whole[u]
        } else {
            Seq::empty()
        }));
        assert(second[u] == (if split_point <= u {
            whole[u]
        } else {
            Seq::empty()
        }));
    }
    assert(both =~= whole);
}

/// What the two delegates answer for is what their joint table has.
pub proof fn halves_answer_joint_table(
    partition: Halves,
    workers: Seq<Worker<Halves>>,
    k: nat,
)
    requires
        partition.valid(),
        workers.len() == 2,
        k <= partition.num_nodes,
    ensures
        answers(partition, 0, workers[0].distances@, k) + answers(
            partition,
            1,
            workers[1].distances@,
            k,
        ) == visited(joint_table(partition, workers), k),
        k <= partition.split_point ==> answers(partition, 1, workers[1].distances@, k).len() == 0,
    decreases k,
{
    let table = joint_table(partition, workers);
    if k > 0 {
        halves_answer_joint_table(partition, workers, (k - 1) as nat);
        let v = (k - 1) as usize;
        assert(table[k - 1] == workers[partition.owner_of(v) as int].distances@[k - 1]);
    }
    assert(answers(partition, 0, workers[0].distances@, k) + answers(
        partition,
        1,
        workers[1].distances@,
        k,
    ) =~= visited(table, k));
}

/// What a run over trials leaves: the keys of its moments, the number of levels of each trial,
/// and the distances of the first trial.
pub struct RunResult {
    pub keys: Vec<String>,
    pub levels: Vec<usize>,
    pub local_distances: Vec<(usize, usize)>,
}

impl RunResult {
    /// The trials were searches from the sources: each had as many levels as the largest
    /// distance from its source and one more, the moments are those of so many levels, and the
    /// distances are those from the first source.
    pub open spec fn tells(&self, adj: Seq<Seq<usize>>, sources: Seq<usize>) -> bool {
        &&& self.levels@.len() == sources.len()
        &&& forall|t: int|
            0 <= t < sources.len() ==> 0 < #[trigger] self.levels@[t] && is_eccentricity(
                adj,
                sources[t],
                (self.levels@[t] - 1) as nat,
            )
        &&& texts(self.keys@) == run_keys(Pattern::Delegates, self.levels@)
        &&& sources.len() == 0 ==> self.local_distances@.len() == 0
        &&& sources.len() > 0 ==> exists|dist: Seq<usize>| #[trigger]
            shortest_distances(adj, sources[0], dist) && self.local_distances@ == visited(
                dist,
                dist.len(),
            )
    }
}

/// The distance of every node, as its delegate has it.
fn gather(first: &Worker<Halves>, second: &Worker<Halves>, partition: Halves) -> (distances: Vec<
    usize,
>)
    requires
        partition.valid(),
        first.well_formed(),
        second.well_formed(),
        first.partition == partition && first.worker_id == 0,
        second.partition == partition && second.worker_id == 1,
    ensures
        distances@ == joint_table(partition, seq![*first, *second]),
{
    let ghost both = seq![*first, *second];
    let mut distances: Vec<usize> = Vec::new();
    let mut node: usize = 0;
    while node < partition.num_nodes
        invariant
            node <= partition.num_nodes,
            partition.valid(),
            first.well_formed(),
            second.well_formed(),
            first.partition == partition && first.worker_id == 0,
            second.partition == partition && second.worker_id == 1,
            both == seq![*first, *second],
            distances@ =~= joint_table(partition, both).take(node as int),
        decreases partition.num_nodes - node,
    {
        assert(both[0] == *first && both[1] == *second);
        if node < partition.split_point {
            distances.push(first.distances[node]);
        } else {
            distances.push(second.distances[node]);
        }
        node = node + 1;
    }
    assert(distances@ =~= joint_table(partition, both));
    distances
}

/// What a delegate imports are nodes of the graph.
proof fn lemma_import_held(
    adj: Seq<Seq<usize>>,
    s: usize,
    partition: Halves,
    before: Seq<Worker<Halves>>,
    level: nat,
    k: int,
    export: Seq<usize>,
)
    requires
        dealt(adj, s, partition),
        synchronized(adj, s, partition, before, level),
        level < UNVISITED,
        0 <= k < before.len(),
        forall|v: usize| #[trigger]
            export.contains(v) ==> candidates(adj, before[k].current_frontier@).contains(v),
    ensures
        forall|i: int| 0 <= i < export.len() ==> #[trigger] export[i] < partition.num_nodes,
{
    assert forall|i: int| 0 <= i < export.len() implies #[trigger] export[i]
        < partition.num_nodes by {
        let v = export[i];
        assert(export.contains(v));
        assert(candidates(adj, before[k].current_frontier@).contains(v));
        assert(met(adj, before, v));
        lemma_met(adj, s, partition, before, level, v);
    }
}

/// Going on to the next level keeps the marks true.
proof fn lemma_advance_keeps_known(before: Seq<Worker<Halves>>, after: Seq<Worker<Halves>>)
    requires
        before.len() == 2,
        advanced(before, after),
        exports_known(before),
    ensures
        exports_known(after),
{
    assert(after[0].distances@ == before[0].distances@);
    assert(after[1].distances@ == before[1].distances@);
    assert forall|k: int, v: usize|
        0 <= k < 2 && v < after[k].distances@.len() && !after[k].mine(v)
            && #[trigger] after[k].entry(v) != UNVISITED implies after[1 - k].entry(v)
        != UNVISITED by {
        assert(before[k].entry(v) == after[k].entry(v));
        assert(before[1 - k].entry(v) == after[1 - k].entry(v));
    }
}

/// A search from `source` found the distances, took so many levels, and put their keys behind
/// those that were there.
pub open spec fn searched(
    adj: Seq<Seq<usize>>,
    source: usize,
    trial: usize,
    distances: Seq<usize>,
    levels: usize,
    before: Seq<Seq<char>>,
    after: Seq<Seq<char>>,
) -> bool {
    &&& shortest_distances(adj, source, distances)
    &&& levels > 0
    &&& is_eccentricity(adj, source, (levels - 1) as nat)
    &&& after == before + search_keys(Some(trial), Pattern::Delegates, levels as nat)
}

/// Searches from `source` by two delegates, each with the neighbor lists of its own half, that
/// mark what they export. The result is the distance of every node, and the number of levels.
fn independent_trial(
    graph_0: &Graph,
    graph_1: &Graph,
    num_nodes: usize,
    trial: usize,
    source: usize,
    keys: &mut Vec<String>,
) -> (out: (Vec<usize>, usize))
    requires
        graph_0@.len() == num_nodes,
        graph_1@.len() == num_nodes,
        halves_usable_from(graph_0, graph_1, num_nodes, source),
        num_nodes + 1 < UNVISITED,
    ensures
        searched(
            rows_of_halves(graph_0@, graph_1@, num_nodes as int / 2),
            source,
            trial,
            out.0@,
            out.1,
            texts(old(keys)@),
            texts(final(keys)@),
        ),
{
    let partition = Halves::new(num_nodes);
    let ghost adj = rows_of_halves(graph_0@, graph_1@, num_nodes as int / 2);
    proof {
        assert(walk(adj, source, source, 0));
        assert(reachable(adj, source, source));
    }
    let mut first = Worker::new(partition, 0);
    let mut second = Worker::new(partition, 1);
    start_half(&mut first, source);
    start_half(&mut second, source);
    let mut level: usize = 0;
    proof {
        let both = seq![first, second];
        assert forall|v: usize| #[trigger] reachable(adj, source, v) implies partition.places(
            v,
        ) by {}
        halves_start_search(partition, source, both);
        start_is_synchronized(adj, source, partition, both);
        start_has_frontier(partition, source, both);
    }
    let ghost head = texts(keys@);
    let mut steps = Steps::new(Some(trial), Pattern::Delegates);
    assert(texts(keys@) =~= head + steps.passed());
    loop
        invariant_except_break
            level <= num_nodes,
            some_frontier(seq![first, second]),
            steps.phase == 0,
            synchronized(adj, source, partition, seq![first, second], level as nat),
            exports_known(seq![first, second]),
        invariant
            adj == rows_of_halves(graph_0@, graph_1@, num_nodes as int / 2),
            adj.len() == num_nodes,
            num_nodes + 1 < UNVISITED,
            partition.valid(),
            partition.num_nodes == num_nodes,
            partition.split_point == num_nodes / 2,
            graph_0@.len() == num_nodes,
            graph_1@.len() == num_nodes,
            halves_usable_from(graph_0, graph_1, num_nodes, source),
            dealt(adj, source, partition),
            steps.trial == Some(trial),
            steps.pattern == Pattern::Delegates,
            steps.level == level,
            texts(keys@) == head + steps.passed(),
        ensures
            steps.at_end(),
            level < UNVISITED,
            is_eccentricity(adj, source, level as nat),
            in_step(partition, seq![first, second], level as nat),
            shortest_distances(adj, source, joint_table(partition, seq![first, second])),
        decreases num_nodes + 1 - level,
    {
        let ghost before = seq![first, second];
        proof {
            assert(before[0].well_formed() && before[1].well_formed());
            half_can_be_expanded(adj, source, partition, before, level as nat, graph_0, 0);
            half_can_be_expanded(adj, source, partition, before, level as nat, graph_1, 1);
        }
        note(keys, &mut steps, Ghost(head));
        let export_0 = expand_claiming(&mut first, graph_0);
        let export_1 = expand_claiming(&mut second, graph_1);
        let ghost expanded = seq![first, second];
        let ghost exports = seq![export_0@, export_1@];
        proof {
            lemma_import_held(adj, source, partition, before, level as nat, 0, export_0@);
            lemma_import_held(adj, source, partition, before, level as nat, 1, export_1@);
        }
        note(keys, &mut steps, Ghost(head));
        first.absorb(export_1.as_slice());
        second.absorb(export_0.as_slice());
        let ghost after = seq![first, second];
        proof {
            assert(claimed_level(adj, before, expanded, exports, after));
            claiming_finishes_level(
                adj,
                source,
                partition,
                before,
                expanded,
                exports,
                after,
                level as nat,
            );
            if level == num_nodes {
                last_level_is_quiet(adj, source, partition, before, after, level as nat);
            }
            assert(after[0] == first && after[1] == second);
        }
        note(keys, &mut steps, Ghost(head));
        if search_over(first.next_frontier.len(), second.next_frontier.len()) {
            proof {
                quiet_level_is_result(adj, source, partition, before, after, level as nat);
                quiet_level_is_eccentricity(adj, source, partition, before, after, level as nat);
            }
            break;
        }
        first.advance();
        second.advance();
        proof {
            let next = seq![first, second];
            assert(advanced(after, next));
            level_keeps_step(adj, source, partition, before, after, next, level as nat);
            lemma_advance_keeps_known(after, next);
            assert(after[0].next_frontier@.len() > 0 || after[1].next_frontier@.len() > 0);
            discoveries_are_next_frontier(after, next);
        }
        let _ok: bool = steps.next_level();
        level = level + 1;
    }
    proof {
        let both = seq![first, second];
        assert(both[0].well_formed() && both[1].well_formed());
        assert(both[0] == first && both[1] == second);
        ended_search_has_all_keys(steps);
    }
    (gather(&first, &second, partition), level + 1)
}

/// Searches from `source` by two delegates over one graph that look into each other's tables.
/// The result is the distance of every node, and the number of levels.
fn monolithic_trial(
    graph: &Graph,
    num_nodes: usize,
    trial: usize,
    source: usize,
    keys: &mut Vec<String>,
) -> (out: (Vec<usize>, usize))
    requires
        graph@.len() == num_nodes,
        usable_from(graph, source),
        num_nodes + 1 < UNVISITED,
    ensures
        searched(
            graph@,
            source,
            trial,
            out.0@,
            out.1,
            texts(old(keys)@),
            texts(final(keys)@),
        ),
{
    let partition = Halves::new(num_nodes);
    let ghost adj = graph@;
    proof {
        assert(walk(adj, source, source, 0));
        assert(reachable(graph.rows(), source, source));
    }
    let mut first = Worker::new(partition, 0);
    let mut second = Worker::new(partition, 1);
    first.start_trial(source);
    second.start_trial(source);
    let mut level: usize = 0;
    proof {
        let both = seq![first, second];
        assert forall|v: usize| #[trigger] reachable(adj, source, v) implies partition.places(
            v,
        ) by {
            assert(reachable(graph.rows(), source, v));
        }
        trials_start_search(partition, source, both);
        shared_start_is_known(partition, source, both);
        start_is_synchronized(adj, source, partition, both);
        start_has_frontier(partition, source, both);
    }
    let ghost head = texts(keys@);
    let mut steps = Steps::new(Some(trial), Pattern::Delegates);
    assert(texts(keys@) =~= head + steps.passed());
    loop
        invariant_except_break
            level <= num_nodes,
            some_frontier(seq![first, second]),
            steps.phase == 0,
            synchronized(adj, source, partition, seq![first, second], level as nat),
            exports_known(seq![first, second]),
        invariant
            adj == graph@,
            adj.len() == num_nodes,
            num_nodes + 1 < UNVISITED,
            partition.valid(),
            partition.num_nodes == num_nodes,
            partition.split_point == num_nodes / 2,
            graph@.len() == num_nodes,
            usable_from(graph, source),
            dealt(adj, source, partition),
            steps.trial == Some(trial),
            steps.pattern == Pattern::Delegates,
            steps.level == level,
            texts(keys@) == head + steps.passed(),
        ensures
            steps.at_end(),
            level < UNVISITED,
            is_eccentricity(adj, source, level as nat),
            in_step(partition, seq![first, second], level as nat),
            shortest_distances(adj, source, joint_table(partition, seq![first, second])),
        decreases num_nodes + 1 - level,
    {
        let ghost before = seq![first, second];
        proof {
            assert(before[0].well_formed() && before[1].well_formed());
            assert forall|u: usize| #[trigger] reachable(adj, source, u) implies graph.row_in_bounds(
                u as int,
            ) by {
                assert(reachable(graph.rows(), source, u));
                assert(graph.readable(u));
            }
            half_can_be_expanded(adj, source, partition, before, level as nat, graph, 0);
            half_can_be_expanded(adj, source, partition, before, level as nat, graph, 1);
        }
        note(keys, &mut steps, Ghost(head));
        let export_0 = expand_observing(&mut first, graph, second.distances.as_slice());
        let export_1 = expand_observing(&mut second, graph, first.distances.as_slice());
        let ghost expanded = seq![first, second];
        let ghost exports = seq![export_0@, export_1@];
        let ghost observed = seq![before[1].distances@, expanded[0].distances@];
        proof {
            lemma_import_held(adj, source, partition, before, level as nat, 0, export_0@);
            lemma_import_held(adj, source, partition, before, level as nat, 1, export_1@);
        }
        note(keys, &mut steps, Ghost(head));
        first.absorb(export_1.as_slice());
        second.absorb(export_0.as_slice());
        let ghost after = seq![first, second];
        proof {
            assert forall|k: int, v: usize|
                0 <= k < 2 && v < observed[k].len() && #[trigger] observed[k][v as int]
                    != UNVISITED && !before[k].mine(v) implies expanded[1 - k].entry(v)
                != UNVISITED by {
                if k == 0 {
                    assert(before[1].entry(v) != UNVISITED);
                    assert(expanded[1].entry(v) == before[1].entry(v));
                } else {
                    assert(expanded[0].entry(v) == observed[1][v as int]);
                }
            }
            assert(observed_level(adj, before, expanded, observed, exports, after));
            observing_finishes_level(
                adj,
                source,
                partition,
                before,
                expanded,
                observed,
                exports,
                after,
                level as nat,
            );
            if level == num_nodes {
                last_level_is_quiet(adj, source, partition, before, after, level as nat);
            }
            assert(after[0] == first && after[1] == second);
        }
        note(keys, &mut steps, Ghost(head));
        if search_over(first.next_frontier.len(), second.next_frontier.len()) {
            proof {
                quiet_level_is_result(adj, source, partition, before, after, level as nat);
                quiet_level_is_eccentricity(adj, source, partition, before, after, level as nat);
            }
            break;
        }
        first.advance();
        second.advance();
        proof {
            let next = seq![first, second];
            assert(advanced(after, next));
            level_keeps_step(adj, source, partition, before, after, next, level as nat);
            lemma_advance_keeps_known(after, next);
            assert(after[0].next_frontier@.len() > 0 || after[1].next_frontier@.len() > 0);
            discoveries_are_next_frontier(after, next);
        }
        let _ok: bool = steps.next_level();
        level = level + 1;
    }
    proof {
        let both = seq![first, second];
        assert(both[0].well_formed() && both[1].well_formed());
        assert(both[0] == first && both[1] == second);
        ended_search_has_all_keys(steps);
    }
    (gather(&first, &second, partition), level + 1)
}

/// Searches from each of the sources by two delegates that have the neighbor lists of their own
/// half.
pub fn run_independent_mode(
    graph_0: &Graph,
    graph_1: &Graph,
    num_nodes: usize,
    sources: &[usize],
) -> (run: RunResult)
    requires
        graph_0@.len() == num_nodes,
        graph_1@.len() == num_nodes,
        forall|t: int|
            0 <= t < sources@.len() ==> halves_usable_from(
                graph_0,
                graph_1,
                num_nodes,
                #[trigger] sources@[t],
            ),
        num_nodes + 1 < UNVISITED,
    ensures
        run.tells(rows_of_halves(graph_0@, graph_1@, num_nodes as int / 2), sources@),
{
    let ghost adj = rows_of_halves(graph_0@, graph_1@, num_nodes as int / 2);
    let mut keys: Vec<String> = Vec::new();
    keys.push(String::from_str("worker_start"));
    keys.push(String::from_str("graph_generated"));
    let mut levels: Vec<usize> = Vec::new();
    let mut local_distances: Vec<(usize, usize)> = Vec::new();
    let mut trial: usize = 0;
    proof {
        assert(trials_keys(Pattern::Delegates, levels@) =~= Seq::<Seq<char>>::empty());
        assert(texts(keys@) =~= opening_keys() + trials_keys(Pattern::Delegates, levels@));
    }
    while trial < sources.len()
        invariant
            adj == rows_of_halves(graph_0@, graph_1@, num_nodes as int / 2),
            graph_0@.len() == num_nodes,
            graph_1@.len() == num_nodes,
            forall|t: int|
                0 <= t < sources@.len() ==> halves_usable_from(
                graph_0,
                graph_1,
                num_nodes,
                #[trigger] sources@[t],
            ),
            num_nodes + 1 < UNVISITED,
            trial <= sources@.len(),
            levels@.len() == trial,
            forall|t: int|
                0 <= t < trial ==> 0 < #[trigger] levels@[t] && is_eccentricity(
                    adj,
                    sources@[t],
                    (levels@[t] - 1) as nat,
                ),
            texts(keys@) == opening_keys() + trials_keys(Pattern::Delegates, levels@),
            trial == 0 ==> local_distances@.len() == 0,
            trial > 0 ==> exists|dist: Seq<usize>| #[trigger]
                shortest_distances(adj, sources@[0], dist) && local_distances@ == visited(
                    dist,
                    dist.len(),
                ),
        decreases sources@.len() - trial,
    {
        let ghost done = texts(keys@);
        let ghost counts = levels@;
        keys.push(trial_start_key(trial));
        let ghost begun = texts(keys@);
        assert(begun =~= done.push("trial_"@ + decimal_of(trial as nat) + "_start"@));
        let (distances, count) = independent_trial(
            graph_0,
            graph_1,
            num_nodes,
            trial,
            sources[trial],
            &mut keys,
        );
        let ghost searched_keys = texts(keys@);
        keys.push(trial_end_key(trial));
        levels.push(count);
        proof {
            assert(texts(keys@) =~= searched_keys.push(
                "trial_"@ + decimal_of(trial as nat) + "_end"@,
            ));
            assert(levels@.drop_last() =~= counts);
            assert(texts(keys@) =~= done + trial_keys(trial, Pattern::Delegates, count as nat));
            assert(texts(keys@) =~= opening_keys() + trials_keys(Pattern::Delegates, levels@));
        }
        if trial == 0 {
            local_distances = visited_nodes(distances.as_slice());
        }
        trial = trial + 1;
    }
    let ghost done = texts(keys@);
    keys.push(String::from_str("worker_end"));
    proof {
        assert(texts(keys@) =~= done.push("worker_end"@));
        assert(texts(keys@) =~= run_keys(Pattern::Delegates, levels@));
    }
    RunResult { keys, levels, local_distances }
}

/// Searches from each of the sources by two delegates over one graph.
pub fn run_monolithic_mode(graph: &Graph, num_nodes: usize, sources: &[usize]) -> (run: RunResult)
    requires
        graph@.len() == num_nodes,
        forall|t: int|
            0 <= t < sources@.len() ==> usable_from(graph, #[trigger] sources@[t]),
        num_nodes + 1 < UNVISITED,
    ensures
        run.tells(graph@, sources@),
{
    let ghost adj = graph@;
    let mut keys: Vec<String> = Vec::new();
    keys.push(String::from_str("worker_start"));
    keys.push(String::from_str("graph_generated"));
    let mut levels: Vec<usize> = Vec::new();
    let mut local_distances: Vec<(usize, usize)> = Vec::new();
    let mut trial: usize = 0;
    proof {
        assert(trials_keys(Pattern::Delegates, levels@) =~= Seq::<Seq<char>>::empty());
        assert(texts(keys@) =~= opening_keys() + trials_keys(Pattern::Delegates, levels@));
    }
    while trial < sources.len()
        invariant
            adj == graph@,
            graph@.len() == num_nodes,
            forall|t: int|
                0 <= t < sources@.len() ==> usable_from(graph, #[trigger] sources@[t]),
            num_nodes + 1 < UNVISITED,
            trial <= sources@.len(),
            levels@.len() == trial,
            forall|t: int|
                0 <= t < trial ==> 0 < #[trigger] levels@[t] && is_eccentricity(
                    adj,
                    sources@[t],
                    (levels@[t] - 1) as nat,
                ),
            texts(keys@) == opening_keys() + trials_keys(Pattern::Delegates, levels@),
            trial == 0 ==> local_distances@.len() == 0,
            trial > 0 ==> exists|dist: Seq<usize>| #[trigger]
                shortest_distances(adj, sources@[0], dist) && local_distances@ == visited(
                    dist,
                    dist.len(),
                ),
        decreases sources@.len() - trial,
    {
        let ghost done = texts(keys@);
        let ghost counts = levels@;
        keys.push(trial_start_key(trial));
        let ghost begun = texts(keys@);
        assert(begun =~= done.push("trial_"@ + decimal_of(trial as nat) + "_start"@));
        let (distances, count) = monolithic_trial(
            graph,
            num_nodes,
            trial,
            sources[trial],
            &mut keys,
        );
        let ghost searched_keys = texts(keys@);
        keys.push(trial_end_key(trial));
        levels.push(count);
        proof {
            assert(texts(keys@) =~= searched_keys.push(
                "trial_"@ + decimal_of(trial as nat) + "_end"@,
            ));
            assert(levels@.drop_last() =~= counts);
            assert(texts(keys@) =~= done + trial_keys(trial, Pattern::Delegates, count as nat));
            assert(texts(keys@) =~= opening_keys() + trials_keys(Pattern::Delegates, levels@));
        }
        if trial == 0 {
            local_distances = visited_nodes(distances.as_slice());
        }
        trial = trial + 1;
    }
    let ghost done = texts(keys@);
    keys.push(String::from_str("worker_end"));
    proof {
        assert(texts(keys@) =~= done.push("worker_end"@));
        assert(texts(keys@) =~= run_keys(Pattern::Delegates, levels@));
    }
    RunResult { keys, levels, local_distances }
}

/// Runs over the same neighbor lists with the same first source leave the same distances,
/// whichever mode made them, however many threads there were, and whatever sources followed.
/// They are the distance of every node that can be reached, in node order.
pub proof fn runs_leave_same_distances(
    adj: Seq<Seq<usize>>,
    a: RunResult,
    a_sources: Seq<usize>,
    b: RunResult,
    b_sources: Seq<usize>,
    dist: Seq<usize>,
)
    requires
        adj.len() <= usize::MAX,
        a.tells(adj, a_sources),
        b.tells(adj, b_sources),
        a_sources.len() > 0,
        b_sources.len() > 0,
        a_sources[0] == b_sources[0],
        shortest_distances(adj, a_sources[0], dist),
    ensures
        a.local_distances@ == b.local_distances@,
        a.local_distances@ == visited(dist, dist.len()),
{
    let x = choose|x: Seq<usize>| #[trigger]
        shortest_distances(adj, a_sources[0], x) && a.local_distances@ == visited(x, x.len());
    let y = choose|y: Seq<usize>| #[trigger]
        shortest_distances(adj, b_sources[0], y) && b.local_distances@ == visited(y, y.len());
    shortest_distances_unique(adj, a_sources[0], x, dist);
    shortest_distances_unique(adj, a_sources[0], y, dist);
}


/// After a run, a node stands with a number exactly where a shortest walk from the first source to
/// the node has that many edges. Each trial had one level more than the largest distance.
pub proof fn run_answers_first_source(
    adj: Seq<Seq<usize>>,
    run: RunResult,
    sources: Seq<usize>,
    v: usize,
    d: usize,
    t: int,
    e: nat,
)
    requires
        adj.len() <= usize::MAX,
        run.tells(adj, sources),
        v < adj.len(),
        0 <= t < sources.len(),
        is_eccentricity(adj, sources[t], e),
    ensures
        run.local_distances@.contains((v, d)) <==> is_distance(adj, sources[0], v, d as nat),
        run.levels@[t] == e + 1,
{
    let dist = choose|x: Seq<usize>| #[trigger]
        shortest_distances(adj, sources[0], x) && run.local_distances@ == visited(x, x.len());
    let pairs = visited(dist, dist.len());
    visited_is_ascending(dist, dist.len());
    if pairs.contains((v, d)) {
        let i = choose|i: int| 0 <= i < pairs.len() && pairs[i] == (v, d);
        assert(dist[v as int] == d);
    }
    if is_distance(adj, sources[0], v, d as nat) {
        assert(reachable(adj, sources[0], v));
        assert(dist[v as int] != UNVISITED);
        lemma_distance_unique(adj, sources[0], v, d as nat, dist[v as int] as nat);
    }
    eccentricity_unique(adj, sources[t], e, (run.levels@[t] - 1) as nat);
}

} // verus!

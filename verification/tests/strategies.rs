use burst_bfs::graph::csr::Graph;
use burst_bfs::graph::NeighborLists;
use burst_bfs::message::frontier::BfsMessage as FrontierMessage;
use burst_bfs::message::packed::BfsMessage as PackedMessage;
use burst_bfs::message::signal::BfsMessage as SignalMessage;
use burst_bfs::model::UNVISITED;
use burst_bfs::moments::{Pattern, Steps};
use burst_bfs::parallel::is_expandable;
use burst_bfs::params::single::Input;
use burst_bfs::partition::{Blocks, Halves, PackedStripes, Partition, Stripes};
use burst_bfs::sent_set::{send_once, SentSet};
use burst_bfs::sequential::sequential_bfs;
use burst_bfs::strategies::all_to_all;
use burst_bfs::strategies::all_to_all_numa::AllToAllNumaStrategy;
use burst_bfs::strategies::broadcast_reduce::BroadcastReduceStrategy;
use burst_bfs::strategies::delegate_runs::{run_independent_mode, run_monolithic_mode};
use burst_bfs::strategies::delegates;
use burst_bfs::strategies::frontier_reduce;
use burst_bfs::strategies::in_process::{bfs as grid_bfs, run_bfs_iteration};
use burst_bfs::strategies::shared_table::{self, TableSearch};
use burst_bfs::strategies::signals;
use burst_bfs::strategies::{deal, ROOT_WORKER};
use burst_bfs::words::native_order;
use burst_bfs::worker::Worker;
use std::collections::VecDeque;

fn from_text(text: &str) -> Graph {
    Graph::from_el_file(text.as_bytes()).unwrap()
}

/// Graphs of different shapes: a grid, a chain, a directed cycle, one with parallel edges and
/// loops, and one that falls apart.
fn graphs() -> Vec<Graph> {
    vec![
        Graph::new_grid(4, 5),
        Graph::new_grid(1, 1),
        from_text("0 1\n1 2\n2 3\n3 4"),
        from_text("0 1\n1 2\n2 3\n3 4\n4 0"),
        from_text("0 0\n0 2\n0 2\n2 1\n1 1\n2 5\n5 0\n4 3"),
        from_text("7 1\n1 7\n3 4\n4 3\n1 2"),
    ]
}

fn gathered<P: Partition>(num_nodes: usize, workers: &[Worker<P>]) -> Vec<usize> {
    let mut table = vec![UNVISITED; num_nodes];
    for worker in workers {
        for (node, dist) in worker.local_distances() {
            assert_eq!(table[node], UNVISITED);
            table[node] = dist;
        }
    }
    table
}

fn started<P: Partition + Copy>(partition: P, count: u32, source: usize) -> Vec<Worker<P>> {
    (0..count)
        .map(|id| {
            let mut worker = Worker::new(partition, id);
            worker.start_trial(source);
            worker
        })
        .collect()
}

fn run_all_to_all(graph: &Graph, num_threads: u32, source: usize) -> Vec<usize> {
    let partition = Stripes { num_nodes: graph.num_nodes(), num_threads };
    let mut workers = started(partition, num_threads, source);
    loop {
        let sent: Vec<_> =
            workers.iter_mut().map(|w| all_to_all::prepare(w, graph)).collect();
        let mut any = Vec::new();
        for (w, worker) in workers.iter_mut().enumerate() {
            let inbox = sent.iter().rev().map(|messages| messages[w].clone()).collect();
            any.push(all_to_all::collect(worker, inbox));
        }
        assert!(any.iter().all(|a| *a == any[0]));
        if !any[0] {
            return gathered(graph.num_nodes(), &workers);
        }
        workers.iter_mut().for_each(|w| w.advance());
    }
}

/// What a receiver reads off the bytes of a message.
fn over_the_wire(message: &PackedMessage) -> PackedMessage {
    let got = PackedMessage::from_bytes(message.clone().into_bytes(), native_order());
    assert_eq!(got.has_work, message.has_work);
    assert_eq!(got.payload(), message.payload());
    got
}

fn run_all_to_all_numa(graph: &Graph, num_threads: u32, source: usize) -> Vec<usize> {
    let strategy = AllToAllNumaStrategy;
    let partition = Blocks { num_nodes: graph.num_nodes(), num_threads };
    let mut workers = started(partition, num_threads, source);
    loop {
        let sent: Vec<_> = workers.iter_mut().map(|w| strategy.prepare(w, graph)).collect();
        let mut any = Vec::new();
        for (w, worker) in workers.iter_mut().enumerate() {
            let inbox: Vec<_> =
                sent.iter().map(|messages| over_the_wire(&messages[w])).collect();
            let (had_work, incoming) = strategy.collect(worker, &inbox);
            assert_eq!(incoming, inbox.iter().map(|m| m.payload().len()).sum::<usize>());
            any.push(had_work);
        }
        assert!(any.iter().all(|a| *a == any[0]));
        if !any[0] {
            return gathered(graph.num_nodes(), &workers);
        }
        workers.iter_mut().for_each(|w| w.advance());
    }
}

fn run_broadcast_reduce(graph: &Graph, num_threads: u32, source: usize) -> Vec<usize> {
    let strategy = BroadcastReduceStrategy;
    let partition = PackedStripes { num_nodes: graph.num_nodes(), num_threads };
    let mut workers = started(partition, num_threads, source);
    loop {
        let whole = workers
            .iter_mut()
            .map(|w| over_the_wire(&strategy.prepare(w, graph)))
            .reduce(|a, b| over_the_wire(&strategy.merge(a, b)))
            .unwrap();
        let stops: Vec<bool> =
            workers.iter_mut().map(|w| strategy.finish(w, &over_the_wire(&whole))).collect();
        assert!(stops.iter().all(|s| *s == stops[0]));
        if stops[0] {
            return gathered(graph.num_nodes(), &workers);
        }
        workers.iter_mut().for_each(|w| w.advance());
    }
}

fn run_frontier_reduce(graph: &Graph, num_threads: u32, source: usize) -> Vec<usize> {
    let partition = Stripes { num_nodes: graph.num_nodes(), num_threads };
    let mut workers = started(partition, num_threads, source);
    loop {
        let whole = workers
            .iter_mut()
            .map(|w| frontier_reduce::prepare(w, graph))
            .reduce(FrontierMessage::merge)
            .unwrap();
        let stops: Vec<bool> =
            workers.iter_mut().map(|w| frontier_reduce::finish(w, &whole)).collect();
        assert!(stops.iter().all(|s| *s == stops[0]));
        if stops[0] {
            return gathered(graph.num_nodes(), &workers);
        }
        workers.iter_mut().for_each(|w| w.advance());
    }
}

fn run_signals(graph: &Graph, num_threads: u32, source: usize, in_order: bool) -> Vec<usize> {
    let partition = Stripes { num_nodes: graph.num_nodes(), num_threads };
    let mut workers = started(partition, num_threads, source);
    let count = num_threads as usize;
    loop {
        let mut wires = vec![vec![VecDeque::new(); count]; count];
        for worker in workers.iter_mut() {
            let from = worker.worker_id as usize;
            for (to, message) in signals::prepare(worker, graph, num_threads) {
                wires[to as usize][from].push_back(message);
            }
        }
        let mut total = SignalMessage::WorkStatus(0);
        let mut marks = Vec::new();
        for worker in workers.iter_mut() {
            let id = worker.worker_id;
            let mut receiving = signals::Receiving::new();
            let mut turn = 0usize;
            while !receiving.is_done(num_threads) {
                let sender = if in_order {
                    receiving.awaited(id, num_threads).unwrap() as usize
                } else {
                    turn += 1;
                    turn % count
                };
                if let Some(message) = wires[id as usize][sender].pop_front() {
                    assert!(receiving.take(worker, message));
                }
            }
            assert_eq!(receiving.awaited(id, num_threads), None);
            assert!(wires[id as usize].iter().all(|wire| wire.is_empty()));
            let status = signals::work_status(worker);
            total = total.add_work(status).unwrap();
            marks.push(if worker.next_frontier.is_empty() { 0 } else { 1 });
        }
        let ends = signals::ends_search(total).unwrap();
        assert_eq!(ends, signals::total_work(&marks) == 0);
        assert_eq!(signals::ends_search(signals::decision(ends)), Some(ends));
        if ends {
            return gathered(graph.num_nodes(), &workers);
        }
        workers.iter_mut().for_each(|w| w.advance());
    }
}

fn run_delegates(graph: &Graph, source: usize, observing: bool) -> Vec<usize> {
    let partition = Halves::new(graph.num_nodes());
    let mut workers: Vec<_> = (0..2).map(|id| Worker::new(partition, id)).collect();
    for worker in workers.iter_mut() {
        if observing {
            worker.start_trial(source);
        } else {
            delegates::start_half(worker, source);
        }
    }
    loop {
        let mut exports = Vec::new();
        for w in 0..2usize {
            let export = if observing {
                let observed = workers[1 - w].distances.clone();
                delegates::expand_observing(&mut workers[w], graph, &observed)
            } else {
                delegates::expand_claiming(&mut workers[w], graph)
            };
            for v in &export {
                assert_ne!(*v < partition.split_point, w == 0);
            }
            exports.push(export);
        }
        for w in 0..2usize {
            workers[w].absorb(&exports[1 - w]);
        }
        let lens = [workers[0].next_frontier.len(), workers[1].next_frontier.len()];
        let over = delegates::search_over(lens[0], lens[1]);
        assert_eq!(over, delegates::search_over(lens[1], lens[0]));
        if over {
            return gathered(graph.num_nodes(), &workers);
        }
        workers.iter_mut().for_each(|w| w.advance());
    }
}

#[test]
fn sequential_distances_of_a_grid_are_steps() {
    let graph = Graph::new_grid(3, 4);
    let d = sequential_bfs(&graph, 0);
    for r in 0..3usize {
        for c in 0..4usize {
            assert_eq!(d[r * 4 + c], r + c);
        }
    }
}

#[test]
fn sequential_search_leaves_the_rest_unvisited() {
    let graph = from_text("0 1\n3 2");
    assert_eq!(sequential_bfs(&graph, 0), vec![0, 1, UNVISITED, UNVISITED]);
    assert_eq!(sequential_bfs(&graph, 3), vec![UNVISITED, UNVISITED, 1, 0]);
}

#[test]
fn all_strategies_find_the_sequential_distances() {
    for graph in graphs() {
        for source in 0..graph.num_nodes() {
            let expected = sequential_bfs(&graph, source);
            for threads in [1u32, 2, 3, 7] {
                assert_eq!(run_all_to_all(&graph, threads, source), expected);
                assert_eq!(run_all_to_all_numa(&graph, threads, source), expected);
                assert_eq!(run_broadcast_reduce(&graph, threads, source), expected);
                assert_eq!(run_frontier_reduce(&graph, threads, source), expected);
                assert_eq!(run_signals(&graph, threads, source, true), expected);
                assert_eq!(run_signals(&graph, threads, source, false), expected);
                let n = graph.num_nodes();
                assert_eq!(run_bfs_iteration(threads, &graph, source, n), expected);
                let found = [
                    all_to_all::search(threads, &graph, None, source),
                    AllToAllNumaStrategy.search(threads, &graph, None, source),
                    BroadcastReduceStrategy.search(threads, &graph, None, source),
                    frontier_reduce::search(threads, &graph, None, source),
                ];
                for one in found {
                    assert_eq!(one.distances, expected);
                    assert_eq!(one.lists.len(), threads as usize);
                    let mut pairs: Vec<_> = one.lists.concat();
                    pairs.sort();
                    assert_eq!(pairs, shared_table::visited_nodes(&expected));
                    assert_eq!(one.keys.len(), 3 * one.levels);
                }
            }
            assert_eq!(run_delegates(&graph, source, false), expected);
            assert_eq!(run_delegates(&graph, source, true), expected);
            let n = graph.num_nodes();
            let pairs = shared_table::visited_nodes(&expected);
            let farthest = pairs.iter().map(|(_, d)| *d).max().unwrap();
            let together = run_monolithic_mode(&graph, n, &[source]);
            assert_eq!(together.local_distances, pairs);
            assert_eq!(together.levels, vec![farthest + 1]);
            let apart = run_independent_mode(&graph, &graph, n, &[source]);
            assert_eq!(apart.local_distances, pairs);
            assert_eq!(apart.levels, vec![farthest + 1]);
            let mut search = TableSearch::new(n);
            search.run_trial(&graph, source);
            assert_eq!(search.distances, expected);
            assert_eq!(search.level, farthest);
        }
    }
}

#[test]
fn a_search_goes_on_past_the_first_level() {
    let graph = Graph::new_grid(1, 6);
    assert_eq!(run_frontier_reduce(&graph, 1, 0), vec![0, 1, 2, 3, 4, 5]);
    assert_eq!(run_frontier_reduce(&graph, 4, 0), vec![0, 1, 2, 3, 4, 5]);
}

#[test]
fn messages_of_one_level_of_a_chain() {
    let graph = from_text("0 1\n1 0\n1 2\n2 1");
    let partition = Stripes { num_nodes: 3, num_threads: 2 };
    let mut worker = Worker::new(partition, 0);
    worker.start_trial(0);
    assert_eq!(worker.current_frontier, vec![0]);
    let messages = all_to_all::prepare(&mut worker, &graph);
    assert_eq!(messages.len(), 2);
    assert!(messages[0].nodes.is_empty());
    assert_eq!(messages[1].nodes, vec![1]);
    assert_eq!(messages[0].has_work, 1);
    assert_eq!(messages[1].has_work, 1);
    assert!(worker.current_frontier.is_empty());

    let mut other = Worker::new(partition, 1);
    other.start_trial(0);
    assert!(other.current_frontier.is_empty());
    let quiet = all_to_all::prepare(&mut other, &graph);
    assert!(quiet.iter().all(|m| m.has_work == 0 && m.nodes.is_empty()));
    let any = all_to_all::collect(&mut other, vec![messages[1].clone(), quiet[1].clone()]);
    assert!(any);
    assert_eq!(other.next_frontier, vec![1]);
    assert_eq!(other.distances, vec![0, 1, UNVISITED]);
}

#[test]
fn signals_send_nodes_and_then_flushes() {
    let graph = from_text("0 1\n0 2\n0 1\n0 4");
    let partition = Stripes { num_nodes: 5, num_threads: 3 };
    let mut worker = Worker::new(partition, 0);
    worker.start_trial(0);
    let mail = signals::prepare(&mut worker, &graph, 3);
    assert_eq!(
        mail,
        vec![
            (1, SignalMessage::Node(1)),
            (2, SignalMessage::Node(2)),
            (1, SignalMessage::Node(1)),
            (1, SignalMessage::Node(4)),
            (1, SignalMessage::Flush),
            (2, SignalMessage::Flush),
        ]
    );
}

#[test]
fn others_are_heard_in_order() {
    let mut heard = Vec::new();
    for flushes in 0..4u32 {
        let receiving = signals::Receiving { flushes_received: flushes };
        heard.push(receiving.awaited(2, 5));
    }
    assert_eq!(heard, vec![Some(0), Some(1), Some(3), Some(4)]);
    assert_eq!(signals::Receiving { flushes_received: 4 }.awaited(2, 5), None);
    assert!(signals::Receiving::new().is_done(1));
}

#[test]
fn an_unexpected_message_changes_nothing() {
    let partition = Stripes { num_nodes: 4, num_threads: 2 };
    let mut worker = Worker::new(partition, 0);
    worker.start_trial(0);
    let mut receiving = signals::Receiving::new();
    assert!(!receiving.take(&mut worker, SignalMessage::WorkStatus(1)));
    assert_eq!(receiving.flushes_received, 0);
    assert!(worker.next_frontier.is_empty());
    assert!(receiving.take(&mut worker, SignalMessage::Node(2)));
    assert!(receiving.take(&mut worker, SignalMessage::Node(2)));
    assert!(receiving.take(&mut worker, SignalMessage::Flush));
    assert_eq!(worker.next_frontier, vec![2]);
    assert_eq!(worker.distances[2], 1);
    assert_eq!(receiving.flushes_received, 1);
    assert_eq!(signals::ends_search(SignalMessage::Flush), None);
    assert_eq!(signals::ends_search(SignalMessage::WorkStatus(2)), Some(false));
}

#[test]
fn reduced_frontiers_are_sorted_and_have_each_node_once() {
    let strategy = BroadcastReduceStrategy;
    let a = PackedMessage::from_vec(vec![9, 2, 5], 0);
    let b = PackedMessage::from_vec(vec![5, 1, 9], 1);
    let joined = strategy.merge(a, b);
    assert_eq!(joined.payload(), vec![1, 2, 5, 9]);
    assert_eq!(joined.has_work, 1);
    let none = strategy.merge(PackedMessage::from_vec(vec![], 0), PackedMessage::from_vec(vec![], 0));
    assert!(none.payload().is_empty());
    assert_eq!(none.has_work, 0);
}

#[test]
fn a_broadcast_without_work_stops_the_search() {
    let strategy = BroadcastReduceStrategy;
    let mut worker = Worker::new(PackedStripes { num_nodes: 6, num_threads: 2 }, 1);
    worker.start_trial(1);
    assert!(strategy.finish(&mut worker, &PackedMessage::from_vec(vec![], 0)));
    assert!(!strategy.finish(&mut worker, &PackedMessage::from_vec(vec![], 1)));
    assert!(!strategy.finish(&mut worker, &PackedMessage::from_vec(vec![2, 3, 4], 0)));
    assert_eq!(worker.next_frontier, vec![3]);
}

#[test]
fn nodes_are_sent_once() {
    assert_eq!(send_once(&[70, 3, 70, 3, 64], 70), vec![70, 3, 64]);
    let mut set = SentSet::new(130);
    assert!(set.insert(130));
    assert!(!set.insert(130));
    assert!(set.insert(2));
    assert_eq!(set.words.len(), 3);
}

#[test]
fn the_numa_exchange_sends_each_node_once() {
    let graph = from_text("0 3\n0 2\n0 3\n0 1");
    let mut worker = Worker::new(Blocks { num_nodes: 4, num_threads: 2 }, 0);
    worker.start_trial(0);
    let messages = AllToAllNumaStrategy.prepare(&mut worker, &graph);
    assert_eq!(messages[1].payload(), vec![3, 2]);
    assert!(messages[0].payload().is_empty());
    assert_eq!(worker.next_frontier, vec![1]);
    assert_eq!(worker.distances, vec![0, 1]);
}

#[test]
fn divisions_deal_nodes_out() {
    let stripes = Stripes { num_nodes: 10, num_threads: 3 };
    assert_eq!(stripes.owner(7), 1);
    assert_eq!(stripes.table_size(), 10);
    let packed = PackedStripes { num_nodes: 10, num_threads: 3 };
    assert_eq!(packed.owner(7), 1);
    assert_eq!(packed.slot(1, 7), 2);
    assert_eq!(packed.table_size(), 4);
    assert_eq!(packed.find_slot(0, 7), None);
    assert_eq!(packed.answered_node(1, 3), None);
    assert_eq!(packed.answered_node(0, 3), Some(9));
    let blocks = Blocks { num_nodes: 10, num_threads: 3 };
    assert_eq!(blocks.table_size(), 4);
    assert_eq!(blocks.owner(7), 1);
    assert_eq!(blocks.slot(1, 7), 3);
    assert_eq!(blocks.answered_node(2, 2), None);
    let halves = Halves::new(5);
    assert_eq!(halves.split_point, 2);
    assert_eq!(halves.owner(1), 0);
    assert_eq!(halves.owner(2), 1);
    assert_eq!(halves.answered_node(0, 2), None);
    assert_eq!(ROOT_WORKER, 0);
}

#[test]
fn delegates_mark_what_they_export() {
    let graph = from_text("0 2\n0 1\n0 3\n1 2\n2 0\n3 0");
    let mut worker = Worker::new(Halves::new(4), 0);
    delegates::start_half(&mut worker, 0);
    let mut export = delegates::expand_claiming(&mut worker, &graph);
    export.sort();
    assert_eq!(export, vec![2, 3]);
    assert_eq!(worker.next_frontier, vec![1]);
    assert_eq!(worker.distances, vec![0, 1, 1, 1]);
    worker.advance();
    assert!(delegates::expand_claiming(&mut worker, &graph).is_empty());

    let mut far = Worker::new(Halves::new(4), 1);
    delegates::start_half(&mut far, 0);
    assert!(far.distances.iter().all(|d| *d == UNVISITED));
    assert!(far.current_frontier.is_empty());
}

#[test]
fn delegates_look_before_they_export() {
    let graph = from_text("0 2\n0 1\n0 3\n0 2\n1 2\n2 0\n3 0");
    let mut worker = Worker::new(Halves::new(4), 0);
    worker.start_trial(0);
    let observed = vec![0, UNVISITED, UNVISITED, 1];
    let export = delegates::expand_observing(&mut worker, &graph, &observed);
    assert_eq!(export, vec![2]);
    assert_eq!(worker.distances, vec![0, 1, UNVISITED, UNVISITED]);
}

#[test]
fn pools_get_half_of_the_threads() {
    assert_eq!(delegates::threads_per_node(0), 1);
    assert_eq!(delegates::threads_per_node(1), 1);
    assert_eq!(delegates::threads_per_node(5), 2);
    assert_eq!(delegates::threads_per_node(64), 32);
}

#[test]
fn one_level_over_a_shared_table() {
    let graph = from_text("0 2\n0 1\n1 2\n2 0");
    let mut table = vec![0; 3];
    shared_table::reset(&mut table, 0);
    assert_eq!(table, vec![0, UNVISITED, UNVISITED]);
    let mut next = shared_table::expand_level(&graph, &mut table, &[0], 0);
    next.sort();
    assert_eq!(next, vec![1, 2]);
    assert_eq!(table, vec![0, 1, 1]);
    assert!(shared_table::expand_level(&graph, &mut table, &next, 1).is_empty());
    assert_eq!(shared_table::visited_nodes(&[0, UNVISITED, 4]), vec![(0, 0), (2, 4)]);
}

#[test]
fn a_wide_frontier_is_collected_whole() {
    let mut text = String::new();
    for leaf in 1..3000usize {
        text.push_str(&format!("0 {leaf}\n{leaf} {}\n", 3000 + leaf / 2));
    }
    let graph = from_text(&text);
    let mut search = TableSearch::new(graph.num_nodes());
    search.run_trial(&graph, 0);
    assert_eq!(search.distances, sequential_bfs(&graph, 0));
    assert_eq!(search.distances[3001], 2);
    assert_eq!(graph.node_count(), 4500);
}

#[test]
fn delegates_can_do_with_their_own_half_of_the_graph() {
    let text = b"0 3\n3 1\n1 4\n4 2\n2 5\n5 0\n3 5\n";
    let whole = Graph::from_el_file(text).unwrap();
    let partition = Halves::new(whole.num_nodes());
    let parts = [
        Graph::from_el_file_partitioned(text, 0, partition.split_point).unwrap(),
        Graph::from_el_file_partitioned(text, partition.split_point, whole.num_nodes()).unwrap(),
    ];
    for source in 0..whole.num_nodes() {
        let mut workers: Vec<_> = (0..2).map(|id| Worker::new(partition, id)).collect();
        workers.iter_mut().for_each(|w| delegates::start_half(w, source));
        loop {
            let exports: Vec<_> = (0..2usize)
                .map(|w| delegates::expand_claiming(&mut workers[w], &parts[w]))
                .collect();
            for w in 0..2usize {
                workers[w].absorb(&exports[1 - w]);
            }
            if workers.iter().all(|w| w.next_frontier.is_empty()) {
                break;
            }
            workers.iter_mut().for_each(|w| w.advance());
        }
        assert_eq!(gathered(whole.num_nodes(), &workers), sequential_bfs(&whole, source));
    }
}

#[test]
fn messages_may_be_merged_in_any_shape() {
    let strategy = BroadcastReduceStrategy;
    let messages = || {
        vec![
            PackedMessage::from_vec(vec![4, 1], 0),
            PackedMessage::from_vec(vec![], 1),
            PackedMessage::from_vec(vec![1, 9], 0),
            PackedMessage::from_vec(vec![2, 4], 0),
        ]
    };
    let in_a_row = messages().into_iter().reduce(|a, b| strategy.merge(a, b)).unwrap();
    let mut four = messages();
    let (d, c) = (four.pop().unwrap(), four.pop().unwrap());
    let (b, a) = (four.pop().unwrap(), four.pop().unwrap());
    let as_a_tree = strategy.merge(strategy.merge(a, b), strategy.merge(c, d));
    assert_eq!(in_a_row.payload(), vec![1, 2, 4, 9]);
    assert_eq!(as_a_tree.payload(), in_a_row.payload());
    assert_eq!(as_a_tree.has_work, in_a_row.has_work);
    assert_eq!(in_a_row.has_work, 1);
}

#[test]
fn taking_messages_one_by_one_or_at_once_is_the_same() {
    let partition = Stripes { num_nodes: 8, num_threads: 2 };
    let mut one_by_one = Worker::new(partition, 0);
    let mut at_once = Worker::new(partition, 0);
    one_by_one.start_trial(0);
    at_once.start_trial(0);
    let nodes = [6, 2, 6, 0, 4, 2];
    let mut receiving = signals::Receiving::new();
    for v in nodes {
        assert!(receiving.take(&mut one_by_one, SignalMessage::Node(v)));
    }
    assert_eq!(at_once.absorb(&nodes), 3);
    assert_eq!(one_by_one.distances, at_once.distances);
    assert_eq!(one_by_one.next_frontier, vec![6, 2, 4]);
    assert_eq!(at_once.next_frontier, vec![6, 2, 4]);
}

#[test]
fn a_search_is_over_after_as_many_levels_as_there_are_nodes() {
    let graph = Graph::new_grid(1, 5);
    let partition = Stripes { num_nodes: 5, num_threads: 2 };
    let mut workers = started(partition, 2, 0);
    for level in 0..6usize {
        let sent: Vec<_> =
            workers.iter_mut().map(|w| all_to_all::prepare(w, &graph)).collect();
        let mut any = false;
        for (w, worker) in workers.iter_mut().enumerate() {
            let inbox = sent.iter().map(|messages| messages[w].clone()).collect();
            any = all_to_all::collect(worker, inbox);
        }
        assert_eq!(any, level < 5);
        workers.iter_mut().for_each(|w| w.advance());
    }
}

#[test]
fn shares_of_nodes_that_belong_together_are_dealt_in_order() {
    let partition = Stripes { num_nodes: 10, num_threads: 3 };
    let chunks = deal(&partition, 3, &[7, 3, 1, 0, 7, 5]);
    assert_eq!(chunks, vec![vec![3, 0], vec![7, 1, 7], vec![5]]);
}

#[test]
fn nodes_of_a_broadcast_are_taken_by_their_owner() {
    let partition = Stripes { num_nodes: 9, num_threads: 3 };
    let mut worker = Worker::new(partition, 1);
    worker.start_trial(4);
    assert_eq!(worker.absorb_own(&[0, 1, 2, 4, 7, 1]), 2);
    assert_eq!(worker.next_frontier, vec![1, 7]);
    assert!(frontier_reduce::finish(&mut worker, &FrontierMessage(vec![])));
    assert!(!frontier_reduce::finish(&mut worker, &FrontierMessage(vec![3])));
    assert_eq!(worker.next_frontier, vec![1, 7]);
}

#[test]
fn workers_that_take_turns_search_a_grid() {
    let graph = burst_bfs::graph::adjacency::Graph::new_grid(3, 3);
    assert_eq!(run_bfs_iteration(4, &graph, 0, 9), vec![0, 1, 2, 1, 2, 3, 2, 3, 4]);
    assert_eq!(run_bfs_iteration(1, &graph, 4, 9), vec![2, 1, 2, 1, 0, 1, 2, 1, 2]);
}

#[test]
fn each_delegate_needs_the_rows_of_its_half_only() {
    let text = b"0 5\n5 1\n1 4\n4 2\n2 3\n3 0\n0 1";
    let whole = Graph::from_el_file(text).unwrap();
    let lower = Graph::from_el_file_partitioned(text, 0, 3).unwrap();
    let upper = Graph::from_el_file_partitioned(text, 3, 6).unwrap();
    assert_eq!(lower.get_neighbors(5), &[] as &[usize]);
    for source in 0..6usize {
        let expected = sequential_bfs(&whole, source);
        let run = run_independent_mode(&lower, &upper, 6, &[source]);
        assert_eq!(run.local_distances, shared_table::visited_nodes(&expected));
    }
    let run = run_independent_mode(&lower, &upper, 6, &[0]);
    assert_eq!(run.local_distances, vec![(0, 0), (1, 1), (2, 3), (3, 4), (4, 2), (5, 1)]);
}

#[test]
fn a_run_of_two_delegates_tells_its_moments() {
    let graph = from_text("0 1\n1 2\n2 0");
    let expected = vec![
        "worker_start",
        "graph_generated",
        "trial_0_start",
        "trial_0_iter_0_compute",
        "trial_0_iter_0_crossbeam",
        "trial_0_iter_0_process",
        "trial_0_iter_1_compute",
        "trial_0_iter_1_crossbeam",
        "trial_0_iter_1_process",
        "trial_0_iter_2_compute",
        "trial_0_iter_2_crossbeam",
        "trial_0_iter_2_process",
        "trial_0_end",
        "worker_end",
    ];
    assert_eq!(run_independent_mode(&graph, &graph, 3, &[1]).keys, expected);
    assert_eq!(run_monolithic_mode(&graph, 3, &[1]).keys, expected);
    let lone = from_text("1 0");
    let run = run_monolithic_mode(&lone, 2, &[0, 1]);
    assert_eq!(run.levels, vec![1, 2]);
    assert_eq!(run.local_distances, vec![(0, 0)]);
    assert_eq!(run.keys[6], "trial_0_end");
    assert_eq!(run.keys[7], "trial_1_start");
    let none = run_independent_mode(&lone, &lone, 2, &[]);
    assert_eq!(none.keys, vec!["worker_start", "graph_generated", "worker_end"]);
    assert!(none.local_distances.is_empty());
}

#[test]
fn searches_of_delegates_pass_by_rows_that_they_do_not_meet() {
    let graph = Graph { offsets: vec![0, 1, 2, 9], edges: vec![1, 0] };
    assert!(!graph.is_well_formed());
    assert!(graph.is_usable_from(0));
    assert!(graph.is_usable_from(1));
    assert!(!graph.is_usable_from(2));
    assert!(!graph.is_usable_from(3));
    assert_eq!(run_monolithic_mode(&graph, 3, &[0]).local_distances, vec![(0, 0), (1, 1)]);
    let run = run_independent_mode(&graph, &graph, 3, &[1]);
    assert_eq!(run.local_distances, vec![(0, 1), (1, 0)]);
    assert!(is_expandable(&graph, 3, &[0, 1]));
    assert!(!is_expandable(&graph, 1, &[0]));
    assert!(!is_expandable(&graph, 3, &[0, 2]));
    assert!(!is_expandable(&graph, 3, &[3]));
}

#[test]
fn a_search_over_a_grid_tells_its_moments() {
    for (rows, cols, source) in [(2usize, 3usize, 0usize), (3, 4, 5), (1, 1, 0), (5, 1, 2)] {
        let found = grid_bfs(&Input { rows, cols, num_threads: 3, source });
        let (r, c) = (source / cols, source % cols);
        let reach = r.max(rows - 1 - r) + c.max(cols - 1 - c);
        assert_eq!(found.levels, reach + 1);
        assert_eq!(found.keys.len(), 2 * (reach + 1) + 3);
        for level in 0..=reach {
            assert_eq!(found.keys[2 + 2 * level], format!("iter_{level}_sync"));
            assert_eq!(found.keys[3 + 2 * level], format!("iter_{level}_end"));
        }
        assert_eq!(found.keys[0], "worker_start");
        assert_eq!(found.keys[1], "graph_generated");
        assert_eq!(found.keys[2 * (reach + 1) + 2], "worker_end");
        for (v, d) in found.distances.iter().enumerate() {
            assert_eq!(*d, r.abs_diff(v / cols) + c.abs_diff(v % cols));
        }
    }
}

#[test]
fn without_workers_there_is_no_table() {
    let graph = Graph::new_grid(2, 2);
    assert!(run_bfs_iteration(0, &graph, 3, 4).is_empty());
}

#[test]
fn a_table_search_stops_where_nothing_is_found() {
    let graph = from_text("0 1\n0 2\n1 2\n3 0");
    let mut search = TableSearch::new(4);
    assert!(search.over);
    search.start(0);
    assert!(!search.over);
    assert_eq!(search.step(&graph), 2);
    assert_eq!(search.level, 1);
    assert_eq!(search.step(&graph), 0);
    assert!(search.over);
    assert_eq!(search.level, 1);
    assert_eq!(search.distances, vec![0, 1, 1, UNVISITED]);
    search.start(3);
    assert_eq!(search.distances, vec![UNVISITED, UNVISITED, UNVISITED, 0]);
    assert_eq!(search.frontier, vec![3]);
}

#[test]
fn merging_in_either_order_gives_the_same_bytes() {
    let a = PackedMessage::from_vec(vec![9, 2, 2], 2);
    let b = PackedMessage::from_vec(vec![4, 9], 1);
    let strategy = BroadcastReduceStrategy;
    let ab = strategy.merge(a.clone(), b.clone());
    let ba = strategy.merge(b, a);
    assert_eq!(ab.nodes, ba.nodes);
    assert_eq!(ab.has_work, 3);
    assert_eq!(over_the_wire(&ba).has_work, 3);
    assert_eq!(ab.nodes, PackedMessage::from_vec(vec![2, 4, 9], 3).nodes);
}

#[test]
fn the_moments_of_a_level_come_in_order() {
    let mut steps = Steps::new(Some(3), Pattern::Reduction);
    assert!(!steps.next_level());
    assert_eq!(steps.end_phase(), Some(String::from("trial_3_iter_0_compute")));
    assert_eq!(steps.end_phase(), Some(String::from("trial_3_iter_0_reduce")));
    assert_eq!(steps.end_phase(), Some(String::from("trial_3_iter_0_broadcast")));
    assert_eq!(steps.end_phase(), None);
    assert!(steps.next_level());
    assert_eq!(steps.end_phase(), Some(String::from("trial_3_iter_1_compute")));
    let mut single = Steps::new(None, Pattern::SharedTable);
    assert_eq!(single.end_phase(), Some(String::from("iter_0_compute")));
    assert_eq!(single.end_phase(), Some(String::from("iter_0_process")));
    assert_eq!(single.end_phase(), None);
    let mut exchange = Steps::new(None, Pattern::Exchange);
    exchange.end_phase();
    assert_eq!(exchange.end_phase(), Some(String::from("iter_0_alltoall")));
}

#[test]
fn runs_over_trials_tell_their_moments_and_answers() {
    let graph = from_text("0 1\n1 2\n2 0\n3 0");
    let sources = [1usize, 3];
    let expected = sequential_bfs(&graph, 1);
    for threads in [1u32, 2, 3] {
        let runs = [
            (all_to_all::bfs(threads, &graph, &sources), ["compute", "alltoall", "process"]),
            (
                AllToAllNumaStrategy.execute(threads, &graph, &sources),
                ["compute", "alltoall", "process"],
            ),
            (
                BroadcastReduceStrategy.execute(threads, &graph, &sources),
                ["compute", "reduce", "broadcast"],
            ),
        ];
        for (run, phases) in runs {
            let mut keys = vec![String::from("worker_start"), String::from("graph_generated")];
            assert_eq!(run.levels.len(), 2);
            for (trial, levels) in run.levels.iter().enumerate() {
                keys.push(format!("trial_{trial}_start"));
                for level in 0..*levels {
                    for phase in phases {
                        keys.push(format!("trial_{trial}_iter_{level}_{phase}"));
                    }
                }
                keys.push(format!("trial_{trial}_end"));
            }
            keys.push(String::from("worker_end"));
            assert_eq!(run.keys, keys);
            let mut pairs: Vec<_> = run.lists.concat();
            pairs.sort();
            assert_eq!(pairs, shared_table::visited_nodes(&expected));
        }
    }
    // Alone, a worker stops when it finds nothing. With a second one it goes on for a node of
    // the other that it meets again.
    assert_eq!(all_to_all::bfs(1, &graph, &sources).levels, vec![3, 4]);
    assert_eq!(all_to_all::bfs(2, &graph, &sources).levels, vec![4, 4]);
    let none = all_to_all::bfs(2, &graph, &[]);
    assert_eq!(none.keys, vec!["worker_start", "graph_generated", "worker_end"]);
    assert_eq!(none.lists, vec![vec![], vec![]]);
}

#[test]
fn frontiers_over_a_grid_tell_their_moments() {
    let found = frontier_reduce::bfs(&Input { rows: 2, cols: 2, num_threads: 1, source: 0 });
    assert_eq!(found.distances, vec![0, 1, 1, 2]);
    assert_eq!(found.levels, 3);
    assert_eq!(found.keys.len(), 3 * 3 + 3);
    assert_eq!(found.keys[2], "iter_0_compute");
    assert_eq!(found.keys[3], "iter_0_reduce");
    assert_eq!(found.keys[4], "iter_0_broadcast");
    assert_eq!(found.keys[11], "worker_end");
    assert_eq!(found.lists, vec![vec![(0, 0), (1, 1), (2, 1), (3, 2)]]);
}

use burst_bfs::graph::csr::Graph;
use burst_bfs::groups::{group_ranges, num_groups};
use burst_bfs::model::UNVISITED;
use burst_bfs::params::single;
use burst_bfs::params::trials::{comm_mode, Input, Output};
use burst_bfs::partition::{Halves, Stripes};
use burst_bfs::sequential::sequential_bfs;
use burst_bfs::session::Session;
use burst_bfs::sources::{pick_any, pick_source, pick_sources};
use burst_bfs::strategies::all_to_all::{collect, prepare};
use burst_bfs::validator::{merge_outputs, reachable_nodes, validate, Mismatch, Verdict, SHOWN};
use rand::rngs::StdRng;
use rand::{Rng, SeedableRng};

fn output(worker_id: u32, local_distances: Vec<(usize, usize)>) -> Output {
    Output { worker_id, timestamps: vec![], local_distances }
}

#[test]
fn sources_are_what_the_generator_draws() {
    let graph = Graph::from_el_file(b"0 1\n2 3\n5 6\n6 2\n9 0").unwrap();
    let seed = 27491095u64;
    let mut rng = StdRng::seed_from_u64(seed);
    let mut expected = Vec::new();
    while expected.len() < 8 {
        let u = (rng.next_u64() as usize) % 10;
        if graph.degree(u) > 0 {
            expected.push(u);
        }
    }
    assert_eq!(pick_sources(&graph, 8, seed, usize::MAX), Some(expected.clone()));
    assert_eq!(pick_source(&graph, seed, usize::MAX), Some(expected[0]));
    assert_eq!(pick_sources(&graph, 0, seed, 0), Some(vec![]));
    assert_eq!(pick_sources(&graph, 1, seed, 0), None);
}

#[test]
fn without_neighbors_there_is_no_source() {
    let graph = Graph::from_el_file(b"").unwrap();
    assert_eq!(pick_sources(&graph, 1, 7, 1000), None);
    assert_eq!(pick_source(&graph, 7, 1000), None);
}

#[test]
fn the_same_seed_gives_the_same_sources() {
    let graph = Graph::new_grid(10, 10);
    let a = pick_sources(&graph, 64, 1, usize::MAX);
    assert_eq!(a, pick_sources(&graph, 64, 1, usize::MAX));
    assert_ne!(a, pick_sources(&graph, 64, 2, usize::MAX));
    assert_eq!(a, Some(pick_any(100, 64, 1)));
    let mut rng = StdRng::seed_from_u64(5);
    let drawn: Vec<usize> = (0..3).map(|_| (rng.next_u64() as usize) % 7).collect();
    assert_eq!(pick_any(7, 3, 5), drawn);
}

#[test]
fn groups_have_equal_size() {
    assert_eq!(num_groups(12, 4), Some(3));
    assert_eq!(num_groups(12, 5), None);
    assert_eq!(num_groups(12, 0), None);
    assert_eq!(num_groups(0, 5), Some(0));
    let ranges = group_ranges(6, 2).unwrap();
    assert_eq!(
        ranges,
        vec![
            (String::from("0"), vec![0, 1]),
            (String::from("1"), vec![2, 3]),
            (String::from("2"), vec![4, 5]),
        ]
    );
    assert_eq!(group_ranges(5, 2), None);
    for worker in 0..6u32 {
        let groups: Vec<_> = ranges.iter().filter(|(_, w)| w.contains(&worker)).collect();
        assert_eq!(groups.len(), 1);
        assert_eq!(groups[0].0, (worker / 2).to_string());
    }
}

#[test]
fn outputs_are_merged_and_later_ones_count() {
    let merged = merge_outputs(&vec![
        output(0, vec![(0, 0), (2, 5)]),
        output(1, vec![(1, 1), (2, 2)]),
    ]);
    assert_eq!(merged.len(), 3);
    assert_eq!(merged[&2], 2);
}

#[test]
fn results_are_held_against_the_expected_ones() {
    let expected = vec![0, 1, UNVISITED, 2];
    assert_eq!(reachable_nodes(&expected), 3);
    let same = merge_outputs(&vec![output(0, vec![(0, 0), (1, 1)]), output(1, vec![(3, 2)])]);
    assert_eq!(validate(&expected, &same), Verdict::Same);
    let fewer = merge_outputs(&vec![output(0, vec![(0, 0), (1, 1)])]);
    assert_eq!(validate(&expected, &fewer), Verdict::WrongCount { found: 2, expected: 3 });
    let stranger = merge_outputs(&vec![output(0, vec![(0, 0), (1, 1), (4, 2)])]);
    assert_eq!(validate(&expected, &stranger), Verdict::UnknownNode);
    let wrong = merge_outputs(&vec![output(0, vec![(0, 0), (1, 2), (2, 2)])]);
    assert_eq!(
        validate(&expected, &wrong),
        Verdict::WrongDistances(vec![
            Mismatch { node: 1, expected: 1, found: 2 },
            Mismatch { node: 2, expected: UNVISITED, found: 2 },
        ])
    );
}

#[test]
fn only_the_first_differences_are_told() {
    let expected = vec![1; 30];
    let pairs: Vec<(usize, usize)> = (0..30).map(|v| (v, 2)).collect();
    match validate(&expected, &merge_outputs(&vec![output(0, pairs)])) {
        Verdict::WrongDistances(wrong) => {
            assert_eq!(wrong.len(), SHOWN);
            assert_eq!(wrong[10].node, 10);
        }
        other => panic!("{other:?}"),
    }
}

#[test]
fn a_session_goes_through_its_trials() {
    let graph = Graph::new_grid(3, 3);
    let partition = Stripes { num_nodes: 9, num_threads: 2 };
    let sources = vec![4, 0];
    let mut sessions: Vec<_> =
        (0..2u32).map(|id| Session::new(partition, id, sources.clone())).collect();
    let mut trials = 0usize;
    while sessions[0].begin_trial().is_some() {
        assert_eq!(sessions[1].begin_trial(), Some(trials));
        loop {
            let sent: Vec<_> =
                sessions.iter_mut().map(|s| prepare(&mut s.worker, &graph)).collect();
            let mut stop = false;
            for (w, session) in sessions.iter_mut().enumerate() {
                let inbox = sent.iter().map(|m| m[w].clone()).collect();
                stop = !collect(&mut session.worker, inbox);
                session.end_level(stop);
            }
            if stop {
                break;
            }
        }
        trials += 1;
    }
    assert_eq!(trials, 2);
    assert_eq!(sessions[1].begin_trial(), None);
    let outputs: Vec<Output> = sessions
        .into_iter()
        .map(|s| output(s.worker.worker_id, s.local_distances))
        .collect();
    let expected = sequential_bfs(&graph, 4);
    assert_eq!(validate(&expected, &merge_outputs(&outputs)), Verdict::Same);
}

#[test]
fn a_half_session_starts_with_its_own_source_only() {
    let mut session = Session::new(Halves::new(6), 1, vec![0, 5]);
    assert_eq!(session.begin_half_trial(), Some(0));
    assert!(session.worker.current_frontier.is_empty());
    assert_eq!(session.worker.distances[0], UNVISITED);
    assert_eq!(session.begin_half_trial(), Some(1));
    assert_eq!(session.worker.current_frontier, vec![5]);
    assert_eq!(session.worker.distances[5], 0);
    assert_eq!(session.begin_half_trial(), None);
}

#[test]
fn parameters_are_copied_whole() {
    let input = Input {
        rows: 2,
        cols: 3,
        num_threads: 4,
        sources: vec![1, 2],
        graph_load_start: String::from("1"),
        graph_generated: String::from("2"),
        comm_mode: String::from(comm_mode(true)),
    };
    assert_eq!(input.clone(), input);
    assert_eq!(input.comm_mode, "all-to-all-numa");
    assert_eq!(comm_mode(false), "all-to-all");
    let one = single::Input { rows: 3, cols: 5, num_threads: 1, source: 0 };
    assert_eq!(one.num_nodes(), Some(15));
    let huge = single::Input { rows: usize::MAX, cols: 2, num_threads: 1, source: 0 };
    assert_eq!(huge.num_nodes(), None);
}

use burst_bfs::graph::csr::Graph;
use burst_bfs::numa::cpulist::{known_cpus, other_node, parse_cpulist, thread_cpus, thread_node};
use burst_bfs::numa::divided::DividedNumaPolicy;
use burst_bfs::numa::monolithic::MonolithicNumaPolicy;
use burst_bfs::numa::pages::{bump_pages, bump_whole_pages, touch_pages};
use burst_bfs::numa::{
    bind_bytes, bind_words, cpulist_path, node_mask, Addresses, Binding, NumaPolicy, PAGE,
};

#[test]
fn lists_of_processors() {
    assert_eq!(parse_cpulist("0-3,8\n"), vec![0, 1, 2, 3, 8]);
    assert_eq!(parse_cpulist(" 5 "), vec![5]);
    assert_eq!(parse_cpulist(""), Vec::<usize>::new());
    assert_eq!(parse_cpulist("3-1,x,1-2-3,4-,7"), vec![7]);
    assert_eq!(parse_cpulist("1, 2"), vec![1]);
    assert_eq!(parse_cpulist("+1-+2"), vec![1, 2]);
    assert_eq!(known_cpus("\n"), None);
    assert_eq!(known_cpus("2-2"), Some(vec![2]));
}

#[test]
fn requests_begin_with_a_page() {
    let binding = bind_bytes(10 * PAGE + 24, 100, 1);
    assert_eq!(binding, Binding { start: 10 * PAGE, bytes: 124, node: 1 });
    let binding = bind_words(3 * PAGE, 5, 0);
    assert_eq!(binding, Binding { start: 3 * PAGE, bytes: 5 * 8, node: 0 });
}

#[test]
fn all_memory_goes_to_one_node() {
    let graph = Graph::new_grid(2, 2);
    let at = Addresses { offsets: 5 * PAGE + 16, edges: 9 * PAGE, distances: Some(12 * PAGE) };
    let plan = MonolithicNumaPolicy.apply_memory_policy(&graph, at, 4);
    assert_eq!(
        plan,
        vec![
            Binding { start: 5 * PAGE, bytes: 5 * 8 + 16, node: 0 },
            Binding { start: 9 * PAGE, bytes: 8 * 8, node: 0 },
        ]
    );
    let bare = Graph { offsets: vec![0, 0], edges: vec![] };
    assert_eq!(MonolithicNumaPolicy.apply_memory_policy(&bare, at, 1).len(), 1);
}

#[test]
fn memory_is_divided_between_two_nodes() {
    let graph = Graph::new_grid(2, 2);
    let at = Addresses { offsets: 5 * PAGE + 16, edges: 9 * PAGE, distances: Some(12 * PAGE) };
    let plan = DividedNumaPolicy.apply_memory_policy(&graph, at, 5);
    assert_eq!(
        plan,
        vec![
            Binding { start: 5 * PAGE, bytes: 2 * 8 + 16, node: 0 },
            Binding { start: 5 * PAGE, bytes: 3 * 8 + 32, node: 1 },
            Binding { start: 9 * PAGE, bytes: 4 * 8, node: 0 },
            Binding { start: 9 * PAGE, bytes: 4 * 8 + 32, node: 1 },
            Binding { start: 12 * PAGE, bytes: 2 * 8, node: 0 },
            Binding { start: 12 * PAGE, bytes: 3 * 8 + 16, node: 1 },
        ]
    );
    let before_tables = Addresses { distances: None, ..at };
    let bare = DividedNumaPolicy.apply_memory_policy(&graph, before_tables, 0);
    assert_eq!(bare, plan[..4]);
    assert!(DividedNumaPolicy.can_place(&graph));
    assert!(!DividedNumaPolicy.can_place(&Graph { offsets: vec![], edges: vec![] }));
    assert!(!DividedNumaPolicy.can_place(&Graph { offsets: vec![3], edges: vec![0] }));
    assert!(MonolithicNumaPolicy.can_place(&Graph { offsets: vec![], edges: vec![] }));
    for pair in plan.chunks(2) {
        assert!(pair[1].start <= pair[0].start + pair[0].bytes);
    }
}

#[test]
fn threads_go_to_the_nodes_in_turn() {
    for id in 0..6u32 {
        assert_eq!(MonolithicNumaPolicy.apply_thread_policy(id), id % 2);
        assert_eq!(DividedNumaPolicy.apply_thread_policy(id), id % 2);
    }
    assert_eq!(node_mask(0), 1);
    assert_eq!(node_mask(1), 2);
    assert_eq!(node_mask(63), 1 << 63);
    assert_eq!(cpulist_path(12), "/sys/devices/system/node/node12/cpulist");
    assert_eq!(other_node(0), 1);
    assert_eq!(other_node(1), 0);
    assert_eq!(other_node(5), 0);
    assert_eq!(thread_node(0), 0);
    assert_eq!(thread_node(3), 1);
}

#[test]
fn threads_are_bound_to_processors() {
    let cpus = vec![4, 5, 6];
    let other = Some(vec![9, 10]);
    assert_eq!(thread_cpus(false, 0, &cpus, &None), vec![4, 5, 6]);
    assert_eq!(thread_cpus(false, 1, &cpus, &other), vec![4, 5, 6]);
    assert_eq!(thread_cpus(true, 0, &cpus, &other), vec![4]);
    assert_eq!(thread_cpus(true, 1, &cpus, &other), vec![9]);
    assert_eq!(thread_cpus(true, 1, &cpus, &None), vec![4]);
}

#[test]
fn every_page_is_written_to() {
    let mut block = vec![0u8; 2 * PAGE + 10];
    touch_pages(&mut block, 1);
    assert_eq!(block[0], 1);
    assert_eq!(block[PAGE], 1);
    assert_eq!(block[2 * PAGE], 1);
    assert_eq!(block.iter().map(|b| *b as usize).sum::<usize>(), 3);
    block[0] = 255;
    bump_pages(&mut block);
    assert_eq!((block[0], block[PAGE], block[2 * PAGE]), (0, 2, 2));
    bump_whole_pages(&mut block);
    assert_eq!((block[0], block[PAGE], block[2 * PAGE]), (1, 3, 2));
    assert_eq!(block.iter().map(|b| *b as usize).sum::<usize>(), 6);
    let mut none: Vec<u8> = vec![];
    touch_pages(&mut none, 1);
    bump_whole_pages(&mut none);
    assert!(none.is_empty());
}

use burst_bfs::graph::csr::Graph as CsrGraph;
use burst_bfs::graph::adjacency::Graph as ListGraph;
use burst_bfs::graph::error::GraphError;
use burst_bfs::graph::path::is_sg;
use burst_bfs::graph::NeighborLists;
use burst_bfs::words::{i32_le, u64_le};
use std::path::Path;

fn rows(graph: &CsrGraph) -> Vec<Vec<usize>> {
    (0..graph.num_nodes()).map(|u| graph.get_neighbors(u).to_vec()).collect()
}

fn sg_file(num_edges: u64, num_nodes: u64, offsets: &[u64], destinations: &[i32]) -> Vec<u8> {
    let mut data = vec![0u8];
    data.extend_from_slice(&num_edges.to_le_bytes());
    data.extend_from_slice(&num_nodes.to_le_bytes());
    for o in offsets {
        data.extend_from_slice(&o.to_le_bytes());
    }
    for d in destinations {
        data.extend_from_slice(&d.to_le_bytes());
    }
    data
}

#[test]
fn grid_rows_are_up_down_left_right() {
    let graph = CsrGraph::new_grid(3, 3);
    assert_eq!(graph.num_nodes(), 9);
    assert_eq!(graph.get_neighbors(4), &[1, 7, 3, 5]);
    assert_eq!(graph.get_neighbors(0), &[3, 1]);
    assert_eq!(graph.get_neighbors(8), &[5, 7]);
    assert_eq!(graph.degree(1), 3);
    assert_eq!(graph.offsets.len(), 10);
    assert_eq!(graph.edges.len(), 24);
    assert!(graph.is_well_formed());
}

#[test]
fn both_grids_have_the_same_rows() {
    for (rows_, cols) in [(1usize, 1usize), (1, 5), (4, 1), (3, 4), (0, 7), (7, 0)] {
        let csr = CsrGraph::new_grid(rows_, cols);
        let lists = ListGraph::new_grid(rows_, cols);
        assert_eq!(csr.num_nodes(), rows_ * cols);
        assert_eq!(lists.node_count(), rows_ * cols);
        assert_eq!(rows(&csr), lists.adj);
    }
}

#[test]
fn grid_edges_go_both_ways() {
    let graph = CsrGraph::new_grid(3, 5);
    for u in 0..15usize {
        for &v in graph.get_neighbors(u) {
            assert!(graph.get_neighbors(v).contains(&u));
            let apart = (u / 5).abs_diff(v / 5) + (u % 5).abs_diff(v % 5);
            assert_eq!(apart, 1);
        }
    }
}

#[test]
fn an_empty_graph_has_no_nodes() {
    let graph = CsrGraph { offsets: vec![], edges: vec![] };
    assert_eq!(graph.num_nodes(), 0);
    assert!(graph.is_well_formed());
}

#[test]
fn a_clone_of_a_graph_has_the_same_rows() {
    let graph = CsrGraph::new_grid(2, 3);
    let copy = graph.clone();
    assert_eq!(copy.offsets, graph.offsets);
    assert_eq!(copy.edges, graph.edges);
}

#[test]
fn edge_lists_keep_the_order_of_lines() {
    let text = b"# a comment\n% another\n0 3\n\n2 1 extra words\n0 1\r\n   \t\n+2 0\n0 2";
    let graph = CsrGraph::from_el_file(text).unwrap();
    assert_eq!(rows(&graph), vec![vec![3, 1, 2], vec![], vec![1, 0], vec![]]);
    let lists = ListGraph::from_el_file(text).unwrap();
    assert_eq!(lists.adj, rows(&graph));
    assert!(graph.is_well_formed());
}

#[test]
fn lines_without_two_numbers_are_passed_over() {
    let text = b"1\n-1 2\n1 x\n# 5 6\n 7 8\n99999999999999999999999 1\n+ 1\n";
    let graph = CsrGraph::from_el_file(text).unwrap();
    assert_eq!(graph.num_nodes(), 9);
    assert_eq!(graph.get_neighbors(7), &[8]);
    assert_eq!(graph.edges.len(), 1);
}

#[test]
fn a_comment_sign_counts_only_at_the_start_of_a_line() {
    let graph = CsrGraph::from_el_file(b" # 1\n %\n0 1").unwrap();
    assert_eq!(rows(&graph), vec![vec![1], vec![]]);
}

#[test]
fn unicode_blanks_separate_numbers() {
    let graph = CsrGraph::from_el_file("0\u{3000}2\n1\u{a0}0".as_bytes()).unwrap();
    assert_eq!(rows(&graph), vec![vec![2], vec![0], vec![]]);
}

#[test]
fn an_edge_list_without_edges_has_one_node() {
    let graph = CsrGraph::from_el_file(b"").unwrap();
    assert_eq!(rows(&graph), vec![Vec::<usize>::new()]);
    let lists = ListGraph::from_el_file(b"# nothing\n").unwrap();
    assert_eq!(lists.adj, vec![Vec::<usize>::new()]);
}

#[test]
fn bytes_that_are_no_text_are_refused() {
    assert_eq!(CsrGraph::from_el_file(&[0x30, 0xFF]).err(), Some(GraphError::NotText));
    assert_eq!(ListGraph::from_el_file(&[0x30, 0xC3]).err(), Some(GraphError::NotText));
    assert_eq!(
        CsrGraph::from_el_file_partitioned(&[0xFF], 0, 1).err(),
        Some(GraphError::NotText)
    );
}

#[test]
fn node_numbers_at_the_limit_are_refused() {
    let text = format!("0 {}", usize::MAX);
    assert_eq!(CsrGraph::from_el_file(text.as_bytes()).err(), Some(GraphError::TooManyNodes));
    assert_eq!(ListGraph::from_el_file(text.as_bytes()).err(), Some(GraphError::TooManyNodes));
    let text = format!("{} 0", usize::MAX - 1);
    assert_eq!(CsrGraph::from_el_file(text.as_bytes()).err(), Some(GraphError::TooManyNodes));
}

#[test]
fn a_part_of_an_edge_list_has_the_rows_of_its_range() {
    let text = b"0 1\n3 2\n1 2\n2 9\n1 0\n";
    let whole = CsrGraph::from_el_file(text).unwrap();
    let part = CsrGraph::from_el_file_partitioned(text, 1, 3).unwrap();
    assert_eq!(part.num_nodes(), 10);
    for u in 0..10usize {
        if u >= 1 && u < 3 {
            assert_eq!(part.get_neighbors(u), whole.get_neighbors(u));
        } else {
            assert!(part.get_neighbors(u).is_empty());
        }
    }
}

#[test]
fn binary_files_are_read_as_they_are() {
    let data = sg_file(4, 3, &[0, 2, 3, 4], &[1, 2, 0, 1]);
    let graph = CsrGraph::from_sg_file(&data).unwrap();
    assert_eq!(graph.offsets, vec![0, 2, 3, 4]);
    assert_eq!(graph.edges, vec![1, 2, 0, 1]);
    let lists = ListGraph::from_sg_file(&data).unwrap();
    assert_eq!(lists.adj, vec![vec![1, 2], vec![0], vec![1]]);
}

#[test]
fn negative_destinations_wrap_around() {
    let data = sg_file(1, 1, &[0, 1], &[-1]);
    let graph = CsrGraph::from_sg_file(&data).unwrap();
    assert_eq!(graph.edges, vec![-1i32 as usize]);
    assert!(!graph.is_well_formed());
    let lists = ListGraph::from_sg_file(&data).unwrap();
    assert_eq!(lists.adj, vec![vec![-1i32 as usize]]);
}

#[test]
fn a_binary_file_may_have_bytes_left_over() {
    let mut data = sg_file(1, 2, &[0, 1, 1], &[1]);
    data.extend_from_slice(&[9, 9, 9]);
    assert_eq!(CsrGraph::from_sg_file(&data).unwrap().edges, vec![1]);
    assert_eq!(ListGraph::from_sg_file(&data).unwrap().adj, vec![vec![1], vec![]]);
}

#[test]
fn cut_off_binary_files_are_refused() {
    let data = sg_file(4, 3, &[0, 2, 3, 4], &[1, 2, 0, 1]);
    let cuts = [
        (0, GraphError::NoDirectedFlag),
        (1, GraphError::NoEdgeCount),
        (8, GraphError::NoEdgeCount),
        (9, GraphError::NoNodeCount),
        (16, GraphError::NoNodeCount),
        (17, GraphError::NoOffset),
        (48, GraphError::NoOffset),
        (49, GraphError::NoDestination),
        (64, GraphError::NoDestination),
    ];
    for (len, error) in cuts {
        assert_eq!(CsrGraph::from_sg_file(&data[..len]).err(), Some(error));
        assert_eq!(ListGraph::from_sg_file(&data[..len]).err(), Some(error));
        assert_eq!(CsrGraph::from_sg_file_partitioned(&data[..len], 0, 3).err(), Some(error));
    }
    assert!(CsrGraph::from_sg_file(&data).is_ok());
}

#[test]
fn absurd_node_counts_are_refused() {
    let data = sg_file(0, u64::MAX, &[0], &[]);
    assert_eq!(CsrGraph::from_sg_file(&data).err(), Some(GraphError::TooManyNodes));
    let data = sg_file(0, u64::MAX - 1, &[0], &[]);
    assert_eq!(CsrGraph::from_sg_file(&data).err(), Some(GraphError::NoOffset));
}

#[test]
fn offsets_that_decrease_are_refused_where_lists_are_read() {
    let data = sg_file(2, 2, &[0, 2, 1], &[1, 0]);
    assert_eq!(ListGraph::from_sg_file(&data).err(), Some(GraphError::OffsetsDecrease));
    let loose = CsrGraph::from_sg_file(&data).unwrap();
    assert!(!loose.is_well_formed());
    assert_eq!(
        CsrGraph::from_sg_file_partitioned(&data, 1, 2).err(),
        Some(GraphError::OffsetsDecrease)
    );
    let dip = sg_file(4, 3, &[2, 1, 3, 4], &[0, 0, 0, 0]);
    assert_eq!(
        CsrGraph::from_sg_file_partitioned(&dip, 0, 3).err(),
        Some(GraphError::OffsetsDecrease)
    );
}

#[test]
fn offsets_too_large_to_skip_are_refused() {
    let huge = (usize::MAX / 4) as u64 + 1;
    let data = sg_file(0, 1, &[huge, huge], &[]);
    assert_eq!(
        CsrGraph::from_sg_file_partitioned(&data, 0, 1).err(),
        Some(GraphError::TooManyEdges)
    );
}

#[test]
fn lists_of_a_binary_file_start_with_the_first_destination() {
    let data = sg_file(2, 2, &[5, 6, 7], &[1, 0]);
    let lists = ListGraph::from_sg_file(&data).unwrap();
    assert_eq!(lists.adj, vec![vec![1], vec![0]]);
}

#[test]
fn a_part_of_a_binary_file_has_the_rows_of_its_range() {
    let data = sg_file(6, 4, &[0, 2, 3, 5, 6], &[1, 2, 0, 3, 1, 2]);
    let whole = CsrGraph::from_sg_file(&data).unwrap();
    for start in 0..6usize {
        for end in start..7usize {
            let part = CsrGraph::from_sg_file_partitioned(&data, start, end).unwrap();
            assert_eq!(part.num_nodes(), 4);
            for u in 0..4usize {
                if u >= start && u < end {
                    assert_eq!(part.get_neighbors(u), whole.get_neighbors(u));
                } else {
                    assert!(part.get_neighbors(u).is_empty());
                }
            }
        }
    }
    let part = CsrGraph::from_sg_file_partitioned(&data, 1, 3).unwrap();
    assert_eq!(part.offsets, vec![0, 0, 1, 3, 3]);
    assert_eq!(part.edges, vec![0, 3, 1]);
}

#[test]
fn an_empty_part_needs_no_destinations() {
    let data = sg_file(3, 2, &[0, 3, 3], &[]);
    let part = CsrGraph::from_sg_file_partitioned(&data, 1, 2).unwrap();
    assert_eq!(part.offsets, vec![0, 0, 0]);
    assert!(part.edges.is_empty());
    assert_eq!(
        CsrGraph::from_sg_file_partitioned(&data, 0, 1).err(),
        Some(GraphError::NoDestination)
    );
}

#[test]
fn the_name_of_a_file_tells_its_format() {
    let data = sg_file(1, 2, &[0, 1, 1], &[1]);
    assert_eq!(CsrGraph::from_file("graph.sg", &data).unwrap().edges, vec![1]);
    assert_eq!(ListGraph::from_file("graph.sg", &data).unwrap().adj, vec![vec![1], vec![]]);
    assert_eq!(rows(&CsrGraph::from_file("graph.el", b"0 1").unwrap()), vec![vec![1], vec![]]);
    assert_eq!(ListGraph::from_file("graph", b"0 1").unwrap().adj, vec![vec![1], vec![]]);
    assert_eq!(CsrGraph::from_file("graph.sg", b"").err(), Some(GraphError::NoDirectedFlag));
    assert_eq!(CsrGraph::from_file("graph.el", &[0xFF]).err(), Some(GraphError::NotText));
    let part = CsrGraph::from_file_partitioned("g.sg", &data, 1, 2).unwrap();
    assert!(part.edges.is_empty());
    let part = CsrGraph::from_file_partitioned("g.el", b"0 1\n1 0", 1, 2).unwrap();
    assert_eq!(rows(&part), vec![vec![], vec![0]]);
}

#[test]
fn file_names_are_told_apart_as_paths_are() {
    let names = [
        "a.sg", ".sg", "..sg", "a.sg/", "a.sg//", "a.sg/.", "a.sg/./", "a.sg/..", "dir/.sg",
        "dir/a.sg", "dir.sg/a", "a.sG", "a.sg.el", "a..sg", "", "/", "/.", ".", "..", "sg", "/sg",
        "a.b.sg", "x/y/z.sg/././/", "/a.sg", "...sg", "a.", "./.sg", "./a.sg", "é.sg",
    ];
    for name in names {
        let expected = Path::new(name).extension().and_then(|e| e.to_str()) == Some("sg");
        assert_eq!(is_sg(name), expected, "{name:?}");
    }
}

#[test]
fn errors_have_their_messages() {
    assert_eq!(GraphError::NotText.message(), "stream did not contain valid UTF-8");
    assert_eq!(GraphError::TooManyNodes.message(), "Too many nodes");
    assert_eq!(GraphError::NoDirectedFlag.message(), "Failed to read directed flag");
    assert_eq!(GraphError::NoEdgeCount.message(), "Failed to read num_edges");
    assert_eq!(GraphError::NoNodeCount.message(), "Failed to read num_nodes");
    assert_eq!(GraphError::NoOffset.message(), "Failed to read offset");
    assert_eq!(GraphError::OffsetsDecrease.message(), "Offsets decrease");
    assert_eq!(GraphError::TooManyEdges.message(), "Failed to skip edges");
    assert_eq!(GraphError::NoDestination.message(), "Failed to read edge destination");
}

#[test]
fn numbers_in_little_endian() {
    assert_eq!(u64_le(&[1, 2, 0, 0, 0, 0, 0, 0]), 513);
    assert_eq!(u64_le(&u64::MAX.to_le_bytes()), u64::MAX);
    assert_eq!(i32_le(&[0xFE, 0xFF, 0xFF, 0xFF]), -2);
    assert_eq!(i32_le(&i32::MIN.to_le_bytes()), i32::MIN);
    assert_eq!(i32_le(&i32::MAX.to_le_bytes()), i32::MAX);
}

#[test]
fn the_arrays_of_a_grid() {
    let graph = CsrGraph::new_grid(2, 3);
    assert_eq!(graph.offsets, vec![0, 2, 5, 7, 9, 12, 14]);
    assert_eq!(graph.edges, vec![3, 1, 4, 0, 2, 5, 1, 0, 4, 1, 3, 5, 2, 4]);
    let none = CsrGraph::new_grid(0, 5);
    assert_eq!(none.offsets, vec![0]);
    assert!(none.edges.is_empty());
    for (r, c) in [(1usize, 1usize), (1, 6), (4, 3), (5, 5)] {
        let total = CsrGraph::new_grid(r, c).edges.len();
        assert_eq!(total, 2 * (r * (c - 1) + c * (r - 1)));
        assert_eq!(total, CsrGraph::new_grid(c, r).edges.len());
    }
}

#[test]
fn the_arrays_of_an_edge_list() {
    let text = b"# c\n0 2\n\n2 1\n0 1\n% 9 9\n0 1 7\n5\na b\n-1 6\n";
    let graph = CsrGraph::from_el_file(text).unwrap();
    assert_eq!(graph.offsets, vec![0, 3, 3, 4]);
    assert_eq!(graph.edges, vec![2, 1, 1, 1]);
    let part = CsrGraph::from_el_file_partitioned(b"0 1\n1 2\n2 0\n4 1\n", 1, 3).unwrap();
    assert_eq!(part.offsets, vec![0, 0, 1, 2, 2, 2]);
    assert_eq!(part.edges, vec![2, 0]);
}

#[test]
fn the_parts_of_a_file_join() {
    let text: &[u8] = b"3 1\n0 2\n2 2\n0 4\n1 0\n3 3\n4 0";
    let binary = sg_file(5, 4, &[0, 2, 2, 3, 5], &[1, 3, 0, 2, 2]);
    for (name, data) in [("a.el", text), ("a.sg", binary.as_slice())] {
        let whole = CsrGraph::from_file(name, data).unwrap();
        let n = whole.num_nodes();
        for k in 0..=n {
            let first = CsrGraph::from_file_partitioned(name, data, 0, k).unwrap();
            let second = CsrGraph::from_file_partitioned(name, data, k, n).unwrap();
            let joined: Vec<usize> = first.edges.iter().chain(&second.edges).copied().collect();
            assert_eq!(joined, whole.edges);
            for u in 0..n {
                assert_eq!(first.degree(u) + second.degree(u), whole.degree(u));
                assert_eq!(if u < k { second.degree(u) } else { first.degree(u) }, 0);
            }
        }
        let all = CsrGraph::from_file_partitioned(name, data, 0, n).unwrap();
        assert_eq!(all.offsets, whole.offsets);
        assert_eq!(all.edges, whole.edges);
    }
}

#[test]
fn lists_that_end_before_they_begin_are_found() {
    assert!(CsrGraph { offsets: vec![0, 2, 2], edges: vec![] }.is_ordered());
    assert!(!CsrGraph { offsets: vec![0, 2, 1], edges: vec![0, 0] }.is_ordered());
    assert!(CsrGraph { offsets: vec![], edges: vec![] }.is_ordered());
}

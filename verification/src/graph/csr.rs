//! Graphs in compressed sparse row form: one array of neighbor lists, and
//! where in it each list begins.

use vstd::prelude::*;
use vstd::utf8::{decode_utf8, valid_utf8};

use super::adjacency::el_rows;
use super::counting::{edges_make_well_formed, from_edges};
use super::edge_list::{
    edges_of, highest_node, keep_range, lemma_targets_in_range, lemma_top_node, parse_edges,
    starting_in, top_node,
};
use super::error::GraphError;
use super::grid::{cell_neighbors, grid_edges, grid_rows, lemma_cell, push_neighbors};
use super::path::{is_sg, names_sg};
use super::serialized::{
    destination_room, destinations, edge_count, header_error, node_count, offsets_in,
    read_destinations, read_header,
};
use super::{lemma_walk_stays, usable_from, NeighborLists};
use crate::model::{edge, reachable, walk};

verus! {

/// Node `u` has the neighbors `edges[offsets[u]..offsets[u + 1]]`.
pub struct Graph {
    pub offsets: Vec<usize>,
    pub edges: Vec<usize>,
}

impl Clone for Graph {
    fn clone(&self) -> (copy: Self)
        ensures
            copy.offsets@ == self.offsets@,
            copy.edges@ == self.edges@,
    {
        Graph { offsets: self.offsets.clone(), edges: self.edges.clone() }
    }
}

/// What is wrong with an edge list, if anything is.
pub open spec fn el_error(data: Seq<u8>) -> Option<GraphError> {
    if !valid_utf8(data) {
        Some(GraphError::NotText)
    } else if top_node(edges_of(decode_utf8(data))) >= usize::MAX - 1 {
        Some(GraphError::TooManyNodes)
    } else {
        None
    }
}

/// The neighbor lists of an edge list, of which only those of a range of nodes are kept.
pub open spec fn el_rows_in(data: Seq<u8>, start: usize, end: usize) -> Seq<Seq<usize>> {
    Seq::new(
        el_rows(data).len(),
        |u: int|
            if start <= u < end {
                el_rows(data)[u]
            } else {
                Seq::empty()
            },
    )
}

/// What is wrong with a binary file, if anything is.
pub open spec fn sg_error(data: Seq<u8>) -> Option<GraphError> {
    match header_error(data) {
        Some(e) => Some(e),
        None => if destination_room(data) < edge_count(data) {
            Some(GraphError::NoDestination)
        } else {
            None
        },
    }
}

/// The smaller of two numbers.
pub open spec fn at_most(x: usize, limit: int) -> int {
    if x <= limit {
        x as int
    } else {
        limit
    }
}

/// What is wrong with a binary file of which the lists of a range of nodes are wanted, if
/// anything is. Only the destinations of the range are read.
pub open spec fn sg_error_in(data: Seq<u8>, start: usize, end: usize) -> Option<GraphError> {
    let offsets = offsets_in(data);
    let from = at_most(start, node_count(data) as int);
    let to = at_most(end, node_count(data) as int);
    if header_error(data) is Some {
        header_error(data)
    } else if offsets[to] < offsets[from] {
        Some(GraphError::OffsetsDecrease)
    } else if 4 * offsets[from] > usize::MAX {
        Some(GraphError::TooManyEdges)
    } else if offsets[from] < offsets[to] && destination_room(data) < offsets[to] {
        Some(GraphError::NoDestination)
    } else if exists|u: int| from <= u <= to && #[trigger] offsets[u] < offsets[from] {
        Some(GraphError::OffsetsDecrease)
    } else {
        None
    }
}

/// The offsets for the lists of a range of nodes: those before the range are empty lists at
/// the start, and those behind it empty lists at the end.
pub open spec fn offsets_within(data: Seq<u8>, start: usize, end: usize) -> Seq<usize> {
    let offsets = offsets_in(data);
    let from = at_most(start, node_count(data) as int);
    let to = at_most(end, node_count(data) as int);
    Seq::new(
        offsets.len(),
        |u: int|
            if u < from {
                0usize
            } else if u <= to {
                (offsets[u] - offsets[from]) as usize
            } else {
                (offsets[to] - offsets[from]) as usize
            },
    )
}

impl View for Graph {
    type V = Seq<Seq<usize>>;

    open spec fn view(&self) -> Seq<Seq<usize>> {
        Seq::new(
            self.node_total(),
            |u: int| self.edges@.subrange(self.offsets@[u] as int, self.offsets@[u + 1] as int),
        )
    }
}

impl Graph {
    /// One node fewer than there are offsets.
    pub open spec fn node_total(&self) -> nat {
        if self.offsets@.len() == 0 {
            0
        } else {
            (self.offsets@.len() - 1) as nat
        }
    }

    /// The two offsets of `u` cut a list out of the edge array.
    pub open spec fn row_in_bounds(&self, u: int) -> bool {
        &&& 0 <= u < self.node_total()
        &&& self.offsets@[u] <= self.offsets@[u + 1] <= self.edges@.len()
    }

    /// Every neighbor list lies inside the edge array and names nodes of the graph only.
    pub open spec fn well_formed(&self) -> bool {
        &&& forall|u: int| 0 <= u < self.node_total() ==> #[trigger] self.row_in_bounds(u)
        &&& forall|u: int, i: int|
            0 <= u < self.node_total() && 0 <= i < self@[u].len() ==> #[trigger] self@[u][i]
                < self.node_total()
    }

    /// No list ends before it begins.
    pub open spec fn ordered(&self) -> bool {
        forall|u: int|
            0 <= u < self.node_total() ==> #[trigger] self.offsets@[u] <= self.offsets@[u + 1]
    }

    /// The number of neighbors of every node.
    pub open spec fn degrees(&self) -> Seq<nat> {
        Seq::new(
            self.node_total(),
            |u: int| (self.offsets@[u + 1] - self.offsets@[u]) as nat,
        )
    }

    /// The neighbor lists fill the edge array: the first one begins at its start, and the last
    /// one ends at its end.
    pub open spec fn compact(&self) -> bool {
        &&& self.offsets@.len() == self.node_total() + 1
        &&& self.offsets@[0] == 0
        &&& self.offsets@.last() == self.edges@.len()
    }

    /// The number of nodes.
    pub fn num_nodes(&self) -> (n: usize)
        ensures
            n == self@.len(),
    {
        if self.offsets.len() == 0 {
            0
        } else {
            self.offsets.len() - 1
        }
    }

    /// The number of neighbors of `u`.
    pub fn degree(&self, u: usize) -> (d: usize)
        requires
            u < self@.len(),
            self.offsets@[u as int] <= self.offsets@[u + 1],
        ensures
            d == self.offsets@[u + 1] - self.offsets@[u as int],
            self.row_in_bounds(u as int) ==> d == self@[u as int].len(),
    {
        assert(self.offsets.len() == self@.len() + 1);
        self.offsets[u + 1] - self.offsets[u]
    }

    /// The neighbor list of `u`.
    pub fn get_neighbors(&self, u: usize) -> (list: &[usize])
        requires
            self.row_in_bounds(u as int),
        ensures
            list@ == self@[u as int],
    {
        assert(self.offsets.len() == self@.len() + 1);
        let start: usize = self.offsets[u];
        let end: usize = self.offsets[u + 1];
        vstd::slice::slice_subrange(self.edges.as_slice(), start, end)
    }

    /// Whether no list ends before it begins.
    pub fn is_ordered(&self) -> (ok: bool)
        ensures
            ok == self.ordered(),
    {
        let num_nodes: usize = self.num_nodes();
        assert(self.offsets.len() == self.offsets@.len());
        let mut u: usize = 0;
        while u < num_nodes
            invariant
                u <= num_nodes,
                num_nodes == self.node_total(),
                forall|x: int|
                    0 <= x < u ==> #[trigger] self.offsets@[x] <= self.offsets@[x + 1],
            decreases num_nodes - u,
        {
            if self.offsets[u] > self.offsets[u + 1] {
                return false;
            }
            u = u + 1;
        }
        true
    }

    /// Whether every neighbor list lies inside the edge array and names nodes of the graph
    /// only.
    pub fn is_well_formed(&self) -> (ok: bool)
        ensures
            ok == self.well_formed(),
    {
        let num_nodes: usize = self.num_nodes();
        let mut u: usize = 0;
        assert(self.offsets.len() == self.offsets@.len());
        while u < num_nodes
            invariant
                u <= num_nodes,
                num_nodes == self.node_total(),
                forall|x: int| 0 <= x < u ==> #[trigger] self.row_in_bounds(x),
                forall|x: int, i: int|
                    0 <= x < u && 0 <= i < self@[x].len() ==> #[trigger] self@[x][i] < num_nodes,
            decreases num_nodes - u,
        {
            if self.offsets[u] > self.offsets[u + 1] || self.offsets[u + 1] > self.edges.len() {
                assert(!self.row_in_bounds(u as int));
                return false;
            }
            let list = self.get_neighbors(u);
            let mut i: usize = 0;
            while i < list.len()
                invariant
                    i <= list.len(),
                    u < num_nodes,
                    num_nodes == self.node_total(),
                    list@ == self@[u as int],
                    forall|j: int| 0 <= j < i ==> #[trigger] list@[j] < num_nodes,
                decreases list.len() - i,
            {
                if list[i] >= num_nodes {
                    assert(self@[u as int][i as int] >= num_nodes);
                    return false;
                }
                i = i + 1;
            }
            u = u + 1;
        }
        true
    }

    /// Loads a graph from an edge list.
    pub fn from_el_file(contents: &[u8]) -> (graph: Result<Graph, GraphError>)
        ensures
            graph is Err <==> el_error(contents@) is Some,
            graph is Err ==> graph->Err_0 == el_error(contents@)->0,
            graph is Ok ==> graph->Ok_0@ == el_rows(contents@) && graph->Ok_0.well_formed()
                && graph->Ok_0.compact(),
    {
        let edges = match parse_edges(contents) {
            Some(edges) => edges,
            None => {
                return Err(GraphError::NotText);
            },
        };
        let max_node: usize = highest_node(edges.as_slice());
        if max_node >= usize::MAX - 1 {
            return Err(GraphError::TooManyNodes);
        }
        let num_nodes: usize = max_node + 1;
        proof {
            lemma_top_node(edges@);
        }
        let graph = from_edges(edges.as_slice(), num_nodes);
        proof {
            edges_make_well_formed(edges@, num_nodes as nat, &graph);
        }
        Ok(graph)
    }

    /// Loads the lists of a range of nodes from an edge list. The graph has all nodes, those
    /// outside the range without neighbors.
    pub fn from_el_file_partitioned(contents: &[u8], start_node: usize, end_node: usize) -> (graph:
        Result<Graph, GraphError>)
        ensures
            graph is Err <==> el_error(contents@) is Some,
            graph is Err ==> graph->Err_0 == el_error(contents@)->0,
            graph is Ok ==> graph->Ok_0@ == el_rows_in(contents@, start_node, end_node)
                && graph->Ok_0.well_formed() && graph->Ok_0.compact(),
    {
        let edges = match parse_edges(contents) {
            Some(edges) => edges,
            None => {
                return Err(GraphError::NotText);
            },
        };
        let max_node: usize = highest_node(edges.as_slice());
        if max_node >= usize::MAX - 1 {
            return Err(GraphError::TooManyNodes);
        }
        let num_nodes: usize = max_node + 1;
        let kept = keep_range(edges.as_slice(), start_node, end_node);
        proof {
            lemma_top_node(edges@);
            assert forall|i: int| 0 <= i < kept@.len() implies (#[trigger] kept@[i]).0 < num_nodes
                && kept@[i].1 < num_nodes by {
                assert(kept@.contains(kept@[i]));
                edges@.lemma_filter_contains_rev(starting_in(start_node, end_node), kept@[i]);
                let j = choose|j: int| 0 <= j < edges@.len() && edges@[j] == kept@[i];
                assert(edges@[j].0 <= max_node);
            }
        }
        let graph = from_edges(kept.as_slice(), num_nodes);
        proof {
            edges_make_well_formed(kept@, num_nodes as nat, &graph);
            assert forall|u: int| 0 <= u < num_nodes implies graph@[u] == el_rows_in(
                contents@,
                start_node,
                end_node,
            )[u] by {
                lemma_targets_in_range(edges@, start_node, end_node, u);
            }
            assert(graph@ =~= el_rows_in(contents@, start_node, end_node));
        }
        Ok(graph)
    }

    /// Loads a graph from a binary file. Offsets and destinations are taken as they are.
    pub fn from_sg_file(contents: &[u8]) -> (graph: Result<Graph, GraphError>)
        ensures
            graph is Err <==> sg_error(contents@) is Some,
            graph is Err ==> graph->Err_0 == sg_error(contents@)->0,
            graph is Ok ==> graph->Ok_0.offsets@ == offsets_in(contents@) && graph->Ok_0.edges@
                == destinations(contents@, 0, edge_count(contents@) as int),
    {
        let header = match read_header(contents) {
            Ok(header) => header,
            Err(e) => {
                return Err(e);
            },
        };
        let start: usize = header.start;
        let num_edges: usize = header.num_edges;
        assert(contents.len() == contents@.len());
        if (contents.len() - start) / 4 < num_edges {
            return Err(GraphError::NoDestination);
        }
        let edges = read_destinations(contents, start, 0, num_edges);
        Ok(Graph { offsets: header.offsets, edges })
    }

    /// Loads the lists of a range of nodes from a binary file. The graph has all nodes, those
    /// outside the range without neighbors.
    pub fn from_sg_file_partitioned(contents: &[u8], start_node: usize, end_node: usize) -> (graph:
        Result<Graph, GraphError>)
        ensures
            graph is Err <==> sg_error_in(contents@, start_node, end_node) is Some,
            graph is Err ==> graph->Err_0 == sg_error_in(contents@, start_node, end_node)->0,
            graph is Ok ==> graph->Ok_0.offsets@ == offsets_within(
                contents@,
                start_node,
                end_node,
            ) && graph->Ok_0.edges@ == destinations(
                contents@,
                offsets_in(contents@)[at_most(start_node, node_count(contents@) as int)] as int,
                offsets_in(contents@)[at_most(end_node, node_count(contents@) as int)] as int,
            ),
    {
        let header = match read_header(contents) {
            Ok(header) => header,
            Err(e) => {
                return Err(e);
            },
        };
        let offsets: Vec<usize> = header.offsets;
        let start: usize = header.start;
        let num_nodes: usize = offsets.len() - 1;
        let start_n: usize = if start_node <= num_nodes {
            start_node
        } else {
            num_nodes
        };
        let end_n: usize = if end_node <= num_nodes {
            end_node
        } else {
            num_nodes
        };
        let edges_to_skip: usize = offsets[start_n];
        if offsets[end_n] < edges_to_skip {
            return Err(GraphError::OffsetsDecrease);
        }
        let edges_to_read: usize = offsets[end_n] - edges_to_skip;
        if edges_to_skip > usize::MAX / 4 {
            return Err(GraphError::TooManyEdges);
        }
        assert(contents.len() == contents@.len());
        let room: usize = (contents.len() - start) / 4;
        if edges_to_read > 0 && room < offsets[end_n] {
            return Err(GraphError::NoDestination);
        }
        let mut new_offsets: Vec<usize> = Vec::with_capacity(num_nodes + 1);
        let ghost wanted = offsets_within(contents@, start_node, end_node);
        let mut u: usize = 0;
        while u < num_nodes + 1
            invariant
                u <= num_nodes + 1,
                num_nodes + 1 == offsets@.len(),
                num_nodes < usize::MAX,
                offsets@ == offsets_in(contents@),
                start_n == at_most(start_node, node_count(contents@) as int),
                end_n == at_most(end_node, node_count(contents@) as int),
                start_n <= num_nodes,
                end_n <= num_nodes,
                edges_to_skip == offsets@[start_n as int],
                edges_to_read == offsets@[end_n as int] - edges_to_skip,
                wanted == offsets_within(contents@, start_node, end_node),
                header_error(contents@) is None,
                4 * edges_to_skip <= usize::MAX,
                edges_to_read > 0 ==> destination_room(contents@) >= offsets@[end_n as int],
                new_offsets@ =~= wanted.take(u as int),
                forall|x: int| start_n <= x < u && x <= end_n ==> #[trigger] offsets@[x]
                    >= edges_to_skip,
            decreases num_nodes + 1 - u,
        {
            if u < start_n {
                new_offsets.push(0);
            } else if u <= end_n {
                if offsets[u] < edges_to_skip {
                    assert(start_n <= u <= end_n && offsets@[u as int] < offsets@[start_n as int]);
                    return Err(GraphError::OffsetsDecrease);
                }
                new_offsets.push(offsets[u] - edges_to_skip);
            } else {
                new_offsets.push(edges_to_read);
            }
            u = u + 1;
        }
        let edges: Vec<usize> = if edges_to_read > 0 {
            read_destinations(contents, start, edges_to_skip, edges_to_read)
        } else {
            Vec::new()
        };
        assert(edges_to_read == 0 ==> edges@ =~= destinations(
            contents@,
            edges_to_skip as int,
            offsets@[end_n as int] as int,
        ));
        Ok(Graph { offsets: new_offsets, edges })
    }

    /// Loads a graph from the contents of a file, in the format that its name tells.
    pub fn from_file(path: &str, contents: &[u8]) -> (graph: Result<Graph, GraphError>)
        ensures
            names_sg(path@) ==> {
                &&& graph is Err <==> sg_error(contents@) is Some
                &&& graph is Err ==> graph->Err_0 == sg_error(contents@)->0
                &&& graph is Ok ==> graph->Ok_0.offsets@ == offsets_in(contents@)
                    && graph->Ok_0.edges@ == destinations(
                    contents@,
                    0,
                    edge_count(contents@) as int,
                )
            },
            !names_sg(path@) ==> {
                &&& graph is Err <==> el_error(contents@) is Some
                &&& graph is Err ==> graph->Err_0 == el_error(contents@)->0
                &&& graph is Ok ==> graph->Ok_0@ == el_rows(contents@)
                    && graph->Ok_0.well_formed() && graph->Ok_0.compact()
            },
    {
        if is_sg(path) {
            Self::from_sg_file(contents)
        } else {
            Self::from_el_file(contents)
        }
    }

    /// Loads the lists of a range of nodes from the contents of a file, in the format that its
    /// name tells.
    pub fn from_file_partitioned(
        path: &str,
        contents: &[u8],
        start_node: usize,
        end_node: usize,
    ) -> (graph: Result<Graph, GraphError>)
        ensures
            names_sg(path@) ==> {
                &&& graph is Err <==> sg_error_in(contents@, start_node, end_node) is Some
                &&& graph is Err ==> graph->Err_0 == sg_error_in(
                    contents@,
                    start_node,
                    end_node,
                )->0
                &&& graph is Ok ==> graph->Ok_0.offsets@ == offsets_within(
                    contents@,
                    start_node,
                    end_node,
                ) && graph->Ok_0.edges@ == destinations(
                    contents@,
                    offsets_in(contents@)[at_most(start_node, node_count(contents@) as int)] as int,
                    offsets_in(contents@)[at_most(end_node, node_count(contents@) as int)] as int,
                )
            },
            !names_sg(path@) ==> {
                &&& graph is Err <==> el_error(contents@) is Some
                &&& graph is Err ==> graph->Err_0 == el_error(contents@)->0
                &&& graph is Ok ==> graph->Ok_0@ == el_rows_in(contents@, start_node, end_node)
                    && graph->Ok_0.well_formed() && graph->Ok_0.compact()
            },
    {
        if is_sg(path) {
            Self::from_sg_file_partitioned(contents, start_node, end_node)
        } else {
            Self::from_el_file_partitioned(contents, start_node, end_node)
        }
    }

    /// A grid of cells.
    pub fn new_grid(rows: usize, cols: usize) -> (graph: Graph)
        requires
            4 * (rows * cols) < usize::MAX,
        ensures
            graph@ == grid_rows(rows as int, cols as int),
            graph.well_formed(),
            graph.compact(),
    {
        let mut offsets: Vec<usize> = Vec::new();
        let mut edges: Vec<usize> = Vec::new();
        offsets.push(0);
        let ghost all = grid_rows(rows as int, cols as int);
        let mut r: usize = 0;
        assert(0 * cols == 0) by (nonlinear_arith);
        while r < rows
            invariant
                r <= rows,
                4 * (rows * cols) < usize::MAX,
                all == grid_rows(rows as int, cols as int),
                offsets@.len() == r * cols + 1,
                lists_so_far(offsets@, edges@, all),
            decreases rows - r,
        {
            let mut c: usize = 0;
            while c < cols
                invariant
                    r < rows,
                    c <= cols,
                    4 * (rows * cols) < usize::MAX,
                    all == grid_rows(rows as int, cols as int),
                    offsets@.len() == r * cols + c + 1,
                    lists_so_far(offsets@, edges@, all),
                decreases cols - c,
            {
                let ghost before = edges@;
                let ghost starts = offsets@;
                let ghost u = r * cols + c;
                push_neighbors(&mut edges, rows, cols, r, c);
                let end: usize = edges.len();
                offsets.push(end);
                proof {
                    lemma_cell(rows as int, cols as int, r as int, c as int);
                    let list = cell_neighbors(rows as int, cols as int, r as int, c as int);
                    assert(all[u] == list);
                    assert(edges@ == before + list);
                    assert forall|x: int| 0 <= x < offsets@.len() - 1 implies offsets@[x]
                        <= #[trigger] offsets@[x + 1] <= edges@.len() && edges@.subrange(
                        offsets@[x] as int,
                        offsets@[x + 1] as int,
                    ) == all[x] by {
                        if x < u {
                            assert(starts[x] <= starts[x + 1] <= before.len());
                            assert(edges@.subrange(starts[x] as int, starts[x + 1] as int)
                                =~= before.subrange(starts[x] as int, starts[x + 1] as int));
                        } else {
                            assert(edges@.subrange(before.len() as int, edges@.len() as int)
                                =~= list);
                        }
                    }
                }
                c = c + 1;
            }
            proof {
                assert(r * cols + cols == (r + 1) * cols) by (nonlinear_arith);
            }
            r = r + 1;
        }
        let graph = Graph { offsets, edges };
        proof {
            assert forall|x: int| 0 <= x < graph.node_total() implies #[trigger] graph.row_in_bounds(
                x,
            ) && graph@[x] == all[x] by {
                assert(offsets@[x] <= offsets@[x + 1] <= edges@.len());
            }
            assert forall|x: int| 0 <= x < all.len() implies graph@[x] == all[x] by {
                assert(graph.row_in_bounds(x));
            }
            assert(graph@ =~= all);
            assert forall|x: int, i: int|
                0 <= x < graph.node_total() && 0 <= i
                    < graph@[x].len() implies #[trigger] graph@[x][i] < graph.node_total() by {
                let v = graph@[x][i];
                assert(all[x].contains(v));
                assert(edge(all, x as usize, v));
                grid_edges(rows as int, cols as int, x as usize, v);
            }
        }
        graph
    }
}

/// The lists so far lie behind one another in the edge array, and are those wanted.
spec fn lists_so_far(offsets: Seq<usize>, edges: Seq<usize>, wanted: Seq<Seq<usize>>) -> bool {
    &&& offsets.len() > 0
    &&& offsets[0] == 0
    &&& offsets.last() == edges.len()
    &&& forall|x: int|
        0 <= x < offsets.len() - 1 ==> offsets[x] <= #[trigger] offsets[x + 1] <= edges.len()
            && edges.subrange(offsets[x] as int, offsets[x + 1] as int) == wanted[x]
}

impl NeighborLists for Graph {
    open spec fn rows(&self) -> Seq<Seq<usize>> {
        self@
    }

    open spec fn readable(&self, u: usize) -> bool {
        self.row_in_bounds(u as int)
    }

    fn node_count(&self) -> (n: usize) {
        self.num_nodes()
    }

    fn neighbors_of(&self, u: usize) -> (list: &[usize]) {
        self.get_neighbors(u)
    }
}

/// A well-formed graph can be searched from each of its nodes.
pub proof fn well_formed_is_usable(graph: &Graph, s: usize)
    requires
        graph.well_formed(),
        s < graph@.len(),
    ensures
        usable_from(graph, s),
{
    assert forall|v: usize| #[trigger] reachable(graph.rows(), s, v) implies graph.readable(v) && v
        < graph.rows().len() by {
        let k = choose|k: nat| walk(graph@, s, v, k);
        lemma_walk_stays(graph@, s, v, k);
        assert(graph.row_in_bounds(v as int));
    }
}

/// Offsets of lists that lie inside the edge array do not decrease.
pub proof fn lemma_offsets_ordered(graph: &Graph, a: int, b: int)
    requires
        forall|u: int| 0 <= u < graph.node_total() ==> #[trigger] graph.row_in_bounds(u),
        0 <= a <= b < graph.offsets@.len(),
    ensures
        graph.offsets@[a] <= graph.offsets@[b],
    decreases b - a,
{
    if a < b {
        lemma_offsets_ordered(graph, a, b - 1);
        assert(graph.row_in_bounds(b - 1));
    }
}

/// The part of a binary file that is loaded for a range of nodes has the lists of the whole for
/// the nodes of the range, and empty lists for the others.
pub proof fn part_has_own_rows(
    data: Seq<u8>,
    start: usize,
    end: usize,
    whole: &Graph,
    part: &Graph,
    u: int,
)
    requires
        sg_error(data) is None,
        whole.offsets@ == offsets_in(data),
        whole.edges@ == destinations(data, 0, edge_count(data) as int),
        forall|x: int| 0 <= x < whole.node_total() ==> #[trigger] whole.row_in_bounds(x),
        sg_error_in(data, start, end) is None,
        start <= end,
        part.offsets@ == offsets_within(data, start, end),
        part.edges@ == destinations(
            data,
            offsets_in(data)[at_most(start, node_count(data) as int)] as int,
            offsets_in(data)[at_most(end, node_count(data) as int)] as int,
        ),
        0 <= u < whole@.len(),
    ensures
        part@.len() == whole@.len(),
        part.row_in_bounds(u),
        part@[u] == (if start <= u < end {
            whole@[u]
        } else {
            Seq::empty()
        }),
{
    let offsets = offsets_in(data);
    let from = at_most(start, node_count(data) as int);
    let to = at_most(end, node_count(data) as int);
    assert(whole.row_in_bounds(u));
    lemma_offsets_ordered(whole, from, to);
    if u < from {
        assert(part.offsets@[u] == 0 && part.offsets@[u + 1] == 0);
        assert(part@[u] =~= Seq::<usize>::empty());
    } else if u < to {
        lemma_offsets_ordered(whole, from, u);
        lemma_offsets_ordered(whole, u + 1, to);
        assert(part@[u] =~= whole@[u]);
    } else {
        lemma_offsets_ordered(whole, from, u);
        assert(part@[u] =~= Seq::<usize>::empty());
    }
}

} // verus!

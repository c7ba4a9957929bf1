//! Graphs with a list of its own for every node.

use vstd::prelude::*;
use vstd::utf8::{decode_utf8, valid_utf8};

use super::edge_list::{
    edges_of, highest_node, lemma_targets_named, lemma_top_node, parse_edges, rows_of, targets,
    top_node,
};
use super::error::GraphError;
use super::grid::{grid_edges, grid_rows, lemma_cell, push_neighbors};
use super::path::{is_sg, names_sg};
use super::serialized::{
    destination_room, destinations, destinations_start, header_error, offsets_in, read_destinations,
    read_header,
};
use super::{lemma_walk_stays, usable_from, NeighborLists};
use crate::model::{edge, reachable, walk};

verus! {

/// Node `u` has the neighbors `adj[u]`.
pub struct Graph {
    pub adj: Vec<Vec<usize>>,
}

impl View for Graph {
    type V = Seq<Seq<usize>>;

    open spec fn view(&self) -> Seq<Seq<usize>> {
        Seq::new(self.adj@.len(), |u: int| self.adj@[u]@)
    }
}

/// What is wrong with the lists from node `u` on, read one after the other, where there is room
/// for `room` destinations: a list of negative length, or one that is cut off.
pub open spec fn lists_error(offsets: Seq<usize>, room: int, u: nat) -> Option<GraphError>
    decreases offsets.len() - u,
{
    if u + 1 >= offsets.len() {
        None
    } else if offsets[u as int + 1] < offsets[u as int] {
        Some(GraphError::OffsetsDecrease)
    } else if offsets[u as int + 1] - offsets[0] > room {
        Some(GraphError::NoDestination)
    } else {
        lists_error(offsets, room, u + 1)
    }
}

/// What is wrong with a binary file, if anything is.
pub open spec fn sg_error(data: Seq<u8>) -> Option<GraphError> {
    match header_error(data) {
        Some(e) => Some(e),
        None => lists_error(offsets_in(data), destination_room(data), 0),
    }
}

/// The neighbor lists of a binary file: as many destinations for every node as its two offsets
/// are apart, one list behind the other.
pub open spec fn sg_rows(data: Seq<u8>) -> Seq<Seq<usize>> {
    let offsets = offsets_in(data);
    Seq::new(
        (offsets.len() - 1) as nat,
        |u: int| destinations(data, offsets[u] - offsets[0], offsets[u + 1] - offsets[0]),
    )
}

/// What is wrong with an edge list, if anything is.
pub open spec fn el_error(data: Seq<u8>) -> Option<GraphError> {
    if !valid_utf8(data) {
        Some(GraphError::NotText)
    } else if top_node(edges_of(decode_utf8(data))) == usize::MAX {
        Some(GraphError::TooManyNodes)
    } else {
        None
    }
}

/// The neighbor lists of an edge list: a node for every number up to the highest that it names.
pub open spec fn el_rows(data: Seq<u8>) -> Seq<Seq<usize>> {
    let edges = edges_of(decode_utf8(data));
    rows_of(edges, (top_node(edges) + 1) as nat)
}

impl Graph {
    /// Every neighbor list names nodes of the graph only.
    pub open spec fn well_formed(&self) -> bool {
        forall|u: int, i: int|
            0 <= u < self@.len() && 0 <= i < self@[u].len() ==> #[trigger] self@[u][i] < self@.len()
    }

    /// Whether every neighbor list names nodes of the graph only.
    pub fn is_well_formed(&self) -> (ok: bool)
        ensures
            ok == self.well_formed(),
    {
        let num_nodes: usize = self.adj.len();
        let mut u: usize = 0;
        while u < num_nodes
            invariant
                u <= num_nodes,
                num_nodes == self@.len(),
                num_nodes == self.adj@.len(),
                forall|x: int, i: int|
                    0 <= x < u && 0 <= i < self@[x].len() ==> #[trigger] self@[x][i] < num_nodes,
            decreases num_nodes - u,
        {
            let list = &self.adj[u];
            assert(list@ == self@[u as int]);
            let mut i: usize = 0;
            while i < list.len()
                invariant
                    i <= list@.len(),
                    u < num_nodes,
                    num_nodes == self@.len(),
                    list@ == self@[u as int],
                    forall|j: int| 0 <= j < i ==> #[trigger] list@[j] < num_nodes,
                decreases list.len() - i,
            {
                if list[i] >= num_nodes {
                    assert(self@[u as int][i as int] >= num_nodes);
                    return false;
                }
                i = i + 1;
            }
            u = u + 1;
        }
        true
    }

    /// Loads a graph from an edge list.
    pub fn from_el_file(contents: &[u8]) -> (graph: Result<Graph, GraphError>)
        ensures
            graph is Err <==> el_error(contents@) is Some,
            graph is Err ==> graph->Err_0 == el_error(contents@)->0,
            graph is Ok ==> graph->Ok_0@ == el_rows(contents@) && graph->Ok_0.well_formed(),
    {
        let edges = match parse_edges(contents) {
            Some(edges) => edges,
            None => {
                return Err(GraphError::NotText);
            },
        };
        let max_node: usize = highest_node(edges.as_slice());
        if max_node == usize::MAX {
            return Err(GraphError::TooManyNodes);
        }
        let num_nodes: usize = max_node + 1;
        let mut adj: Vec<Vec<usize>> = Vec::new();
        let mut u: usize = 0;
        while u < num_nodes
            invariant
                u <= num_nodes,
                adj@.len() == u,
                forall|i: int| 0 <= i < u ==> (#[trigger] adj@[i])@ == Seq::<usize>::empty(),
            decreases num_nodes - u,
        {
            adj.push(Vec::new());
            u = u + 1;
        }
        let mut k: usize = 0;
        proof {
            lemma_top_node(edges@);
            assert(edges@.take(0) =~= Seq::<(usize, usize)>::empty());
        }
        while k < edges.len()
            invariant
                k <= edges.len(),
                adj@.len() == num_nodes,
                forall|i: int| 0 <= i < edges@.len() ==> (#[trigger] edges@[i]).0 < num_nodes,
                forall|i: int|
                    0 <= i < num_nodes ==> (#[trigger] adj@[i])@ == targets(
                        edges@.take(k as int),
                        i,
                    ),
            decreases edges.len() - k,
        {
            let (source, target) = edges[k];
            let ghost before = adj@;
            proof {
                assert(edges@.take(k + 1).drop_last() =~= edges@.take(k as int));
                assert(edges@[k as int].0 < num_nodes);
            }
            adj[source].push(target);
            proof {
                assert forall|i: int| 0 <= i < num_nodes implies (#[trigger] adj@[i])@ == targets(
                    edges@.take(k + 1),
                    i,
                ) by {
                    assert(before[i]@ == targets(edges@.take(k as int), i));
                }
            }
            k = k + 1;
        }
        assert(edges@.take(edges@.len() as int) =~= edges@);
        let graph = Graph { adj };
        proof {
            assert(graph@ =~= el_rows(contents@));
            assert forall|x: int, i: int|
                0 <= x < graph@.len() && 0 <= i < graph@[x].len() implies #[trigger] graph@[x][i]
                < graph@.len() by {
                lemma_targets_named(edges@, x);
                assert(graph@[x][i] == targets(edges@, x)[i]);
                let j = choose|j: int|
                    0 <= j < edges@.len() && #[trigger] edges@[j] == (
                        x as usize,
                        targets(edges@, x)[i],
                    );
                assert(edges@[j].1 <= max_node);
            }
        }
        Ok(graph)
    }

    /// Loads a graph from a binary file.
    pub fn from_sg_file(contents: &[u8]) -> (graph: Result<Graph, GraphError>)
        ensures
            graph is Err <==> sg_error(contents@) is Some,
            graph is Err ==> graph->Err_0 == sg_error(contents@)->0,
            graph is Ok ==> graph->Ok_0@ == sg_rows(contents@),
    {
        let header = match read_header(contents) {
            Ok(header) => header,
            Err(e) => {
                return Err(e);
            },
        };
        let offsets: Vec<usize> = header.offsets;
        let start: usize = header.start;
        let num_nodes: usize = offsets.len() - 1;
        let room: usize = (contents.len() - start) / 4;
        let mut adj: Vec<Vec<usize>> = Vec::new();
        let mut read: usize = 0;
        let mut u: usize = 0;
        assert(contents.len() == contents@.len());
        while u < num_nodes
            invariant
                u <= num_nodes,
                num_nodes + 1 == offsets@.len(),
                contents@.len() <= usize::MAX,
                offsets@ == offsets_in(contents@),
                start == destinations_start(contents@),
                header_error(contents@) is None,
                room == destination_room(contents@),
                start + 4 * room <= contents@.len(),
                offsets@[0] <= offsets@[u as int],
                read == offsets@[u as int] - offsets@[0],
                read <= room,
                lists_error(offsets@, room as int, 0) == lists_error(
                    offsets@,
                    room as int,
                    u as nat,
                ),
                adj@.len() == u,
                forall|i: int|
                    0 <= i < u ==> (#[trigger] adj@[i])@ == destinations(
                        contents@,
                        offsets@[i] - offsets@[0],
                        offsets@[i + 1] - offsets@[0],
                    ),
            decreases num_nodes - u,
        {
            if offsets[u + 1] < offsets[u] {
                return Err(GraphError::OffsetsDecrease);
            }
            let degree: usize = offsets[u + 1] - offsets[u];
            if degree > room - read {
                return Err(GraphError::NoDestination);
            }
            let list = read_destinations(contents, start, read, degree);
            adj.push(list);
            read = read + degree;
            u = u + 1;
        }
        let graph = Graph { adj };
        assert(graph@ =~= sg_rows(contents@));
        Ok(graph)
    }

    /// Loads a graph from the contents of a file, in the format that its name tells.
    pub fn from_file(path: &str, contents: &[u8]) -> (graph: Result<Graph, GraphError>)
        ensures
            graph is Err <==> (if names_sg(path@) {
                sg_error(contents@) is Some
            } else {
                el_error(contents@) is Some
            }),
            graph is Err ==> Some(graph->Err_0) == (if names_sg(path@) {
                sg_error(contents@)
            } else {
                el_error(contents@)
            }),
            graph is Ok ==> graph->Ok_0@ == (if names_sg(path@) {
                sg_rows(contents@)
            } else {
                el_rows(contents@)
            }),
    {
        if is_sg(path) {
            Self::from_sg_file(contents)
        } else {
            Self::from_el_file(contents)
        }
    }

    /// A grid of cells.
    pub fn new_grid(rows: usize, cols: usize) -> (graph: Graph)
        requires
            rows * cols <= usize::MAX,
        ensures
            graph@ == grid_rows(rows as int, cols as int),
            graph.well_formed(),
    {
        let mut adj: Vec<Vec<usize>> = Vec::new();
        let mut r: usize = 0;
        assert(0 * cols == 0) by (nonlinear_arith);
        while r < rows
            invariant
                r <= rows,
                rows * cols <= usize::MAX,
                adj@.len() == r * cols,
                forall|i: int|
                    0 <= i < adj@.len() ==> (#[trigger] adj@[i])@ == grid_rows(
                        rows as int,
                        cols as int,
                    )[i],
            decreases rows - r,
        {
            let mut c: usize = 0;
            while c < cols
                invariant
                    r < rows,
                    c <= cols,
                    rows * cols <= usize::MAX,
                    adj@.len() == r * cols + c,
                    forall|i: int|
                        0 <= i < adj@.len() ==> (#[trigger] adj@[i])@ == grid_rows(
                            rows as int,
                            cols as int,
                        )[i],
                decreases cols - c,
            {
                let mut list: Vec<usize> = Vec::new();
                push_neighbors(&mut list, rows, cols, r, c);
                proof {
                    lemma_cell(rows as int, cols as int, r as int, c as int);
                    assert(list@ =~= grid_rows(rows as int, cols as int)[r * cols + c]);
                }
                adj.push(list);
                c = c + 1;
            }
            proof {
                assert(r * cols + cols == (r + 1) * cols) by (nonlinear_arith);
            }
            r = r + 1;
        }
        let graph = Graph { adj };
        assert(graph@ =~= grid_rows(rows as int, cols as int));
        proof {
            assert forall|x: int, i: int|
                0 <= x < graph@.len() && 0 <= i < graph@[x].len() implies #[trigger] graph@[x][i]
                < graph@.len() by {
                let v = graph@[x][i];
                assert(graph@[x].contains(v));
                assert(edge(graph@, x as usize, v));
                grid_edges(rows as int, cols as int, x as usize, v);
            }
        }
        graph
    }
}

impl NeighborLists for Graph {
    open spec fn rows(&self) -> Seq<Seq<usize>> {
        self@
    }

    open spec fn readable(&self, u: usize) -> bool {
        u < self@.len()
    }

    fn node_count(&self) -> (n: usize) {
        self.adj.len()
    }

    fn neighbors_of(&self, u: usize) -> (list: &[usize]) {
        assert(self.adj.len() == self@.len());
        self.adj[u].as_slice()
    }
}

/// A well-formed graph can be searched from each of its nodes.
pub proof fn well_formed_is_usable(graph: &Graph, s: usize)
    requires
        graph.well_formed(),
        s < graph@.len(),
    ensures
        usable_from(graph, s),
{
    assert forall|v: usize| #[trigger] reachable(graph.rows(), s, v) implies graph.readable(v) && v
        < graph.rows().len() by {
        let k = choose|k: nat| walk(graph@, s, v, k);
        lemma_walk_stays(graph@, s, v, k);
    }
}

} // verus!

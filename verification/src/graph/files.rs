//! Files and the graphs in them: what was written out is loaded again.

use vstd::prelude::*;
use vstd::utf8::{
    decode_utf8, encode_utf8, encode_utf8_decode_utf8, encode_utf8_valid_utf8, valid_utf8,
};

use super::adjacency;
use super::csr::{at_most, el_error, offsets_within, sg_error, sg_error_in, Graph};
use super::edge_list::{
    edges_of, ends_of, is_gap, starting_at, starts_at, targets_are_ends, top_node_is_highest,
    written_edges, written_edges_are_read,
};
use super::error::GraphError;
use super::serialized::{
    cut_header_is_refused, destination_room, destinations, edge_count, header_error, node_count,
    offsets_in, written, written_is_read, written_length,
};

verus! {

/// Offsets that cut the destinations into lists, from the first one to the last one.
pub open spec fn cuts(offsets: Seq<usize>, total: nat) -> bool {
    &&& 0 < offsets.len() <= usize::MAX
    &&& forall|i: int, j: int|
        0 <= i <= j < offsets.len() ==> #[trigger] offsets[i] <= #[trigger] offsets[j]
    &&& offsets.last() <= total
}

/// A graph that was written out is loaded again: the same offsets, and as many edges as were
/// written, each with its destination.
pub proof fn written_graph_loads(
    flag: u8,
    offsets: Seq<usize>,
    targets: Seq<i32>,
    extra: Seq<u8>,
    data: Seq<u8>,
    graph: &Graph,
)
    requires
        0 < offsets.len() <= usize::MAX,
        targets.len() <= usize::MAX,
        data == written(flag, offsets, targets) + extra,
        graph.offsets@ == offsets_in(data),
        graph.edges@ == destinations(data, 0, edge_count(data) as int),
    ensures
        sg_error(data) is None,
        graph.offsets@ == offsets,
        graph.edges@.len() == targets.len(),
        forall|j: int|
            0 <= j < targets.len() ==> (#[trigger] graph.edges@[j]) as isize == targets[j],
        forall|j: int|
            0 <= j < targets.len() && targets[j] >= 0 ==> #[trigger] graph.edges@[j] == targets[j],
{
    written_is_read(flag, offsets, targets, extra, data);
    let all = destinations(data, 0, targets.len() as int);
    assert forall|j: int| 0 <= j < targets.len() implies (#[trigger] graph.edges@[j]) as isize
        == targets[j] && (targets[j] >= 0 ==> graph.edges@[j] == targets[j]) by {
        assert(all[j] as isize == targets[0 + j]);
    }
}

/// A graph that was written out and cut off anywhere is not loaded.
pub proof fn cut_graph_is_refused(
    flag: u8,
    offsets: Seq<usize>,
    targets: Seq<i32>,
    data: Seq<u8>,
)
    requires
        0 < offsets.len() <= usize::MAX,
        targets.len() <= usize::MAX,
        data.is_prefix_of(written(flag, offsets, targets)),
        data.len() < written(flag, offsets, targets).len(),
    ensures
        sg_error(data) is Some,
        data.len() >= 17 + 8 * offsets.len() ==> sg_error(data) == Some(GraphError::NoDestination),
{
    let whole = written(flag, offsets, targets);
    cut_header_is_refused(flag, offsets, targets, data);
    written_length(flag, offsets, targets);
    if data.len() >= 17 + 8 * offsets.len() {
        assert(whole + Seq::<u8>::empty() =~= whole);
        written_is_read(flag, offsets, targets, Seq::empty(), whole);
        assert(data.subrange(1, 9) =~= whole.subrange(1, 9));
    }
}

/// The part of a graph that was written out has, for the nodes of the range, the lists of the
/// whole, one behind the other; every offset is that of the whole, counted from where the range
/// begins and held within it.
pub proof fn written_part_loads(
    flag: u8,
    offsets: Seq<usize>,
    targets: Seq<i32>,
    extra: Seq<u8>,
    data: Seq<u8>,
    start: usize,
    end: usize,
    part: &Graph,
)
    requires
        cuts(offsets, targets.len()),
        targets.len() <= usize::MAX,
        data == written(flag, offsets, targets) + extra,
        data.len() <= usize::MAX,
        start <= end < offsets.len(),
        part.offsets@ == offsets_within(data, start, end),
        part.edges@ == destinations(
            data,
            offsets_in(data)[at_most(start, node_count(data) as int)] as int,
            offsets_in(data)[at_most(end, node_count(data) as int)] as int,
        ),
    ensures
        sg_error_in(data, start, end) is None,
        part.edges@.len() == offsets[end as int] - offsets[start as int],
        forall|j: int|
            0 <= j < part.edges@.len() ==> (#[trigger] part.edges@[j]) as isize
                == targets[offsets[start as int] + j],
        forall|j: int|
            0 <= j < part.edges@.len() && targets[offsets[start as int] + j] >= 0
                ==> #[trigger] part.edges@[j] == targets[offsets[start as int] + j],
        part.offsets@.len() == offsets.len(),
        forall|u: int|
            0 <= u < offsets.len() ==> #[trigger] part.offsets@[u] == (if u <= start {
                0
            } else if u <= end {
                offsets[u] - offsets[start as int]
            } else {
                offsets[end as int] - offsets[start as int]
            }),
{
    written_is_read(flag, offsets, targets, extra, data);
    written_length(flag, offsets, targets);
    let from = offsets[start as int] as int;
    let to = offsets[end as int] as int;
    assert(from <= to <= offsets.last());
    let all = destinations(data, from, to);
    assert forall|j: int| 0 <= j < part.edges@.len() implies (#[trigger] part.edges@[j]) as isize
        == targets[from + j] && (targets[from + j] >= 0 ==> part.edges@[j] == targets[from + j]) by {
        assert(all[j] as isize == targets[from + j]);
    }
    assert forall|u: int| start <= u <= end implies #[trigger] offsets_in(data)[u]
        >= offsets_in(data)[start as int] by {
        assert(offsets[start as int] <= offsets[u]);
    }
}

/// A range that goes past the nodes is one that ends with them.
pub proof fn range_is_held_within(data: Seq<u8>, start: usize, end: usize)
    requires
        header_error(data) is None,
        end >= node_count(data),
    ensures
        offsets_within(data, start, end) == offsets_within(data, start, node_count(data)),
        sg_error_in(data, start, end) == sg_error_in(data, start, node_count(data)),
        start >= node_count(data) ==> offsets_within(data, start, end) == offsets_within(
            data,
            node_count(data),
            node_count(data),
        ),
{
}

/// Reading list after list goes wrong exactly where an offset is smaller than the one before it
/// or the destinations do not suffice.
pub proof fn lists_can_be_read(offsets: Seq<usize>, room: int, u: nat)
    requires
        u < offsets.len(),
        0 <= room,
    ensures
        adjacency::lists_error(offsets, room, u) is None <==> forall|i: int|
            u <= i < offsets.len() - 1 ==> offsets[i] <= #[trigger] offsets[i + 1] && offsets[i + 1]
                - offsets[0] <= room,
    decreases offsets.len() - u,
{
    if u + 1 < offsets.len() {
        lists_can_be_read(offsets, room, u + 1);
        let bad = offsets[u as int + 1] < offsets[u as int] || offsets[u as int + 1] - offsets[0]
            > room;
        if !bad {
            if adjacency::lists_error(offsets, room, u) is None {
                assert forall|i: int| u <= i < offsets.len() - 1 implies offsets[i]
                    <= #[trigger] offsets[i + 1] && offsets[i + 1] - offsets[0] <= room by {
                    if i > u {
                        assert(offsets[i] <= offsets[i + 1]);
                    }
                }
            }
        } else {
            assert(!(offsets[u as int] <= offsets[u as int + 1] && offsets[u as int + 1]
                - offsets[0] <= room));
        }
    }
}

/// A graph that was written out is loaded list by list: node `u` has as many neighbors as its
/// two offsets are apart, in the order in which they were written.
pub proof fn written_lists_load(
    flag: u8,
    offsets: Seq<usize>,
    targets: Seq<i32>,
    extra: Seq<u8>,
    data: Seq<u8>,
)
    requires
        cuts(offsets, targets.len()),
        targets.len() <= usize::MAX,
        data == written(flag, offsets, targets) + extra,
    ensures
        adjacency::sg_error(data) is None,
        adjacency::sg_rows(data).len() == offsets.len() - 1,
        forall|u: int|
            0 <= u < offsets.len() - 1 ==> (#[trigger] adjacency::sg_rows(data)[u]).len()
                == offsets[u + 1] - offsets[u],
        forall|u: int, j: int|
            0 <= u < offsets.len() - 1 && 0 <= j < offsets[u + 1] - offsets[u] ==> {
                let v = #[trigger] adjacency::sg_rows(data)[u][j];
                let t = targets[offsets[u] - offsets[0] + j];
                &&& v as isize == t
                &&& t >= 0 ==> v == t
            },
{
    written_is_read(flag, offsets, targets, extra, data);
    let room = destination_room(data);
    assert forall|i: int| 0 <= i < offsets.len() - 1 implies offsets[i] <= #[trigger] offsets[i + 1]
        && offsets[i + 1] - offsets[0] <= room by {
        assert(offsets[i] <= offsets[i + 1] <= offsets[offsets.len() - 1]);
    }
    lists_can_be_read(offsets, room, 0);
    let rows = adjacency::sg_rows(data);
    assert forall|u: int| 0 <= u < offsets.len() - 1 implies (#[trigger] rows[u]).len()
        == offsets[u + 1] - offsets[u] by {
        assert(offsets[0] <= offsets[u] <= offsets[u + 1] <= offsets[offsets.len() - 1]);
        let list = destinations(data, offsets[u] - offsets[0], offsets[u + 1] - offsets[0]);
        assert(rows[u] == list);
    }
    assert forall|u: int, j: int|
        0 <= u < offsets.len() - 1 && 0 <= j < offsets[u + 1] - offsets[u] implies {
        let v = #[trigger] rows[u][j];
        let t = targets[offsets[u] - offsets[0] + j];
        &&& v as isize == t
        &&& t >= 0 ==> v == t
    } by {
        assert(offsets[0] <= offsets[u] <= offsets[u + 1] <= offsets[offsets.len() - 1]);
        let from = offsets[u] - offsets[0];
        let list = destinations(data, from, offsets[u + 1] - offsets[0]);
        assert(list[j] as isize == targets[from + j]);
        assert(rows[u] == list);
    }
}

/// Both ways of loading give the same neighbor lists, where the offsets begin with zero.
pub proof fn both_loaders_agree(
    flag: u8,
    offsets: Seq<usize>,
    targets: Seq<i32>,
    extra: Seq<u8>,
    data: Seq<u8>,
    graph: &Graph,
    u: int,
)
    requires
        cuts(offsets, targets.len()),
        offsets[0] == 0,
        targets.len() <= usize::MAX,
        data == written(flag, offsets, targets) + extra,
        graph.offsets@ == offsets_in(data),
        graph.edges@ == destinations(data, 0, edge_count(data) as int),
        0 <= u < offsets.len() - 1,
    ensures
        graph.row_in_bounds(u),
        graph@[u] == adjacency::sg_rows(data)[u],
{
    written_is_read(flag, offsets, targets, extra, data);
    assert(offsets[u] <= offsets[u + 1] <= offsets[offsets.len() - 1]);
    assert(graph@[u] =~= adjacency::sg_rows(data)[u]);
}

/// A node for every number up to the highest one that an edge names, and for zero; the neighbors
/// of each are the ends of the edges that start there, in order.
pub open spec fn lists_of_edges(edges: Seq<(usize, usize)>, rows: Seq<Seq<usize>>) -> bool {
    &&& rows.len() > 0
    &&& forall|i: int|
        0 <= i < edges.len() ==> (#[trigger] edges[i]).0 < rows.len() && edges[i].1 < rows.len()
    &&& rows.len() > 1 ==> exists|i: int|
        0 <= i < edges.len() && ((#[trigger] edges[i]).0 == rows.len() - 1 || edges[i].1
            == rows.len() - 1)
    &&& forall|u: int|
        0 <= u < rows.len() ==> #[trigger] rows[u] == ends_of(starting_at(edges, u))
}

/// The neighbor lists of an edge list are those of the edges that its text lists.
pub proof fn edge_list_has_its_lists(data: Seq<u8>)
    requires
        valid_utf8(data),
    ensures
        lists_of_edges(edges_of(decode_utf8(data)), adjacency::el_rows(data)),
{
    let edges = edges_of(decode_utf8(data));
    let rows = adjacency::el_rows(data);
    top_node_is_highest(edges);
    assert forall|u: int| 0 <= u < rows.len() implies #[trigger] rows[u] == ends_of(
        starting_at(edges, u),
    ) by {
        targets_are_ends(edges, u);
    }
}

/// What is wrong with an edge list is that it is no text, or that a node is named that would
/// leave no number for the count of nodes or of offsets.
pub proof fn edge_list_errors_are(data: Seq<u8>)
    ensures
        !valid_utf8(data) ==> el_error(data) == Some(GraphError::NotText) && adjacency::el_error(
            data,
        ) == Some(GraphError::NotText),
        valid_utf8(data) ==> (el_error(data) == Some(GraphError::TooManyNodes) <==> exists|i: int|
            0 <= i < edges_of(decode_utf8(data)).len() && ((#[trigger] edges_of(
                decode_utf8(data),
            )[i]).0 >= usize::MAX - 1 || edges_of(decode_utf8(data))[i].1 >= usize::MAX - 1)),
        valid_utf8(data) ==> (el_error(data) is Some ==> el_error(data) == Some(
            GraphError::TooManyNodes,
        )),
        valid_utf8(data) ==> (adjacency::el_error(data) == Some(GraphError::TooManyNodes)
            <==> exists|i: int|
            0 <= i < edges_of(decode_utf8(data)).len() && ((#[trigger] edges_of(
                decode_utf8(data),
            )[i]).0 == usize::MAX || edges_of(decode_utf8(data))[i].1 == usize::MAX)),
        valid_utf8(data) ==> (adjacency::el_error(data) is Some ==> adjacency::el_error(data)
            == Some(GraphError::TooManyNodes)),
{
    top_node_is_highest(edges_of(decode_utf8(data)));
}

/// Edges that were written down as text are loaded again, edge for edge, whatever blanks
/// separate the nodes, in both kinds of graph.
pub proof fn written_edge_list_loads(
    edges: Seq<(usize, usize)>,
    gaps: Seq<Seq<char>>,
    data: Seq<u8>,
)
    requires
        gaps.len() >= edges.len(),
        forall|i: int| 0 <= i < edges.len() ==> is_gap(#[trigger] gaps[i]),
        data == encode_utf8(written_edges(edges, gaps)),
        forall|i: int|
            0 <= i < edges.len() ==> (#[trigger] edges[i]).0 < usize::MAX - 1 && edges[i].1
                < usize::MAX - 1,
    ensures
        el_error(data) is None,
        adjacency::el_error(data) is None,
        lists_of_edges(edges, adjacency::el_rows(data)),
{
    encode_utf8_valid_utf8(written_edges(edges, gaps));
    encode_utf8_decode_utf8(written_edges(edges, gaps));
    written_edges_are_read(edges, gaps);
    edge_list_has_its_lists(data);
    edge_list_errors_are(data);
}

/// A node is never lost: an edge that a text lists is in the list of its start, and a list has
/// nothing but such edges.
pub proof fn edge_lists_have_all_edges(data: Seq<u8>, u: usize, v: usize)
    requires
        valid_utf8(data),
        u < adjacency::el_rows(data).len(),
    ensures
        adjacency::el_rows(data)[u as int].contains(v) <==> edges_of(decode_utf8(data)).contains(
            (u, v),
        ),
{
    let edges = edges_of(decode_utf8(data));
    let rows = adjacency::el_rows(data);
    edge_list_has_its_lists(data);
    let list = rows[u as int];
    assert(list == ends_of(starting_at(edges, u as int)));
    lemma_starting_contains(edges, u, v);
    let kept = starting_at(edges, u as int);
    if edges.contains((u, v)) {
        let j = choose|j: int| 0 <= j < kept.len() && kept[j] == (u, v);
        assert(list[j] == v);
    }
    if list.contains(v) {
        let j = choose|j: int| 0 <= j < list.len() && list[j] == v;
        lemma_starting_contains(edges, kept[j].0, kept[j].1);
        assert(kept.contains(kept[j]));
        lemma_starts(edges, u as int, j);
    }
}

/// The edges that start at a node are edges.
proof fn lemma_starting_contains(edges: Seq<(usize, usize)>, u: usize, v: usize)
    ensures
        starting_at(edges, u as int).contains((u, v)) <==> edges.contains((u, v)),
    decreases edges.len(),
{
    broadcast use vstd::seq_lib::group_filter_ensures;

    let from = starts_at(u as int);
    if edges.contains((u, v)) {
        let i = choose|i: int| 0 <= i < edges.len() && edges[i] == (u, v);
        edges.lemma_filter_contains(from, i);
    }
    if edges.filter(from).contains((u, v)) {
        edges.lemma_filter_contains_rev(from, (u, v));
    }
}

/// The edges that start at a node start there.
proof fn lemma_starts(edges: Seq<(usize, usize)>, u: int, j: int)
    requires
        0 <= j < starting_at(edges, u).len(),
    ensures
        starting_at(edges, u)[j].0 == u,
{
    let from = starts_at(u);
    edges.lemma_filter_pred(from, j);
}


/// The first list that cannot be read decides what is wrong: its offsets are in the wrong order,
/// or else its destinations are missing.
pub proof fn first_bad_list_decides(offsets: Seq<usize>, room: int, u: nat, k: int)
    requires
        u <= k < offsets.len() - 1,
        forall|i: int|
            u <= i < k ==> offsets[i] <= #[trigger] offsets[i + 1] && offsets[i + 1] - offsets[0]
                <= room,
    ensures
        offsets[k + 1] < offsets[k] ==> adjacency::lists_error(offsets, room, u) == Some(
            GraphError::OffsetsDecrease,
        ),
        offsets[k] <= offsets[k + 1] && offsets[k + 1] - offsets[0] > room
            ==> adjacency::lists_error(offsets, room, u) == Some(GraphError::NoDestination),
    decreases k - u,
{
    if u < k {
        assert(offsets[u as int] <= offsets[u as int + 1]);
        first_bad_list_decides(offsets, room, u + 1, k);
    }
}

/// Which ranges of a graph that was written out can be loaded, and what is wrong with the
/// others: the range ends before it begins, it begins where no file reaches, there are not as
/// many edges, or an offset within it lies before its first one.
pub proof fn range_errors_are(
    flag: u8,
    offsets: Seq<usize>,
    targets: Seq<i32>,
    data: Seq<u8>,
    start: usize,
    end: usize,
)
    requires
        0 < offsets.len() <= usize::MAX,
        targets.len() <= usize::MAX,
        data == written(flag, offsets, targets),
        start < offsets.len(),
        end < offsets.len(),
    ensures
        sg_error_in(data, start, end) is None <==> {
            &&& offsets[start as int] <= offsets[end as int]
            &&& 4 * offsets[start as int] <= usize::MAX
            &&& offsets[start as int] == offsets[end as int] || offsets[end as int]
                <= targets.len()
            &&& forall|u: int|
                start <= u <= end ==> offsets[start as int] <= #[trigger] offsets[u]
        },
        offsets[end as int] < offsets[start as int] ==> sg_error_in(data, start, end) == Some(
            GraphError::OffsetsDecrease,
        ),
        offsets[start as int] <= offsets[end as int] && 4 * offsets[start as int] > usize::MAX
            ==> sg_error_in(data, start, end) == Some(GraphError::TooManyEdges),
        offsets[start as int] < offsets[end as int] && 4 * offsets[start as int] <= usize::MAX
            && offsets[end as int] > targets.len() ==> sg_error_in(data, start, end) == Some(
            GraphError::NoDestination,
        ),
        offsets[start as int] <= offsets[end as int] <= targets.len() && 4 * offsets[start as int]
            <= usize::MAX ==> (sg_error_in(data, start, end) is None || sg_error_in(
            data,
            start,
            end,
        ) == Some(GraphError::OffsetsDecrease)),
{
    assert(data + Seq::<u8>::empty() =~= data);
    written_is_read(flag, offsets, targets, Seq::empty(), data);
    written_length(flag, offsets, targets);
    cut_header_is_refused(flag, offsets, targets, data);
}

} // verus!

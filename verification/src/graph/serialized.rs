//! The binary graph format (`.sg`) of the GAP benchmark suite:
//! - one byte: whether the graph is directed
//! - eight bytes: the number of edges
//! - eight bytes: the number of nodes
//! - eight bytes for every node and one more: the offsets of the neighbor lists
//! - four bytes for every edge: where it leads, as a signed number
//!
//! The lowest byte of a number comes first.

use vstd::prelude::*;

use super::error::GraphError;
use crate::words::{
    i32_le_at, le_digits, le_value, le_value_of_eight, lemma_le_digits, signed32, u64_le_at,
};

verus! {

/// The number of edges that the header names.
pub open spec fn edge_count(data: Seq<u8>) -> usize {
    le_value(data.subrange(1, 9)) as u64 as usize
}

/// The number of nodes that the header names.
pub open spec fn node_count(data: Seq<u8>) -> usize {
    le_value(data.subrange(9, 17)) as u64 as usize
}

/// The offsets of the neighbor lists.
pub open spec fn offsets_in(data: Seq<u8>) -> Seq<usize> {
    Seq::new(
        (node_count(data) + 1) as nat,
        |i: int| le_value(data.subrange(17 + 8 * i, 25 + 8 * i)) as u64 as usize,
    )
}

/// Where the destinations begin.
pub open spec fn destinations_start(data: Seq<u8>) -> int {
    17 + 8 * (node_count(data) + 1)
}

/// How many whole destinations there are.
pub open spec fn destination_room(data: Seq<u8>) -> int {
    (data.len() - destinations_start(data)) / 4
}

/// The destination at a place.
pub open spec fn destination(data: Seq<u8>, j: int) -> usize {
    let at = destinations_start(data) + 4 * j;
    signed32(le_value(data.subrange(at, at + 4))) as i32 as usize
}

/// The destinations from one place to another.
pub open spec fn destinations(data: Seq<u8>, from: int, to: int) -> Seq<usize> {
    Seq::new((to - from) as nat, |j: int| destination(data, from + j))
}

/// What is wrong with the part before the destinations, if anything is.
pub open spec fn header_error(data: Seq<u8>) -> Option<GraphError> {
    if data.len() < 1 {
        Some(GraphError::NoDirectedFlag)
    } else if data.len() < 9 {
        Some(GraphError::NoEdgeCount)
    } else if data.len() < 17 {
        Some(GraphError::NoNodeCount)
    } else if node_count(data) == usize::MAX {
        Some(GraphError::TooManyNodes)
    } else if data.len() < destinations_start(data) {
        Some(GraphError::NoOffset)
    } else {
        None
    }
}

/// The part of a file before the destinations.
pub struct Header {
    pub num_edges: usize,
    pub offsets: Vec<usize>,
    pub start: usize,
}

/// Reads what comes before the destinations.
pub fn read_header(contents: &[u8]) -> (header: Result<Header, GraphError>)
    ensures
        header is Err <==> header_error(contents@) is Some,
        header is Err ==> header->Err_0 == header_error(contents@)->0,
        header is Ok ==> header->Ok_0.num_edges == edge_count(contents@)
            && header->Ok_0.offsets@ == offsets_in(contents@) && header->Ok_0.start
            == destinations_start(contents@),
{
    let total: usize = contents.len();
    assert(total == contents@.len());
    if total < 1 {
        return Err(GraphError::NoDirectedFlag);
    }
    if total < 9 {
        return Err(GraphError::NoEdgeCount);
    }
    let num_edges: usize = u64_le_at(contents, 1) as usize;
    if total < 17 {
        return Err(GraphError::NoNodeCount);
    }
    let num_nodes: usize = u64_le_at(contents, 9) as usize;
    if num_nodes == usize::MAX {
        return Err(GraphError::TooManyNodes);
    }
    if (total - 17) / 8 < num_nodes + 1 {
        return Err(GraphError::NoOffset);
    }
    let mut offsets: Vec<usize> = Vec::with_capacity(num_nodes + 1);
    let mut i: usize = 0;
    while i < num_nodes + 1
        invariant
            i <= num_nodes + 1,
            num_nodes == node_count(contents@),
            num_nodes < usize::MAX,
            17 + 8 * (num_nodes + 1) <= contents@.len(),
            contents@.len() <= usize::MAX,
            offsets@ =~= offsets_in(contents@).take(i as int),
        decreases num_nodes + 1 - i,
    {
        let at: usize = 17 + 8 * i;
        offsets.push(u64_le_at(contents, at) as usize);
        i = i + 1;
    }
    Ok(Header { num_edges, offsets, start: 17 + 8 * (num_nodes + 1) })
}

/// Reads the destinations from one place to another.
pub fn read_destinations(contents: &[u8], start: usize, from: usize, count: usize) -> (out: Vec<
    usize,
>)
    requires
        start == destinations_start(contents@),
        start + 4 * (from + count) <= contents@.len(),
    ensures
        out@ == destinations(contents@, from as int, from + count),
{
    let mut out: Vec<usize> = Vec::with_capacity(count);
    let mut j: usize = 0;
    assert(contents.len() == contents@.len());
    while j < count
        invariant
            j <= count,
            contents@.len() <= usize::MAX,
            start == destinations_start(contents@),
            start + 4 * (from + count) <= contents@.len(),
            out@ =~= destinations(contents@, from as int, from + j),
        decreases count - j,
    {
        let at: usize = start + 4 * (from + j);
        let ghost before = out@;
        out.push(i32_le_at(contents, at) as usize);
        assert(out@ =~= before.push(destination(contents@, from + j)));
        j = j + 1;
    }
    out
}

/// Numbers in eight bytes each.
pub open spec fn in_eight_bytes(values: Seq<usize>) -> Seq<u8>
    decreases values.len(),
{
    if values.len() == 0 {
        Seq::empty()
    } else {
        in_eight_bytes(values.drop_last()) + le_digits(values.last() as nat, 8)
    }
}

/// Signed numbers in four bytes each, as two's complement.
pub open spec fn in_four_bytes(values: Seq<i32>) -> Seq<u8>
    decreases values.len(),
{
    if values.len() == 0 {
        Seq::empty()
    } else {
        in_four_bytes(values.drop_last()) + le_digits(
            (if values.last() < 0 {
                values.last() + 0x1_0000_0000
            } else {
                values.last() as int
            }) as nat,
            4,
        )
    }
}

/// A graph written out: the flag, the number of edges, the number of nodes, the offsets and the
/// destinations.
pub open spec fn written(flag: u8, offsets: Seq<usize>, targets: Seq<i32>) -> Seq<u8> {
    seq![flag] + le_digits(targets.len(), 8) + le_digits((offsets.len() - 1) as nat, 8)
        + in_eight_bytes(offsets) + in_four_bytes(targets)
}

/// A number of a list in eight bytes each.
proof fn lemma_in_eight(values: Seq<usize>, i: int)
    requires
        0 <= i < values.len(),
    ensures
        in_eight_bytes(values).len() == 8 * values.len(),
        in_eight_bytes(values).subrange(8 * i, 8 * i + 8) == le_digits(values[i] as nat, 8),
    decreases values.len(),
{
    let rest = values.drop_last();
    let head = in_eight_bytes(rest);
    let tail = le_digits(values.last() as nat, 8);
    lemma_le_digits(values.last() as nat, 8);
    if rest.len() > 0 {
        lemma_in_eight(rest, 0);
    }
    if i < rest.len() {
        lemma_in_eight(rest, i);
        assert((head + tail).subrange(8 * i, 8 * i + 8) =~= head.subrange(8 * i, 8 * i + 8));
    } else {
        assert((head + tail).subrange(8 * i, 8 * i + 8) =~= tail);
    }
}

/// The unsigned number with the same four bytes.
spec fn raw32(v: i32) -> nat {
    (if v < 0 {
        v + 0x1_0000_0000
    } else {
        v as int
    }) as nat
}

/// A number of a list in four bytes each.
proof fn lemma_in_four(values: Seq<i32>, i: int)
    requires
        0 <= i < values.len(),
    ensures
        in_four_bytes(values).len() == 4 * values.len(),
        in_four_bytes(values).subrange(4 * i, 4 * i + 4) == le_digits(raw32(values[i]), 4),
    decreases values.len(),
{
    let rest = values.drop_last();
    let head = in_four_bytes(rest);
    let tail = le_digits(raw32(values.last()), 4);
    lemma_le_digits(raw32(values.last()), 4);
    if rest.len() > 0 {
        lemma_in_four(rest, 0);
    }
    if i < rest.len() {
        lemma_in_four(rest, i);
        assert((head + tail).subrange(4 * i, 4 * i + 4) =~= head.subrange(4 * i, 4 * i + 4));
    } else {
        assert((head + tail).subrange(4 * i, 4 * i + 4) =~= tail);
    }
}

/// The length of a graph written out.
pub proof fn written_length(flag: u8, offsets: Seq<usize>, targets: Seq<i32>)
    requires
        offsets.len() > 0,
    ensures
        written(flag, offsets, targets).len() == 17 + 8 * offsets.len() + 4 * targets.len(),
{
    lemma_le_digits(targets.len(), 8);
    lemma_le_digits((offsets.len() - 1) as nat, 8);
    lemma_in_eight(offsets, 0);
    if targets.len() > 0 {
        lemma_in_four(targets, 0);
    }
}

/// What is read of a graph that was written out, from as much of the file as is there: each
/// number that lies whole in it is the one that was written.
proof fn lemma_read_prefix(
    flag: u8,
    offsets: Seq<usize>,
    targets: Seq<i32>,
    extra: Seq<u8>,
    data: Seq<u8>,
)
    requires
        offsets.len() > 0,
        offsets.len() <= usize::MAX,
        targets.len() <= usize::MAX,
        data.is_prefix_of(written(flag, offsets, targets) + extra),
    ensures
        data.len() >= 9 ==> edge_count(data) == targets.len(),
        data.len() >= 17 ==> node_count(data) == offsets.len() - 1,
        data.len() >= 17 + 8 * offsets.len() ==> {
            &&& destinations_start(data) == 17 + 8 * offsets.len()
            &&& offsets_in(data) == offsets
        },
        forall|j: int|
            0 <= j < targets.len() && 17 + 8 * offsets.len() + 4 * (j + 1) <= data.len()
                ==> #[trigger] destination(data, j) as isize == targets[j],
        forall|j: int|
            0 <= j < targets.len() && 17 + 8 * offsets.len() + 4 * (j + 1) <= data.len()
                && targets[j] >= 0 ==> #[trigger] destination(data, j) == targets[j],
{
    let whole = written(flag, offsets, targets) + extra;
    let m = targets.len();
    let n = (offsets.len() - 1) as nat;
    let a = le_digits(m, 8);
    let b = le_digits(n, 8);
    let o = in_eight_bytes(offsets);
    let t = in_four_bytes(targets);
    lemma_le_digits(m, 8);
    lemma_le_digits(n, 8);
    lemma_in_eight(offsets, 0);
    if targets.len() > 0 {
        lemma_in_four(targets, 0);
    }
    assert(data =~= whole.take(data.len() as int));
    if data.len() >= 9 {
        assert(data.subrange(1, 9) =~= a);
    }
    if data.len() >= 17 {
        assert(data.subrange(9, 17) =~= b);
    }
    if data.len() >= 17 + 8 * offsets.len() {
        assert forall|i: int| 0 <= i < offsets.len() implies offsets_in(data)[i] == offsets[i] by {
            lemma_in_eight(offsets, i);
            lemma_le_digits(offsets[i] as nat, 8);
            assert(data.subrange(17 + 8 * i, 25 + 8 * i) =~= o.subrange(8 * i, 8 * i + 8));
        }
        assert(offsets_in(data) =~= offsets);
        assert forall|j: int|
            0 <= j < targets.len() && 17 + 8 * offsets.len() + 4 * (j + 1)
                <= data.len() implies #[trigger] destination(data, j) as isize == targets[j] && (
        targets[j] >= 0 ==> destination(data, j) == targets[j]) by {
            let at = destinations_start(data) + 4 * j;
            lemma_in_four(targets, j);
            lemma_le_digits(raw32(targets[j]), 4);
            assert(data.subrange(at, at + 4) =~= t.subrange(4 * j, 4 * j + 4));
            let v = targets[j];
            assert(signed32(raw32(v)) == v);
            assert(v as usize as isize == v) by (bit_vector);
        }
    }
}

/// A graph that was written out is read back, whatever follows it: the number of edges, the
/// number of nodes, every offset, and every destination, whose sign is kept.
pub proof fn written_is_read(
    flag: u8,
    offsets: Seq<usize>,
    targets: Seq<i32>,
    extra: Seq<u8>,
    data: Seq<u8>,
)
    requires
        0 < offsets.len() <= usize::MAX,
        targets.len() <= usize::MAX,
        data == written(flag, offsets, targets) + extra,
    ensures
        header_error(data) is None,
        edge_count(data) == targets.len(),
        node_count(data) == offsets.len() - 1,
        offsets_in(data) == offsets,
        destination_room(data) >= targets.len(),
        forall|from: int, to: int|
            #![trigger destinations(data, from, to)]
            0 <= from <= to <= targets.len() ==> destinations(data, from, to).len() == to - from
                && forall|j: int|
                0 <= j < to - from ==> {
                    &&& (#[trigger] destinations(data, from, to)[j]) as isize == targets[from + j]
                    &&& targets[from + j] >= 0 ==> destinations(data, from, to)[j] == targets[from
                        + j]
                },
{
    written_length(flag, offsets, targets);
    lemma_read_prefix(flag, offsets, targets, extra, data);
    assert forall|from: int, to: int|
        #![trigger destinations(data, from, to)]
        0 <= from <= to <= targets.len() implies destinations(data, from, to).len() == to - from
        && forall|j: int|
        0 <= j < to - from ==> {
            &&& (#[trigger] destinations(data, from, to)[j]) as isize == targets[from + j]
            &&& targets[from + j] >= 0 ==> destinations(data, from, to)[j] == targets[from + j]
        } by {
        assert forall|j: int| 0 <= j < to - from implies {
            &&& (#[trigger] destinations(data, from, to)[j]) as isize == targets[from + j]
            &&& targets[from + j] >= 0 ==> destinations(data, from, to)[j] == targets[from + j]
        } by {
            assert(destination(data, from + j) as isize == targets[from + j]);
            assert(targets[from + j] >= 0 ==> destination(data, from + j) == targets[from + j]);
        }
    }
}

/// A graph that was written out and cut off within its header or its offsets has no header that
/// could be read, and what is told is the first thing that is missing.
pub proof fn cut_header_is_refused(
    flag: u8,
    offsets: Seq<usize>,
    targets: Seq<i32>,
    data: Seq<u8>,
)
    requires
        0 < offsets.len() <= usize::MAX,
        targets.len() <= usize::MAX,
        data.is_prefix_of(written(flag, offsets, targets)),
    ensures
        data.len() == 0 ==> header_error(data) == Some(GraphError::NoDirectedFlag),
        1 <= data.len() < 9 ==> header_error(data) == Some(GraphError::NoEdgeCount),
        9 <= data.len() < 17 ==> header_error(data) == Some(GraphError::NoNodeCount),
        17 <= data.len() < 17 + 8 * offsets.len() ==> header_error(data) == Some(
            GraphError::NoOffset,
        ),
        17 + 8 * offsets.len() <= data.len() ==> header_error(data) is None && destination_room(
            data,
        ) == (data.len() - 17 - 8 * offsets.len()) / 4,
{
    assert(written(flag, offsets, targets) + Seq::<u8>::empty() =~= written(
        flag,
        offsets,
        targets,
    ));
    lemma_read_prefix(flag, offsets, targets, Seq::empty(), data);
}


/// The highest number that eight bytes can hold is no count of nodes: there would be one offset
/// more.
pub proof fn highest_node_count_is_refused(data: Seq<u8>)
    requires
        usize::BITS == 64,
        data.len() >= 17,
    ensures
        header_error(data) == Some(GraphError::TooManyNodes) <==> forall|i: int|
            9 <= i < 17 ==> #[trigger] data[i] == 0xFF,
{
    let count = data.subrange(9, 17);
    le_value_of_eight(count);
    assert(count[0] == data[9] && count[1] == data[10] && count[2] == data[11] && count[3]
        == data[12] && count[4] == data[13] && count[5] == data[14] && count[6] == data[15]
        && count[7] == data[16]);
}

} // verus!

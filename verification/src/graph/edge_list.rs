//! Edge lists as text: one edge per line, by the numbers of its two nodes.

use vstd::prelude::*;
use vstd::utf8::{decode_utf8, valid_utf8};

use crate::text::{
    all_blank, blank, blanks_have_no_words, decimal_is_word, decimal_of, decimal_round_trip, decode,
    first_word_of, is_word, number_of, one_piece, parse_number, pieces, pieces_of_two, split_words,
    unsigned_part, words_of, words_of_two,
};

verus! {

/// The edge on a line. Comments, blank lines and lines that do not begin with two numbers have
/// none.
pub open spec fn edge_on(line: Seq<char>) -> Option<(usize, usize)> {
    let words = words_of(line);
    if line.len() > 0 && (line[0] == '#' || line[0] == '%') {
        None
    } else if words.len() < 2 {
        None
    } else {
        match (number_of(words[0]), number_of(words[1])) {
            (Some(u), Some(v)) => Some((u, v)),
            _ => None,
        }
    }
}

/// The edges on lines, in order.
pub open spec fn edges_on(lines: Seq<Seq<char>>) -> Seq<(usize, usize)>
    decreases lines.len(),
{
    if lines.len() == 0 {
        Seq::empty()
    } else {
        let earlier = edges_on(lines.drop_last());
        match edge_on(lines.last()) {
            Some(e) => earlier.push(e),
            None => earlier,
        }
    }
}

/// The edges that a text lists, in order.
pub open spec fn edges_of(text: Seq<char>) -> Seq<(usize, usize)> {
    edges_on(pieces(text, '\n'))
}

/// The highest node that edges name, or zero.
pub open spec fn top_node(edges: Seq<(usize, usize)>) -> usize
    decreases edges.len(),
{
    if edges.len() == 0 {
        0
    } else {
        let top = top_node(edges.drop_last());
        let (u, v) = edges.last();
        let top = if u > top {
            u
        } else {
            top
        };
        if v > top {
            v
        } else {
            top
        }
    }
}

/// The nodes to which edges lead from `u`, in order.
pub open spec fn targets(edges: Seq<(usize, usize)>, u: int) -> Seq<usize>
    decreases edges.len(),
{
    if edges.len() == 0 {
        Seq::empty()
    } else {
        let earlier = targets(edges.drop_last(), u);
        if edges.last().0 == u {
            earlier.push(edges.last().1)
        } else {
            earlier
        }
    }
}

/// The neighbor lists that edges make up: a node for every number up to the highest, with its
/// edges in order.
pub open spec fn rows_of(edges: Seq<(usize, usize)>, num_nodes: nat) -> Seq<Seq<usize>> {
    Seq::new(num_nodes, |u: int| targets(edges, u))
}

/// The edges that start in a range of nodes.
pub open spec fn starting_in(start: usize, end: usize) -> spec_fn((usize, usize)) -> bool {
    |e: (usize, usize)| start <= e.0 < end
}

/// No edge names a node above the highest.
pub proof fn lemma_top_node(edges: Seq<(usize, usize)>)
    ensures
        forall|i: int|
            0 <= i < edges.len() ==> (#[trigger] edges[i]).0 <= top_node(edges) && edges[i].1
                <= top_node(edges),
    decreases edges.len(),
{
    if edges.len() > 0 {
        let rest = edges.drop_last();
        lemma_top_node(rest);
        assert forall|i: int| 0 <= i < edges.len() implies (#[trigger] edges[i]).0 <= top_node(
            edges,
        ) && edges[i].1 <= top_node(edges) by {
            if i < rest.len() {
                assert(rest[i] == edges[i]);
            }
        }
    }
}

/// Every target is the end of some edge.
pub proof fn lemma_targets_named(edges: Seq<(usize, usize)>, u: int)
    ensures
        forall|i: int|
            0 <= i < targets(edges, u).len() ==> exists|j: int|
                0 <= j < edges.len() && #[trigger] edges[j] == (u as usize, #[trigger] targets(
                    edges,
                    u,
                )[i]),
    decreases edges.len(),
{
    if edges.len() > 0 {
        let rest = edges.drop_last();
        lemma_targets_named(rest, u);
        let all = targets(edges, u);
        assert forall|i: int| 0 <= i < all.len() implies exists|j: int|
            0 <= j < edges.len() && #[trigger] edges[j] == (u as usize, #[trigger] all[i]) by {
            let earlier = targets(rest, u);
            if i < earlier.len() {
                assert(all[i] == earlier[i]);
                let j = choose|j: int|
                    0 <= j < rest.len() && #[trigger] rest[j] == (u as usize, earlier[i]);
                assert(edges[j] == (u as usize, all[i]));
            } else {
                assert(edges[edges.len() - 1] == (u as usize, all[i]));
            }
        }
    }
}

/// Edges that start in a range give the nodes of the range all their targets, and the others
/// none.
pub proof fn lemma_targets_in_range(
    edges: Seq<(usize, usize)>,
    start: usize,
    end: usize,
    u: int,
)
    ensures
        targets(edges.filter(starting_in(start, end)), u) == (if start <= u < end {
            targets(edges, u)
        } else {
            Seq::empty()
        }),
    decreases edges.len(),
{
    reveal(Seq::filter);
    if edges.len() > 0 {
        let rest = edges.drop_last();
        lemma_targets_in_range(rest, start, end, u);
        let keep = starting_in(start, end);
        if keep(edges.last()) {
            let kept = rest.filter(keep);
            assert(edges.filter(keep) == kept.push(edges.last()));
            assert(kept.push(edges.last()).drop_last() =~= kept);
        }
    }
}

/// Reads the edge off a line.
fn parse_line(line: &[char]) -> (edge: Option<(usize, usize)>)
    ensures
        edge == edge_on(line@),
{
    if line.len() > 0 && (line[0] == '#' || line[0] == '%') {
        return None;
    }
    let words = split_words(line);
    assert(words_of(line@).len() == words@.len());
    if words.len() < 2 {
        return None;
    }
    assert(words_of(line@)[0] == words@[0]@);
    assert(words_of(line@)[1] == words@[1]@);
    match (parse_number(words[0].as_slice()), parse_number(words[1].as_slice())) {
        (Some(u), Some(v)) => Some((u, v)),
        _ => None,
    }
}

/// Reads the edges off an edge list. Bytes that are no text list nothing.
pub fn parse_edges(contents: &[u8]) -> (edges: Option<Vec<(usize, usize)>>)
    ensures
        edges is Some <==> valid_utf8(contents@),
        edges is Some ==> edges->0@ == edges_of(decode_utf8(contents@)),
{
    let text: Vec<char> = match decode(contents) {
        Some(text) => text,
        None => {
            return None;
        },
    };
    let mut edges: Vec<(usize, usize)> = Vec::new();
    let mut line: Vec<char> = Vec::new();
    let mut i: usize = 0;
    proof {
        assert(text@.take(0) =~= Seq::<char>::empty());
        assert(pieces(text@.take(0), '\n').drop_last() =~= Seq::<Seq<char>>::empty());
        assert(line@ =~= pieces(text@.take(0), '\n').last());
    }
    while i < text.len()
        invariant
            i <= text.len(),
            pieces(text@.take(i as int), '\n').len() > 0,
            line@ == pieces(text@.take(i as int), '\n').last(),
            edges@ == edges_on(pieces(text@.take(i as int), '\n').drop_last()),
        decreases text.len() - i,
    {
        let c: char = text[i];
        let ghost lines = pieces(text@.take(i as int), '\n');
        proof {
            assert(text@.take(i + 1).drop_last() =~= text@.take(i as int));
            assert(text@.take(i + 1).last() == c);
        }
        if c == '\n' {
            proof {
                assert(lines.push(Seq::empty()).drop_last() =~= lines);
            }
            match parse_line(line.as_slice()) {
                Some(edge) => {
                    edges.push(edge);
                },
                None => {},
            }
            line.clear();
            assert(line@ =~= Seq::<char>::empty());
        } else {
            line.push(c);
            assert(lines.drop_last().push(lines.last().push(c)).drop_last() =~= lines.drop_last());
        }
        i = i + 1;
    }
    assert(text@.take(text@.len() as int) =~= text@);
    match parse_line(line.as_slice()) {
        Some(edge) => {
            edges.push(edge);
        },
        None => {},
    }
    Some(edges)
}

/// The highest node that edges name, or zero.
pub fn highest_node(edges: &[(usize, usize)]) -> (top: usize)
    ensures
        top == top_node(edges@),
{
    let mut max_node: usize = 0;
    let mut i: usize = 0;
    assert(edges@.take(0) =~= Seq::<(usize, usize)>::empty());
    while i < edges.len()
        invariant
            i <= edges.len(),
            max_node == top_node(edges@.take(i as int)),
        decreases edges.len() - i,
    {
        let (u, v) = edges[i];
        assert(edges@.take(i + 1).drop_last() =~= edges@.take(i as int));
        if u > max_node {
            max_node = u;
        }
        if v > max_node {
            max_node = v;
        }
        i = i + 1;
    }
    assert(edges@.take(edges@.len() as int) =~= edges@);
    max_node
}

/// Keeps the edges that start in a range of nodes.
pub fn keep_range(edges: &[(usize, usize)], start_node: usize, end_node: usize) -> (kept: Vec<
    (usize, usize),
>)
    ensures
        kept@ == edges@.filter(starting_in(start_node, end_node)),
{
    let mut kept: Vec<(usize, usize)> = Vec::new();
    let ghost keep = starting_in(start_node, end_node);
    let mut i: usize = 0;
    proof {
        reveal(Seq::filter);
        assert(edges@.take(0) =~= Seq::<(usize, usize)>::empty());
        assert(kept@ =~= edges@.take(0).filter(keep));
    }
    while i < edges.len()
        invariant
            i <= edges.len(),
            keep == starting_in(start_node, end_node),
            kept@ == edges@.take(i as int).filter(keep),
        decreases edges.len() - i,
    {
        let (u, v) = edges[i];
        proof {
            reveal(Seq::filter);
            assert(edges@.take(i + 1).drop_last() =~= edges@.take(i as int));
            assert(edges@.take(i + 1).last() == (u, v));
        }
        if u >= start_node && u < end_node {
            kept.push((u, v));
        }
        i = i + 1;
    }
    assert(edges@.take(edges@.len() as int) =~= edges@);
    kept
}

/// A line with two numbers on it lists their edge, whatever blanks stand before, between and
/// behind them, and whatever follows the second number and a blank.
pub proof fn line_lists_edge(
    lead: Seq<char>,
    first: Seq<char>,
    gap: Seq<char>,
    second: Seq<char>,
    tail: Seq<char>,
    u: usize,
    v: usize,
)
    requires
        all_blank(lead),
        is_word(first) && number_of(first) == Some(u),
        gap.len() > 0 && all_blank(gap),
        is_word(second) && number_of(second) == Some(v),
        tail.len() == 0 || blank(tail[0]),
    ensures
        edge_on(lead + first + gap + second + tail) == Some((u, v)),
{
    let line = lead + first + gap + second + tail;
    let rest = gap + second + tail;
    assert(line =~= lead + first + rest);
    assert(blank(gap[0]) && rest[0] == gap[0]);
    first_word_of(gap, second, tail);
    first_word_of(lead, first, rest);
    assert(words_of(line)[0] == first);
    assert(words_of(line)[1] == second);
    if lead.len() > 0 {
        assert(line[0] == lead[0]);
        assert(blank(lead[0]));
    } else {
        assert(line[0] == first[0]);
        let digits = unsigned_part(first);
        assert('0' <= digits[0] <= '9');
    }
}

/// A line on which two nodes are written in decimal digits lists their edge, whatever blanks
/// separate them.
pub proof fn written_line_lists_edge(u: usize, gap: Seq<char>, v: usize, tail: Seq<char>)
    requires
        gap.len() > 0 && all_blank(gap),
        tail.len() == 0 || blank(tail[0]),
    ensures
        edge_on(decimal_of(u as nat) + gap + decimal_of(v as nat) + tail) == Some((u, v)),
{
    decimal_is_word(u as nat);
    decimal_is_word(v as nat);
    decimal_round_trip(u as nat);
    decimal_round_trip(v as nat);
    let none = Seq::<char>::empty();
    line_lists_edge(none, decimal_of(u as nat), gap, decimal_of(v as nat), tail, u, v);
    assert(none + decimal_of(u as nat) =~= decimal_of(u as nat));
}

/// A comment lists nothing.
pub proof fn comment_lists_nothing(line: Seq<char>)
    requires
        line.len() > 0,
        line[0] == '#' || line[0] == '%',
    ensures
        edge_on(line) is None,
{
}

/// Neither a blank line nor one with a single word lists anything.
pub proof fn short_line_lists_nothing(lead: Seq<char>, word: Seq<char>, tail: Seq<char>)
    requires
        all_blank(lead),
        is_word(word) || word.len() == 0,
        all_blank(tail),
    ensures
        edge_on(lead + word + tail) is None,
{
    blanks_have_no_words(tail);
    if word.len() == 0 {
        blanks_have_no_words(lead);
        assert(lead + word =~= lead);
        if lead.len() > 0 && tail.len() > 0 {
            assert(blank(tail[0]));
        }
        words_of_two(lead, tail);
    } else {
        if tail.len() > 0 {
            assert(blank(tail[0]));
        }
        first_word_of(lead, word, tail);
    }
}

/// A line of which one of the first two words is no number lists nothing.
pub proof fn line_without_numbers_lists_nothing(
    lead: Seq<char>,
    first: Seq<char>,
    gap: Seq<char>,
    second: Seq<char>,
    tail: Seq<char>,
)
    requires
        all_blank(lead),
        is_word(first),
        gap.len() > 0 && all_blank(gap),
        is_word(second),
        tail.len() == 0 || blank(tail[0]),
        number_of(first) is None || number_of(second) is None,
    ensures
        edge_on(lead + first + gap + second + tail) is None,
{
    let line = lead + first + gap + second + tail;
    let rest = gap + second + tail;
    assert(line =~= lead + first + rest);
    assert(blank(gap[0]) && rest[0] == gap[0]);
    first_word_of(gap, second, tail);
    first_word_of(lead, first, rest);
    assert(words_of(line)[0] == first);
    assert(words_of(line)[1] == second);
}

/// The edges on more lines.
proof fn lemma_edges_on_more(a: Seq<Seq<char>>, b: Seq<Seq<char>>)
    ensures
        edges_on(a + b) == edges_on(a) + edges_on(b),
    decreases b.len(),
{
    if b.len() == 0 {
        assert(a + b =~= a);
        assert(edges_on(a) + edges_on(b) =~= edges_on(a));
    } else {
        lemma_edges_on_more(a, b.drop_last());
        assert((a + b).drop_last() =~= a + b.drop_last());
        assert(edges_on(a + b) =~= edges_on(a) + edges_on(b));
    }
}

/// Text before a line end and behind it lists the edges of both, in order.
pub proof fn edges_of_two(a: Seq<char>, b: Seq<char>)
    ensures
        edges_of(a.push('\n') + b) == edges_of(a) + edges_of(b),
{
    pieces_of_two(a, b, '\n');
    lemma_edges_on_more(pieces(a, '\n'), pieces(b, '\n'));
}

/// A line alone lists its edge, if it has one.
pub proof fn edges_of_line(line: Seq<char>)
    requires
        !line.contains('\n'),
    ensures
        edges_of(line) == (match edge_on(line) {
            Some(e) => seq![e],
            None => Seq::empty(),
        }),
{
    one_piece(line, '\n');
    let lines = seq![line];
    assert(lines.drop_last() =~= Seq::<Seq<char>>::empty());
    assert(edges_on(lines.drop_last()) =~= Seq::<(usize, usize)>::empty());
    assert(edges_on(lines) =~= (match edge_on(line) {
        Some(e) => seq![e],
        None => Seq::empty(),
    }));
}

/// Edges written down, one on each line, with the blanks of `gaps` between the two nodes.
pub open spec fn written_edges(edges: Seq<(usize, usize)>, gaps: Seq<Seq<char>>) -> Seq<char>
    decreases edges.len(),
{
    if edges.len() == 0 {
        Seq::empty()
    } else {
        let k = edges.len() - 1;
        written_edges(edges.drop_last(), gaps) + (decimal_of(edges[k].0 as nat) + gaps[k]
            + decimal_of(edges[k].1 as nat)).push('\n')
    }
}

/// Blanks that can stand between the two nodes of an edge: any but a line end.
pub open spec fn is_gap(text: Seq<char>) -> bool {
    text.len() > 0 && all_blank(text) && !text.contains('\n')
}

/// Edges that were written down are read back, edge for edge, whatever blanks separate the
/// nodes.
pub proof fn written_edges_are_read(edges: Seq<(usize, usize)>, gaps: Seq<Seq<char>>)
    requires
        gaps.len() >= edges.len(),
        forall|i: int| 0 <= i < edges.len() ==> is_gap(#[trigger] gaps[i]),
    ensures
        edges_of(written_edges(edges, gaps)) == edges,
    decreases edges.len(),
{
    if edges.len() == 0 {
        let none = Seq::<char>::empty();
        edges_of_line(none);
        assert(words_of(none).len() == 0);
        assert(edges_of(none) =~= edges);
    } else {
        let k = edges.len() - 1;
        let (u, v) = edges[k];
        let rest = edges.drop_last();
        let head = written_edges(rest, gaps);
        let line = decimal_of(u as nat) + gaps[k] + decimal_of(v as nat);
        let none = Seq::<char>::empty();
        assert(is_gap(gaps[k]));
        written_edges_are_read(rest, gaps);
        written_line_lists_edge(u, gaps[k], v, none);
        assert(line + none =~= line);
        decimal_is_word(u as nat);
        decimal_is_word(v as nat);
        assert(!line.contains('\n')) by {
            if line.contains('\n') {
                let i = choose|i: int| 0 <= i < line.len() && line[i] == '\n';
                let a = decimal_of(u as nat);
                let g = gaps[k];
                if i < a.len() {
                    assert(!blank(a[i]));
                } else if i < a.len() + g.len() {
                    assert(g[i - a.len()] == '\n');
                } else {
                    assert(!blank(decimal_of(v as nat)[i - a.len() - g.len()]));
                }
            }
        }
        edges_of_line(line);
        edges_of_line(none);
        edges_of_two(line, none);
        assert(line.push('\n') + none =~= line.push('\n'));
        assert(words_of(none).len() == 0);
        lemma_ends_line(rest, gaps, line.push('\n'));
        assert(edges_of(written_edges(edges, gaps)) =~= edges);
    }
}

/// What follows written edges lists its own edges behind theirs.
proof fn lemma_ends_line(edges: Seq<(usize, usize)>, gaps: Seq<Seq<char>>, more: Seq<char>)
    ensures
        edges_of(written_edges(edges, gaps) + more) == edges_of(written_edges(edges, gaps))
            + edges_of(more),
{
    let head = written_edges(edges, gaps);
    let none = Seq::<char>::empty();
    edges_of_line(none);
    assert(words_of(none).len() == 0);
    assert(edges_of(none) =~= Seq::<(usize, usize)>::empty());
    if edges.len() == 0 {
        assert(head + more =~= more);
        assert(edges_of(head) + edges_of(more) =~= edges_of(more));
    } else {
        let cut = head.drop_last();
        assert(head.last() == '\n');
        assert(head =~= cut.push('\n'));
        edges_of_two(cut, more);
        edges_of_two(cut, none);
        assert(head + none =~= head);
        assert(edges_of(cut) + edges_of(none) =~= edges_of(cut));
    }
}

/// The highest node is named by an edge, unless there are none, and no edge names a higher one.
pub proof fn top_node_is_highest(edges: Seq<(usize, usize)>)
    ensures
        forall|i: int|
            0 <= i < edges.len() ==> (#[trigger] edges[i]).0 <= top_node(edges) && edges[i].1
                <= top_node(edges),
        edges.len() == 0 ==> top_node(edges) == 0,
        edges.len() > 0 ==> exists|i: int|
            0 <= i < edges.len() && ((#[trigger] edges[i]).0 == top_node(edges) || edges[i].1
                == top_node(edges)),
    decreases edges.len(),
{
    lemma_top_node(edges);
    if edges.len() > 0 {
        let rest = edges.drop_last();
        top_node_is_highest(rest);
        let (u, v) = edges.last();
        assert(edges[edges.len() - 1] == (u, v));
        if top_node(edges) != u && top_node(edges) != v {
            assert(top_node(edges) == top_node(rest));
            if rest.len() > 0 {
                let i = choose|i: int|
                    0 <= i < rest.len() && ((#[trigger] rest[i]).0 == top_node(rest) || rest[i].1
                        == top_node(rest));
                assert(edges[i] == rest[i]);
            }
        }
    }
}

/// The test for edges that start at `u`.
pub open spec fn starts_at(u: int) -> spec_fn((usize, usize)) -> bool {
    |e: (usize, usize)| e.0 == u
}

/// The edges that start at `u`, in order.
pub open spec fn starting_at(edges: Seq<(usize, usize)>, u: int) -> Seq<(usize, usize)> {
    edges.filter(starts_at(u))
}

/// Where edges end, in order.
pub open spec fn ends_of(edges: Seq<(usize, usize)>) -> Seq<usize> {
    edges.map_values(|e: (usize, usize)| e.1)
}

/// The neighbors of a node are the ends of the edges that start there, in order.
pub proof fn targets_are_ends(edges: Seq<(usize, usize)>, u: int)
    ensures
        targets(edges, u) == ends_of(starting_at(edges, u)),
    decreases edges.len(),
{
    reveal(Seq::filter);
    if edges.len() == 0 {
        assert(targets(edges, u) =~= ends_of(starting_at(edges, u)));
    } else {
        let rest = edges.drop_last();
        targets_are_ends(rest, u);
        if edges.last().0 == u {
            assert(starting_at(edges, u) == starting_at(rest, u).push(edges.last()));
            assert(ends_of(starting_at(rest, u).push(edges.last())) =~= ends_of(
                starting_at(rest, u),
            ).push(edges.last().1));
        } else {
            assert(starting_at(edges, u) == starting_at(rest, u));
        }
    }
}

} // verus!

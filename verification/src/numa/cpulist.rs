//! Lists of processors, and which of them a thread is bound to.

use vstd::prelude::*;

use crate::text::{
    all_blank, blank, chars_of, decimal_is_word, decimal_of, decimal_round_trip, is_blank,
    number_of, one_piece, parse_number, parts_are_found, pieces, pieces_of_two, rejoined, spelled,
    split_at_each,
};

verus! {

/// Text without the blanks at its end.
pub open spec fn without_trailing(text: Seq<char>) -> Seq<char>
    decreases text.len(),
{
    if text.len() > 0 && blank(text.last()) {
        without_trailing(text.drop_last())
    } else {
        text
    }
}

/// Text without the blanks at its start.
pub open spec fn without_leading(text: Seq<char>) -> Seq<char>
    decreases text.len(),
{
    if text.len() > 0 && blank(text[0]) {
        without_leading(text.drop_first())
    } else {
        text
    }
}

/// The numbers from one to another, both included.
pub open spec fn numbers_from(start: usize, end: usize) -> Seq<usize> {
    if start <= end {
        Seq::new((end - start + 1) as nat, |i: int| (start + i) as usize)
    } else {
        Seq::empty()
    }
}

/// The processors that an item of a list names: one number, or a range of numbers. What is
/// neither names none.
pub open spec fn item_cpus(item: Seq<char>) -> Seq<usize> {
    let bounds = pieces(item, '-');
    if bounds.len() == 1 {
        match number_of(bounds[0]) {
            Some(c) => seq![c],
            None => Seq::empty(),
        }
    } else if bounds.len() == 2 {
        match (number_of(bounds[0]), number_of(bounds[1])) {
            (Some(start), Some(end)) => numbers_from(start, end),
            _ => Seq::empty(),
        }
    } else {
        Seq::empty()
    }
}

/// The processors that items name, item by item.
pub open spec fn items_cpus(items: Seq<Seq<char>>) -> Seq<usize>
    decreases items.len(),
{
    if items.len() == 0 {
        Seq::empty()
    } else {
        items_cpus(items.drop_last()) + item_cpus(items.last())
    }
}

/// The processors that a list names, such as `0-3,8`.
pub open spec fn cpus_of(text: Seq<char>) -> Seq<usize> {
    items_cpus(pieces(without_leading(without_trailing(text)), ','))
}

/// Adds the numbers from one to another, both included.
fn push_range(cpus: &mut Vec<usize>, start: usize, end: usize)
    ensures
        final(cpus)@ == old(cpus)@ + numbers_from(start, end),
{
    let ghost before = cpus@;
    if start > end {
        assert(cpus@ =~= before + numbers_from(start, end));
        return;
    }
    let mut c: usize = start;
    while c < end
        invariant
            start <= c <= end,
            cpus@ =~= before + numbers_from(start, end).take(c - start),
        decreases end - c,
    {
        cpus.push(c);
        c = c + 1;
    }
    cpus.push(c);
    assert(cpus@ =~= before + numbers_from(start, end));
}

/// Adds the processors that an item of a list names.
fn push_item(cpus: &mut Vec<usize>, item: &[char])
    ensures
        final(cpus)@ == old(cpus)@ + item_cpus(item@),
{
    let ghost before = cpus@;
    let bounds = split_at_each(item, '-');
    assert(pieces(item@, '-').len() == bounds@.len());
    if bounds.len() == 1 {
        assert(pieces(item@, '-')[0] == bounds@[0]@);
        match parse_number(bounds[0].as_slice()) {
            Some(c) => {
                cpus.push(c);
            },
            None => {},
        }
    } else if bounds.len() == 2 {
        assert(pieces(item@, '-')[0] == bounds@[0]@);
        assert(pieces(item@, '-')[1] == bounds@[1]@);
        match (parse_number(bounds[0].as_slice()), parse_number(bounds[1].as_slice())) {
            (Some(start), Some(end)) => {
                push_range(cpus, start, end);
            },
            _ => {},
        }
    }
    assert(cpus@ =~= before + item_cpus(item@));
}

/// Reads a list of processors.
pub fn parse_cpulist(s: &str) -> (cpus: Vec<usize>)
    ensures
        cpus@ == cpus_of(s@),
{
    let text = chars_of(s);
    let mut end: usize = text.len();
    assert(text@.take(end as int) =~= text@);
    while end > 0 && is_blank(text[end - 1])
        invariant
            end <= text@.len(),
            without_trailing(text@.take(end as int)) == without_trailing(s@),
        decreases end,
    {
        assert(text@.take(end as int).drop_last() =~= text@.take(end - 1));
        end = end - 1;
    }
    let ghost cut = text@.take(end as int);
    assert(cut == without_trailing(s@));
    let mut start: usize = 0;
    assert(cut.skip(0) =~= cut);
    while start < end && is_blank(text[start])
        invariant
            start <= end <= text@.len(),
            cut == text@.take(end as int),
            without_leading(cut.skip(start as int)) == without_leading(cut),
        decreases end - start,
    {
        assert(cut.skip(start as int).drop_first() =~= cut.skip(start + 1));
        start = start + 1;
    }
    let inner = vstd::slice::slice_subrange(text.as_slice(), start, end);
    assert(inner@ =~= cut.skip(start as int));
    let items = split_at_each(inner, ',');
    let ghost parts = pieces(inner@, ',');
    let mut cpus: Vec<usize> = Vec::new();
    let mut k: usize = 0;
    assert(parts.take(0) =~= Seq::<Seq<char>>::empty());
    while k < items.len()
        invariant
            k <= items@.len(),
            parts == spelled(items@),
            cpus@ == items_cpus(parts.take(k as int)),
        decreases items.len() - k,
    {
        proof {
            assert(parts.take(k + 1).drop_last() =~= parts.take(k as int));
            assert(parts.take(k + 1).last() == items@[k as int]@);
        }
        push_item(&mut cpus, items[k].as_slice());
        k = k + 1;
    }
    assert(parts.take(parts.len() as int) =~= parts);
    cpus
}

/// The processors of a node, where its list names any.
pub fn known_cpus(cpulist: &str) -> (cpus: Option<Vec<usize>>)
    ensures
        cpus is None <==> cpus_of(cpulist@).len() == 0,
        cpus is Some ==> cpus->0@ == cpus_of(cpulist@),
{
    let parsed = parse_cpulist(cpulist);
    if parsed.len() == 0 {
        None
    } else {
        Some(parsed)
    }
}

/// The other one of two nodes.
pub open spec fn other_of(numa_node: usize) -> usize {
    if numa_node == 0 {
        1
    } else {
        0
    }
}

/// The node of a thread of a pool over two nodes.
pub open spec fn node_of_thread(thread_idx: usize) -> usize {
    if thread_idx == 0 {
        0
    } else {
        1
    }
}

/// The processors for one of several threads, or for a single one.
pub open spec fn bound_cpus(
    multi_thread: bool,
    thread_idx: usize,
    cpus: Seq<usize>,
    other_cpus: Option<Vec<usize>>,
) -> Seq<usize> {
    if !multi_thread {
        cpus
    } else if thread_idx == 1 && other_cpus is Some {
        seq![other_cpus->0@[0]]
    } else {
        seq![cpus[0]]
    }
}

/// The other one of two nodes.
pub fn other_node(numa_node: usize) -> (other: usize)
    ensures
        other == other_of(numa_node),
        other == (if numa_node == 0 {
            1usize
        } else {
            0usize
        }),
{
    if numa_node == 0 {
        1
    } else {
        0
    }
}

/// The node of a thread of a pool over two nodes: the first thread goes to node 0, every other
/// to node 1.
pub fn thread_node(thread_idx: usize) -> (node: usize)
    ensures
        node == node_of_thread(thread_idx),
        node == (if thread_idx == 0 {
            0usize
        } else {
            1usize
        }),
{
    if thread_idx == 0 {
        0
    } else {
        1
    }
}

/// The processors that a thread is bound to. Where there is one thread, all of its node.
/// Where there are two, each gets the first one of a node: the first thread of its own node
/// and the second thread of the other one, if that is known.
pub fn thread_cpus(
    multi_thread: bool,
    thread_idx: usize,
    cpus: &Vec<usize>,
    other_cpus: &Option<Vec<usize>>,
) -> (bound: Vec<usize>)
    requires
        cpus@.len() > 0,
        other_cpus is Some ==> other_cpus->0@.len() > 0,
    ensures
        bound@ == bound_cpus(multi_thread, thread_idx, cpus@, *other_cpus),
        bound@ == (if !multi_thread {
            cpus@
        } else if thread_idx == 1 && other_cpus is Some {
            seq![other_cpus->0@[0]]
        } else {
            seq![cpus@[0]]
        }),
{
    if !multi_thread {
        let bound = cpus.clone();
        assert(bound@ =~= cpus@);
        return bound;
    }
    let mut bound: Vec<usize> = Vec::new();
    if thread_idx == 1 {
        match other_cpus {
            Some(other) => {
                bound.push(other[0]);
            },
            None => {
                bound.push(cpus[0]);
            },
        }
    } else {
        bound.push(cpus[0]);
    }
    assert(bound@.len() == 1);
    bound
}

/// A range as it stands in a list.
pub open spec fn written_range(start: usize, end: usize) -> Seq<char> {
    decimal_of(start as nat).push('-') + decimal_of(end as nat)
}

/// Digits hold neither the sign of a range nor that between items.
proof fn lemma_decimal_is_plain(n: nat)
    ensures
        !decimal_of(n).contains('-'),
        !decimal_of(n).contains(','),
{
    decimal_round_trip(n);
    let word = decimal_of(n);
    assert forall|i: int| 0 <= i < word.len() implies word[i] != '-' && word[i] != ',' by {
        assert('0' <= word[i] <= '9');
    }
}

/// A number in a list names one processor.
pub proof fn number_names_processor(c: usize)
    ensures
        item_cpus(decimal_of(c as nat)) == seq![c],
{
    lemma_decimal_is_plain(c as nat);
    decimal_round_trip(c as nat);
    one_piece(decimal_of(c as nat), '-');
}

/// A range in a list names all processors from its start to its end, both included, one after
/// the other: as many as there are, each one more than the one before. Where the start is behind
/// the end it names none.
pub proof fn range_names_processors(start: usize, end: usize)
    ensures
        start > end ==> item_cpus(written_range(start, end)).len() == 0,
        start <= end ==> item_cpus(written_range(start, end)).len() == end - start + 1,
        forall|i: int|
            0 <= i < item_cpus(written_range(start, end)).len() ==> #[trigger] item_cpus(
                written_range(start, end),
            )[i] == start + i,
        forall|c: usize| #[trigger]
            item_cpus(written_range(start, end)).contains(c) <==> start <= c <= end,
{
    let a = decimal_of(start as nat);
    let b = decimal_of(end as nat);
    lemma_decimal_is_plain(start as nat);
    lemma_decimal_is_plain(end as nat);
    decimal_round_trip(start as nat);
    decimal_round_trip(end as nat);
    one_piece(a, '-');
    one_piece(b, '-');
    pieces_of_two(a, b, '-');
    let item = written_range(start, end);
    assert(pieces(item, '-') =~= seq![a, b]);
    let cpus = item_cpus(item);
    assert forall|c: usize| #[trigger] cpus.contains(c) <==> start <= c <= end by {
        if start <= c <= end {
            assert(cpus[c - start] == c);
        }
    }
}

/// An item that is no number and has no range sign in it names nothing.
pub proof fn junk_names_nothing(item: Seq<char>)
    requires
        !item.contains('-'),
        number_of(item) is None,
    ensures
        item_cpus(item).len() == 0,
{
    one_piece(item, '-');
}

/// An item with a range sign that does not stand between two numbers names nothing, nor does one
/// with more such signs.
pub proof fn broken_range_names_nothing(first: Seq<char>, rest: Seq<char>)
    requires
        !first.contains('-'),
        number_of(first) is None || number_of(rest) is None,
    ensures
        item_cpus(first.push('-') + rest).len() == 0,
{
    one_piece(first, '-');
    pieces_of_two(first, rest, '-');
    let parts = pieces(rest, '-');
    let bounds = pieces(first.push('-') + rest, '-');
    assert(bounds =~= seq![first] + parts);
    if bounds.len() == 2 {
        lemma_single_piece(rest, '-');
        assert(bounds[1] == rest);
    }
    if bounds.len() == 1 {
        lemma_single_piece(rest, '-');
    }
}

/// Text that is one piece is that piece, and there is always one.
proof fn lemma_single_piece(text: Seq<char>, separator: char)
    ensures
        pieces(text, separator).len() > 0,
        pieces(text, separator).len() == 1 ==> pieces(text, separator)[0] == text,
    decreases text.len(),
{
    if text.len() > 0 {
        let rest = text.drop_last();
        lemma_single_piece(rest, separator);
        if pieces(text, separator).len() == 1 && text.last() != separator {
            assert(rest.push(text.last()) =~= text);
        }
    }
}

/// The processors of items and then of others.
pub proof fn items_name_in_order(a: Seq<Seq<char>>, b: Seq<Seq<char>>)
    ensures
        items_cpus(a + b) == items_cpus(a) + items_cpus(b),
    decreases b.len(),
{
    if b.len() == 0 {
        assert(a + b =~= a);
        assert(items_cpus(a) + items_cpus(b) =~= items_cpus(a));
    } else {
        items_name_in_order(a, b.drop_last());
        assert((a + b).drop_last() =~= a + b.drop_last());
        assert(items_cpus(a + b) =~= items_cpus(a) + items_cpus(b));
    }
}

/// One item names its processors.
pub proof fn one_item_names_its_own(item: Seq<char>)
    ensures
        items_cpus(seq![item]) == item_cpus(item),
{
    assert(seq![item].drop_last() =~= Seq::<Seq<char>>::empty());
    assert(items_cpus(seq![item].drop_last()) =~= Seq::<usize>::empty());
    assert(items_cpus(seq![item]) =~= item_cpus(item));
}

/// The text neither begins nor ends with a blank.
pub open spec fn bare_ends(text: Seq<char>) -> bool {
    text.len() > 0 && !blank(text[0]) && !blank(text.last())
}

/// Blanks around text are taken off.
proof fn lemma_trimmed(lead: Seq<char>, text: Seq<char>, trail: Seq<char>)
    requires
        all_blank(lead),
        bare_ends(text),
        all_blank(trail),
    ensures
        without_leading(without_trailing(lead + text + trail)) == text,
    decreases lead.len() + trail.len(),
{
    let whole = lead + text + trail;
    if trail.len() > 0 {
        let less = trail.drop_last();
        assert(blank(trail[trail.len() - 1]));
        assert forall|i: int| 0 <= i < less.len() implies blank(#[trigger] less[i]) by {
            assert(blank(trail[i]));
        }
        lemma_trimmed(lead, text, less);
        assert(whole.drop_last() =~= lead + text + less);
    } else {
        assert(whole =~= lead + text);
        assert(whole.last() == text.last());
        assert(without_trailing(whole) == whole);
        lemma_leading(lead, text);
    }
}

/// Blanks before text are taken off.
proof fn lemma_leading(lead: Seq<char>, text: Seq<char>)
    requires
        all_blank(lead),
        bare_ends(text),
    ensures
        without_leading(lead + text) == text,
    decreases lead.len(),
{
    if lead.len() > 0 {
        let less = lead.drop_first();
        assert(blank(lead[0]));
        assert forall|i: int| 0 <= i < less.len() implies blank(#[trigger] less[i]) by {
            assert(blank(lead[i + 1]));
        }
        lemma_leading(less, text);
        assert((lead + text).drop_first() =~= less + text);
    } else {
        assert(lead + text =~= text);
    }
}

/// A list of items joined by commas names the processors of its items in order, whatever blanks
/// stand around it.
pub proof fn list_names_items(lead: Seq<char>, items: Seq<Seq<char>>, trail: Seq<char>)
    requires
        items.len() > 0,
        forall|i: int| 0 <= i < items.len() ==> !(#[trigger] items[i]).contains(','),
        all_blank(lead),
        bare_ends(rejoined(items, ',')),
        all_blank(trail),
    ensures
        cpus_of(lead + rejoined(items, ',') + trail) == items_cpus(items),
{
    lemma_trimmed(lead, rejoined(items, ','), trail);
    parts_are_found(items, ',');
}

/// The items of ranges.
pub open spec fn written_ranges(ranges: Seq<(usize, usize)>) -> Seq<Seq<char>> {
    Seq::new(ranges.len(), |i: int| written_range(ranges[i].0, ranges[i].1))
}

/// A range as it stands in a list has no comma in it, and begins and ends with a digit.
proof fn lemma_range_is_bare(start: usize, end: usize)
    ensures
        !written_range(start, end).contains(','),
        bare_ends(written_range(start, end)),
{
    let a = decimal_of(start as nat);
    let b = decimal_of(end as nat);
    lemma_decimal_is_plain(start as nat);
    lemma_decimal_is_plain(end as nat);
    decimal_is_word(start as nat);
    decimal_is_word(end as nat);
    let item = written_range(start, end);
    assert(item[0] == a[0]);
    assert(item.last() == b[b.len() - 1]);
    if item.contains(',') {
        let i = choose|i: int| 0 <= i < item.len() && item[i] == ',';
        if i < a.len() {
            assert(a[i] == ',');
        } else if i > a.len() {
            assert(b[i - a.len() - 1] == ',');
        }
    }
}

/// Ranges joined by commas begin and end with a digit.
proof fn lemma_ranges_are_bare(ranges: Seq<(usize, usize)>)
    requires
        ranges.len() > 0,
    ensures
        bare_ends(rejoined(written_ranges(ranges), ',')),
    decreases ranges.len(),
{
    let items = written_ranges(ranges);
    let last = ranges.last();
    lemma_range_is_bare(last.0, last.1);
    assert(items.last() == written_range(last.0, last.1));
    if ranges.len() > 1 {
        let rest = ranges.drop_last();
        lemma_ranges_are_bare(rest);
        assert(items.drop_last() =~= written_ranges(rest));
        let head = rejoined(written_ranges(rest), ',');
        let text = rejoined(items, ',');
        assert(text == head.push(',') + items.last());
        assert(text[0] == head[0]);
        assert(text.last() == items.last().last());
    }
}

/// A list of ranges names a processor exactly where one of the ranges does, whatever blanks stand
/// around the list.
pub proof fn ranges_name_processors(
    lead: Seq<char>,
    ranges: Seq<(usize, usize)>,
    trail: Seq<char>,
    c: usize,
)
    requires
        ranges.len() > 0,
        all_blank(lead),
        all_blank(trail),
    ensures
        cpus_of(lead + rejoined(written_ranges(ranges), ',') + trail).contains(c) <==> exists|
            i: int,
        |
            0 <= i < ranges.len() && (#[trigger] ranges[i]).0 <= c <= ranges[i].1,
{
    let items = written_ranges(ranges);
    assert forall|i: int| 0 <= i < items.len() implies !(#[trigger] items[i]).contains(',') by {
        lemma_range_is_bare(ranges[i].0, ranges[i].1);
    }
    lemma_ranges_are_bare(ranges);
    list_names_items(lead, items, trail);
    lemma_items_contain(ranges, c);
}

/// The processors that the items of ranges name.
proof fn lemma_items_contain(ranges: Seq<(usize, usize)>, c: usize)
    ensures
        items_cpus(written_ranges(ranges)).contains(c) <==> exists|i: int|
            0 <= i < ranges.len() && (#[trigger] ranges[i]).0 <= c <= ranges[i].1,
    decreases ranges.len(),
{
    let items = written_ranges(ranges);
    if ranges.len() > 0 {
        let rest = ranges.drop_last();
        let last = ranges.last();
        lemma_items_contain(rest, c);
        range_names_processors(last.0, last.1);
        assert(items.drop_last() =~= written_ranges(rest));
        assert(items.last() == written_range(last.0, last.1));
        let head = items_cpus(written_ranges(rest));
        let tail = item_cpus(items.last());
        assert(tail.contains(c) <==> last.0 <= c <= last.1);
        let all = head + tail;
        assert(ranges[ranges.len() - 1] == last);
        if all.contains(c) {
            let k = choose|k: int| 0 <= k < all.len() && all[k] == c;
            if k < head.len() {
                assert(head[k] == c);
                let i = choose|i: int|
                    0 <= i < rest.len() && (#[trigger] rest[i]).0 <= c <= rest[i].1;
                assert(ranges[i] == rest[i]);
            } else {
                assert(tail[k - head.len()] == c);
            }
        }
        if exists|i: int| 0 <= i < ranges.len() && (#[trigger] ranges[i]).0 <= c <= ranges[i].1 {
            let i = choose|i: int|
                0 <= i < ranges.len() && (#[trigger] ranges[i]).0 <= c <= ranges[i].1;
            if i < rest.len() {
                assert(rest[i] == ranges[i]);
                let k = choose|k: int| 0 <= k < head.len() && head[k] == c;
                assert(all[k] == c);
            } else {
                let k = choose|k: int| 0 <= k < tail.len() && tail[k] == c;
                assert(all[head.len() + k] == c);
            }
        }
    }
}


/// Each of two nodes is the other one of the other one, and neither of itself. The first thread
/// of a pool is on one of them, and all others are on the other one.
pub proof fn two_nodes_face_each_other(numa_node: usize, thread_idx: usize)
    requires
        numa_node < 2,
    ensures
        other_of(numa_node) < 2,
        other_of(numa_node) != numa_node,
        other_of(other_of(numa_node)) == numa_node,
        node_of_thread(0) == 0,
        thread_idx > 0 ==> node_of_thread(thread_idx) == other_of(node_of_thread(0)),
{
}

/// A single thread may run on every processor of its node, and one of several on one only: the
/// second one on the first processor of the other node, where that is known, and each other one
/// on the first processor of its own. Two threads on nodes that share no processor share none.
pub proof fn threads_keep_to_their_processors(
    thread_idx: usize,
    cpus: Seq<usize>,
    other_cpus: Option<Vec<usize>>,
)
    requires
        cpus.len() > 0,
        other_cpus is Some ==> other_cpus->0@.len() > 0,
    ensures
        bound_cpus(false, thread_idx, cpus, other_cpus) == cpus,
        bound_cpus(true, thread_idx, cpus, other_cpus).len() == 1,
        thread_idx != 1 || other_cpus is None ==> bound_cpus(
            true,
            thread_idx,
            cpus,
            other_cpus,
        )[0] == cpus[0],
        other_cpus is Some ==> bound_cpus(true, 1, cpus, other_cpus)[0] == other_cpus->0@[0],
        other_cpus is Some && !cpus.contains(other_cpus->0@[0]) ==> bound_cpus(
            true,
            0,
            cpus,
            other_cpus,
        ) != bound_cpus(true, 1, cpus, other_cpus),
{
    if other_cpus is Some && !cpus.contains(other_cpus->0@[0]) {
        assert(cpus.contains(cpus[0]));
        assert(bound_cpus(true, 0, cpus, other_cpus)[0] != bound_cpus(true, 1, cpus, other_cpus)[0]);
    }
}

} // verus!

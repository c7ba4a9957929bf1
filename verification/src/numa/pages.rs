//! Writing to every page of a block of memory, so that the pages are really
//! there.

use vstd::prelude::*;

use super::PAGE;

verus! {

/// The block with the first byte of every page set.
pub open spec fn touched(block: Seq<u8>, value: u8) -> Seq<u8> {
    Seq::new(
        block.len(),
        |i: int|
            if i % PAGE as int == 0 {
                value
            } else {
                block[i]
            },
    )
}

/// The block with the first byte of every page counted up.
pub open spec fn bumped(block: Seq<u8>) -> Seq<u8> {
    Seq::new(
        block.len(),
        |i: int|
            if i % PAGE as int == 0 {
                block[i].wrapping_add(1)
            } else {
                block[i]
            },
    )
}

/// The block with the first byte of every whole page counted up.
pub open spec fn bumped_whole(block: Seq<u8>) -> Seq<u8> {
    Seq::new(
        block.len(),
        |i: int|
            if i % PAGE as int == 0 && i + PAGE <= block.len() {
                block[i].wrapping_add(1)
            } else {
                block[i]
            },
    )
}

/// Sets the first byte of every page, also of a last page that is cut off.
pub fn touch_pages(block: &mut Vec<u8>, value: u8)
    ensures
        final(block)@ == touched(old(block)@, value),
        final(block)@.len() == old(block)@.len(),
        forall|i: int|
            0 <= i < old(block)@.len() ==> #[trigger] final(block)@[i] == (if i % PAGE as int
                == 0 {
                value
            } else {
                old(block)@[i]
            }),
{
    let total: usize = block.len();
    let ghost before = block@;
    let mut i: usize = 0;
    while i < total
        invariant
            total == before.len(),
            before == old(block)@,
            block@.len() == before.len(),
            i as int % PAGE as int == 0,
            forall|k: int|
                0 <= k < before.len() ==> #[trigger] block@[k] == (if k % PAGE as int == 0 && k
                    < i {
                    value
                } else {
                    before[k]
                }),
        decreases total - i,
    {
        block[i] = value;
        if total - i <= PAGE {
            assert forall|k: int| 0 <= k < before.len() implies #[trigger] block@[k] == (if k
                % PAGE as int == 0 {
                value
            } else {
                before[k]
            }) by {
                if k > i && k % PAGE as int == 0 {
                    assert((k - i) % PAGE as int == 0);
                }
            }
            return;
        }
        proof {
            assert forall|k: int| 0 <= k < before.len() implies #[trigger] block@[k] == (if k
                % PAGE as int == 0 && k < i + PAGE {
                value
            } else {
                before[k]
            }) by {
                if i < k < i + PAGE && k % PAGE as int == 0 {
                    assert((k - i) % PAGE as int == 0);
                }
            }
        }
        i = i + PAGE;
    }
}

/// Counts the first byte of every page up by one, also of a last page that is cut off.
pub fn bump_pages(block: &mut Vec<u8>)
    ensures
        final(block)@ == bumped(old(block)@),
        final(block)@.len() == old(block)@.len(),
        forall|i: int|
            0 <= i < old(block)@.len() ==> #[trigger] final(block)@[i] == (if i % PAGE as int
                == 0 {
                old(block)@[i].wrapping_add(1)
            } else {
                old(block)@[i]
            }),
{
    let total: usize = block.len();
    bump_pages_below(block, total);
}

/// Counts the first byte of every whole page up by one.
pub fn bump_whole_pages(block: &mut Vec<u8>)
    ensures
        final(block)@ == bumped_whole(old(block)@),
        final(block)@.len() == old(block)@.len(),
        forall|i: int|
            0 <= i < old(block)@.len() ==> #[trigger] final(block)@[i] == (if i % PAGE as int == 0
                && i + PAGE <= old(block)@.len() {
                old(block)@[i].wrapping_add(1)
            } else {
                old(block)@[i]
            }),
{
    let total: usize = block.len();
    let whole: usize = total - total % PAGE;
    let ghost before = block@;
    bump_pages_below(block, whole);
    proof {
        assert forall|i: int| 0 <= i < before.len() implies #[trigger] block@[i] == (if i
            % PAGE as int == 0 && i + PAGE <= before.len() {
            before[i].wrapping_add(1)
        } else {
            before[i]
        }) by {
            if i % PAGE as int == 0 {
                assert((whole - i) % PAGE as int == 0);
            }
        }
    }
}

/// Counts the first byte of every page that begins below `limit` up by one.
fn bump_pages_below(block: &mut Vec<u8>, limit: usize)
    requires
        limit <= old(block)@.len(),
    ensures
        final(block)@.len() == old(block)@.len(),
        forall|i: int|
            0 <= i < old(block)@.len() ==> #[trigger] final(block)@[i] == (if i % PAGE as int == 0
                && i < limit {
                old(block)@[i].wrapping_add(1)
            } else {
                old(block)@[i]
            }),
{
    let ghost before = block@;
    let mut i: usize = 0;
    while i < limit
        invariant
            limit <= before.len(),
            before == old(block)@,
            block@.len() == before.len(),
            i as int % PAGE as int == 0,
            forall|k: int|
                0 <= k < before.len() ==> #[trigger] block@[k] == (if k % PAGE as int == 0 && k < i
                    && k < limit {
                    before[k].wrapping_add(1)
                } else {
                    before[k]
                }),
        decreases limit - i,
    {
        block[i] = block[i].wrapping_add(1);
        if limit - i <= PAGE {
            assert forall|k: int| 0 <= k < before.len() implies #[trigger] block@[k] == (if k
                % PAGE as int == 0 && k < limit {
                before[k].wrapping_add(1)
            } else {
                before[k]
            }) by {
                if i < k < limit && k % PAGE as int == 0 {
                    assert((k - i) % PAGE as int == 0);
                }
            }
            return;
        }
        proof {
            assert forall|k: int| 0 <= k < before.len() implies #[trigger] block@[k] == (if k
                % PAGE as int == 0 && k < i + PAGE && k < limit {
                before[k].wrapping_add(1)
            } else {
                before[k]
            }) by {
                if i < k < i + PAGE && k % PAGE as int == 0 {
                    assert((k - i) % PAGE as int == 0);
                }
            }
        }
        i = i + PAGE;
    }
}


/// Whole pages and what follows them have nothing to do with each other.
pub proof fn pages_are_apart(pages: Seq<u8>, rest: Seq<u8>, value: u8)
    requires
        pages.len() as int % 4096 == 0,
    ensures
        touched(pages + rest, value) == touched(pages, value) + touched(rest, value),
        bumped(pages + rest) == bumped(pages) + bumped(rest),
        bumped_whole(pages + rest) == bumped(pages) + bumped_whole(rest),
{
    assert(touched(pages + rest, value) =~= touched(pages, value) + touched(rest, value));
    assert(bumped(pages + rest) =~= bumped(pages) + bumped(rest));
    assert(bumped_whole(pages + rest) =~= bumped(pages) + bumped_whole(rest));
}

/// Of a page, or of what is there of it, only the first byte changes: it is set, or it is one
/// more and zero after the highest. A page that is cut off does not count as a whole one.
pub proof fn first_byte_of_page_changes(page: Seq<u8>, value: u8)
    requires
        0 < page.len() <= 4096,
    ensures
        touched(page, value) == page.update(0, value),
        bumped(page) == page.update(
            0,
            if page[0] == 255 {
                0
            } else {
                (page[0] + 1) as u8
            },
        ),
        bumped_whole(page) == (if page.len() == 4096 {
            bumped(page)
        } else {
            page
        }),
{
    assert(touched(page, value) =~= page.update(0, value));
    assert(bumped(page) =~= page.update(
        0,
        if page[0] == 255 {
            0
        } else {
            (page[0] + 1) as u8
        },
    ));
    assert(bumped_whole(page) =~= if page.len() == 4096 {
        bumped(page)
    } else {
        page
    });
}

} // verus!

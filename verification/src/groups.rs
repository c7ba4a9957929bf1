//! Workers in groups of equal size.

use vstd::arithmetic::div_mod::{lemma_fundamental_div_mod, lemma_fundamental_div_mod_converse};
use vstd::prelude::*;

use crate::text::{decimal_of, push_decimal};

verus! {

/// The workers of a group.
pub open spec fn members(granularity: u32, group_id: u32) -> Seq<u32> {
    Seq::new(granularity as nat, |i: int| (granularity * group_id + i) as u32)
}

/// The number of groups, where all workers can be put into groups of this size.
pub fn num_groups(burst_size: u32, granularity: u32) -> (groups: Option<u32>)
    ensures
        groups is Some <==> granularity > 0 && burst_size % granularity == 0,
        groups is Some ==> groups->0 == burst_size / granularity && groups->0 * granularity
            == burst_size,
{
    if granularity == 0 || burst_size % granularity != 0 {
        return None;
    }
    proof {
        lemma_fundamental_div_mod(burst_size as int, granularity as int);
        vstd::arithmetic::mul::lemma_mul_is_commutative(
            burst_size as int / granularity as int,
            granularity as int,
        );
    }
    Some(burst_size / granularity)
}

/// Every group by its name, which is its number, with its workers.
pub fn group_ranges(burst_size: u32, granularity: u32) -> (ranges: Option<Vec<(String, Vec<u32>)>>)
    ensures
        ranges is Some <==> granularity > 0 && burst_size % granularity == 0,
        ranges is Some ==> ranges->0@.len() == burst_size / granularity && forall|g: int|
            0 <= g < ranges->0@.len() ==> (#[trigger] ranges->0@[g]).0@ == decimal_of(g as nat)
                && ranges->0@[g].1@ == members(granularity, g as u32),
{
    let groups: u32 = match num_groups(burst_size, granularity) {
        Some(groups) => groups,
        None => {
            return None;
        },
    };
    let mut ranges: Vec<(String, Vec<u32>)> = Vec::new();
    let mut group_id: u32 = 0;
    while group_id < groups
        invariant
            group_id <= groups,
            groups * granularity <= u32::MAX,
            ranges@.len() == group_id,
            forall|g: int|
                0 <= g < group_id ==> (#[trigger] ranges@[g]).0@ == decimal_of(g as nat)
                    && ranges@[g].1@ == members(granularity, g as u32),
        decreases groups - group_id,
    {
        let mut name = String::new();
        push_decimal(&mut name, group_id as u128);
        assert(name@ =~= decimal_of(group_id as nat));
        proof {
            assert(granularity * group_id >= 0 && granularity * group_id + granularity <= groups
                * granularity) by (nonlinear_arith)
                requires
                    group_id < groups,
            ;
        }
        let first: u32 = granularity * group_id;
        let mut workers: Vec<u32> = Vec::new();
        let mut i: u32 = 0;
        while i < granularity
            invariant
                i <= granularity,
                first == granularity * group_id,
                first + granularity <= u32::MAX,
                workers@ =~= members(granularity, group_id).take(i as int),
            decreases granularity - i,
        {
            workers.push(first + i);
            i = i + 1;
        }
        assert(workers@ =~= members(granularity, group_id));
        ranges.push((name, workers));
        group_id = group_id + 1;
    }
    Some(ranges)
}

/// Every worker is in one group, and in no other.
pub proof fn groups_partition_workers(
    burst_size: u32,
    granularity: u32,
    worker: u32,
    group_id: u32,
)
    requires
        granularity > 0,
        burst_size % granularity == 0,
        worker < burst_size,
        group_id < burst_size / granularity,
    ensures
        worker / granularity < burst_size / granularity,
        members(granularity, group_id).contains(worker) <==> group_id == worker / granularity,
{
    let g = granularity as int;
    lemma_fundamental_div_mod(worker as int, g);
    lemma_fundamental_div_mod(burst_size as int, g);
    let q = worker as int / g;
    let total = burst_size as int / g;
    assert(q < total) by (nonlinear_arith)
        requires
            g * q <= worker as int,
            (worker as int) < burst_size as int,
            burst_size as int == g * total,
            g > 0,
    ;
    let list = members(granularity, group_id);
    assert(g * group_id + g <= burst_size as int) by (nonlinear_arith)
        requires
            group_id < total,
            burst_size as int == g * total,
            g > 0,
    ;
    assert(g * group_id >= 0) by (nonlinear_arith)
        requires
            g > 0,
    ;
    if list.contains(worker) {
        let i = choose|i: int| 0 <= i < list.len() && list[i] == worker;
        assert(worker as int == group_id as int * g + i) by (nonlinear_arith)
            requires
                worker as int == g * group_id + i,
        ;
        lemma_fundamental_div_mod_converse(worker as int, g, group_id as int, i);
    }
    if group_id == worker / granularity {
        let i = worker as int % g;
        assert(list[i] == worker);
    }
}

/// The workers of a group are as many as it has room for, each one more than the one before, and
/// the first one follows the last one of the group before.
pub proof fn members_are_consecutive(burst_size: u32, granularity: u32, group_id: u32)
    requires
        granularity > 0,
        burst_size % granularity == 0,
        group_id < burst_size / granularity,
    ensures
        members(granularity, group_id).len() == granularity,
        group_id == 0 ==> members(granularity, group_id)[0] == 0,
        group_id > 0 ==> members(granularity, group_id)[0] == members(
            granularity,
            (group_id - 1) as u32,
        ).last() + 1,
        forall|i: int, j: int|
            0 <= i < j < granularity ==> #[trigger] members(granularity, group_id)[j]
                - #[trigger] members(granularity, group_id)[i] == j - i,
{
    let g = granularity as int;
    lemma_fundamental_div_mod(burst_size as int, g);
    let total = burst_size as int / g;
    assert(g * group_id + g <= burst_size as int && g * group_id >= 0) by (nonlinear_arith)
        requires
            group_id < total,
            burst_size as int == g * total,
            g > 0,
            group_id >= 0,
    ;
    if group_id > 0 {
        assert(g * (group_id - 1) == g * group_id - g && g * (group_id - 1) >= 0)
            by (nonlinear_arith)
            requires
                group_id > 0,
                g > 0,
        ;
    } else {
        assert(g * group_id == 0) by (nonlinear_arith)
            requires
                group_id == 0,
        ;
    }
}

} // verus!

//! How the nodes of a graph are dealt out to workers, and where a worker keeps
//! the distance of a node.

use vstd::arithmetic::div_mod::{
    lemma_div_is_ordered, lemma_fundamental_div_mod, lemma_fundamental_div_mod_converse,
};
use vstd::prelude::*;

verus! {

/// A division of the nodes among workers, each of which keeps a table of distances.
pub trait Partition {
    /// The parameters make a division.
    spec fn valid(&self) -> bool;

    /// The number of nodes that are dealt out.
    spec fn node_total(&self) -> nat;

    /// The number of workers.
    spec fn worker_total(&self) -> nat;

    /// The number of entries of a worker's table.
    spec fn table_len(&self) -> nat;

    /// The node is one that the division deals out.
    spec fn places(&self, v: usize) -> bool;

    /// The worker that a node is dealt to.
    spec fn owner_of(&self, v: usize) -> u32;

    /// The table of worker `w` has an entry for the node.
    spec fn holds(&self, w: u32, v: usize) -> bool;

    /// The entry of the node in the table of worker `w`.
    spec fn slot_of(&self, w: u32, v: usize) -> int;

    /// The node that an entry of the table of worker `w` stands for.
    spec fn node_at(&self, w: u32, slot: int) -> int;

    /// Worker `w` answers for the node at this entry of its table.
    spec fn answers_for(&self, w: u32, slot: int) -> bool;

    /// A node that is dealt out goes to one of the workers, which holds it.
    proof fn owner_holds(&self, v: usize)
        requires
            self.valid(),
            self.places(v),
        ensures
            v < self.node_total(),
            self.owner_of(v) < self.worker_total(),
            self.holds(self.owner_of(v), v),
            self.answers_for(self.owner_of(v), self.slot_of(self.owner_of(v), v)),
    ;

    /// A node that is held has an entry, and the entry stands for no other node.
    proof fn slot_inverts(&self, w: u32, v: usize)
        requires
            self.valid(),
            self.holds(w, v),
        ensures
            0 <= self.slot_of(w, v) < self.table_len(),
            self.node_at(w, self.slot_of(w, v)) == v,
            forall|i: int|
                0 <= i < self.table_len() && #[trigger] self.node_at(w, i) == v ==> i
                    == self.slot_of(w, v),
    ;

    /// An entry that a worker answers for stands for a node, and where the node is dealt out,
    /// it is dealt to that worker and has that entry.
    proof fn answers_own(&self, w: u32, slot: int)
        requires
            self.valid(),
            w < self.worker_total(),
            0 <= slot < self.table_len(),
            self.answers_for(w, slot),
        ensures
            0 <= self.node_at(w, slot) < self.node_total(),
            self.node_at(w, slot) <= usize::MAX,
            self.places(self.node_at(w, slot) as usize) ==> self.owner_of(
                self.node_at(w, slot) as usize,
            ) == w && self.slot_of(w, self.node_at(w, slot) as usize) == slot,
    ;

    /// Whether the parameters make a division.
    fn is_valid(&self) -> (ok: bool)
        ensures
            ok == self.valid(),
    ;

    /// Whether the node is one that the division deals out.
    fn is_placed(&self, v: usize) -> (ok: bool)
        requires
            self.valid(),
        ensures
            ok == self.places(v),
    ;

    /// The length of a worker's table.
    fn table_size(&self) -> (len: usize)
        requires
            self.valid(),
        ensures
            len == self.table_len(),
    ;

    /// The worker that `v` is dealt to.
    fn owner(&self, v: usize) -> (w: u32)
        requires
            self.valid(),
            self.places(v),
        ensures
            w == self.owner_of(v),
    ;

    /// The entry of `v` in the table of worker `w`.
    fn slot(&self, w: u32, v: usize) -> (i: usize)
        requires
            self.valid(),
            self.holds(w, v),
            w < self.worker_total(),
        ensures
            i == self.slot_of(w, v),
    ;

    /// The entry of `v` in the table of worker `w`, where that worker holds it.
    fn find_slot(&self, w: u32, v: usize) -> (slot: Option<usize>)
        requires
            self.valid(),
            self.places(v),
            w < self.worker_total(),
        ensures
            slot is Some <==> self.holds(w, v),
            slot is Some ==> slot->0 == self.slot_of(w, v),
    ;

    /// The node at entry `slot` of the table of worker `w`, where that worker answers for it.
    fn answered_node(&self, w: u32, slot: usize) -> (node: Option<usize>)
        requires
            self.valid(),
            w < self.worker_total(),
            slot < self.table_len(),
        ensures
            node is Some <==> self.answers_for(w, slot as int),
            node is Some ==> node->0 == self.node_at(w, slot as int),
    ;
}

/// Node `v` goes to worker `v mod num_threads` (of the low 32 bits of `v`), and
/// every worker keeps a table of all nodes.
#[derive(Clone, Copy)]
pub struct Stripes {
    pub num_nodes: usize,
    pub num_threads: u32,
}

impl Partition for Stripes {
    open spec fn valid(&self) -> bool {
        self.num_threads > 0
    }

    open spec fn node_total(&self) -> nat {
        self.num_nodes as nat
    }

    open spec fn worker_total(&self) -> nat {
        self.num_threads as nat
    }

    open spec fn table_len(&self) -> nat {
        self.num_nodes as nat
    }

    open spec fn places(&self, v: usize) -> bool {
        v < self.num_nodes
    }

    open spec fn owner_of(&self, v: usize) -> u32 {
        (v as u32) % self.num_threads
    }

    open spec fn holds(&self, w: u32, v: usize) -> bool {
        v < self.num_nodes
    }

    open spec fn slot_of(&self, w: u32, v: usize) -> int {
        v as int
    }

    open spec fn node_at(&self, w: u32, slot: int) -> int {
        slot
    }

    open spec fn answers_for(&self, w: u32, slot: int) -> bool {
        (slot as usize as u32) % self.num_threads == w
    }

    proof fn owner_holds(&self, v: usize) {
    }

    proof fn slot_inverts(&self, w: u32, v: usize) {
    }

    proof fn answers_own(&self, w: u32, slot: int) {
    }

    fn is_valid(&self) -> (ok: bool) {
        self.num_threads > 0
    }

    fn is_placed(&self, v: usize) -> (ok: bool) {
        v < self.num_nodes
    }

    fn table_size(&self) -> (len: usize) {
        self.num_nodes
    }

    fn owner(&self, v: usize) -> (w: u32) {
        (v as u32) % self.num_threads
    }

    fn slot(&self, w: u32, v: usize) -> (i: usize) {
        v
    }

    fn find_slot(&self, w: u32, v: usize) -> (slot: Option<usize>) {
        Some(v)
    }

    fn answered_node(&self, w: u32, slot: usize) -> (node: Option<usize>) {
        if (slot as u32) % self.num_threads == w {
            Some(slot)
        } else {
            None
        }
    }
}

/// Node `v` goes to worker `v mod num_threads`, which keeps it at entry
/// `v / num_threads`. Nodes are numbered in 32 bits.
#[derive(Clone, Copy)]
pub struct PackedStripes {
    pub num_nodes: usize,
    pub num_threads: u32,
}

impl Partition for PackedStripes {
    open spec fn valid(&self) -> bool {
        &&& self.num_threads > 0
        &&& self.num_nodes / (self.num_threads as usize) < usize::MAX
    }

    open spec fn node_total(&self) -> nat {
        self.num_nodes as nat
    }

    open spec fn worker_total(&self) -> nat {
        self.num_threads as nat
    }

    open spec fn table_len(&self) -> nat {
        (self.num_nodes / (self.num_threads as usize) + 1) as nat
    }

    open spec fn places(&self, v: usize) -> bool {
        v < self.num_nodes && v <= u32::MAX
    }

    open spec fn owner_of(&self, v: usize) -> u32 {
        (v as u32) % self.num_threads
    }

    open spec fn holds(&self, w: u32, v: usize) -> bool {
        self.places(v) && self.owner_of(v) == w
    }

    open spec fn slot_of(&self, w: u32, v: usize) -> int {
        v as int / self.num_threads as int
    }

    open spec fn node_at(&self, w: u32, slot: int) -> int {
        slot * self.num_threads as int + w
    }

    open spec fn answers_for(&self, w: u32, slot: int) -> bool {
        self.node_at(w, slot) < self.num_nodes
    }

    proof fn owner_holds(&self, v: usize) {
        lemma_fundamental_div_mod(v as int, self.num_threads as int);
        vstd::arithmetic::mul::lemma_mul_is_commutative(
            v as int / self.num_threads as int,
            self.num_threads as int,
        );
    }

    proof fn slot_inverts(&self, w: u32, v: usize) {
        lemma_fundamental_div_mod(v as int, self.num_threads as int);
        vstd::arithmetic::mul::lemma_mul_is_commutative(
            v as int / self.num_threads as int,
            self.num_threads as int,
        );
        lemma_div_is_ordered(v as int, self.num_nodes as int, self.num_threads as int);
        vstd::arithmetic::div_mod::lemma_div_pos_is_pos(v as int, self.num_threads as int);
        let t = self.num_threads as int;
        assert forall|i: int| 0 <= i < self.table_len() && #[trigger] self.node_at(w, i) == v implies i
            == self.slot_of(w, v) by {
            lemma_fundamental_div_mod_converse(v as int, t, i, w as int);
        }
    }

    proof fn answers_own(&self, w: u32, slot: int) {
        let t = self.num_threads as int;
        assert(slot * t >= 0) by (nonlinear_arith)
            requires
                slot >= 0,
                t >= 0,
        ;
        lemma_fundamental_div_mod_converse(slot * t + w, t, slot, w as int);
    }

    fn is_valid(&self) -> (ok: bool) {
        self.num_threads > 0 && self.num_nodes / (self.num_threads as usize) < usize::MAX
    }

    fn is_placed(&self, v: usize) -> (ok: bool) {
        v < self.num_nodes && v <= u32::MAX as usize
    }

    fn table_size(&self) -> (len: usize) {
        self.num_nodes / (self.num_threads as usize) + 1
    }

    fn owner(&self, v: usize) -> (w: u32) {
        (v as u32) % self.num_threads
    }

    fn slot(&self, w: u32, v: usize) -> (i: usize) {
        v / self.num_threads as usize
    }

    fn find_slot(&self, w: u32, v: usize) -> (slot: Option<usize>) {
        if (v as u32) % self.num_threads == w {
            Some(v / self.num_threads as usize)
        } else {
            None
        }
    }

    fn answered_node(&self, w: u32, slot: usize) -> (node: Option<usize>) {
        let ghost t = self.num_threads as int;
        proof {
            lemma_fundamental_div_mod(self.num_nodes as int, t);
            assert(slot as int * t <= (self.num_nodes as int / t) * t) by (nonlinear_arith)
                requires
                    slot as int <= self.num_nodes as int / t,
                    t > 0,
            ;
            vstd::arithmetic::mul::lemma_mul_is_commutative(self.num_nodes as int / t, t);
            assert(0 <= slot as int * t) by (nonlinear_arith)
                requires
                    t > 0,
            ;
        }
        let base: usize = slot * (self.num_threads as usize);
        if base < self.num_nodes && (w as usize) < self.num_nodes - base {
            Some(base + w as usize)
        } else {
            None
        }
    }
}

/// Consecutive blocks of `ceil(num_nodes / num_threads)` nodes go to one worker
/// each, which keeps its block alone. Nodes are numbered in 32 bits.
#[derive(Clone, Copy)]
pub struct Blocks {
    pub num_nodes: usize,
    pub num_threads: u32,
}

impl Blocks {
    /// The size of a block.
    pub open spec fn block(&self) -> int {
        (self.num_nodes + self.num_threads - 1) / self.num_threads as int
    }

    /// The blocks of the workers together hold all nodes, and begin inside the node range.
    proof fn lemma_block(&self, w: u32)
        requires
            self.valid(),
            w < self.num_threads,
        ensures
            0 <= self.block() <= u32::MAX,
            self.num_nodes > 0 ==> self.block() > 0,
            self.num_nodes <= self.block() * self.num_threads,
            0 <= w * self.block(),
            (w + 1) * self.block() == w * self.block() + self.block(),
            (w + 1) * self.block() <= self.num_nodes + self.num_threads - 1,
    {
        let t = self.num_threads as int;
        let n = self.num_nodes as int;
        let b = self.block();
        lemma_fundamental_div_mod(n + t - 1, t);
        vstd::arithmetic::mul::lemma_mul_is_commutative(b, t);
        vstd::arithmetic::div_mod::lemma_div_pos_is_pos(n + t - 1, t);
        assert((w + 1) * b == w * b + b) by (nonlinear_arith);
        assert((w + 1) * b <= t * b && 0 <= w * b) by (nonlinear_arith)
            requires
                w + 1 <= t,
                b >= 0,
                0 <= w,
        ;
        if n > 0 && b == 0 {
            assert(b * t == 0) by (nonlinear_arith)
                requires
                    b == 0,
            ;
        }
    }

    /// The size of a block.
    fn block_size(&self) -> (b: usize)
        requires
            self.valid(),
        ensures
            b == self.block(),
    {
        (self.num_nodes + (self.num_threads as usize) - 1) / (self.num_threads as usize)
    }
}

impl Partition for Blocks {
    open spec fn valid(&self) -> bool {
        &&& self.num_threads > 0
        &&& self.num_nodes + self.num_threads <= usize::MAX
        &&& self.block() <= u32::MAX
    }

    open spec fn node_total(&self) -> nat {
        self.num_nodes as nat
    }

    open spec fn worker_total(&self) -> nat {
        self.num_threads as nat
    }

    open spec fn table_len(&self) -> nat {
        self.block() as nat
    }

    open spec fn places(&self, v: usize) -> bool {
        v < self.num_nodes && v <= u32::MAX
    }

    open spec fn owner_of(&self, v: usize) -> u32 {
        (v as int / self.block()) as u32
    }

    open spec fn holds(&self, w: u32, v: usize) -> bool {
        w * self.block() <= v < (w + 1) * self.block()
    }

    open spec fn slot_of(&self, w: u32, v: usize) -> int {
        v - w * self.block()
    }

    open spec fn node_at(&self, w: u32, slot: int) -> int {
        slot + w * self.block()
    }

    open spec fn answers_for(&self, w: u32, slot: int) -> bool {
        self.node_at(w, slot) < self.num_nodes
    }

    proof fn owner_holds(&self, v: usize) {
        self.lemma_block((self.num_threads - 1) as u32);
        let b = self.block();
        let q = v as int / b;
        lemma_fundamental_div_mod(v as int, b);
        vstd::arithmetic::div_mod::lemma_div_pos_is_pos(v as int, b);
        vstd::arithmetic::mul::lemma_mul_is_commutative(b, q);
        assert(q < self.num_threads) by (nonlinear_arith)
            requires
                v == b * q + v as int % b,
                0 <= v as int % b < b,
                v < self.num_nodes,
                self.num_nodes <= b * self.num_threads,
                b > 0,
        ;
        assert((q + 1) * b == q * b + b) by (nonlinear_arith);
    }

    proof fn slot_inverts(&self, w: u32, v: usize) {
        let b = self.block();
        assert((w + 1) * b == w * b + b) by (nonlinear_arith);
    }

    proof fn answers_own(&self, w: u32, slot: int) {
        let b = self.block();
        assert(w * b >= 0) by (nonlinear_arith)
            requires
                b >= 0,
                w >= 0,
        ;
        lemma_fundamental_div_mod_converse(w * b + slot, b, w as int, slot);
    }

    fn is_valid(&self) -> (ok: bool) {
        if self.num_threads == 0 {
            return false;
        }
        match self.num_nodes.checked_add(self.num_threads as usize) {
            Some(sum) => (sum - 1) / (self.num_threads as usize) <= u32::MAX as usize,
            None => false,
        }
    }

    fn is_placed(&self, v: usize) -> (ok: bool) {
        v < self.num_nodes && v <= u32::MAX as usize
    }

    fn table_size(&self) -> (len: usize) {
        proof {
            self.lemma_block(0);
        }
        self.block_size()
    }

    fn owner(&self, v: usize) -> (w: u32) {
        proof {
            self.lemma_block(0);
            self.owner_holds(v);
        }
        let chunk_size: usize = self.block_size();
        (v as u32) / (chunk_size as u32)
    }

    fn slot(&self, w: u32, v: usize) -> (i: usize) {
        proof {
            self.lemma_block(w);
        }
        let chunk_size: usize = self.block_size();
        v - (w as usize) * chunk_size
    }

    fn find_slot(&self, w: u32, v: usize) -> (slot: Option<usize>) {
        proof {
            self.lemma_block(w);
        }
        let chunk_size: usize = self.block_size();
        let base: usize = (w as usize) * chunk_size;
        if v >= base && v - base < chunk_size {
            Some(v - base)
        } else {
            None
        }
    }

    fn answered_node(&self, w: u32, slot: usize) -> (node: Option<usize>) {
        proof {
            self.lemma_block(w);
        }
        let chunk_size: usize = self.block_size();
        let global_node: usize = slot + (w as usize) * chunk_size;
        if global_node < self.num_nodes {
            Some(global_node)
        } else {
            None
        }
    }
}

/// The nodes below `split_point` go to worker 0 and the others to worker 1, and both keep a
/// table of all nodes.
#[derive(Clone, Copy)]
pub struct Halves {
    pub num_nodes: usize,
    pub split_point: usize,
}

impl Halves {
    /// The division in the middle.
    pub fn new(num_nodes: usize) -> (halves: Halves)
        ensures
            halves.valid(),
            halves.num_nodes == num_nodes,
            halves.split_point == num_nodes / 2,
    {
        Halves { num_nodes, split_point: num_nodes / 2 }
    }
}

impl Partition for Halves {
    open spec fn valid(&self) -> bool {
        self.split_point <= self.num_nodes
    }

    open spec fn node_total(&self) -> nat {
        self.num_nodes as nat
    }

    open spec fn worker_total(&self) -> nat {
        2
    }

    open spec fn table_len(&self) -> nat {
        self.num_nodes as nat
    }

    open spec fn places(&self, v: usize) -> bool {
        v < self.num_nodes
    }

    open spec fn owner_of(&self, v: usize) -> u32 {
        if v < self.split_point {
            0
        } else {
            1
        }
    }

    open spec fn holds(&self, w: u32, v: usize) -> bool {
        v < self.num_nodes
    }

    open spec fn slot_of(&self, w: u32, v: usize) -> int {
        v as int
    }

    open spec fn node_at(&self, w: u32, slot: int) -> int {
        slot
    }

    open spec fn answers_for(&self, w: u32, slot: int) -> bool {
        self.owner_of(slot as usize) == w
    }

    proof fn owner_holds(&self, v: usize) {
    }

    proof fn slot_inverts(&self, w: u32, v: usize) {
    }

    proof fn answers_own(&self, w: u32, slot: int) {
    }

    fn is_valid(&self) -> (ok: bool) {
        self.split_point <= self.num_nodes
    }

    fn is_placed(&self, v: usize) -> (ok: bool) {
        v < self.num_nodes
    }

    fn table_size(&self) -> (len: usize) {
        self.num_nodes
    }

    fn owner(&self, v: usize) -> (w: u32) {
        if v < self.split_point {
            0
        } else {
            1
        }
    }

    fn slot(&self, w: u32, v: usize) -> (i: usize) {
        v
    }

    fn find_slot(&self, w: u32, v: usize) -> (slot: Option<usize>) {
        Some(v)
    }

    fn answered_node(&self, w: u32, slot: usize) -> (node: Option<usize>) {
        if self.owner(slot) == w {
            Some(slot)
        } else {
            None
        }
    }
}

/// Nodes are dealt out in turn: the first ones to the workers of the same number, and each
/// further one to the worker of the node that many workers before it. Every worker has an entry
/// for every node, at its number.
pub proof fn stripes_deal_in_turn(division: Stripes, v: usize)
    requires
        division.valid(),
        v <= u32::MAX,
    ensures
        v < division.num_threads ==> division.owner_of(v) == v,
        v >= division.num_threads ==> division.owner_of(v) == division.owner_of(
            (v - division.num_threads) as usize,
        ),
        division.places(v) <==> v < division.num_nodes,
        division.table_len() == division.num_nodes,
        forall|w: u32| #[trigger] division.slot_of(w, v) == v,
        forall|w: u32| #[trigger] division.node_at(w, v as int) == v,
        forall|w: u32| #[trigger]
            division.answers_for(w, v as int) <==> division.owner_of(v) == w,
{
    let t = division.num_threads as int;
    if v >= division.num_threads {
        vstd::arithmetic::div_mod::lemma_mod_add_multiples_vanish(v - t, t);
    } else {
        vstd::arithmetic::div_mod::lemma_small_mod(v as nat, t as nat);
    }
}

/// Nodes are dealt out in turn, and the nodes of a worker stand in its table one behind the
/// other.
pub proof fn packed_stripes_deal_in_turn(division: PackedStripes, v: usize)
    requires
        division.valid(),
        v <= u32::MAX,
    ensures
        v < division.num_threads ==> division.owner_of(v) == v,
        v >= division.num_threads ==> division.owner_of(v) == division.owner_of(
            (v - division.num_threads) as usize,
        ),
        forall|w: u32|
            v < division.num_threads ==> #[trigger] division.slot_of(w, v) == 0,
        forall|w: u32|
            v >= division.num_threads ==> #[trigger] division.slot_of(w, v) == division.slot_of(
                w,
                (v - division.num_threads) as usize,
            ) + 1,
        division.places(v) <==> v < division.num_nodes,
        division.table_len() == division.num_nodes / division.num_threads as usize + 1,
{
    let t = division.num_threads as int;
    if v >= division.num_threads {
        vstd::arithmetic::div_mod::lemma_mod_add_multiples_vanish(v - t, t);
        vstd::arithmetic::div_mod::lemma_div_plus_one(v - t, t);
    } else {
        vstd::arithmetic::div_mod::lemma_small_mod(v as nat, t as nat);
        vstd::arithmetic::div_mod::lemma_basic_div(v as int, t);
    }
}

/// Worker `w` has the nodes of one block, which begins where those of the workers before it end.
/// All blocks have the same size, the smallest with which they hold all nodes.
pub proof fn blocks_are_consecutive(division: Blocks, w: u32, v: usize)
    requires
        division.valid(),
        w < division.num_threads,
        v < division.num_nodes,
        v <= u32::MAX,
    ensures
        division.num_nodes <= division.table_len() * division.num_threads,
        (division.table_len() - 1) * division.num_threads < division.num_nodes,
        division.owner_of(v) == w <==> w * division.table_len() <= v < w * division.table_len()
            + division.table_len(),
        division.slot_of(w, v) == v - w * division.table_len(),
        division.places(v),
{
    division.lemma_block(w);
    let b = division.block();
    let t = division.num_threads as int;
    let n = division.num_nodes as int;
    lemma_fundamental_div_mod(n + t - 1, t);
    assert((b - 1) * t == b * t - t) by (nonlinear_arith);
    vstd::arithmetic::mul::lemma_mul_is_commutative(b, t);
    division.owner_holds(v);
    division.lemma_block(division.owner_of(v));
    if w * b <= v < (w + 1) * b {
        lemma_fundamental_div_mod_converse(v as int, b, w as int, v - w * b);
    }
    if division.owner_of(v) == w {
        assert(division.holds(w, v));
    }
}

/// The nodes below the split go to the first worker and the others to the second one. Both have
/// an entry for every node, at its number.
pub proof fn halves_split(division: Halves, v: usize)
    ensures
        division.owner_of(v) == 0 <==> v < division.split_point,
        division.owner_of(v) == 1 <==> v >= division.split_point,
        division.table_len() == division.num_nodes,
        division.places(v) <==> v < division.num_nodes,
        forall|w: u32| #[trigger] division.slot_of(w, v) == v,
        forall|w: u32| #[trigger] division.node_at(w, v as int) == v,
        forall|w: u32| #[trigger]
            division.answers_for(w, v as int) <==> division.owner_of(v) == w,
{
}

/// Of a node whose number does not fit into 32 bits, the low 32 bits decide.
pub proof fn stripes_go_by_low_bits(division: Stripes, v: usize)
    requires
        division.valid(),
    ensures
        division.owner_of(v) == division.owner_of((v & 0xFFFF_FFFF) as usize),
        (v & 0xFFFF_FFFF) <= u32::MAX,
{
    assert((v as u32) == ((v & 0xFFFF_FFFF) as u32) && (v & 0xFFFF_FFFF) <= 0xFFFF_FFFF)
        by (bit_vector);
}

} // verus!

//! A set of nodes as one bit each, with which a worker sends a node once per level.

use vstd::prelude::*;

use crate::frontier::{first_seen, lemma_first_seen_push};

verus! {

/// Node `v` is in the set where bit `v mod 64` of word `v / 64` is set.
pub struct SentSet {
    pub words: Vec<u64>,
}

impl SentSet {
    /// The bit of `v` is set.
    pub open spec fn has(&self, v: usize) -> bool {
        self.words@[v as int / 64] & (1u64 << ((v % 64) as u64)) != 0
    }

    /// The set has room for `v`.
    pub open spec fn has_room(&self, v: usize) -> bool {
        v as int / 64 < self.words@.len()
    }

    /// An empty set with room for the nodes up to `num_nodes`.
    pub fn new(num_nodes: usize) -> (set: SentSet)
        ensures
            forall|v: usize| v <= num_nodes ==> #[trigger] set.has_room(v),
            forall|v: usize| set.has_room(v) ==> !(#[trigger] set.has(v)),
    {
        let words: Vec<u64> = vec![0u64; num_nodes / 64 + 1];
        let set = SentSet { words };
        proof {
            assert forall|v: usize| v <= num_nodes implies #[trigger] set.has_room(v) by {
                vstd::arithmetic::div_mod::lemma_div_is_ordered(v as int, num_nodes as int, 64);
            }
            assert forall|v: usize| set.has_room(v) implies !(#[trigger] set.has(v)) by {
                let m = 1u64 << ((v % 64) as u64);
                assert(0u64 & m == 0) by (bit_vector);
            }
        }
        set
    }

    /// Puts `v` into the set, and tells whether it was not there before.
    pub fn insert(&mut self, v: usize) -> (added: bool)
        requires
            old(self).has_room(v),
        ensures
            added == !old(self).has(v),
            final(self).words@.len() == old(self).words@.len(),
            forall|x: usize|
                final(self).has_room(x) ==> #[trigger] final(self).has(x) == (old(self).has(x) || x
                    == v),
    {
        let word_idx: usize = v / 64;
        let bit: u64 = (v % 64) as u64;
        let mask: u64 = 1u64 << bit;
        let word: u64 = self.words[word_idx];
        if (word & mask) == 0 {
            self.words[word_idx] = word | mask;
            proof {
                assert forall|x: usize| self.has_room(x) implies #[trigger] self.has(x) == (old(
                    self,
                ).has(x) || x == v) by {
                    let other: u64 = (x % 64) as u64;
                    if x as int / 64 == word_idx {
                        assert(bit < 64 && other < 64);
                        assert(((word | (1u64 << bit)) & (1u64 << other) != 0) == (word & (1u64
                            << other) != 0 || bit == other)) by (bit_vector)
                            requires
                                bit < 64,
                                other < 64,
                        ;
                        assert(bit == other <==> x == v);
                    }
                }
            }
            true
        } else {
            assert(forall|x: usize| self.has_room(x) && x == v ==> #[trigger] self.has(x));
            false
        }
    }
}

/// The nodes of `nodes`, each at its first occurrence only.
pub fn send_once(nodes: &[usize], num_nodes: usize) -> (out: Vec<usize>)
    requires
        forall|k: int| 0 <= k < nodes@.len() ==> #[trigger] nodes@[k] <= num_nodes,
    ensures
        out@ == first_seen(nodes@, |v: usize| true),
{
    let ghost keep = |v: usize| true;
    let mut sent = SentSet::new(num_nodes);
    let mut out: Vec<usize> = Vec::new();
    let mut j: usize = 0;
    assert(nodes@.take(0) =~= Seq::<usize>::empty());
    while j < nodes.len()
        invariant
            j <= nodes.len(),
            keep == (|v: usize| true),
            forall|k: int| 0 <= k < nodes@.len() ==> #[trigger] nodes@[k] <= num_nodes,
            forall|v: usize| v <= num_nodes ==> #[trigger] sent.has_room(v),
            forall|v: usize|
                sent.has_room(v) ==> #[trigger] sent.has(v) == out@.contains(v),
            out@ == first_seen(nodes@.take(j as int), keep),
        decreases nodes.len() - j,
    {
        let v: usize = nodes[j];
        let ghost before = out@;
        let ghost had = sent;
        proof {
            assert(nodes@.take(j + 1) =~= nodes@.take(j as int).push(v));
            lemma_first_seen_push(nodes@.take(j as int), v, keep);
            assert(sent.has_room(v));
        }
        if sent.insert(v) {
            out.push(v);
        }
        proof {
            assert forall|x: usize| sent.has_room(x) implies #[trigger] sent.has(x)
                == out@.contains(x) by {
                assert(had.has(x) == before.contains(x));
                if before.contains(x) {
                    let i = choose|i: int| 0 <= i < before.len() && before[i] == x;
                    assert(out@[i] == x);
                }
                if out@.contains(x) {
                    let i = choose|i: int| 0 <= i < out@.len() && out@[i] == x;
                    if i < before.len() {
                        assert(before[i] == x);
                    }
                }
                if x == v && !before.contains(v) {
                    assert(out@[before.len() as int] == v);
                }
            }
            assert forall|x: usize| x <= num_nodes implies #[trigger] sent.has_room(x) by {
                assert(had.has_room(x));
            }
        }
        j = j + 1;
    }
    assert(nodes@.take(nodes@.len() as int) =~= nodes@);
    out
}

} // verus!

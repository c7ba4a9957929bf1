//! One worker of a level-synchronous search: its table of distances, the
//! frontier that it expands and the frontier that it builds.

use vstd::prelude::*;

use crate::frontier::{
    candidates, first_seen, first_seen_keeps_order, lemma_candidates_push, lemma_candidates_row,
    lemma_filter_push, lemma_first_seen, lemma_first_seen_push, lemma_listed, listed,
};
use crate::graph::NeighborLists;
use crate::model::UNVISITED;
use crate::partition::Partition;

verus! {

/// The table of worker `w` after each node of `nodes` that it stands for got the distance `d`.
pub open spec fn marked<P: Partition>(
    partition: P,
    w: u32,
    table: Seq<usize>,
    nodes: Seq<usize>,
    d: usize,
) -> Seq<usize> {
    Seq::new(
        table.len(),
        |i: int|
            if listed(nodes, partition.node_at(w, i)) {
                d
            } else {
                table[i]
            },
    )
}

/// The nodes that a worker's table has a finite distance for, with that distance, over
/// the first `k` entries that the worker answers for.
pub open spec fn answers<P: Partition>(partition: P, w: u32, table: Seq<usize>, k: nat) -> Seq<
    (usize, usize),
>
    decreases k,
{
    if k == 0 {
        Seq::empty()
    } else {
        let earlier = answers(partition, w, table, (k - 1) as nat);
        if table[k - 1] != UNVISITED && partition.answers_for(w, k - 1) {
            earlier.push((partition.node_at(w, k - 1) as usize, table[k - 1]))
        } else {
            earlier
        }
    }
}

/// What a worker holds during a search.
pub struct Worker<P: Partition> {
    pub partition: P,
    pub worker_id: u32,
    pub distances: Vec<usize>,
    pub current_frontier: Vec<usize>,
    pub next_frontier: Vec<usize>,
    pub current_level: usize,
}

/// Marking one node more is one update of the table.
proof fn lemma_mark_one<P: Partition>(
    partition: P,
    w: u32,
    table: Seq<usize>,
    nodes: Seq<usize>,
    v: usize,
    d: usize,
)
    requires
        partition.valid(),
        partition.holds(w, v),
        table.len() == partition.table_len(),
    ensures
        0 <= partition.slot_of(w, v) < table.len(),
        marked(partition, w, table, nodes, d)[partition.slot_of(w, v)] == (if nodes.contains(v) {
            d
        } else {
            table[partition.slot_of(w, v)]
        }),
        marked(partition, w, table, nodes.push(v), d) == marked(
            partition,
            w,
            table,
            nodes,
            d,
        ).update(partition.slot_of(w, v), d),
{
    let slot = partition.slot_of(w, v);
    partition.slot_inverts(w, v);
    lemma_listed(nodes, v);
    let more = nodes.push(v);
    assert forall|i: int| 0 <= i < table.len() implies listed(more, partition.node_at(w, i)) == (listed(
        nodes,
        partition.node_at(w, i),
    ) || i == slot) by {
        let x = partition.node_at(w, i);
        if listed(more, x) {
            let k = choose|k: int| 0 <= k < more.len() && #[trigger] more[k] == x;
            if k < nodes.len() {
                assert(nodes[k] == x);
            }
        }
        if listed(nodes, x) {
            let k = choose|k: int| 0 <= k < nodes.len() && #[trigger] nodes[k] == x;
            assert(more[k] == x);
        }
        if i == slot {
            assert(more[nodes.len() as int] == x);
        }
    }
    assert(marked(partition, w, table, more, d) =~= marked(partition, w, table, nodes, d).update(
        slot,
        d,
    ));
}

/// Marking two lists one after the other.
pub proof fn lemma_marked_more<P: Partition>(
    partition: P,
    w: u32,
    table: Seq<usize>,
    first: Seq<usize>,
    second: Seq<usize>,
    d: usize,
)
    ensures
        marked(partition, w, marked(partition, w, table, first, d), second, d) == marked(
            partition,
            w,
            table,
            first + second,
            d,
        ),
{
    assert forall|x: int| #[trigger] listed(first + second, x) <==> listed(first, x) || listed(
        second,
        x,
    ) by {
        if listed(first + second, x) {
            let k = choose|k: int|
                0 <= k < (first + second).len() && #[trigger] (first + second)[k] == x;
            if k < first.len() {
                assert(first[k] == x);
            } else {
                assert(second[k - first.len()] == x);
            }
        }
        if listed(first, x) {
            let k = choose|k: int| 0 <= k < first.len() && #[trigger] first[k] == x;
            assert((first + second)[k] == x);
        }
        if listed(second, x) {
            let k = choose|k: int| 0 <= k < second.len() && #[trigger] second[k] == x;
            assert((first + second)[first.len() + k] == x);
        }
    }
    assert(marked(partition, w, marked(partition, w, table, first, d), second, d) =~= marked(
        partition,
        w,
        table,
        first + second,
        d,
    ));
}

impl<P: Partition> Worker<P> {
    /// The worker takes part in the division, with a table of the right length.
    pub open spec fn well_formed(&self) -> bool {
        &&& self.partition.valid()
        &&& self.worker_id < self.partition.worker_total()
        &&& self.distances@.len() == self.partition.table_len()
    }

    /// The node belongs to this worker.
    pub open spec fn mine(&self, v: usize) -> bool {
        self.partition.owner_of(v) == self.worker_id
    }

    /// The distance that the worker's table has for the node.
    pub open spec fn entry(&self, v: usize) -> usize {
        self.distances@[self.partition.slot_of(self.worker_id, v)]
    }

    /// Nothing but the table and the two frontiers may differ.
    pub open spec fn same_place(&self, other: Self) -> bool {
        &&& self.partition == other.partition
        &&& self.worker_id == other.worker_id
        &&& self.current_level == other.current_level
    }

    /// The table and the next frontier after `nodes` were discovered one level below the
    /// current one.
    pub open spec fn discovered(&self, before: Self, nodes: Seq<usize>) -> bool {
        &&& self.same_place(before)
        &&& self.next_frontier@ == before.next_frontier@ + nodes
        &&& self.distances@ == marked(
            before.partition,
            before.worker_id,
            before.distances@,
            nodes,
            (before.current_level + 1) as usize,
        )
    }

    /// The own nodes of `nodes` that the table has no distance for, each once.
    pub open spec fn fresh_own(&self, nodes: Seq<usize>) -> Seq<usize> {
        first_seen(nodes, |v: usize| self.mine(v) && self.entry(v) == UNVISITED)
    }

    /// The nodes of `nodes` that the table has no distance for, each once.
    pub open spec fn fresh(&self, nodes: Seq<usize>) -> Seq<usize> {
        first_seen(nodes, |v: usize| self.entry(v) == UNVISITED)
    }

    /// The worker has started a search from `source`: its table has distance zero for the
    /// source if it holds it, and no other distance, and the source is the frontier of its
    /// owner.
    pub open spec fn trial_started(&self, source: usize) -> bool {
        &&& self.well_formed()
        &&& self.current_level == 0
        &&& self.next_frontier@.len() == 0
        &&& self.current_frontier@ == (if self.mine(source) {
            seq![source]
        } else {
            Seq::empty()
        })
        &&& forall|i: int|
            0 <= i < self.distances@.len() ==> #[trigger] self.distances@[i] == (
            if self.partition.holds(self.worker_id, source) && i == self.partition.slot_of(
                self.worker_id,
                source,
            ) {
                0
            } else {
                UNVISITED
            })
    }

    /// Discovering nothing leaves a worker as it is.
    pub proof fn lemma_discovered_none(self, nodes: Seq<usize>)
        requires
            nodes.len() == 0,
        ensures
            self.discovered(self, nodes),
    {
        assert(self.next_frontier@ + nodes =~= self.next_frontier@);
        assert(self.distances@ =~= marked(
            self.partition,
            self.worker_id,
            self.distances@,
            nodes,
            (self.current_level + 1) as usize,
        ));
    }

    /// A worker with an empty table and no frontier.
    pub fn new(partition: P, worker_id: u32) -> (worker: Self)
        requires
            partition.valid(),
            worker_id < partition.worker_total(),
        ensures
            worker.well_formed(),
            worker.partition == partition,
            worker.worker_id == worker_id,
            forall|i: int|
                0 <= i < worker.distances@.len() ==> #[trigger] worker.distances@[i] == UNVISITED,
            worker.current_frontier@.len() == 0,
            worker.next_frontier@.len() == 0,
            worker.current_level == 0,
    {
        let size: usize = partition.table_size();
        Worker {
            partition,
            worker_id,
            distances: vec![UNVISITED; size],
            current_frontier: Vec::new(),
            next_frontier: Vec::new(),
            current_level: 0,
        }
    }

    /// Gives `v` the next level if the table has no distance for it, and takes it into
    /// the next frontier.
    fn claim(&mut self, v: usize) -> (claimed: bool)
        requires
            old(self).well_formed(),
            old(self).partition.holds(old(self).worker_id, v),
            old(self).current_level + 1 < UNVISITED,
        ensures
            final(self).same_place(*old(self)),
            final(self).well_formed(),
            final(self).current_frontier@ == old(self).current_frontier@,
            claimed == (old(self).entry(v) == UNVISITED),
            claimed ==> final(self).next_frontier@ == old(self).next_frontier@.push(v)
                && final(self).distances@ == old(self).distances@.update(
                old(self).partition.slot_of(old(self).worker_id, v),
                (old(self).current_level + 1) as usize,
            ),
            !claimed ==> final(self).next_frontier@ == old(self).next_frontier@
                && final(self).distances@ == old(self).distances@,
    {
        proof {
            self.partition.slot_inverts(self.worker_id, v);
        }
        let slot: usize = self.partition.slot(self.worker_id, v);
        if self.distances[slot] == UNVISITED {
            self.distances[slot] = self.current_level + 1;
            self.next_frontier.push(v);
            true
        } else {
            false
        }
    }

    /// Expands the current frontier: own neighbors without a distance get the next level,
    /// the neighbors that belong to other workers are returned in the order in which they
    /// were met, with the number of own nodes that were discovered.
    pub fn expand<G: NeighborLists>(&mut self, graph: &G) -> (out: (Vec<usize>, usize))
        requires
            old(self).well_formed(),
            old(self).current_level + 1 < UNVISITED,
            forall|i: int|
                0 <= i < old(self).current_frontier@.len() ==> graph.readable(
                    #[trigger] old(self).current_frontier@[i],
                ),
            forall|v: usize| #[trigger]
                candidates(graph.rows(), old(self).current_frontier@).contains(v)
                    ==> old(self).partition.places(v),
        ensures
            final(self).well_formed(),
            final(self).discovered(
                *old(self),
                old(self).fresh_own(candidates(graph.rows(), old(self).current_frontier@)),
            ),
            final(self).current_frontier@.len() == 0,
            out.0@ == candidates(graph.rows(), old(self).current_frontier@).filter(
                |v: usize| !old(self).mine(v),
            ),
            out.1 == old(self).fresh_own(
                candidates(graph.rows(), old(self).current_frontier@),
            ).len(),
    {
        let ghost start = *self;
        let ghost adj = graph.rows();
        let ghost all = candidates(adj, start.current_frontier@);
        let ghost keep = |v: usize| start.mine(v) && start.entry(v) == UNVISITED;
        let ghost foreign = |v: usize| !start.mine(v);
        let ghost d = (start.current_level + 1) as usize;
        let prior: usize = self.next_frontier.len();
        let mut external: Vec<usize> = Vec::new();
        let mut i: usize = 0;
        proof {
            let none = candidates(adj, start.current_frontier@.take(0));
            assert(none =~= Seq::<usize>::empty());
            reveal(Seq::filter);
            assert(none.filter(foreign) =~= external@);
            assert(self.distances@ =~= marked(
                start.partition,
                start.worker_id,
                start.distances@,
                first_seen(none, keep),
                d,
            ));
            assert(self.next_frontier@ =~= start.next_frontier@ + first_seen(none, keep));
        }
        while i < self.current_frontier.len()
            invariant
                self.well_formed(),
                start.well_formed(),
                self.same_place(start),
                self.current_frontier@ == start.current_frontier@,
                i <= self.current_frontier.len(),
                start.current_level + 1 < UNVISITED,
                d == start.current_level + 1,
                adj == graph.rows(),
                all == candidates(adj, start.current_frontier@),
                keep == (|v: usize| start.mine(v) && start.entry(v) == UNVISITED),
                foreign == (|v: usize| !start.mine(v)),
                forall|k: int|
                    0 <= k < start.current_frontier@.len() ==> graph.readable(
                        #[trigger] start.current_frontier@[k],
                    ),
                forall|v: usize| #[trigger] all.contains(v) ==> start.partition.places(v),
                self.next_frontier@ == start.next_frontier@ + first_seen(
                    candidates(adj, start.current_frontier@.take(i as int)),
                    keep,
                ),
                self.distances@ == marked(
                    start.partition,
                    start.worker_id,
                    start.distances@,
                    first_seen(candidates(adj, start.current_frontier@.take(i as int)), keep),
                    d,
                ),
                external@ == candidates(adj, start.current_frontier@.take(i as int)).filter(
                    foreign,
                ),
            decreases self.current_frontier.len() - i,
        {
            let u: usize = self.current_frontier[i];
            assert(graph.readable(start.current_frontier@[i as int]));
            let list = graph.neighbors_of(u);
            let ghost before = candidates(adj, start.current_frontier@.take(i as int));
            proof {
                lemma_candidates_push(adj, start.current_frontier@, i as int);
                lemma_candidates_row(adj, start.current_frontier@, i as int);
                assert(before + list@.take(0) =~= before);
            }
            let mut j: usize = 0;
            while j < list.len()
                invariant
                    self.well_formed(),
                    start.well_formed(),
                    self.same_place(start),
                    self.current_frontier@ == start.current_frontier@,
                    start.current_level + 1 < UNVISITED,
                    d == start.current_level + 1,
                    j <= list.len(),
                    forall|v: usize| #[trigger] all.contains(v) ==> start.partition.places(v),
                    forall|k: int| 0 <= k < list@.len() ==> all.contains(#[trigger] list@[k]),
                    keep == (|v: usize| start.mine(v) && start.entry(v) == UNVISITED),
                    foreign == (|v: usize| !start.mine(v)),
                    self.next_frontier@ == start.next_frontier@ + first_seen(
                        before + list@.take(j as int),
                        keep,
                    ),
                    self.distances@ == marked(
                        start.partition,
                        start.worker_id,
                        start.distances@,
                        first_seen(before + list@.take(j as int), keep),
                        d,
                    ),
                    external@ == (before + list@.take(j as int)).filter(foreign),
                decreases list.len() - j,
            {
                let v: usize = list[j];
                let ghost met = before + list@.take(j as int);
                let ghost found = first_seen(met, keep);
                proof {
                    assert(all.contains(list@[j as int]));
                    self.partition.owner_holds(v);
                    assert(before + list@.take(j + 1) =~= met.push(v));
                    lemma_first_seen_push(met, v, keep);
                    lemma_filter_push(met, v, foreign);
                    if start.mine(v) {
                        lemma_mark_one(start.partition, start.worker_id, start.distances@, found, v, d);
                    }
                }
                if self.partition.owner(v) == self.worker_id {
                    let claimed = self.claim(v);
                    assert(claimed == (keep(v) && !found.contains(v)));
                    assert(claimed ==> self.next_frontier@ =~= start.next_frontier@ + found.push(v));
                } else {
                    external.push(v);
                }
                j = j + 1;
            }
            proof {
                assert(list@.take(list@.len() as int) =~= list@);
            }
            i = i + 1;
        }
        self.current_frontier.clear();
        let ghost found = start.fresh_own(all);
        proof {
            assert(start.current_frontier@.take(start.current_frontier@.len() as int)
                =~= start.current_frontier@);
        }
        let discoveries: usize = self.next_frontier.len() - prior;
        (external, discoveries)
    }

    /// Discovers nodes that other workers sent: those without a distance get the next
    /// level and join the next frontier. The result tells how many there were.
    pub fn absorb(&mut self, nodes: &[usize]) -> (count: usize)
        requires
            old(self).well_formed(),
            old(self).current_level + 1 < UNVISITED,
            forall|k: int|
                0 <= k < nodes@.len() ==> old(self).partition.holds(
                    old(self).worker_id,
                    #[trigger] nodes@[k],
                ),
        ensures
            final(self).well_formed(),
            final(self).discovered(*old(self), old(self).fresh(nodes@)),
            final(self).current_frontier@ == old(self).current_frontier@,
            count == old(self).fresh(nodes@).len(),
    {
        let ghost start = *self;
        let ghost keep = |v: usize| start.entry(v) == UNVISITED;
        let ghost d = (start.current_level + 1) as usize;
        let prior: usize = self.next_frontier.len();
        let mut j: usize = 0;
        proof {
            assert(nodes@.take(0) =~= Seq::<usize>::empty());
            assert(self.distances@ =~= marked(
                start.partition,
                start.worker_id,
                start.distances@,
                first_seen(nodes@.take(0), keep),
                d,
            ));
            assert(self.next_frontier@ =~= start.next_frontier@ + first_seen(nodes@.take(0), keep));
        }
        while j < nodes.len()
            invariant
                self.well_formed(),
                start.well_formed(),
                self.same_place(start),
                self.current_frontier@ == start.current_frontier@,
                start.current_level + 1 < UNVISITED,
                d == start.current_level + 1,
                j <= nodes.len(),
                forall|k: int|
                    0 <= k < nodes@.len() ==> start.partition.holds(
                        start.worker_id,
                        #[trigger] nodes@[k],
                    ),
                keep == (|v: usize| start.entry(v) == UNVISITED),
                self.next_frontier@ == start.next_frontier@ + first_seen(
                    nodes@.take(j as int),
                    keep,
                ),
                self.distances@ == marked(
                    start.partition,
                    start.worker_id,
                    start.distances@,
                    first_seen(nodes@.take(j as int), keep),
                    d,
                ),
            decreases nodes.len() - j,
        {
            let v: usize = nodes[j];
            let ghost met = nodes@.take(j as int);
            let ghost found = first_seen(met, keep);
            proof {
                assert(start.partition.holds(start.worker_id, nodes@[j as int]));
                assert(nodes@.take(j + 1) =~= met.push(v));
                lemma_first_seen_push(met, v, keep);
                lemma_mark_one(start.partition, start.worker_id, start.distances@, found, v, d);
            }
            let claimed = self.claim(v);
            assert(claimed == (keep(v) && !found.contains(v)));
            assert(claimed ==> self.next_frontier@ =~= start.next_frontier@ + found.push(v));
            j = j + 1;
        }
        assert(nodes@.take(nodes@.len() as int) =~= nodes@);
        self.next_frontier.len() - prior
    }

    /// Discovers the own nodes of a list that all workers were given.
    pub fn absorb_own(&mut self, nodes: &[usize]) -> (count: usize)
        requires
            old(self).well_formed(),
            old(self).current_level + 1 < UNVISITED,
            forall|k: int|
                0 <= k < nodes@.len() ==> old(self).partition.places(#[trigger] nodes@[k]),
        ensures
            final(self).well_formed(),
            final(self).discovered(*old(self), old(self).fresh_own(nodes@)),
            final(self).current_frontier@ == old(self).current_frontier@,
            count == old(self).fresh_own(nodes@).len(),
    {
        let ghost start = *self;
        let ghost keep = |v: usize| start.mine(v) && start.entry(v) == UNVISITED;
        let ghost d = (start.current_level + 1) as usize;
        let prior: usize = self.next_frontier.len();
        let mut j: usize = 0;
        proof {
            assert(nodes@.take(0) =~= Seq::<usize>::empty());
            assert(self.distances@ =~= marked(
                start.partition,
                start.worker_id,
                start.distances@,
                first_seen(nodes@.take(0), keep),
                d,
            ));
            assert(self.next_frontier@ =~= start.next_frontier@ + first_seen(nodes@.take(0), keep));
        }
        while j < nodes.len()
            invariant
                self.well_formed(),
                start.well_formed(),
                self.same_place(start),
                self.current_frontier@ == start.current_frontier@,
                start.current_level + 1 < UNVISITED,
                d == start.current_level + 1,
                j <= nodes.len(),
                forall|k: int|
                    0 <= k < nodes@.len() ==> start.partition.places(#[trigger] nodes@[k]),
                keep == (|v: usize| start.mine(v) && start.entry(v) == UNVISITED),
                self.next_frontier@ == start.next_frontier@ + first_seen(
                    nodes@.take(j as int),
                    keep,
                ),
                self.distances@ == marked(
                    start.partition,
                    start.worker_id,
                    start.distances@,
                    first_seen(nodes@.take(j as int), keep),
                    d,
                ),
            decreases nodes.len() - j,
        {
            let v: usize = nodes[j];
            let ghost met = nodes@.take(j as int);
            let ghost found = first_seen(met, keep);
            proof {
                assert(start.partition.places(nodes@[j as int]));
                start.partition.owner_holds(v);
                assert(nodes@.take(j + 1) =~= met.push(v));
                lemma_first_seen_push(met, v, keep);
                if start.mine(v) {
                    lemma_mark_one(start.partition, start.worker_id, start.distances@, found, v, d);
                }
            }
            if self.partition.owner(v) == self.worker_id {
                let claimed = self.claim(v);
                assert(claimed == (keep(v) && !found.contains(v)));
                assert(claimed ==> self.next_frontier@ =~= start.next_frontier@ + found.push(v));
            }
            j = j + 1;
        }
        assert(nodes@.take(nodes@.len() as int) =~= nodes@);
        self.next_frontier.len() - prior
    }

    /// Starts a search from `source`: the table is wiped, a worker that holds the source
    /// gives it distance zero, and the owner of the source has it as its frontier.
    pub fn start_trial(&mut self, source: usize)
        requires
            old(self).well_formed(),
            old(self).partition.places(source),
        ensures
            final(self).partition == old(self).partition,
            final(self).worker_id == old(self).worker_id,
            final(self).trial_started(source),
    {
        let mut i: usize = 0;
        while i < self.distances.len()
            invariant
                self.well_formed(),
                self.partition == old(self).partition,
                self.worker_id == old(self).worker_id,
                i <= self.distances.len(),
                forall|k: int| 0 <= k < i ==> #[trigger] self.distances@[k] == UNVISITED,
            decreases self.distances.len() - i,
        {
            self.distances[i] = UNVISITED;
            i = i + 1;
        }
        self.current_frontier.clear();
        self.next_frontier.clear();
        self.current_level = 0;
        match self.partition.find_slot(self.worker_id, source) {
            Some(slot) => {
                proof {
                    self.partition.slot_inverts(self.worker_id, source);
                }
                self.distances[slot] = 0;
            },
            None => {},
        }
        if self.partition.owner(source) == self.worker_id {
            self.current_frontier.push(source);
            assert(self.current_frontier@ =~= seq![source]);
        }
    }

    /// Ends a level: the next frontier becomes the current one.
    pub fn advance(&mut self)
        requires
            old(self).current_level < usize::MAX,
        ensures
            final(self).partition == old(self).partition,
            final(self).worker_id == old(self).worker_id,
            final(self).distances@ == old(self).distances@,
            final(self).current_frontier@ == old(self).next_frontier@,
            final(self).next_frontier@ == old(self).current_frontier@,
            final(self).current_level == old(self).current_level + 1,
    {
        std::mem::swap(&mut self.current_frontier, &mut self.next_frontier);
        self.current_level = self.current_level + 1;
    }

    /// The distances that this worker answers for, in the order of its table.
    pub fn local_distances(&self) -> (out: Vec<(usize, usize)>)
        requires
            self.well_formed(),
        ensures
            out@ == answers(
                self.partition,
                self.worker_id,
                self.distances@,
                self.distances@.len(),
            ),
    {
        let mut out: Vec<(usize, usize)> = Vec::new();
        let mut i: usize = 0;
        while i < self.distances.len()
            invariant
                self.well_formed(),
                i <= self.distances.len(),
                out@ == answers(self.partition, self.worker_id, self.distances@, i as nat),
            decreases self.distances.len() - i,
        {
            let d: usize = self.distances[i];
            if d != UNVISITED {
                match self.partition.answered_node(self.worker_id, i) {
                    Some(node) => {
                        out.push((node, d));
                    },
                    None => {},
                }
            }
            i = i + 1;
        }
        out
    }

    /// Adds the distances that this worker answers for to its output. Only the first trial is
    /// recorded.
    pub fn record(&self, trial: usize, out: &mut Vec<(usize, usize)>)
        requires
            self.well_formed(),
        ensures
            final(out)@ == (if trial == 0 {
                old(out)@ + answers(
                    self.partition,
                    self.worker_id,
                    self.distances@,
                    self.distances@.len(),
                )
            } else {
                old(out)@
            }),
    {
        if trial == 0 {
            let mut found = self.local_distances();
            out.append(&mut found);
        }
    }
}


/// The nodes that are new to a worker: each of them once, no node that the worker has a distance
/// for, and in the order in which they first occur.
pub proof fn fresh_nodes_are<P: Partition>(
    worker: Worker<P>,
    nodes: Seq<usize>,
    v: usize,
    i: int,
    j: int,
)
    ensures
        worker.fresh(nodes).no_duplicates(),
        worker.fresh(nodes).contains(v) <==> nodes.contains(v) && worker.entry(v) == UNVISITED,
        0 <= i < j < worker.fresh(nodes).len() ==> exists|k: int|
            0 <= k < nodes.len() && #[trigger] nodes[k] == worker.fresh(nodes)[i] && !nodes.take(
                k + 1,
            ).contains(worker.fresh(nodes)[j]),
        worker.fresh_own(nodes).no_duplicates(),
        worker.fresh_own(nodes).contains(v) <==> nodes.contains(v) && worker.entry(v) == UNVISITED
            && worker.partition.owner_of(v) == worker.worker_id,
        0 <= i < j < worker.fresh_own(nodes).len() ==> exists|k: int|
            0 <= k < nodes.len() && #[trigger] nodes[k] == worker.fresh_own(nodes)[i]
                && !nodes.take(k + 1).contains(worker.fresh_own(nodes)[j]),
{
    let keep = |v: usize| worker.entry(v) == UNVISITED;
    let keep_own = |v: usize| worker.mine(v) && worker.entry(v) == UNVISITED;
    lemma_first_seen(nodes, keep);
    lemma_first_seen(nodes, keep_own);
    if 0 <= i < j < worker.fresh(nodes).len() {
        first_seen_keeps_order(nodes, keep, i, j);
    }
    if 0 <= i < j < worker.fresh_own(nodes).len() {
        first_seen_keeps_order(nodes, keep_own, i, j);
    }
}

/// Discovering nodes puts them behind the next frontier, gives each of them the level below the
/// current one, and changes the distance of no other node.
pub proof fn discovery_adds_nodes<P: Partition>(
    before: Worker<P>,
    after: Worker<P>,
    nodes: Seq<usize>,
    v: usize,
)
    requires
        before.well_formed(),
        after.discovered(before, nodes),
        before.partition.holds(before.worker_id, v),
        before.current_level < usize::MAX,
    ensures
        after.next_frontier@ == before.next_frontier@ + nodes,
        after.current_level == before.current_level,
        after.worker_id == before.worker_id,
        after.partition == before.partition,
        nodes.contains(v) ==> after.entry(v) == before.current_level + 1,
        !nodes.contains(v) ==> after.entry(v) == before.entry(v),
{
    before.partition.slot_inverts(before.worker_id, v);
    lemma_listed(nodes, v);
}


/// A worker answers for a node that is dealt to it exactly where its table has a distance for it,
/// and with that distance; it answers for no node that is dealt to another.
pub proof fn answers_are_entries<P: Partition>(
    partition: P,
    w: u32,
    table: Seq<usize>,
    k: nat,
    v: usize,
    d: usize,
)
    requires
        partition.valid(),
        w < partition.worker_total(),
        partition.places(v),
        table.len() == partition.table_len(),
        k <= table.len(),
    ensures
        answers(partition, w, table, k).contains((v, d)) <==> partition.owner_of(v) == w
            && partition.slot_of(w, v) < k && table[partition.slot_of(w, v)] == d && d != UNVISITED,
    decreases k,
{
    if partition.owner_of(v) == w {
        partition.owner_holds(v);
        partition.slot_inverts(w, v);
    }
    if k > 0 {
        let earlier = answers(partition, w, table, (k - 1) as nat);
        let all = answers(partition, w, table, k);
        answers_are_entries(partition, w, table, (k - 1) as nat, v, d);
        if partition.answers_for(w, k - 1) {
            partition.answers_own(w, k - 1);
        }
        if all.contains((v, d)) {
            let i = choose|i: int| 0 <= i < all.len() && all[i] == (v, d);
            if i < earlier.len() {
                assert(earlier[i] == (v, d));
            }
        }
        if earlier.contains((v, d)) {
            let i = choose|i: int| 0 <= i < earlier.len() && earlier[i] == (v, d);
            assert(all[i] == (v, d));
        }
        if partition.owner_of(v) == w && partition.slot_of(w, v) == k - 1 && table[k - 1] == d && d
            != UNVISITED {
            assert(all[all.len() - 1] == (v, d));
        }
    }
}

} // verus!

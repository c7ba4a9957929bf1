//! What searches leave: the keys of their moments, the number of their levels,
//! and what each worker answers with.

use vstd::prelude::*;
use vstd::string::StringExecFns;

use super::exchange::{stops_after, work_at};
use crate::lockstep::{in_step, joint_table, lemma_joint_entry};
use crate::model::{
    edge, is_distance, is_eccentricity, lemma_distance_unique, lemma_shortest_walk,
    lemma_walk_step, reachable, shortest_distances, shortest_distances_unique, walk, UNVISITED,
};
use crate::moments::{
    opening_keys, run_keys, search_keys, texts, trial_keys, trials_keys, Pattern,
};
use crate::partition::Partition;
use crate::text::decimal_of;
use crate::timestamps::{trial_end_key, trial_start_key};
use crate::worker::{answers, Worker};

verus! {

/// The nodes with a distance that worker `w` answers for, over the first `k` entries of its
/// table, with the distance that `dist` has for them.
pub open spec fn own_pairs<P: Partition>(partition: P, w: u32, dist: Seq<usize>, k: nat) -> Seq<
    (usize, usize),
>
    decreases k,
{
    if k == 0 {
        Seq::empty()
    } else {
        let earlier = own_pairs(partition, w, dist, (k - 1) as nat);
        let node = partition.node_at(w, k - 1);
        if partition.answers_for(w, k - 1) && dist[node] != UNVISITED {
            earlier.push((node as usize, dist[node]))
        } else {
            earlier
        }
    }
}

/// Each worker has its own pairs.
pub open spec fn lists_own<P: Partition>(
    partition: P,
    dist: Seq<usize>,
    lists: Seq<Vec<(usize, usize)>>,
) -> bool {
    &&& lists.len() == partition.worker_total()
    &&& forall|w: int|
        0 <= w < lists.len() ==> (#[trigger] lists[w])@ == own_pairs(
            partition,
            w as u32,
            dist,
            partition.table_len(),
        )
}

/// The division deals out every node.
pub open spec fn places_all<P: Partition>(partition: P) -> bool {
    forall|v: usize| v < partition.node_total() ==> #[trigger] partition.places(v)
}

/// What a worker answers with are its own pairs of the joint table.
proof fn lemma_answers_own<P: Partition>(
    partition: P,
    workers: Seq<Worker<P>>,
    level: nat,
    w: int,
    k: nat,
)
    requires
        places_all(partition),
        in_step(partition, workers, level),
        partition.worker_total() <= u32::MAX,
        0 <= w < workers.len(),
        k <= partition.table_len(),
    ensures
        answers(partition, w as u32, workers[w].distances@, k) == own_pairs(
            partition,
            w as u32,
            joint_table(partition, workers),
            k,
        ),
    decreases k,
{
    if k > 0 {
        lemma_answers_own(partition, workers, level, w, (k - 1) as nat);
        assert(workers[w].well_formed());
        if partition.answers_for(w as u32, k - 1) {
            partition.answers_own(w as u32, k - 1);
            let v = partition.node_at(w as u32, k - 1) as usize;
            assert(partition.places(v));
            lemma_joint_entry(partition, workers, v);
        }
    }
}

/// What every worker answers with.
pub(crate) fn list_all<P: Partition>(workers: &Vec<Worker<P>>, Ghost(partition): Ghost<P>, Ghost(
    level,
): Ghost<nat>) -> (lists: Vec<Vec<(usize, usize)>>)
    requires
        places_all(partition),
        in_step(partition, workers@, level),
        partition.worker_total() <= u32::MAX,
    ensures
        lists_own(partition, joint_table(partition, workers@), lists@),
{
    let mut lists: Vec<Vec<(usize, usize)>> = Vec::new();
    let ghost dist = joint_table(partition, workers@);
    let mut id: usize = 0;
    while id < workers.len()
        invariant
            id <= workers@.len(),
            places_all(partition),
            in_step(partition, workers@, level),
            partition.worker_total() <= u32::MAX,
            dist == joint_table(partition, workers@),
            lists@.len() == id,
            forall|w: int|
                0 <= w < id ==> (#[trigger] lists@[w])@ == own_pairs(
                    partition,
                    w as u32,
                    dist,
                    partition.table_len(),
                ),
        decreases workers@.len() - id,
    {
        proof {
            assert(workers@[id as int].well_formed());
            assert(workers@[id as int].worker_id == id);
            lemma_answers_own(partition, workers@, level, id as int, partition.table_len());
        }
        let list = workers[id].local_distances();
        lists.push(list);
        id = id + 1;
    }
    lists
}

/// What one search leaves.
pub struct Found {
    pub keys: Vec<String>,
    pub levels: usize,
    pub distances: Vec<usize>,
    pub lists: Vec<Vec<(usize, usize)>>,
}

impl Found {
    /// The search from `s` found the distances, of which each worker answers for its own, after
    /// the levels at which some worker had work and one more, and has the keys of so many.
    pub open spec fn tells<P: Partition>(
        &self,
        adj: Seq<Seq<usize>>,
        s: usize,
        partition: P,
        pattern: Pattern,
        trial: Option<usize>,
    ) -> bool {
        &&& shortest_distances(adj, s, self.distances@)
        &&& lists_own(partition, self.distances@, self.lists@)
        &&& stops_after(adj, s, partition, self.levels as nat)
        &&& texts(self.keys@) == search_keys(trial, pattern, self.levels as nat)
    }
}

/// What a run over trials leaves: the keys of its moments, which are the same for every worker,
/// the number of levels of each trial, and what each worker answers with after the first trial.
pub struct TrialsResult {
    pub keys: Vec<String>,
    pub levels: Vec<usize>,
    pub lists: Vec<Vec<(usize, usize)>>,
}

impl TrialsResult {
    /// The first `t` trials were searches from the first sources.
    pub open spec fn tells_first<P: Partition>(
        &self,
        adj: Seq<Seq<usize>>,
        sources: Seq<usize>,
        partition: P,
        pattern: Pattern,
        t: nat,
    ) -> bool {
        &&& self.levels@.len() == t
        &&& forall|i: int|
            0 <= i < t ==> stops_after(
                adj,
                sources[i],
                partition,
                #[trigger] self.levels@[i] as nat,
            )
        &&& texts(self.keys@) == opening_keys() + trials_keys(pattern, self.levels@)
        &&& self.lists@.len() == partition.worker_total()
        &&& t == 0 ==> forall|w: int|
            0 <= w < self.lists@.len() ==> (#[trigger] self.lists@[w])@.len() == 0
        &&& t > 0 ==> exists|dist: Seq<usize>| #[trigger]
            shortest_distances(adj, sources[0], dist) && lists_own(partition, dist, self.lists@)
    }

    /// The trials were searches from the sources: each had the levels at which some worker had
    /// work and one more, the moments are those of so many levels, and each worker answers with
    /// its own nodes and their distances from the first source.
    pub open spec fn tells<P: Partition>(
        &self,
        adj: Seq<Seq<usize>>,
        sources: Seq<usize>,
        partition: P,
        pattern: Pattern,
    ) -> bool {
        &&& self.levels@.len() == sources.len()
        &&& forall|i: int|
            0 <= i < sources.len() ==> stops_after(
                adj,
                sources[i],
                partition,
                #[trigger] self.levels@[i] as nat,
            )
        &&& texts(self.keys@) == run_keys(pattern, self.levels@)
        &&& self.lists@.len() == partition.worker_total()
        &&& sources.len() == 0 ==> forall|w: int|
            0 <= w < self.lists@.len() ==> (#[trigger] self.lists@[w])@.len() == 0
        &&& sources.len() > 0 ==> exists|dist: Seq<usize>| #[trigger]
            shortest_distances(adj, sources[0], dist) && lists_own(partition, dist, self.lists@)
    }

    /// A run before its first trial.
    pub(crate) fn open<P: Partition>(
        num_threads: u32,
        Ghost(adj): Ghost<Seq<Seq<usize>>>,
        Ghost(sources): Ghost<Seq<usize>>,
        Ghost(partition): Ghost<P>,
        Ghost(pattern): Ghost<Pattern>,
    ) -> (run: TrialsResult)
        requires
            partition.worker_total() == num_threads,
        ensures
            run.tells_first(adj, sources, partition, pattern, 0),
    {
        let mut keys: Vec<String> = Vec::new();
        keys.push(String::from_str("worker_start"));
        keys.push(String::from_str("graph_generated"));
        let levels: Vec<usize> = Vec::new();
        let mut lists: Vec<Vec<(usize, usize)>> = Vec::new();
        let mut id: u32 = 0;
        while id < num_threads
            invariant
                id <= num_threads,
                lists@.len() == id,
                forall|w: int| 0 <= w < lists@.len() ==> (#[trigger] lists@[w])@.len() == 0,
            decreases num_threads - id,
        {
            lists.push(Vec::new());
            id = id + 1;
        }
        assert(trials_keys(pattern, levels@) =~= Seq::<Seq<char>>::empty());
        assert(texts(keys@) =~= opening_keys() + trials_keys(pattern, levels@));
        TrialsResult { keys, levels, lists }
    }

    /// Puts a trial behind those that are there.
    pub(crate) fn record<P: Partition>(
        &mut self,
        found: Found,
        Ghost(adj): Ghost<Seq<Seq<usize>>>,
        Ghost(sources): Ghost<Seq<usize>>,
        Ghost(partition): Ghost<P>,
        Ghost(pattern): Ghost<Pattern>,
    )
        requires
            old(self).levels@.len() < sources.len(),
            old(self).tells_first(adj, sources, partition, pattern, old(self).levels@.len()),
            found.tells(
                adj,
                sources[old(self).levels@.len() as int],
                partition,
                pattern,
                Some(old(self).levels@.len() as usize),
            ),
        ensures
            final(self).tells_first(
                adj,
                sources,
                partition,
                pattern,
                old(self).levels@.len() + 1,
            ),
    {
        let trial: usize = self.levels.len();
        let ghost done = texts(self.keys@);
        let ghost counts = self.levels@;
        let ghost count = found.levels;
        let ghost dist = found.distances@;
        let ghost more = texts(found.keys@);
        self.keys.push(trial_start_key(trial));
        let ghost begun = texts(self.keys@);
        assert(begun =~= done.push("trial_"@ + decimal_of(trial as nat) + "_start"@));
        let mut keys = found.keys;
        self.keys.append(&mut keys);
        let ghost searched = texts(self.keys@);
        assert(searched =~= begun + more);
        self.keys.push(trial_end_key(trial));
        self.levels.push(found.levels);
        proof {
            assert(texts(self.keys@) =~= searched.push(
                "trial_"@ + decimal_of(trial as nat) + "_end"@,
            ));
            assert(self.levels@.drop_last() =~= counts);
            assert(texts(self.keys@) =~= done + trial_keys(trial, pattern, count as nat));
            assert(texts(self.keys@) =~= opening_keys() + trials_keys(pattern, self.levels@));
            assert forall|i: int| 0 <= i < trial + 1 implies stops_after(
                adj,
                sources[i],
                partition,
                #[trigger] self.levels@[i] as nat,
            ) by {
                if i < trial {
                    assert(self.levels@[i] == counts[i]);
                }
            }
        }
        if trial == 0 {
            self.lists = found.lists;
            assert(shortest_distances(adj, sources[0], dist));
        }
    }

    /// Ends the run.
    pub(crate) fn close<P: Partition>(
        &mut self,
        Ghost(adj): Ghost<Seq<Seq<usize>>>,
        Ghost(sources): Ghost<Seq<usize>>,
        Ghost(partition): Ghost<P>,
        Ghost(pattern): Ghost<Pattern>,
    )
        requires
            old(self).tells_first(adj, sources, partition, pattern, sources.len()),
        ensures
            final(self).tells(adj, sources, partition, pattern),
    {
        let ghost done = texts(self.keys@);
        self.keys.push(String::from_str("worker_end"));
        proof {
            assert(texts(self.keys@) =~= done.push("worker_end"@));
            assert(texts(self.keys@) =~= run_keys(pattern, self.levels@));
        }
    }
}

/// The pairs of a worker: each is a node of its own with its distance, every such node is
/// there, and none twice.
pub proof fn pairs_are_own<P: Partition>(partition: P, w: u32, dist: Seq<usize>, k: nat)
    requires
        partition.valid(),
        places_all(partition),
        w < partition.worker_total(),
        k <= partition.table_len(),
    ensures
        forall|i: int|
            0 <= i < own_pairs(partition, w, dist, k).len() ==> {
                let pair = #[trigger] own_pairs(partition, w, dist, k)[i];
                &&& pair.0 < partition.node_total()
                &&& partition.owner_of(pair.0) == w
                &&& 0 <= partition.slot_of(w, pair.0) < k
                &&& pair.1 == dist[pair.0 as int]
                &&& pair.1 != UNVISITED
            },
        forall|i: int, j: int|
            0 <= i < j < own_pairs(partition, w, dist, k).len() ==> (#[trigger] own_pairs(
                partition,
                w,
                dist,
                k,
            )[i]).0 != (#[trigger] own_pairs(partition, w, dist, k)[j]).0,
        forall|v: usize|
            partition.places(v) && partition.owner_of(v) == w && partition.slot_of(w, v) < k
                && #[trigger] dist[v as int] != UNVISITED ==> own_pairs(
                partition,
                w,
                dist,
                k,
            ).contains((v, dist[v as int])),
    decreases k,
{
    if k > 0 {
        let last = (k - 1) as nat;
        pairs_are_own(partition, w, dist, last);
        let earlier = own_pairs(partition, w, dist, last);
        let all = own_pairs(partition, w, dist, k);
        if partition.answers_for(w, k - 1) {
            partition.answers_own(w, k - 1);
            assert(partition.places(partition.node_at(w, k - 1) as usize));
        }
        assert forall|i: int| 0 <= i < all.len() implies {
            let pair = #[trigger] all[i];
            &&& pair.0 < partition.node_total()
            &&& partition.owner_of(pair.0) == w
            &&& 0 <= partition.slot_of(w, pair.0) < k
            &&& pair.1 == dist[pair.0 as int]
            &&& pair.1 != UNVISITED
        } by {
            if i < earlier.len() {
                assert(all[i] == earlier[i]);
            }
        }
        assert forall|i: int, j: int| 0 <= i < j < all.len() implies (#[trigger] all[i]).0 != (
        #[trigger] all[j]).0 by {
            assert(all[i] == earlier[i]);
            if j < earlier.len() {
                assert(all[j] == earlier[j]);
            } else {
                assert(partition.slot_of(w, earlier[i].0) < last);
            }
        }
        assert forall|v: usize|
            partition.places(v) && partition.owner_of(v) == w && partition.slot_of(w, v) < k
                && #[trigger] dist[v as int] != UNVISITED implies all.contains(
            (v, dist[v as int]),
        ) by {
            partition.owner_holds(v);
            partition.slot_inverts(w, v);
            if partition.slot_of(w, v) < last {
                assert(earlier.contains((v, dist[v as int])));
                let i = choose|i: int| 0 <= i < earlier.len() && earlier[i] == (v, dist[v as int]);
                assert(all[i] == (v, dist[v as int]));
            } else {
                assert(all[all.len() - 1] == (v, dist[v as int]));
            }
        }
    } else {
        assert forall|v: usize| partition.places(v) && partition.owner_of(v) == w implies 0
            <= #[trigger] partition.slot_of(w, v) by {
            partition.owner_holds(v);
            partition.slot_inverts(w, v);
        }
    }
}

/// The lists of all workers together name every node that has a distance exactly once, with
/// that distance, and no other node.
pub proof fn lists_make_up_table<P: Partition>(
    partition: P,
    dist: Seq<usize>,
    lists: Seq<Vec<(usize, usize)>>,
)
    requires
        partition.valid(),
        places_all(partition),
        partition.worker_total() <= u32::MAX,
        dist.len() == partition.node_total(),
        dist.len() <= usize::MAX,
        lists_own(partition, dist, lists),
    ensures
        forall|w: int, i: int|
            0 <= w < lists.len() && 0 <= i < lists[w]@.len() ==> {
                let pair = #[trigger] lists[w]@[i];
                pair.0 < dist.len() && pair.1 == dist[pair.0 as int] && pair.1 != UNVISITED
            },
        forall|v: usize|
            v < dist.len() && #[trigger] dist[v as int] != UNVISITED ==> exists|w: int|
                0 <= w < lists.len() && #[trigger] lists[w]@.contains((v, dist[v as int])),
        forall|w: int, i: int, x: int, j: int|
            0 <= w < lists.len() && 0 <= i < lists[w]@.len() && 0 <= x < lists.len() && 0 <= j
                < lists[x]@.len() && (#[trigger] lists[w]@[i]).0 == (#[trigger] lists[x]@[j]).0
                ==> w == x && i == j,
{
    assert forall|w: int, i: int| 0 <= w < lists.len() && 0 <= i < lists[w]@.len() implies {
        let pair = #[trigger] lists[w]@[i];
        pair.0 < dist.len() && pair.1 == dist[pair.0 as int] && pair.1 != UNVISITED
            && partition.owner_of(pair.0) == w
    } by {
        pairs_are_own(partition, w as u32, dist, partition.table_len());
        assert(lists[w]@ == own_pairs(partition, w as u32, dist, partition.table_len()));
    }
    assert forall|v: usize| v < dist.len() && #[trigger] dist[v as int] != UNVISITED implies exists|
        w: int,
    | 0 <= w < lists.len() && #[trigger] lists[w]@.contains((v, dist[v as int])) by {
        assert(partition.places(v));
        partition.owner_holds(v);
        let w = partition.owner_of(v);
        partition.slot_inverts(w, v);
        pairs_are_own(partition, w, dist, partition.table_len());
        assert(lists[w as int]@ == own_pairs(partition, w, dist, partition.table_len()));
        assert(lists[w as int]@.contains((v, dist[v as int])));
    }
    assert forall|w: int, i: int, x: int, j: int|
        0 <= w < lists.len() && 0 <= i < lists[w]@.len() && 0 <= x < lists.len() && 0 <= j
            < lists[x]@.len() && (#[trigger] lists[w]@[i]).0 == (
        #[trigger] lists[x]@[j]).0 implies w == x && i == j by {
        assert(partition.owner_of(lists[w]@[i].0) == w);
        assert(partition.owner_of(lists[x]@[j].0) == x);
        pairs_are_own(partition, w as u32, dist, partition.table_len());
        assert(lists[w]@ == own_pairs(partition, w as u32, dist, partition.table_len()));
    }
}

/// Runs with the same first source name the same nodes with the same distances, whatever the
/// division and the number of workers, and those are the distances of any search from it.
pub proof fn lists_do_not_depend_on_workers<P: Partition, Q: Partition>(
    adj: Seq<Seq<usize>>,
    sources: Seq<usize>,
    a_partition: P,
    a_pattern: Pattern,
    a: TrialsResult,
    b_partition: Q,
    b_pattern: Pattern,
    b: TrialsResult,
    dist: Seq<usize>,
    v: usize,
    d: usize,
)
    requires
        adj.len() <= usize::MAX,
        sources.len() > 0,
        a.tells(adj, sources, a_partition, a_pattern),
        b.tells(adj, sources, b_partition, b_pattern),
        a_partition.valid() && places_all(a_partition),
        b_partition.valid() && places_all(b_partition),
        a_partition.node_total() == adj.len() == b_partition.node_total(),
        a_partition.worker_total() <= u32::MAX,
        b_partition.worker_total() <= u32::MAX,
        shortest_distances(adj, sources[0], dist),
    ensures
        (exists|w: int| 0 <= w < a.lists@.len() && #[trigger] a.lists@[w]@.contains((v, d))) <==> v
            < dist.len() && d == dist[v as int] && d != UNVISITED,
        (exists|w: int| 0 <= w < b.lists@.len() && #[trigger] b.lists@[w]@.contains((v, d))) <==> v
            < dist.len() && d == dist[v as int] && d != UNVISITED,
{
    lemma_lists_name(adj, sources, a_partition, a_pattern, a, dist, v, d);
    lemma_lists_name(adj, sources, b_partition, b_pattern, b, dist, v, d);
}

/// The lists of a run name a node with a distance where a search from the first source has it.
proof fn lemma_lists_name<P: Partition>(
    adj: Seq<Seq<usize>>,
    sources: Seq<usize>,
    partition: P,
    pattern: Pattern,
    run: TrialsResult,
    dist: Seq<usize>,
    v: usize,
    d: usize,
)
    requires
        adj.len() <= usize::MAX,
        sources.len() > 0,
        run.tells(adj, sources, partition, pattern),
        partition.valid() && places_all(partition),
        partition.node_total() == adj.len(),
        partition.worker_total() <= u32::MAX,
        shortest_distances(adj, sources[0], dist),
    ensures
        (exists|w: int| 0 <= w < run.lists@.len() && #[trigger] run.lists@[w]@.contains((v, d)))
            <==> v < dist.len() && d == dist[v as int] && d != UNVISITED,
{
    let lists = run.lists@;
    let own = choose|own: Seq<usize>| #[trigger]
        shortest_distances(adj, sources[0], own) && lists_own(partition, own, lists);
    shortest_distances_unique(adj, sources[0], own, dist);
    lists_make_up_table(partition, dist, lists);
    if exists|w: int| 0 <= w < lists.len() && #[trigger] lists[w]@.contains((v, d)) {
        let w = choose|w: int| 0 <= w < lists.len() && #[trigger] lists[w]@.contains((v, d));
        let i = choose|i: int| 0 <= i < lists[w]@.len() && lists[w]@[i] == (v, d);
        assert(lists[w]@[i].0 == v);
    }
}

/// Workers that go on while any has work run as many levels as the largest distance from the
/// source, and one or two more.
pub proof fn level_count_bounds<P: Partition>(
    adj: Seq<Seq<usize>>,
    s: usize,
    partition: P,
    levels: nat,
    e: nat,
)
    requires
        stops_after(adj, s, partition, levels),
        is_eccentricity(adj, s, e),
    ensures
        e + 1 <= levels <= e + 2,
{
    let last = (levels - 1) as nat;
    if last < e {
        let far = choose|v: usize| #[trigger] is_distance(adj, s, v, e);
        let nodes = lemma_shortest_walk(adj, s, far, e);
        let v = nodes[last as int + 1];
        assert(is_distance(adj, s, v, last + 1));
        let u = choose|u: usize|
            walk(adj, s, u, ((last + 1) - 1) as nat) && #[trigger] edge(adj, u, v);
        assert forall|j: nat| j < last implies !walk(adj, s, u, j) by {
            if walk(adj, s, u, j) {
                lemma_walk_step(adj, s, u, v, j);
                assert(!walk(adj, s, v, j + 1));
            }
        }
        assert(is_distance(adj, s, u, last) && edge(adj, u, v));
        assert(work_at(adj, s, partition, last));
    }
    if levels > e + 2 {
        assert(work_at(adj, s, partition, e + 1));
        let (u, v) = choose|u: usize, v: usize|
            #![trigger edge(adj, u, v)]
            is_distance(adj, s, u, e + 1) && edge(adj, u, v) && (partition.owner_of(v)
                != partition.owner_of(u) || is_distance(adj, s, v, e + 1 + 1));
        assert(is_distance(adj, s, u, e + 1));
    }
}

/// How many levels exactly: one more than the largest distance from the source, unless a node at
/// that distance has an edge to a node of another worker, for which the workers go on once more.
pub proof fn level_count_is<P: Partition>(
    adj: Seq<Seq<usize>>,
    s: usize,
    partition: P,
    levels: nat,
    e: nat,
)
    requires
        stops_after(adj, s, partition, levels),
        is_eccentricity(adj, s, e),
    ensures
        levels == e + 2 <==> exists|u: usize, v: usize|
            #![trigger edge(adj, u, v)]
            is_distance(adj, s, u, e) && edge(adj, u, v) && partition.owner_of(u)
                != partition.owner_of(v),
        levels == e + 1 || levels == e + 2,
{
    level_count_bounds(adj, s, partition, levels, e);
    if levels == e + 2 {
        assert(work_at(adj, s, partition, e));
        let (u, v) = choose|u: usize, v: usize|
            #![trigger edge(adj, u, v)]
            is_distance(adj, s, u, e) && edge(adj, u, v) && (partition.owner_of(v)
                != partition.owner_of(u) || is_distance(adj, s, v, e + 1));
        assert(is_distance(adj, s, u, e) && edge(adj, u, v));
        if is_distance(adj, s, v, e + 1) {
            assert(e + 1 <= e);
        }
    } else {
        assert(!work_at(adj, s, partition, e));
    }
}

/// A worker's pairs stand in the order of its table.
pub proof fn pairs_follow_table<P: Partition>(partition: P, w: u32, dist: Seq<usize>, k: nat)
    requires
        partition.valid(),
        places_all(partition),
        w < partition.worker_total(),
        k <= partition.table_len(),
    ensures
        forall|i: int, j: int|
            0 <= i < j < own_pairs(partition, w, dist, k).len() ==> partition.slot_of(
                w,
                (#[trigger] own_pairs(partition, w, dist, k)[i]).0,
            ) < partition.slot_of(w, (#[trigger] own_pairs(partition, w, dist, k)[j]).0),
    decreases k,
{
    if k > 0 {
        let last = (k - 1) as nat;
        pairs_follow_table(partition, w, dist, last);
        pairs_are_own(partition, w, dist, last);
        let earlier = own_pairs(partition, w, dist, last);
        let all = own_pairs(partition, w, dist, k);
        if partition.answers_for(w, k - 1) {
            partition.answers_own(w, k - 1);
            assert(partition.places(partition.node_at(w, k - 1) as usize));
        }
        assert forall|i: int, j: int| 0 <= i < j < all.len() implies partition.slot_of(
            w,
            (#[trigger] all[i]).0,
        ) < partition.slot_of(w, (#[trigger] all[j]).0) by {
            assert(all[i] == earlier[i]);
            if j < earlier.len() {
                assert(all[j] == earlier[j]);
            }
        }
    }
}


/// A list of own pairs names a node with a number exactly where the node is the worker's own and
/// the number is its distance.
proof fn lemma_pairs_are_distances<P: Partition>(
    adj: Seq<Seq<usize>>,
    s: usize,
    partition: P,
    dist: Seq<usize>,
    w: u32,
    v: usize,
    d: usize,
)
    requires
        shortest_distances(adj, s, dist),
        partition.valid(),
        places_all(partition),
        partition.node_total() == adj.len(),
        w < partition.worker_total(),
        v < adj.len(),
    ensures
        own_pairs(partition, w, dist, partition.table_len()).contains((v, d))
            <==> partition.owner_of(v) == w && is_distance(adj, s, v, d as nat),
{
    let pairs = own_pairs(partition, w, dist, partition.table_len());
    pairs_are_own(partition, w, dist, partition.table_len());
    if pairs.contains((v, d)) {
        let i = choose|i: int| 0 <= i < pairs.len() && pairs[i] == (v, d);
        assert(dist[v as int] == d);
    }
    if partition.owner_of(v) == w && is_distance(adj, s, v, d as nat) {
        assert(reachable(adj, s, v));
        assert(dist[v as int] != UNVISITED);
        lemma_distance_unique(adj, s, v, d as nat, dist[v as int] as nat);
        partition.owner_holds(v);
        partition.slot_inverts(w, v);
    }
}

/// After a search, a worker answers with a node and a number exactly where the node is dealt to it
/// and a shortest walk from the source to the node has that many edges.
pub proof fn search_answers_distances<P: Partition>(
    found: Found,
    adj: Seq<Seq<usize>>,
    s: usize,
    partition: P,
    pattern: Pattern,
    trial: Option<usize>,
    w: int,
    v: usize,
    d: usize,
)
    requires
        found.tells(adj, s, partition, pattern, trial),
        partition.valid(),
        places_all(partition),
        partition.node_total() == adj.len(),
        0 <= w < partition.worker_total() <= u32::MAX,
        v < adj.len(),
    ensures
        found.lists@[w]@.contains((v, d)) <==> partition.owner_of(v) == w && is_distance(
            adj,
            s,
            v,
            d as nat,
        ),
{
    assert(found.lists@[w]@ == own_pairs(
        partition,
        w as u32,
        found.distances@,
        partition.table_len(),
    ));
    lemma_pairs_are_distances(adj, s, partition, found.distances@, w as u32, v, d);
}

/// After a run over trials, a worker answers with a node and a number exactly where the node is
/// dealt to it and a shortest walk from the first source to the node has that many edges. Without
/// sources it answers with nothing.
pub proof fn trials_answer_first_source<P: Partition>(
    run: TrialsResult,
    adj: Seq<Seq<usize>>,
    sources: Seq<usize>,
    partition: P,
    pattern: Pattern,
    w: int,
    v: usize,
    d: usize,
)
    requires
        run.tells(adj, sources, partition, pattern),
        partition.valid(),
        places_all(partition),
        partition.node_total() == adj.len(),
        0 <= w < partition.worker_total() <= u32::MAX,
        v < adj.len(),
    ensures
        run.levels@.len() == sources.len(),
        sources.len() == 0 ==> run.lists@[w]@.len() == 0,
        sources.len() > 0 ==> (run.lists@[w]@.contains((v, d)) <==> partition.owner_of(v) == w
            && is_distance(adj, sources[0], v, d as nat)),
{
    if sources.len() > 0 {
        let dist = choose|dist: Seq<usize>| #[trigger]
            shortest_distances(adj, sources[0], dist) && lists_own(partition, dist, run.lists@);
        assert(run.lists@[w]@ == own_pairs(partition, w as u32, dist, partition.table_len()));
        lemma_pairs_are_distances(adj, sources[0], partition, dist, w as u32, v, d);
    }
}

} // verus!

//! A worker's way through its trials: where each search starts, when it goes on
//! to the next level, and what is kept of it.

use vstd::prelude::*;

use crate::model::UNVISITED;
use crate::partition::{Halves, Partition};
use crate::strategies::delegates::{half_started, start_half};
use crate::worker::{answers, answers_are_entries, Worker};

verus! {

/// A worker, the nodes that its trials start from, how many trials have begun, and the
/// distances that were recorded.
pub struct Session<P: Partition> {
    pub worker: Worker<P>,
    pub sources: Vec<usize>,
    pub begun: usize,
    pub local_distances: Vec<(usize, usize)>,
}

/// What the end of a level makes of a session.
pub open spec fn level_ended<P: Partition>(
    before: Session<P>,
    after: Session<P>,
    stop: bool,
) -> bool {
    &&& after.sources@ == before.sources@
    &&& after.begun == before.begun
    &&& stop ==> {
        &&& after.worker == before.worker
        &&& after.local_distances@ == if before.begun == 1 {
            before.local_distances@ + answers(
                before.worker.partition,
                before.worker.worker_id,
                before.worker.distances@,
                before.worker.distances@.len(),
            )
        } else {
            before.local_distances@
        }
    }
    &&& !stop ==> {
        &&& after.local_distances@ == before.local_distances@
        &&& after.worker.partition == before.worker.partition
        &&& after.worker.worker_id == before.worker.worker_id
        &&& after.worker.distances@ == before.worker.distances@
        &&& after.worker.current_frontier@ == before.worker.next_frontier@
        &&& after.worker.next_frontier@ == before.worker.current_frontier@
        &&& after.worker.current_level == before.worker.current_level + 1
    }
}

impl<P: Partition> Session<P> {
    /// The worker is well formed, and every source is one of its nodes.
    pub open spec fn well_formed(&self) -> bool {
        &&& self.worker.well_formed()
        &&& self.begun <= self.sources@.len()
        &&& forall|i: int|
            0 <= i < self.sources@.len() ==> self.worker.partition.places(
                #[trigger] self.sources@[i],
            )
    }

    /// A session in which no trial has begun.
    pub fn new(partition: P, worker_id: u32, sources: Vec<usize>) -> (session: Self)
        requires
            partition.valid(),
            worker_id < partition.worker_total(),
            forall|i: int|
                0 <= i < sources@.len() ==> partition.places(#[trigger] sources@[i]),
        ensures
            session.well_formed(),
            session.worker.partition == partition,
            session.worker.worker_id == worker_id,
            session.sources@ == sources@,
            session.begun == 0,
            session.local_distances@.len() == 0,
    {
        Session {
            worker: Worker::new(partition, worker_id),
            sources,
            begun: 0,
            local_distances: Vec::new(),
        }
    }

    /// Begins the next trial, and tells its number. There is none when all have begun.
    pub fn begin_trial(&mut self) -> (trial: Option<usize>)
        requires
            old(self).well_formed(),
        ensures
            final(self).well_formed(),
            final(self).sources@ == old(self).sources@,
            final(self).local_distances@ == old(self).local_distances@,
            final(self).worker.partition == old(self).worker.partition,
            final(self).worker.worker_id == old(self).worker.worker_id,
            trial is None <==> old(self).begun == old(self).sources@.len(),
            trial is None ==> *final(self) == *old(self),
            trial is Some ==> trial->0 == old(self).begun && final(self).begun == old(self).begun
                + 1 && final(self).worker.trial_started(
                old(self).sources@[old(self).begun as int],
            ),
    {
        if self.begun == self.sources.len() {
            return None;
        }
        let trial: usize = self.begun;
        let source: usize = self.sources[trial];
        assert(self.worker.partition.places(self.sources@[trial as int]));
        self.worker.start_trial(source);
        self.begun = trial + 1;
        Some(trial)
    }

    /// Ends a level. Where the search stops, the distances are recorded if the trial was the
    /// first one. Where not, the worker goes on to the next level.
    pub fn end_level(&mut self, stop: bool)
        requires
            old(self).well_formed(),
            old(self).begun > 0,
            old(self).worker.current_level < usize::MAX,
        ensures
            level_ended(*old(self), *final(self), stop),
            final(self).well_formed(),
            final(self).sources@ == old(self).sources@,
            final(self).begun == old(self).begun,
            stop ==> final(self).worker == old(self).worker && final(self).local_distances@ == (
            if old(self).begun == 1 {
                old(self).local_distances@ + answers(
                    old(self).worker.partition,
                    old(self).worker.worker_id,
                    old(self).worker.distances@,
                    old(self).worker.distances@.len(),
                )
            } else {
                old(self).local_distances@
            }),
            !stop ==> {
                &&& final(self).local_distances@ == old(self).local_distances@
                &&& final(self).worker.partition == old(self).worker.partition
                &&& final(self).worker.worker_id == old(self).worker.worker_id
                &&& final(self).worker.distances@ == old(self).worker.distances@
                &&& final(self).worker.current_frontier@ == old(self).worker.next_frontier@
                &&& final(self).worker.next_frontier@ == old(self).worker.current_frontier@
                &&& final(self).worker.current_level == old(self).worker.current_level + 1
            },
    {
        if stop {
            self.worker.record(self.begun - 1, &mut self.local_distances);
        } else {
            self.worker.advance();
        }
    }
}

impl Session<Halves> {
    /// Begins the next trial of a delegate that marks what it exports.
    pub fn begin_half_trial(&mut self) -> (trial: Option<usize>)
        requires
            old(self).well_formed(),
        ensures
            final(self).well_formed(),
            final(self).sources@ == old(self).sources@,
            final(self).local_distances@ == old(self).local_distances@,
            final(self).worker.partition == old(self).worker.partition,
            final(self).worker.worker_id == old(self).worker.worker_id,
            trial is None <==> old(self).begun == old(self).sources@.len(),
            trial is None ==> *final(self) == *old(self),
            trial is Some ==> trial->0 == old(self).begun && final(self).begun == old(self).begun
                + 1 && half_started(
                final(self).worker,
                old(self).sources@[old(self).begun as int],
            ),
    {
        if self.begun == self.sources.len() {
            return None;
        }
        let trial: usize = self.begun;
        let source: usize = self.sources[trial];
        assert(self.worker.partition.places(self.sources@[trial as int]));
        start_half(&mut self.worker, source);
        self.begun = trial + 1;
        Some(trial)
    }
}


/// The first trial is what a session keeps: when its search stops, the session has the distance
/// of every node that is dealt to the worker and was reached, and nothing of another worker's.
/// No level before and no later trial changes that.
pub proof fn first_trial_is_kept<P: Partition>(
    before: Session<P>,
    after: Session<P>,
    stop: bool,
    v: usize,
    d: usize,
)
    requires
        before.well_formed(),
        level_ended(before, after, stop),
        before.worker.partition.places(v),
    ensures
        !stop || before.begun > 1 ==> after.local_distances@ == before.local_distances@,
        stop && before.begun == 1 && before.local_distances@.len() == 0 ==> (
        after.local_distances@.contains((v, d)) <==> before.worker.partition.owner_of(v)
            == before.worker.worker_id && before.worker.entry(v) == d && d != UNVISITED),
{
    let worker = before.worker;
    answers_are_entries(
        worker.partition,
        worker.worker_id,
        worker.distances@,
        worker.distances@.len(),
        v,
        d,
    );
    if worker.partition.owner_of(v) == worker.worker_id {
        worker.partition.owner_holds(v);
        worker.partition.slot_inverts(worker.worker_id, v);
    }
    let found = answers(
        worker.partition,
        worker.worker_id,
        worker.distances@,
        worker.distances@.len(),
    );
    if before.local_distances@.len() == 0 {
        assert(before.local_distances@ + found =~= found);
    }
}

/// A search goes on with what it has found: the next frontier is expanded one level further,
/// with the same table. One that stops leaves the worker as it is.
pub proof fn levels_follow_each_other<P: Partition>(
    before: Session<P>,
    after: Session<P>,
    stop: bool,
    v: usize,
)
    requires
        level_ended(before, after, stop),
    ensures
        after.begun == before.begun,
        after.sources@ == before.sources@,
        after.worker.entry(v) == before.worker.entry(v),
        !stop ==> after.worker.current_level == before.worker.current_level + 1
            && after.worker.current_frontier@ == before.worker.next_frontier@,
        stop ==> after.worker.current_level == before.worker.current_level
            && after.worker.current_frontier@ == before.worker.current_frontier@,
{
}

} // verus!

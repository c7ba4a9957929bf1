//! The moments of a run, in order: which key comes next, and what all keys of a
//! run are once it is over.

use vstd::prelude::*;

use crate::text::decimal_of;
use crate::timestamps::{level_key, trial_level_key, Phase};

verus! {

/// The ways of searching, as far as the moments of their levels differ.
#[derive(Clone, Copy, Debug, PartialEq, Eq, Structural)]
pub enum Pattern {
    /// One all-to-all exchange per level.
    Exchange,
    /// A reduction and a broadcast per level.
    Reduction,
    /// Two delegates that swap nodes and counts.
    Delegates,
    /// Single nodes until all have flushed, and then a decision.
    Signals,
    /// One table and one pool of threads.
    SharedTable,
}

impl Pattern {
    /// What happens at each level, in order.
    pub open spec fn steps(self) -> Seq<Phase> {
        match self {
            Pattern::Exchange => seq![Phase::Compute, Phase::AllToAll, Phase::Process],
            Pattern::Reduction => seq![Phase::Compute, Phase::Reduce, Phase::Broadcast],
            Pattern::Delegates => seq![Phase::Compute, Phase::Crossbeam, Phase::Process],
            Pattern::Signals => seq![Phase::Sync, Phase::End],
            Pattern::SharedTable => seq![Phase::Compute, Phase::Process],
        }
    }

    /// What happens at place `k` of a level, if anything does.
    pub fn step(self, k: usize) -> (phase: Option<Phase>)
        ensures
            phase is Some <==> k < self.steps().len(),
            phase is Some ==> phase->0 == self.steps()[k as int],
    {
        match (self, k) {
            (Pattern::Signals, 0) => Some(Phase::Sync),
            (Pattern::Signals, 1) => Some(Phase::End),
            (Pattern::Signals, _) => None,
            (_, 0) => Some(Phase::Compute),
            (Pattern::Exchange, 1) => Some(Phase::AllToAll),
            (Pattern::Exchange, 2) => Some(Phase::Process),
            (Pattern::Reduction, 1) => Some(Phase::Reduce),
            (Pattern::Reduction, 2) => Some(Phase::Broadcast),
            (Pattern::Delegates, 1) => Some(Phase::Crossbeam),
            (Pattern::Delegates, 2) => Some(Phase::Process),
            (Pattern::SharedTable, 1) => Some(Phase::Process),
            _ => None,
        }
    }
}

/// The key of a phase of a level. A search that is the only one has no trial in its keys.
pub open spec fn phase_key(trial: Option<usize>, level: nat, phase: Phase) -> Seq<char> {
    match trial {
        Some(t) => "trial_"@ + decimal_of(t as nat) + "_iter_"@ + decimal_of(level) + "_"@
            + phase.spelling(),
        None => "iter_"@ + decimal_of(level) + "_"@ + phase.spelling(),
    }
}

/// The keys of the first `k` phases of a level.
pub open spec fn phase_keys(trial: Option<usize>, pattern: Pattern, level: nat, k: nat) -> Seq<
    Seq<char>,
> {
    Seq::new(k, |i: int| phase_key(trial, level, pattern.steps()[i]))
}

/// The keys of the first levels of a search.
pub open spec fn search_keys(trial: Option<usize>, pattern: Pattern, levels: nat) -> Seq<
    Seq<char>,
>
    decreases levels,
{
    if levels == 0 {
        Seq::empty()
    } else {
        let last = (levels - 1) as nat;
        search_keys(trial, pattern, last) + phase_keys(
            trial,
            pattern,
            last,
            pattern.steps().len(),
        )
    }
}

/// The keys of a trial of so many levels.
pub open spec fn trial_keys(trial: usize, pattern: Pattern, levels: nat) -> Seq<Seq<char>> {
    seq!["trial_"@ + decimal_of(trial as nat) + "_start"@] + search_keys(
        Some(trial),
        pattern,
        levels,
    ) + seq!["trial_"@ + decimal_of(trial as nat) + "_end"@]
}

/// The keys of trials, of which each has its number of levels.
pub open spec fn trials_keys(pattern: Pattern, levels: Seq<usize>) -> Seq<Seq<char>>
    decreases levels.len(),
{
    if levels.len() == 0 {
        Seq::empty()
    } else {
        trials_keys(pattern, levels.drop_last()) + trial_keys(
            (levels.len() - 1) as usize,
            pattern,
            levels.last() as nat,
        )
    }
}

/// The keys that every run begins with.
pub open spec fn opening_keys() -> Seq<Seq<char>> {
    seq!["worker_start"@, "graph_generated"@]
}

/// The keys of a run over trials.
pub open spec fn run_keys(pattern: Pattern, levels: Seq<usize>) -> Seq<Seq<char>> {
    opening_keys() + trials_keys(pattern, levels) + seq!["worker_end"@]
}

/// The keys of a run with one search.
pub open spec fn single_run_keys(pattern: Pattern, levels: nat) -> Seq<Seq<char>> {
    opening_keys() + search_keys(None, pattern, levels) + seq!["worker_end"@]
}

/// What is written in strings.
pub open spec fn texts(keys: Seq<String>) -> Seq<Seq<char>> {
    Seq::new(keys.len(), |i: int| keys[i]@)
}

/// A search with as many levels has so many keys.
pub proof fn search_key_count(trial: Option<usize>, pattern: Pattern, levels: nat)
    ensures
        search_keys(trial, pattern, levels).len() == levels * pattern.steps().len(),
    decreases levels,
{
    let n = pattern.steps().len();
    if levels > 0 {
        search_key_count(trial, pattern, (levels - 1) as nat);
        assert((levels - 1) * n + n == levels * n) by (nonlinear_arith);
    }
    assert(0 * n == 0);
}

/// The key at each place of a search: level after level, and in each level the phases in their
/// order, each once.
pub proof fn search_key_at(
    trial: Option<usize>,
    pattern: Pattern,
    levels: nat,
    level: nat,
    k: nat,
)
    requires
        level < levels,
        k < pattern.steps().len(),
    ensures
        level * pattern.steps().len() + k < search_keys(trial, pattern, levels).len(),
        search_keys(trial, pattern, levels)[(level * pattern.steps().len() + k) as int] == phase_key(
            trial,
            level,
            pattern.steps()[k as int],
        ),
    decreases levels,
{
    let n = pattern.steps().len();
    let last = (levels - 1) as nat;
    search_key_count(trial, pattern, levels);
    search_key_count(trial, pattern, last);
    assert(last * n + n == levels * n) by (nonlinear_arith)
        requires
            last + 1 == levels,
    ;
    assert(0 <= level * n) by (nonlinear_arith);
    if level < last {
        search_key_at(trial, pattern, last, level, k);
    } else {
        assert(phase_keys(trial, pattern, last, n)[k as int] == phase_key(
            trial,
            level,
            pattern.steps()[k as int],
        ));
    }
}

/// At every level of a search with reductions there is one reduction, and then one broadcast:
/// the two alternate.
pub proof fn reductions_alternate(trial: Option<usize>, levels: nat, level: nat)
    requires
        level < levels,
    ensures
        search_keys(trial, Pattern::Reduction, levels).len() == 3 * levels,
        search_keys(trial, Pattern::Reduction, levels)[3 * level as int] == phase_key(
            trial,
            level,
            Phase::Compute,
        ),
        search_keys(trial, Pattern::Reduction, levels)[3 * level as int + 1] == phase_key(
            trial,
            level,
            Phase::Reduce,
        ),
        search_keys(trial, Pattern::Reduction, levels)[3 * level as int + 2] == phase_key(
            trial,
            level,
            Phase::Broadcast,
        ),
{
    let n = Pattern::Reduction.steps().len();
    assert(n == 3);
    assert(levels * n == 3 * levels && level * n == 3 * level) by (nonlinear_arith)
        requires
            n == 3,
    ;
    search_key_count(trial, Pattern::Reduction, levels);
    search_key_at(trial, Pattern::Reduction, levels, level, 0);
    search_key_at(trial, Pattern::Reduction, levels, level, 1);
    search_key_at(trial, Pattern::Reduction, levels, level, 2);
}

/// How far a search has come through its levels.
pub struct Steps {
    pub trial: Option<usize>,
    pub pattern: Pattern,
    pub level: usize,
    pub phase: usize,
}

impl Steps {
    /// The level has not more phases than it should.
    pub open spec fn well_formed(&self) -> bool {
        self.phase <= self.pattern.steps().len()
    }

    /// All phases of the level are over.
    pub open spec fn at_end(&self) -> bool {
        self.phase == self.pattern.steps().len()
    }

    /// The keys so far.
    pub open spec fn passed(&self) -> Seq<Seq<char>> {
        search_keys(self.trial, self.pattern, self.level as nat) + phase_keys(
            self.trial,
            self.pattern,
            self.level as nat,
            self.phase as nat,
        )
    }

    /// The start of a search.
    pub fn new(trial: Option<usize>, pattern: Pattern) -> (steps: Steps)
        ensures
            steps.well_formed(),
            steps.trial == trial,
            steps.pattern == pattern,
            steps.level == 0,
            steps.phase == 0,
            steps.passed().len() == 0,
    {
        Steps { trial, pattern, level: 0, phase: 0 }
    }

    /// Ends a phase of the level, and tells its key. There is none when all have ended.
    pub fn end_phase(&mut self) -> (key: Option<String>)
        requires
            old(self).well_formed(),
        ensures
            final(self).well_formed(),
            key is None <==> old(self).at_end(),
            key is None ==> *final(self) == *old(self),
            key is Some ==> {
                &&& key->0@ == phase_key(
                    old(self).trial,
                    old(self).level as nat,
                    old(self).pattern.steps()[old(self).phase as int],
                )
                &&& final(self).phase == old(self).phase + 1
                &&& final(self).trial == old(self).trial
                &&& final(self).pattern == old(self).pattern
                &&& final(self).level == old(self).level
                &&& final(self).passed() == old(self).passed().push(key->0@)
            },
    {
        let ghost before = self.passed();
        match self.pattern.step(self.phase) {
            None => None,
            Some(phase) => {
                let key = match self.trial {
                    Some(trial) => trial_level_key(trial, self.level, phase),
                    None => level_key(self.level, phase),
                };
                self.phase = self.phase + 1;
                assert(self.passed() =~= before.push(key@));
                Some(key)
            },
        }
    }

    /// Goes on to the next level. Tells whether that could be: not before all phases of this
    /// one have ended.
    pub fn next_level(&mut self) -> (ok: bool)
        requires
            old(self).well_formed(),
        ensures
            final(self).well_formed(),
            ok <==> old(self).at_end() && old(self).level < usize::MAX,
            !ok ==> *final(self) == *old(self),
            ok ==> {
                &&& final(self).trial == old(self).trial
                &&& final(self).pattern == old(self).pattern
                &&& final(self).level == old(self).level + 1
                &&& final(self).phase == 0
                &&& final(self).passed() == old(self).passed()
            },
    {
        if self.pattern.step(self.phase).is_some() || self.level == usize::MAX {
            return false;
        }
        let ghost before = self.passed();
        self.level = self.level + 1;
        self.phase = 0;
        assert(self.passed() =~= before);
        true
    }
}

/// Ends a phase of the level, and puts its key behind those so far.
pub(crate) fn note(keys: &mut Vec<String>, steps: &mut Steps, Ghost(head): Ghost<Seq<Seq<char>>>)
    requires
        old(steps).well_formed(),
        !old(steps).at_end(),
        texts(old(keys)@) == head + old(steps).passed(),
    ensures
        final(steps).well_formed(),
        final(steps).trial == old(steps).trial,
        final(steps).pattern == old(steps).pattern,
        final(steps).level == old(steps).level,
        final(steps).phase == old(steps).phase + 1,
        texts(final(keys)@) == head + final(steps).passed(),
{
    let ghost before = texts(keys@);
    match steps.end_phase() {
        Some(key) => {
            keys.push(key);
            assert(texts(keys@) =~= before.push(key@));
            assert(texts(keys@) =~= head + steps.passed());
        },
        None => {},
    }
}

/// A search that ends with its level has the keys of that level and of all before it.
pub proof fn ended_search_has_all_keys(steps: Steps)
    requires
        steps.at_end(),
    ensures
        steps.passed() == search_keys(steps.trial, steps.pattern, steps.level as nat + 1),
{
}

/// A run without trials has the moments of its start and its end only. One trial more puts its
/// start, its levels and its end behind those of the trials before it, under its number.
pub proof fn run_keys_grow(pattern: Pattern, levels: Seq<usize>, more: usize)
    requires
        levels.len() < usize::MAX,
    ensures
        run_keys(pattern, Seq::<usize>::empty()) == seq![
            "worker_start"@,
            "graph_generated"@,
            "worker_end"@,
        ],
        run_keys(pattern, levels.push(more)) == run_keys(pattern, levels).drop_last().push(
            "trial_"@ + decimal_of(levels.len()) + "_start"@,
        ) + search_keys(Some(levels.len() as usize), pattern, more as nat) + seq![
            "trial_"@ + decimal_of(levels.len()) + "_end"@,
            "worker_end"@,
        ],
{
    let none = Seq::<usize>::empty();
    assert(trials_keys(pattern, none) =~= Seq::<Seq<char>>::empty());
    assert(run_keys(pattern, none) =~= seq![
        "worker_start"@,
        "graph_generated"@,
        "worker_end"@,
    ]);
    assert(levels.push(more).drop_last() =~= levels);
    assert(run_keys(pattern, levels.push(more)) =~= run_keys(pattern, levels).drop_last().push(
        "trial_"@ + decimal_of(levels.len()) + "_start"@,
    ) + search_keys(Some(levels.len() as usize), pattern, more as nat) + seq![
        "trial_"@ + decimal_of(levels.len()) + "_end"@,
        "worker_end"@,
    ]);
}

/// The key of a phase names the trial, where there are several, the level and the phase.
pub proof fn phase_keys_name_level(trial: usize, level: nat, phase: Phase)
    ensures
        phase_key(Some(trial), level, phase) == "trial_"@ + decimal_of(trial as nat) + "_iter_"@
            + decimal_of(level) + "_"@ + phase.spelling(),
        phase_key(None, level, phase) == "iter_"@ + decimal_of(level) + "_"@ + phase.spelling(),
        Phase::Compute.spelling() == "compute"@,
        Phase::AllToAll.spelling() == "alltoall"@,
        Phase::Process.spelling() == "process"@,
        Phase::Reduce.spelling() == "reduce"@,
        Phase::Broadcast.spelling() == "broadcast"@,
        Phase::Crossbeam.spelling() == "crossbeam"@,
        Phase::Sync.spelling() == "sync"@,
        Phase::End.spelling() == "end"@,
{
}

/// What happens at each level of each way of searching.
pub proof fn patterns_are()
    ensures
        Pattern::Exchange.steps() == seq![Phase::Compute, Phase::AllToAll, Phase::Process],
        Pattern::Reduction.steps() == seq![Phase::Compute, Phase::Reduce, Phase::Broadcast],
        Pattern::Delegates.steps() == seq![Phase::Compute, Phase::Crossbeam, Phase::Process],
        Pattern::Signals.steps() == seq![Phase::Sync, Phase::End],
        Pattern::SharedTable.steps() == seq![Phase::Compute, Phase::Process],
{
}

/// A run with one search has the moments of its start, those of its levels, and its end.
pub proof fn single_run_keys_are(pattern: Pattern, levels: nat)
    ensures
        single_run_keys(pattern, levels).len() == levels * pattern.steps().len() + 3,
        single_run_keys(pattern, levels)[0] == "worker_start"@,
        single_run_keys(pattern, levels)[1] == "graph_generated"@,
        single_run_keys(pattern, levels).last() == "worker_end"@,
        single_run_keys(pattern, levels).subrange(
            2,
            single_run_keys(pattern, levels).len() - 1,
        ) == search_keys(None, pattern, levels),
{
    search_key_count(None, pattern, levels);
    assert(single_run_keys(pattern, levels).subrange(
        2,
        single_run_keys(pattern, levels).len() - 1,
    ) =~= search_keys(None, pattern, levels));
}

} // verus!

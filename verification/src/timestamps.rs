//! Moments of a run: what happened, and when.

use vstd::prelude::*;
use vstd::string::StringExecFns;

use crate::moments::opening_keys;
use crate::text::{decimal_of, push_decimal};

verus! {

/// What happened, and the time since the epoch in decimal digits.
#[derive(Debug, PartialEq)]
pub struct Timestamp {
    pub key: String,
    pub value: String,
}

impl Clone for Timestamp {
    fn clone(&self) -> (copy: Self)
        ensures
            copy.key@ == self.key@,
            copy.value@ == self.value@,
    {
        Timestamp { key: self.key.clone(), value: self.value.clone() }
    }
}

/// The moment `since_epoch`, in whatever unit the clock was read.
pub fn timestamp(key: String, since_epoch: u128) -> (stamp: Timestamp)
    ensures
        stamp.key@ == key@,
        stamp.value@ == decimal_of(since_epoch as nat),
{
    let mut value = String::new();
    push_decimal(&mut value, since_epoch);
    assert(value@ =~= decimal_of(since_epoch as nat));
    Timestamp { key, value }
}

/// What happens at a level, by the name that it has in a key.
#[derive(Clone, Copy, Debug, PartialEq, Eq, Structural)]
pub enum Phase {
    Compute,
    AllToAll,
    Process,
    Reduce,
    Broadcast,
    Crossbeam,
    Sync,
    End,
}

impl Phase {
    /// The name of the phase.
    pub open spec fn spelling(self) -> Seq<char> {
        match self {
            Phase::Compute => "compute"@,
            Phase::AllToAll => "alltoall"@,
            Phase::Process => "process"@,
            Phase::Reduce => "reduce"@,
            Phase::Broadcast => "broadcast"@,
            Phase::Crossbeam => "crossbeam"@,
            Phase::Sync => "sync"@,
            Phase::End => "end"@,
        }
    }

    /// The name of the phase.
    pub fn name(self) -> (text: &'static str)
        ensures
            text@ == self.spelling(),
    {
        match self {
            Phase::Compute => "compute",
            Phase::AllToAll => "alltoall",
            Phase::Process => "process",
            Phase::Reduce => "reduce",
            Phase::Broadcast => "broadcast",
            Phase::Crossbeam => "crossbeam",
            Phase::Sync => "sync",
            Phase::End => "end",
        }
    }
}

/// The key of the start of a trial.
pub fn trial_start_key(trial: usize) -> (key: String)
    ensures
        key@ == "trial_"@ + decimal_of(trial as nat) + "_start"@,
{
    let mut key = String::from_str("trial_");
    push_decimal(&mut key, trial as u128);
    key.append("_start");
    key
}

/// The key of the end of a trial.
pub fn trial_end_key(trial: usize) -> (key: String)
    ensures
        key@ == "trial_"@ + decimal_of(trial as nat) + "_end"@,
{
    let mut key = String::from_str("trial_");
    push_decimal(&mut key, trial as u128);
    key.append("_end");
    key
}

/// The key of a phase of a level, where there is one search.
pub fn level_key(level: usize, phase: Phase) -> (key: String)
    ensures
        key@ == "iter_"@ + decimal_of(level as nat) + "_"@ + phase.spelling(),
{
    let mut key = String::from_str("iter_");
    push_decimal(&mut key, level as u128);
    key.append("_");
    key.append(phase.name());
    key
}

/// The key of a phase of a level of a trial.
pub fn trial_level_key(trial: usize, level: usize, phase: Phase) -> (key: String)
    ensures
        key@ == "trial_"@ + decimal_of(trial as nat) + "_iter_"@ + decimal_of(level as nat) + "_"@
            + phase.spelling(),
{
    let mut key = String::from_str("trial_");
    push_decimal(&mut key, trial as u128);
    key.append("_iter_");
    push_decimal(&mut key, level as u128);
    key.append("_");
    key.append(phase.name());
    key
}

/// The moments that every run begins with: when loading began and when the graph was there.
pub fn opening(graph_load_start: String, graph_generated: String) -> (stamps: Vec<Timestamp>)
    ensures
        stamps@.len() == opening_keys().len(),
        stamps@[0].key@ == opening_keys()[0],
        stamps@[1].key@ == opening_keys()[1],
        stamps@.len() == 2,
        stamps@[0].key@ == "worker_start"@,
        stamps@[0].value@ == graph_load_start@,
        stamps@[1].key@ == "graph_generated"@,
        stamps@[1].value@ == graph_generated@,
{
    let mut stamps: Vec<Timestamp> = Vec::new();
    stamps.push(Timestamp { key: String::from_str("worker_start"), value: graph_load_start });
    stamps.push(Timestamp { key: String::from_str("graph_generated"), value: graph_generated });
    stamps
}

} // verus!

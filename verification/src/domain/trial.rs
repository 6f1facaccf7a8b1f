use vstd::prelude::*;
use crate::domain::action::ActionResult;
use crate::replay::executor::ProcessEvidence;
use crate::ids::copy_ids;
use crate::text::copy_string;

verus! {

/// How a candidate behaved over its repeated attempts.
#[derive(Clone, Copy, Debug, PartialEq, Eq, Structural)]
pub enum TrialOutcome {
    StablePass,
    StableFail,
    Flaky,
    Unresolved,
    Cancelled,
}

/// One replay of a candidate from a fresh baseline copy.
#[derive(Clone, Debug)]
pub struct TrialAttempt {
    pub index: u32,
    pub actions: Vec<ActionResult>,
    pub oracle: Option<ProcessEvidence>,
    pub error: Option<String>,
}

/// A candidate action set, its attempts and its classification.
#[derive(Clone, Debug)]
pub struct Trial {
    /// The trial's UUID, as a 128-bit integer.
    pub id: u128,
    pub action_ids: Vec<u64>,
    pub repetitions: Vec<TrialAttempt>,
    pub outcome: TrialOutcome,
    pub baseline_hash: String,
    pub duration_ms: u64,
}

impl Trial {
    /// A copy of the trial: identity, candidate, outcome, baseline and duration are kept
    /// as they are, the attempts are cloned.
    pub fn duplicate(&self) -> (res: Trial)
        ensures
            res.id == self.id,
            res.action_ids@ == self.action_ids@,
            res.outcome == self.outcome,
            res.baseline_hash@ == self.baseline_hash@,
            res.duration_ms == self.duration_ms,
            res.repetitions@.len() == self.repetitions@.len(),
    {
        Trial {
            id: self.id,
            action_ids: copy_ids(&self.action_ids),
            repetitions: self.repetitions.clone(),
            outcome: self.outcome,
            baseline_hash: copy_string(&self.baseline_hash),
            duration_ms: self.duration_ms,
        }
    }
}

} // verus!

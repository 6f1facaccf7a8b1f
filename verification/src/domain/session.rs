use vstd::prelude::*;
use crate::domain::trial::TrialOutcome;

verus! {

/// Where a debugging session stands.
#[derive(Clone, Copy, Debug, PartialEq, Eq, Structural)]
pub enum SessionStatus {
    Recording,
    ReadyForAnalysis,
    Analyzed,
    Cancelled,
    Invalid,
}

/// The stored name of a status.
pub open spec fn status_name(status: SessionStatus) -> Seq<char> {
    match status {
        SessionStatus::Recording => "recording"@,
        SessionStatus::ReadyForAnalysis => "ready_for_analysis"@,
        SessionStatus::Analyzed => "analyzed"@,
        SessionStatus::Cancelled => "cancelled"@,
        SessionStatus::Invalid => "invalid"@,
    }
}

/// The status after `:done` replayed the whole trace with `outcome`.
pub open spec fn status_after_full_replay(outcome: TrialOutcome) -> SessionStatus {
    match outcome {
        TrialOutcome::StablePass => SessionStatus::ReadyForAnalysis,
        TrialOutcome::Cancelled => SessionStatus::Cancelled,
        _ => SessionStatus::Recording,
    }
}

/// A session whose recording is finished, analyzed before or not.
pub open spec fn analyzable(status: SessionStatus) -> bool {
    status == SessionStatus::ReadyForAnalysis || status == SessionStatus::Analyzed
}

impl SessionStatus {
    /// The stored name of this status.
    pub fn as_str(&self) -> (res: &'static str)
        ensures
            res@ == status_name(*self),
    {
        match self {
            SessionStatus::Recording => "recording",
            SessionStatus::ReadyForAnalysis => "ready_for_analysis",
            SessionStatus::Analyzed => "analyzed",
            SessionStatus::Cancelled => "cancelled",
            SessionStatus::Invalid => "invalid",
        }
    }

    /// The status that a new session takes after the oracle ran on its untouched baseline:
    /// recording when the oracle failed every time, as a session needs; cancelled when the
    /// trial was cancelled; invalid otherwise.
    pub fn after_baseline(outcome: TrialOutcome) -> (res: SessionStatus)
        ensures
            res == (match outcome {
                TrialOutcome::StableFail => SessionStatus::Recording,
                TrialOutcome::Cancelled => SessionStatus::Cancelled,
                _ => SessionStatus::Invalid,
            }),
    {
        match outcome {
            TrialOutcome::StableFail => SessionStatus::Recording,
            TrialOutcome::Cancelled => SessionStatus::Cancelled,
            _ => SessionStatus::Invalid,
        }
    }

    /// The status of a recording session after `:done` replayed its whole trace from a fresh
    /// baseline: ready for analysis when the trace passed every time, cancelled when the
    /// trial was cancelled, and still recording otherwise.
    pub fn after_full_replay(outcome: TrialOutcome) -> (res: SessionStatus)
        ensures
            res == status_after_full_replay(outcome),
    {
        match outcome {
            TrialOutcome::StablePass => SessionStatus::ReadyForAnalysis,
            TrialOutcome::Cancelled => SessionStatus::Cancelled,
            _ => SessionStatus::Recording,
        }
    }

    /// Whether a session with this status can be analyzed: its recording is finished, and
    /// it may have been analyzed before.
    pub fn can_analyze(&self) -> (res: bool)
        ensures
            res == analyzable(*self),
    {
        match self {
            SessionStatus::ReadyForAnalysis | SessionStatus::Analyzed => true,
            _ => false,
        }
    }
}

/// Only a full trace that passed every time makes a recording session analyzable: after
/// `:done`, the session can be analyzed exactly when the replay was a stable pass.
pub proof fn only_a_stable_pass_makes_a_session_analyzable(outcome: TrialOutcome)
    ensures
        analyzable(status_after_full_replay(outcome)) <==> outcome == TrialOutcome::StablePass,
{
}

} // verus!

use fixtrace::domain::session::SessionStatus;
use fixtrace::domain::trial::TrialOutcome;

#[test]
fn only_a_stably_failing_baseline_opens_a_recording_session() {
    assert_eq!(SessionStatus::after_baseline(TrialOutcome::StableFail), SessionStatus::Recording);
    assert_eq!(SessionStatus::after_baseline(TrialOutcome::Cancelled), SessionStatus::Cancelled);
    assert_eq!(SessionStatus::after_baseline(TrialOutcome::StablePass), SessionStatus::Invalid);
    assert_eq!(SessionStatus::after_baseline(TrialOutcome::Flaky), SessionStatus::Invalid);
    assert_eq!(SessionStatus::after_baseline(TrialOutcome::Unresolved), SessionStatus::Invalid);
}

#[test]
fn finished_recordings_can_be_analyzed() {
    assert!(SessionStatus::ReadyForAnalysis.can_analyze());
    assert!(SessionStatus::Analyzed.can_analyze());
    assert!(!SessionStatus::Recording.can_analyze());
    assert!(!SessionStatus::Cancelled.can_analyze());
    assert!(!SessionStatus::Invalid.can_analyze());
    assert_eq!(SessionStatus::ReadyForAnalysis.as_str(), "ready_for_analysis");
}

#[test]
fn only_a_stable_full_replay_finishes_the_recording() {
    assert_eq!(SessionStatus::after_full_replay(TrialOutcome::StablePass), SessionStatus::ReadyForAnalysis);
    assert_eq!(SessionStatus::after_full_replay(TrialOutcome::Cancelled), SessionStatus::Cancelled);
    for outcome in [TrialOutcome::StableFail, TrialOutcome::Flaky, TrialOutcome::Unresolved] {
        assert_eq!(SessionStatus::after_full_replay(outcome), SessionStatus::Recording);
        assert!(!SessionStatus::after_full_replay(outcome).can_analyze());
    }
    assert!(SessionStatus::after_full_replay(TrialOutcome::StablePass).can_analyze());
}

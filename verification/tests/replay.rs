use fixtrace::domain::action::{Action, ActionKind};
use fixtrace::domain::trial::{TrialAttempt, TrialOutcome};
use fixtrace::replay::executor::{
    cancelled_action_result, elapsed_ms, restore_context, successful_internal_action, validate_environment_key,
    ProcessEvidence, ReplayError, ReplayState,
};
use fixtrace::replay::oracle::OracleSpec;
use fixtrace::replay::runner::{attempt_ends_trial, classify_outcome, plan_replay, TrialRunner};

fn evidence(exit_code: Option<i32>, timed_out: bool, cancelled: bool) -> ProcessEvidence {
    ProcessEvidence {
        exit_code,
        duration_ms: 1,
        stdout: String::new(),
        stderr: String::new(),
        stdout_artifact: None,
        stderr_artifact: None,
        timed_out,
        cancelled,
    }
}

fn attempt(index: u32, passed: bool) -> TrialAttempt {
    TrialAttempt {
        index,
        actions: Vec::new(),
        oracle: Some(evidence(Some(if passed { 0 } else { 1 }), false, false)),
        error: None,
    }
}

fn action(id: u64, order: u64, kind: ActionKind) -> Action {
    Action { id, original_order: order, cwd_before: String::new(), kind, replayable: true, note: None, result: None }
}

#[test]
fn mixed_attempts_are_flaky_not_pass() {
    let attempts = [attempt(1, true), attempt(2, false), attempt(3, true)];

    assert_eq!(classify_outcome(&attempts.to_vec(), 3, false), TrialOutcome::Flaky);
}

#[test]
fn classification_covers_every_outcome() {
    let passes = vec![attempt(1, true), attempt(2, true)];
    let fails = vec![attempt(1, false), attempt(2, false)];
    assert_eq!(classify_outcome(&passes, 2, false), TrialOutcome::StablePass);
    assert_eq!(classify_outcome(&fails, 2, false), TrialOutcome::StableFail);
    assert_eq!(classify_outcome(&passes, 2, true), TrialOutcome::Cancelled);
    assert_eq!(classify_outcome(&passes, 3, false), TrialOutcome::Unresolved);
    let mut timed = passes.clone();
    timed[1].oracle = Some(evidence(Some(0), true, false));
    assert_eq!(classify_outcome(&timed, 2, false), TrialOutcome::Unresolved);
    let mut broken = passes.clone();
    broken[0].error = Some("replay failed".to_owned());
    assert_eq!(classify_outcome(&broken, 2, false), TrialOutcome::Unresolved);
    let mut missing = passes;
    missing[0].oracle = None;
    assert_eq!(classify_outcome(&missing, 2, false), TrialOutcome::Unresolved);
    assert!(attempt_ends_trial(&broken[0], false));
    assert!(attempt_ends_trial(&broken[1], true));
    assert!(!attempt_ends_trial(&broken[1], false));
}

#[test]
fn evidence_passes_only_on_clean_zero_exit() {
    assert!(evidence(Some(0), false, false).passed());
    assert!(!evidence(Some(1), false, false).passed());
    assert!(!evidence(None, false, false).passed());
    assert!(!evidence(Some(0), true, false).passed());
    assert!(!evidence(Some(0), false, true).passed());
}

#[test]
fn replay_order_follows_recorded_positions_and_refuses_clashes() {
    let actions = vec![
        action(10, 3, ActionKind::ShellCommand { command: "c".to_owned() }),
        action(11, 1, ActionKind::ShellCommand { command: "a".to_owned() }),
        action(12, 2, ActionKind::ShellCommand { command: "b".to_owned() }),
    ];
    assert_eq!(plan_replay(&actions), Ok(vec![1, 2, 0]));
    let clash = vec![
        action(10, 2, ActionKind::ShellCommand { command: "c".to_owned() }),
        action(11, 1, ActionKind::ShellCommand { command: "a".to_owned() }),
        action(12, 2, ActionKind::ShellCommand { command: "b".to_owned() }),
    ];
    assert_eq!(plan_replay(&clash), Err(12));
    let same_id = vec![
        action(5, 1, ActionKind::ShellCommand { command: "a".to_owned() }),
        action(5, 2, ActionKind::ShellCommand { command: "b".to_owned() }),
    ];
    assert_eq!(plan_replay(&same_id), Err(5));
}

#[test]
fn runner_needs_repetitions_and_keeps_its_settings() {
    let oracle = OracleSpec { command: "cargo test".to_owned(), timeout_ms: 1000 };
    assert!(TrialRunner::new("/base".to_owned(), "hash".to_owned(), oracle.clone(), 0, false).is_err());
    let runner = TrialRunner::new("/base".to_owned(), "hash".to_owned(), oracle, 3, true).ok().expect("runner");
    assert_eq!(runner.baseline(), "/base");
    assert_eq!(runner.baseline_hash(), "hash");
    assert_eq!(runner.repetitions(), 3);
    assert!(runner.include_target());
    assert_eq!(runner.oracle().command, "cargo test");
    assert_eq!(runner.oracle().timeout_ms, 1000);
}

#[test]
fn environment_names_are_checked() {
    assert!(validate_environment_key("FIXTRACE_REPLAY_TEST").is_ok());
    assert!(matches!(validate_environment_key(""), Err(ReplayError::InvalidEnvironmentKey { .. })));
    assert!(validate_environment_key("A=B").is_err());
    assert!(validate_environment_key("A\0B").is_err());
}

#[test]
fn environment_set_and_unset_are_recorded_in_the_state() {
    let mut state = ReplayState::new("/tmp/project".to_owned(), false);
    state.set_variable(&"FIXTRACE_REPLAY_TEST".to_owned(), Some("present".to_owned())).expect("valid name");
    assert_eq!(
        state.environment().entries(),
        &vec![("FIXTRACE_REPLAY_TEST".to_owned(), Some("present".to_owned()))]
    );
    state.set_variable(&"FIXTRACE_REPLAY_TEST".to_owned(), None).expect("valid name");
    assert_eq!(state.environment().entries(), &vec![("FIXTRACE_REPLAY_TEST".to_owned(), None)]);
    assert!(state.set_variable(&"BAD=NAME".to_owned(), None).is_err());
    assert_eq!(state.environment().entries().len(), 1);
}

#[test]
fn context_is_restored_in_recorded_order() {
    let actions = vec![
        action(3, 3, ActionKind::UnsetEnvironment { key: "A".to_owned() }),
        action(1, 1, ActionKind::SetEnvironment { key: "A".to_owned(), value: "1".to_owned() }),
        action(2, 2, ActionKind::ChangeDirectory { path: "src".to_owned() }),
        action(4, 4, ActionKind::SetEnvironment { key: "B".to_owned(), value: "2".to_owned() }),
    ];
    let state = restore_context("/root".to_owned(), false, &actions, |_: &str| None).expect("restores");
    assert_eq!(state.root(), "/root");
    assert_eq!(state.cwd(), "src");
    assert_eq!(
        state.environment().entries(),
        &vec![("A".to_owned(), None), ("B".to_owned(), Some("2".to_owned()))]
    );
    let refused = restore_context("/root".to_owned(), false, &actions, |p: &str| Some(format!("{p} is gone")));
    assert!(matches!(refused, Err(ReplayError::UnusableDirectory { path, reason }) if path == "src" && reason == "src is gone"));
}

#[test]
fn precheck_refuses_non_replayable_and_misplaced_actions() {
    let state = ReplayState::new("/root".to_owned(), false);
    let mut a = action(1, 1, ActionKind::ShellCommand { command: "true".to_owned() });
    assert!(state.precheck(&a).is_ok());
    a.cwd_before = "src".to_owned();
    assert!(matches!(state.precheck(&a), Err(ReplayError::WorkingDirectoryMismatch { action_id: 1, .. })));
    a.replayable = false;
    assert!(matches!(state.precheck(&a), Err(ReplayError::NotReplayable { action_id: 1 })));
}

#[test]
fn internal_and_cancelled_results() {
    let e = successful_internal_action(12);
    assert_eq!(e.exit_code, Some(0));
    assert_eq!(e.duration_ms, 12);
    assert!(e.passed());
    let r = cancelled_action_result("abc".to_owned());
    assert!(r.cancelled);
    assert_eq!(r.exit_code, None);
    assert_eq!(r.before_snapshot_hash, "abc");
    assert_eq!(r.after_snapshot_hash, "abc");
    assert!(r.delta.created.is_empty());
    assert_eq!(elapsed_ms(5), 5);
    assert_eq!(elapsed_ms(u128::from(u64::MAX) + 1), u64::MAX);
}

#[test]
fn copies_must_carry_the_baseline_hash_and_timeouts_saturate() {
    let oracle = fixtrace::replay::oracle::OracleSpec::with_timeout_secs("cargo test".to_owned(), 120);
    assert_eq!(oracle.timeout_ms, 120_000);
    assert_eq!(fixtrace::replay::oracle::OracleSpec::with_timeout_secs("x".to_owned(), u64::MAX).timeout_ms, u64::MAX);
    let runner = fixtrace::replay::runner::TrialRunner::new("/b".to_owned(), "abc".to_owned(), oracle, 3, false).ok().expect("repetitions");
    assert!(runner.check_copy("abc").is_ok());
    match runner.check_copy("abd") {
        Err(fixtrace::replay::runner::RunnerError::BaselineMismatch { expected, actual }) => {
            assert_eq!(expected, "abc");
            assert_eq!(actual, "abd");
        }
        other => panic!("expected a mismatch, got {other:?}"),
    }
}

use std::collections::BTreeSet;

use fixtrace::agent::control::{approximate_tokens, next_tool_failures, step_gate, tool_failures_exhausted, AgentStopReason};
use fixtrace::agent::diagnosis::{
    check_citations, offline_evidence, offline_limitations, removal_claim, validate_diagnosis, DiagnosisError,
    EvidenceClaim, EvidenceClassification,
};
use fixtrace::domain::session::SessionStatus;
use fixtrace::domain::trial::TrialOutcome;
use fixtrace::minimize::engine::AblationEvidence;
use fixtrace::recorder::{display_cwd, next_action_id, parse_action, parse_repl_line, ReplCommand, RecorderError};
use fixtrace::domain::action::{Action, ActionKind};
use fixtrace::text::{decimal_text, truncate_utf8};

fn claim(text: &str, actions: Vec<u64>, trials: Vec<u128>) -> EvidenceClaim {
    EvidenceClaim {
        claim: text.to_owned(),
        classification: EvidenceClassification::Uncertain,
        action_ids: actions,
        trial_ids: trials,
    }
}

#[test]
fn truncation_stops_at_a_character_boundary() {
    assert_eq!(truncate_utf8("hello", 10), "hello");
    assert_eq!(truncate_utf8("hello", 3), "hel");
    assert_eq!(truncate_utf8("aé", 2), "a");
    assert_eq!(truncate_utf8("aé", 3), "aé");
    assert_eq!(truncate_utf8("日本", 5), "日");
    assert_eq!(truncate_utf8("x", 0), "");
}

#[test]
fn decimal_digits() {
    assert_eq!(decimal_text(0).iter().collect::<String>(), "0");
    assert_eq!(decimal_text(1234).iter().collect::<String>(), "1234");
    assert_eq!(decimal_text(u64::MAX).iter().collect::<String>(), u64::MAX.to_string());
}

#[test]
fn diagnosis_checks_statement_actions_and_claims() {
    let good = vec![claim("needed", vec![1], vec![])];
    assert_eq!(validate_diagnosis("stmt", &vec![1], &good), Ok(()));
    assert_eq!(validate_diagnosis("  ", &vec![1], &good), Err(DiagnosisError::EmptyStatement));
    assert_eq!(validate_diagnosis("stmt", &vec![], &good), Err(DiagnosisError::NoMinimalActions));
    assert_eq!(
        validate_diagnosis("stmt", &vec![1], &vec![claim("uncited", vec![], vec![])]),
        Err(DiagnosisError::UnsupportedClaim)
    );
    assert_eq!(
        validate_diagnosis("stmt", &vec![1], &vec![claim(" ", vec![1], vec![])]),
        Err(DiagnosisError::UnsupportedClaim)
    );
    let actions = BTreeSet::from([1, 2]);
    let trials = BTreeSet::from([9u128]);
    assert_eq!(check_citations(&vec![1], &vec![claim("c", vec![2], vec![9])], &actions, &trials), Ok(()));
    assert_eq!(
        check_citations(&vec![1], &vec![claim("c", vec![3, 4], vec![8])], &actions, &trials),
        Err(DiagnosisError::UnknownAction { action_id: 3 })
    );
    assert_eq!(
        check_citations(&vec![1], &vec![claim("c", vec![2], vec![8])], &actions, &trials),
        Err(DiagnosisError::UnknownTrial { trial_id: 8 })
    );
}

#[test]
fn offline_diagnosis_cites_each_ablation() {
    let ablations = vec![AblationEvidence {
        removed_action_id: 5,
        candidate_action_ids: vec![6],
        trial_id: 42,
        outcome: TrialOutcome::StableFail,
    }];
    let evidence = offline_evidence(&ablations);
    assert_eq!(evidence.len(), 1);
    assert_eq!(evidence[0].claim, "Removing action 5 produced StableFail");
    assert_eq!(evidence[0].classification, EvidenceClassification::Necessary);
    assert_eq!(evidence[0].action_ids, vec![5]);
    assert_eq!(evidence[0].trial_ids, vec![42]);
    assert_eq!(removal_claim(12, TrialOutcome::Flaky), "Removing action 12 produced Flaky");
    let limits = offline_limitations();
    assert_eq!(limits.len(), 2);
    assert!(limits[0].starts_with("The result is scoped"));
}

#[test]
fn agent_loop_decisions() {
    assert_eq!(approximate_tokens(0), 0);
    assert_eq!(approximate_tokens(1), 1);
    assert_eq!(approximate_tokens(8), 2);
    assert_eq!(approximate_tokens(9), 3);
    assert_eq!(step_gate(3, true, 0, 10), Some((AgentStopReason::Cancelled, 2)));
    assert_eq!(step_gate(1, false, 11, 10), Some((AgentStopReason::ContextLimit, 0)));
    assert_eq!(step_gate(1, false, 10, 10), None);
    assert_eq!(next_tool_failures(2, true), 3);
    assert_eq!(next_tool_failures(2, false), 0);
    assert!(tool_failures_exhausted(3));
    assert!(!tool_failures_exhausted(2));
}

#[test]
fn session_status_names() {
    assert_eq!(SessionStatus::Recording.as_str(), "recording");
    assert_eq!(SessionStatus::ReadyForAnalysis.as_str(), "ready_for_analysis");
    assert_eq!(SessionStatus::Invalid.as_str(), "invalid");
}

#[test]
fn recorder_lines_are_classified() {
    assert!(parse_repl_line("   ").is_none());
    assert!(matches!(parse_repl_line(" :help "), Some(ReplCommand::Help)));
    assert!(matches!(parse_repl_line(":done"), Some(ReplCommand::Done)));
    assert!(matches!(parse_repl_line(":checkpoint"), Some(ReplCommand::Checkpoint { note }) if note == "manual checkpoint"));
    assert!(matches!(parse_repl_line(":checkpoint  fixed it "), Some(ReplCommand::Checkpoint { note }) if note == "fixed it"));
    assert!(matches!(parse_repl_line(":edit  src/lib.rs "), Some(ReplCommand::Edit { path }) if path == "src/lib.rs"));
    assert!(matches!(parse_repl_line("cargo test"), Some(ReplCommand::Record { line }) if line == "cargo test"));
}

#[test]
fn recorded_lines_become_steps() {
    assert!(matches!(parse_action("cd src", ""), Ok(ActionKind::ChangeDirectory { path }) if path == "src"));
    assert!(matches!(parse_action("cd ../x", "src"), Ok(ActionKind::ChangeDirectory { path }) if path == "x"));
    assert!(matches!(parse_action("cd", ""), Err(RecorderError::CdUsage)));
    assert!(matches!(parse_action("cd 'a", ""), Err(RecorderError::InvalidCdSyntax)));
    assert!(matches!(parse_action("cd ..", ""), Err(RecorderError::PathEscapesProject { .. })));
    assert!(matches!(
        parse_action("export  KEY =a=b", ""),
        Ok(ActionKind::SetEnvironment { key, value }) if key == "KEY" && value == "a=b"
    ));
    assert!(matches!(parse_action("export KEY", ""), Err(RecorderError::ExportUsage)));
    assert!(matches!(parse_action("unset  KEY ", ""), Ok(ActionKind::UnsetEnvironment { key }) if key == "KEY"));
    assert!(matches!(parse_action("cargo test", ""), Ok(ActionKind::ShellCommand { command }) if command == "cargo test"));
}

#[test]
fn new_action_ids_follow_the_largest() {
    let mk = |id: u64| Action {
        id,
        original_order: id,
        cwd_before: String::new(),
        kind: ActionKind::ShellCommand { command: "true".to_owned() },
        replayable: true,
        note: None,
        result: None,
    };
    assert_eq!(next_action_id(&vec![]), 1);
    assert_eq!(next_action_id(&vec![mk(3), mk(7), mk(2)]), 8);
    assert_eq!(display_cwd(""), "/");
    assert_eq!(display_cwd("src"), "/src");
}

use std::collections::{BTreeMap, BTreeSet};

use fixtrace::domain::action::{Action, ActionKind, FileReplacement};
use fixtrace::domain::snapshot::{FileState, FileType, SnapshotManifest};
use fixtrace::domain::trial::{Trial, TrialOutcome};
use fixtrace::minimize::cache::{TrialCache, TrialCacheKey};
use fixtrace::minimize::ddmin::{partition, Ddmin, DdminStep};
use fixtrace::minimize::dependency::DependencyGraph;
use fixtrace::minimize::engine::{EngineStep, MinimizeError, Minimizer, Stage};
use fixtrace::minimize::table::ActionTable;
use fixtrace::replay::oracle::OracleSpec;

fn action(id: u64, kind: ActionKind) -> Action {
    Action {
        id,
        original_order: id,
        cwd_before: String::new(),
        kind,
        replayable: true,
        note: None,
        result: None,
    }
}

fn shell(id: u64, command: &str) -> Action {
    action(id, ActionKind::ShellCommand { command: command.to_owned() })
}

fn no_dependencies() -> DependencyGraph {
    DependencyGraph { hard_dependencies: BTreeMap::new(), accesses: BTreeMap::new() }
}

fn trial(id: u128, action_ids: Vec<u64>, outcome: TrialOutcome) -> Trial {
    Trial { id, action_ids, repetitions: Vec::new(), outcome, baseline_hash: "baseline".to_owned(), duration_ms: 0 }
}

#[test]
fn cache_key_is_stable_and_sensitive_to_required_fields() {
    let oracle = OracleSpec { command: "cargo test".to_owned(), timeout_ms: 1000 };
    let first = TrialCacheKey::new("baseline", &oracle, vec![1, 3], 3);
    let second = TrialCacheKey::new("baseline", &oracle, vec![1, 3], 3);
    let changed = TrialCacheKey::new("baseline", &oracle, vec![1], 3);

    assert_eq!(first, second);
    assert_ne!(first, changed);
}

#[test]
fn cache_key_hashes_the_oracle() {
    let oracle = OracleSpec { command: "cargo test".to_owned(), timeout_ms: 1000 };
    let slower = OracleSpec { command: "cargo test".to_owned(), timeout_ms: 2000 };
    let key = TrialCacheKey::new("baseline", &oracle, vec![1], 3);
    assert_eq!(key.oracle_hash.len(), 64);
    assert!(key.oracle_hash.chars().all(|c| c.is_ascii_hexdigit() && !c.is_ascii_uppercase()));
    assert_ne!(key.oracle_hash, TrialCacheKey::new("baseline", &slower, vec![1], 3).oracle_hash);
    assert_ne!(key, TrialCacheKey::new("other", &oracle, vec![1], 3));
    assert_ne!(key, TrialCacheKey::new("baseline", &oracle, vec![1], 2));
}

#[test]
fn cache_returns_the_trial_stored_under_a_key() {
    let oracle = OracleSpec { command: "true".to_owned(), timeout_ms: 10 };
    let key = TrialCacheKey::new("b", &oracle, vec![2], 1);
    let other = TrialCacheKey::new("b", &oracle, vec![3], 1);
    let mut cache = TrialCache::new();
    assert!(cache.get(&key).is_none());
    cache.insert(key.clone(), trial(7, vec![2], TrialOutcome::Flaky));
    assert_eq!(cache.get(&key).map(|t| t.id), Some(7));
    assert!(cache.get(&other).is_none());
    cache.insert(key.clone(), trial(8, vec![2], TrialOutcome::StablePass));
    assert_eq!(cache.get(&key).map(|t| (t.id, t.outcome)), Some((8, TrialOutcome::StablePass)));
}

#[test]
fn closure_includes_creator_of_a_read_file() {
    let baseline = SnapshotManifest {
        root_hash: "baseline".to_owned(),
        files: vec![FileState {
            path: "Cargo.toml".to_owned(),
            file_type: FileType::Regular,
            sha256: Some("0".repeat(64)),
            size: 36,
            unix_mode: Some(0o644),
            symlink_target: None,
        }],
    };
    let actions = vec![
        action(
            1,
            ActionKind::FilePatch {
                files: vec![FileReplacement {
                    path: "generated.txt".to_owned(),
                    content: Some("generated".to_owned()),
                    unix_mode: None,
                }],
            },
        ),
        shell(2, "cp generated.txt copied.txt"),
    ];
    let graph = DependencyGraph::infer(&actions, &baseline);

    assert_eq!(graph.closure(&BTreeSet::from([2])), BTreeSet::from([1, 2]));
}

#[test]
fn removal_takes_dependents_along() {
    let mut deps = BTreeMap::new();
    deps.insert(2, BTreeSet::from([1]));
    deps.insert(3, BTreeSet::from([2]));
    let graph = DependencyGraph { hard_dependencies: deps, accesses: BTreeMap::new() };
    assert_eq!(graph.remove_with_dependents(&BTreeSet::from([1, 2, 3, 4]), 1), BTreeSet::from([4]));
    assert_eq!(graph.remove_with_dependents(&BTreeSet::from([1, 2, 3, 4]), 3), BTreeSet::from([1, 2, 4]));
    assert_eq!(graph.closure(&BTreeSet::from([3])), BTreeSet::from([1, 2, 3]));
    let closed = graph.closure(&BTreeSet::from([3]));
    assert_eq!(graph.closure(&closed), closed);
}

#[test]
fn partition_splits_into_near_equal_runs() {
    let parts = partition(&vec![1, 2, 3, 4, 5, 6, 7], 3);
    assert_eq!(parts, vec![BTreeSet::from([1, 2, 3]), BTreeSet::from([4, 5]), BTreeSet::from([6, 7])]);
    let parts = partition(&vec![1, 2], 5);
    assert_eq!(parts, vec![BTreeSet::from([1]), BTreeSet::from([2])]);
    assert!(partition(&Vec::new(), 2).is_empty());
}

#[test]
fn artificial_sequence_reduces_to_expected_one_minimal_set() {
    let actions: Vec<Action> = (1..=7).map(|id| shell(id, "true")).collect();
    let table = ActionTable::new(&actions, no_dependencies()).expect("ids are unique");
    let (mut run, mut step) = Ddmin::start(&table, &(1..=7).collect::<BTreeSet<u64>>());
    let minimal = loop {
        match step {
            DdminStep::Test(candidate) => {
                let outcome = if candidate.contains(&2) && candidate.contains(&5) {
                    TrialOutcome::StablePass
                } else {
                    TrialOutcome::StableFail
                };
                step = run.record(&table, outcome);
            }
            DdminStep::Done(result) => break result,
        }
    };

    assert_eq!(minimal, BTreeSet::from([2, 5]));
}

fn drive(m: &mut Minimizer, first: Vec<u64>, passes: impl Fn(&[u64]) -> TrialOutcome) -> (EngineStep, usize) {
    let mut ids = first;
    let mut runs = 0;
    loop {
        runs += 1;
        let outcome = passes(&ids);
        match m.record(trial(runs as u128, ids.clone(), outcome)) {
            EngineStep::Run(next) => ids = next,
            other => return (other, runs),
        }
    }
}

#[test]
fn minimizer_finds_the_sufficient_pair_and_ablates_it() {
    let actions: Vec<Action> = (1..=9).map(|id| shell(id, "true")).collect();
    let oracle = OracleSpec { command: "cargo test".to_owned(), timeout_ms: 1000 };
    let (mut m, first) =
        Minimizer::start(&actions, no_dependencies(), "baseline", &oracle, 3).ok().expect("ids are unique");
    assert!(first.is_empty());
    let (step, _) = drive(&mut m, first, |ids| {
        if ids.contains(&5) && ids.contains(&6) { TrialOutcome::StablePass } else { TrialOutcome::StableFail }
    });
    assert!(matches!(step, EngineStep::Finished));
    let reductions = m.reductions().clone();
    assert!(reductions.windows(2).all(|w| w[1].0 == w[0].1));
    assert!(reductions.last().map_or(true, |r| r.1 == 2));
    let report = m.into_report();
    assert!(report.trials[0].action_ids.is_empty());
    assert_eq!(report.trials[1].action_ids, (1..=9).collect::<Vec<u64>>());
    assert_eq!(report.empty_trial.outcome, TrialOutcome::StableFail);
    assert_eq!(report.full_trial.outcome, TrialOutcome::StablePass);
    assert_eq!(report.final_trial.outcome, TrialOutcome::StablePass);
    assert_eq!(report.minimal_action_ids, vec![5, 6]);
    assert_eq!(report.ablations.len(), 2);
    assert_eq!(report.ablations[0].removed_action_id, 5);
    assert_eq!(report.ablations[0].candidate_action_ids, vec![6]);
    assert_eq!(report.ablations[1].removed_action_id, 6);
    assert_eq!(report.ablations[1].candidate_action_ids, vec![5]);
    assert!(report.ablations.iter().all(|a| a.outcome == TrialOutcome::StableFail));
    assert_eq!(report.statement, "dependency-constrained 1-minimal sufficient repair trace");
    assert_eq!(report.baseline_hash, "baseline");
    assert_eq!(report.final_trial.action_ids, vec![5, 6]);
}

#[test]
fn minimizer_keeps_dependencies_of_kept_actions() {
    let actions: Vec<Action> = (1..=4).map(|id| shell(id, "true")).collect();
    let mut deps = BTreeMap::new();
    deps.insert(3, BTreeSet::from([1]));
    let graph = DependencyGraph { hard_dependencies: deps, accesses: BTreeMap::new() };
    let oracle = OracleSpec { command: "test".to_owned(), timeout_ms: 5 };
    let (mut m, first) = Minimizer::start(&actions, graph, "b", &oracle, 1).ok().expect("ids are unique");
    let (step, _) = drive(&mut m, first, |ids| {
        if ids.contains(&3) { TrialOutcome::StablePass } else { TrialOutcome::StableFail }
    });
    assert!(matches!(step, EngineStep::Finished));
    let report = m.into_report();
    assert_eq!(report.minimal_action_ids, vec![1, 3]);
    assert_eq!(report.ablations[0].removed_action_id, 1);
    assert!(report.ablations[0].candidate_action_ids.is_empty());
}

#[test]
fn minimizer_refuses_duplicate_ids_and_bad_checkpoints() {
    let oracle = OracleSpec { command: "test".to_owned(), timeout_ms: 5 };
    let twice = vec![shell(1, "a"), shell(1, "b")];
    assert!(matches!(
        Minimizer::start(&twice, no_dependencies(), "b", &oracle, 1),
        Err(MinimizeError::DuplicateActionIds)
    ));
    let actions: Vec<Action> = (1..=3).map(|id| shell(id, "true")).collect();
    let (mut m, first) = Minimizer::start(&actions, no_dependencies(), "b", &oracle, 1).ok().expect("unique");
    let (step, runs) = drive(&mut m, first, |_| TrialOutcome::StablePass);
    assert_eq!(runs, 1);
    assert!(matches!(
        step,
        EngineStep::Failed(MinimizeError::UnexpectedOutcome {
            stage: Stage::EmptySet,
            expected: TrialOutcome::StableFail,
            actual: TrialOutcome::StablePass,
            trial_id: 1,
        })
    ));
    let (mut m, first) = Minimizer::start(&actions, no_dependencies(), "b", &oracle, 1).ok().expect("unique");
    let (step, _) = drive(&mut m, first, |_| TrialOutcome::StableFail);
    assert!(matches!(step, EngineStep::Failed(MinimizeError::UnexpectedOutcome { stage: Stage::FullSet, .. })));
}

fn patch(id: u64, entries: &[(&str, Option<&str>)]) -> Action {
    action(
        id,
        ActionKind::FilePatch {
            files: entries
                .iter()
                .map(|(path, content)| FileReplacement {
                    path: (*path).to_owned(),
                    content: content.map(|c| c.to_owned()),
                    unix_mode: None,
                })
                .collect(),
        },
    )
}

#[test]
fn a_read_file_depends_on_its_first_creator_still_present() {
    let baseline = SnapshotManifest { root_hash: "baseline".to_owned(), files: Vec::new() };
    let actions = vec![
        patch(1, &[("notes.txt", Some("one"))]),
        patch(2, &[("notes.txt", Some("two"))]),
        shell(3, "cat notes.txt"),
        patch(4, &[("notes.txt", None), ("notes.txt", Some("three"))]),
        patch(5, &[("notes.txt", Some("four"))]),
        shell(6, "cat notes.txt"),
        patch(7, &[("notes.txt", None)]),
        shell(8, "cat notes.txt"),
    ];
    let graph = DependencyGraph::infer(&actions, &baseline);
    assert_eq!(graph.hard_dependencies[&3], BTreeSet::from([1]));
    assert_eq!(graph.hard_dependencies[&6], BTreeSet::from([4]));
    assert_eq!(graph.hard_dependencies[&8], BTreeSet::new());
}

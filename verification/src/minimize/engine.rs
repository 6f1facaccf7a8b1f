use vstd::prelude::*;
use std::collections::BTreeSet;
use crate::domain::action::Action;
use crate::domain::trial::{Trial, TrialOutcome};
use crate::ids::copy_ids;
use crate::minimize::cache::{KeyView, TrialCache, TrialCacheKey};
use crate::minimize::ddmin::{CandidateTester, Ddmin, DdminStep};
use crate::minimize::dependency::{lemma_btree_set_finite, spec_removal, DependencyGraph};
use crate::minimize::table::{ids_of, lemma_replay_order_lists, ActionTable};
use crate::replay::oracle::OracleSpec;
use crate::text::copy_string;

verus! {

broadcast use {vstd::std_specs::btree::group_btree_axioms, vstd::laws_cmp::group_laws_cmp};

/// Which checkpoint a trial belonged to.
#[derive(Clone, Copy, Debug, PartialEq, Eq, Structural)]
pub enum Stage {
    /// The trial of no actions at all.
    EmptySet,
    /// The trial of every recorded action.
    FullSet,
    /// The closing trial of the minimized set.
    FinalSet,
}

/// Why a minimization stopped without a report.
#[derive(Clone, Debug)]
pub enum MinimizeError {
    /// Two recorded actions share an id.
    DuplicateActionIds,
    /// A checkpoint trial did not have the outcome it needs.
    UnexpectedOutcome { stage: Stage, expected: TrialOutcome, actual: TrialOutcome, trial_id: u128 },
    /// Taking this action (with its dependents) out of the minimized set still passed.
    StillRemovable { action_id: u64 },
}

/// The trial that shows an action of the minimized set is needed.
#[derive(Clone, Debug)]
pub struct AblationEvidence {
    pub removed_action_id: u64,
    pub candidate_action_ids: Vec<u64>,
    pub trial_id: u128,
    pub outcome: TrialOutcome,
}

/// What a minimization found, with every trial it ran.
#[derive(Clone, Debug)]
pub struct MinimizationReport {
    pub baseline_hash: String,
    pub empty_trial: Trial,
    pub full_trial: Trial,
    pub minimal_action_ids: Vec<u64>,
    pub ablations: Vec<AblationEvidence>,
    pub final_trial: Trial,
    pub trials: Vec<Trial>,
    pub dependency_graph: DependencyGraph,
    pub statement: String,
}

/// What the minimization needs next.
pub enum EngineStep {
    /// Run the actions with these ids, in this order, and report the trial.
    Run(Vec<u64>),
    /// The minimization is over; the report can be taken.
    Finished,
    /// The minimization stopped.
    Failed(MinimizeError),
}

/// Some reported trial was of the run that asked for exactly `ids`, with outcome `o`.
pub open spec fn ran(runs: Seq<(Seq<u64>, TrialOutcome)>, ids: Seq<u64>, o: TrialOutcome) -> bool {
    exists|j: int| 0 <= j < runs.len() && #[trigger] runs[j] == (ids, o)
}

/// The actions tried when `id` and what depends on it are taken out of `m`: the rest of
/// `m`, closed under the dependencies and kept to known ids, in replay order.
pub open spec fn ablation_ids(t: ActionTable, m: Set<u64>, id: u64) -> Seq<u64> {
    t.spec_ordered_ids(t.spec_normalize(spec_removal(t.graph().deps(), m, id)))
}

/// `e` records that taking `id` out of `m` was tried and did not stably pass.
pub open spec fn ablation_holds(
    t: ActionTable,
    runs: Seq<(Seq<u64>, TrialOutcome)>,
    m: Set<u64>,
    id: u64,
    e: AblationEvidence,
) -> bool {
    &&& e.removed_action_id == id
    &&& e.outcome != TrialOutcome::StablePass
    &&& e.candidate_action_ids@ == ablation_ids(t, m, id)
    &&& ran(runs, e.candidate_action_ids@, e.outcome)
}

proof fn lemma_ran_grows(runs: Seq<(Seq<u64>, TrialOutcome)>, x: (Seq<u64>, TrialOutcome))
    ensures
        forall|ids: Seq<u64>, o: TrialOutcome| ran(runs, ids, o) ==> #[trigger] ran(runs.push(x), ids, o),
        ran(runs.push(x), x.0, x.1),
{
    assert forall|ids: Seq<u64>, o: TrialOutcome| ran(runs, ids, o) implies #[trigger] ran(runs.push(x), ids, o) by {
        let j = choose|j: int| 0 <= j < runs.len() && #[trigger] runs[j] == (ids, o);
        assert(runs.push(x)[j] == runs[j]);
    }
    assert(runs.push(x)[runs.len() as int] == x);
}

enum Phase {
    Empty,
    Full,
    Search,
    Reduce,
    Ablate,
    Final,
    Done,
    Failed,
}

/// A dependency-aware minimization between trial runs: the empty set must stably fail,
/// the full set stably pass; delta debugging, then single-action reduction and an
/// ablation of every kept action follow, and a closing run of the kept set.
pub struct Minimizer {
    table: ActionTable,
    baseline_hash: String,
    oracle: OracleSpec,
    repetitions: u32,
    cache: TrialCache,
    trials: Vec<Trial>,
    phase: Phase,
    full_ids: BTreeSet<u64>,
    empty_trial: Option<Trial>,
    full_trial: Option<Trial>,
    final_trial: Option<Trial>,
    search: Option<Ddmin>,
    minimal: BTreeSet<u64>,
    scan: Vec<u64>,
    pos: usize,
    candidate: BTreeSet<u64>,
    ablations: Vec<AblationEvidence>,
    asked: Vec<u64>,
    pending: Option<TrialCacheKey>,
    reductions: Vec<(usize, usize)>,
    /// Every reported trial: the ids it was asked to run and its outcome.
    runs: Ghost<Seq<(Seq<u64>, TrialOutcome)>>,
}

impl Minimizer {
    /// The recorded actions and their dependencies.
    pub closed spec fn table(&self) -> ActionTable {
        self.table
    }

    /// Every reported trial: the ids it was asked to run and its outcome, oldest first.
    pub closed spec fn runs(&self) -> Seq<(Seq<u64>, TrialOutcome)> {
        self.runs@
    }

    /// The ids of the run the minimization waits for.
    pub closed spec fn asked(&self) -> Seq<u64> {
        self.asked@
    }

    /// The kept set.
    pub closed spec fn minimal(&self) -> Set<u64> {
        self.minimal@
    }

    /// The baseline every trial starts from.
    pub closed spec fn baseline(&self) -> Seq<char> {
        self.baseline_hash@
    }

    /// Whether a report is ready.
    pub closed spec fn is_done(&self) -> bool {
        self.phase is Done
    }

    /// Whether a trial is awaited.
    pub closed spec fn is_awaiting(&self) -> bool {
        self.awaiting()
    }

    closed spec fn rank(&self) -> int {
        match self.phase {
            Phase::Empty => 6,
            Phase::Full => 5,
            Phase::Search => 4,
            Phase::Reduce => 3,
            Phase::Ablate => 2,
            Phase::Final => 1,
            _ => 0,
        }
    }

    closed spec fn search_measure(&self) -> (int, int, int, int) {
        if self.phase is Search && self.search is Some {
            self.search->0.measure()
        } else {
            (0, 0, 0, 0)
        }
    }

    closed spec fn kept_len(&self) -> int {
        if self.phase is Reduce { self.minimal@.len() as int } else { 0 }
    }

    closed spec fn scan_left(&self) -> int {
        if self.phase is Reduce || self.phase is Ablate { self.scan@.len() - self.pos } else { 0 }
    }

    closed spec fn checkpoints(&self) -> bool {
        &&& self.empty_trial matches Some(e) && e.outcome == TrialOutcome::StableFail
        &&& self.full_trial matches Some(f) && f.outcome == TrialOutcome::StablePass
    }

    closed spec fn scanning(&self) -> bool {
        &&& self.scan@ == self.table.spec_ordered_ids(self.minimal@)
        &&& self.pos <= self.scan@.len()
        &&& self.minimal@.finite()
    }

    closed spec fn ablated(&self, n: int) -> bool {
        &&& self.ablations@.len() == n
        &&& forall|i: int| 0 <= i < n ==> ablation_holds(self.table, self.runs@, self.minimal@, self.scan@[i],
            #[trigger] self.ablations@[i])
    }

    /// The state's invariant.
    pub closed spec fn inv(&self) -> bool {
        &&& self.cache.wf()
        &&& self.cache_from_runs()
        &&& self.full_ids@ == self.table.known()
        &&& self.trials_match_runs()
        &&& self.reductions_tracked()
        &&& match self.phase {
            Phase::Empty => true,
            Phase::Full => self.empty_trial matches Some(e) && e.outcome == TrialOutcome::StableFail,
            Phase::Search => {
                &&& self.checkpoints()
                &&& self.search matches Some(d) && d.inv(&self.table) && !d.is_finished()
            },
            Phase::Reduce => self.checkpoints() && self.scanning() && self.ablated(0),
            Phase::Ablate => self.checkpoints() && self.scanning() && self.ablated(self.pos as int),
            Phase::Final => self.checkpoints() && self.scanning() && self.ablated(self.scan@.len() as int),
            Phase::Done => {
                &&& self.checkpoints()
                &&& self.scanning()
                &&& self.ablated(self.scan@.len() as int)
                &&& self.final_trial matches Some(f) && f.outcome == TrialOutcome::StablePass && f.action_ids@ == self.scan@
                &&& ran(self.runs@, self.scan@, TrialOutcome::StablePass)
            },
            Phase::Failed => true,
        }
    }

    /// One recorded trial per reported run, with the run's candidate and outcome.
    closed spec fn trials_match_runs(&self) -> bool {
        &&& self.trials@.len() == self.runs@.len()
        &&& forall|k: int| 0 <= k < self.runs@.len() ==> (#[trigger] self.trials@[k]).outcome == self.runs@[k].1
            && self.trials@[k].action_ids@ == self.runs@[k].0
    }

    /// The reductions chain: each starts from the size the previous one left, none happens
    /// before reducing starts, and the last one left the kept set's size.
    closed spec fn reductions_tracked(&self) -> bool {
        &&& reductions_chain(self.reductions@)
        &&& (self.phase is Empty || self.phase is Full || self.phase is Search) ==> self.reductions@.len() == 0
        &&& (self.phase is Reduce || self.phase is Ablate || self.phase is Final || self.phase is Done)
            && self.reductions@.len() > 0 ==> self.reductions@.last().1 == self.minimal@.len()
    }

    /// What the awaited run is for.
    closed spec fn awaiting(&self) -> bool {
        &&& self.pending matches Some(k) ==> k@.action_ids == self.asked@
        &&& match self.phase {
            Phase::Empty => {
                &&& self.asked@ == self.table.spec_ordered_ids(self.table.spec_normalize(Set::empty()))
                &&& self.pending is Some
                &&& self.cache@ == Map::<KeyView, Trial>::empty()
            },
            Phase::Full => self.asked@ == self.table.spec_ordered_ids(self.table.spec_normalize(self.full_ids@)),
            Phase::Search => self.asked@ == self.table.spec_ordered_ids(self.table.spec_normalize(
                self.search->0.awaited()->0)),
            Phase::Reduce => {
                &&& self.pos < self.scan@.len()
                &&& self.candidate@ == spec_removal(self.table.graph().deps(), self.minimal@, self.scan@[self.pos as int])
                &&& self.candidate@.len() < self.minimal@.len()
                &&& self.asked@ == self.table.spec_ordered_ids(self.table.spec_normalize(self.candidate@))
            },
            Phase::Ablate => {
                &&& self.pos < self.scan@.len()
                &&& self.candidate@ == spec_removal(self.table.graph().deps(), self.minimal@, self.scan@[self.pos as int])
                &&& self.asked@ == self.table.spec_ordered_ids(self.table.spec_normalize(self.candidate@))
            },
            Phase::Final => self.asked@ == self.scan@ && self.pending is None,
            _ => false,
        }
    }

    /// The checkpoint trial awaited: the empty set, the full set or the closing run of the
    /// kept set; none while searching, reducing or ablating.
    pub closed spec fn awaited_checkpoint(&self) -> Option<Stage> {
        match self.phase {
            Phase::Empty => Some(Stage::EmptySet),
            Phase::Full => Some(Stage::FullSet),
            Phase::Final => Some(Stage::FinalSet),
            _ => None,
        }
    }

    /// Every cached trial's outcome is that of a reported run of the same ids.
    closed spec fn cache_from_runs(&self) -> bool {
        forall|k: KeyView| #[trigger] self.cache@.contains_key(k) ==> ran(self.runs@, k.action_ids,
            self.cache@[k].outcome)
    }

    /// Asks for the normalized `candidate`: a cached trial of the same run is handed back at
    /// once, else the run is left awaited.
    fn request(&mut self, candidate: &BTreeSet<u64>) -> (res: Option<Trial>)
        requires
            old(self).cache.wf(),
            old(self).cache_from_runs(),
        ensures
            final(self).asked@ == old(self).table.spec_ordered_ids(old(self).table.spec_normalize(candidate@)),
            final(self).table == old(self).table,
            final(self).reductions == old(self).reductions,
            final(self).cache == old(self).cache,
            final(self).runs == old(self).runs,
            final(self).phase == old(self).phase,
            final(self).full_ids == old(self).full_ids,
            final(self).empty_trial == old(self).empty_trial,
            final(self).full_trial == old(self).full_trial,
            final(self).final_trial == old(self).final_trial,
            final(self).search == old(self).search,
            final(self).minimal == old(self).minimal,
            final(self).scan == old(self).scan,
            final(self).pos == old(self).pos,
            final(self).candidate == old(self).candidate,
            final(self).ablations == old(self).ablations,
            final(self).baseline_hash == old(self).baseline_hash,
            final(self).trials == old(self).trials,
            res matches Some(t) ==> exists|k: KeyView| #[trigger] old(self).cache@.contains_key(k) && t.id == old(
                self,
            ).cache@[k].id && t.outcome == old(self).cache@[k].outcome,
            match res {
                Some(t) => ran(final(self).runs@, final(self).asked@, t.outcome) && final(self).pending is None,
                None => final(self).pending matches Some(k) && k@.action_ids == final(self).asked@,
            },
    {
        let normalized = self.table.normalize(candidate);
        let ids = self.table.ordered_ids(&normalized);
        self.asked = copy_ids(&ids);
        let key = TrialCacheKey::new(&self.baseline_hash, &self.oracle, ids, self.repetitions);
        match self.cache.get(&key) {
            Some(t) => {
                let found = t.duplicate();
                self.pending = None;
                proof {
                    assert(self.cache@.contains_key(key@));
                }
                Some(found)
            },
            None => {
                self.pending = Some(key);
                None
            },
        }
    }
}

impl Minimizer {
    /// Scans the kept set for an action whose removal (with its dependents) shrinks it,
    /// asking for the first such candidate; with none left, turns to the ablations.
    fn scan_reduce(&mut self) -> (res: Option<Trial>)
        requires
            old(self).inv(),
            old(self).phase is Reduce,
        ensures
            final(self).inv(),
            final(self).awaiting(),
            final(self).runs == old(self).runs,
            final(self).table == old(self).table,
            final(self).reductions == old(self).reductions,
            final(self).baseline_hash == old(self).baseline_hash,
            res matches Some(t) ==> ran(final(self).runs@, final(self).asked@, t.outcome),
            (final(self).phase is Reduce && final(self).minimal == old(self).minimal && final(self).scan == old(self).scan
                && final(self).pos >= old(self).pos) || final(self).rank() < 3,
            res is Some ==> final(self).phase is Reduce || final(self).phase is Ablate,
    {
        while self.pos < self.scan.len()
            invariant
                self.inv(),
                self.phase is Reduce,
                self.runs == old(self).runs,
                self.table == old(self).table,
                self.reductions == old(self).reductions,
                self.baseline_hash == old(self).baseline_hash,
                self.minimal == old(self).minimal,
                self.scan == old(self).scan,
                self.pos >= old(self).pos,
            decreases self.scan.len() - self.pos,
        {
            let id = self.scan[self.pos];
            let cand = self.table.dependency_graph().remove_with_dependents(&self.minimal, id);
            proof {
                vstd::set_lib::lemma_len_subset(cand@, self.minimal@);
            }
            if cand.len() < self.minimal.len() {
                let got = self.request(&cand);
                self.candidate = cand;
                return got;
            }
            self.pos += 1;
        }
        self.phase = Phase::Ablate;
        self.pos = 0;
        self.scan_ablate()
    }

    /// Asks for the candidate without the next kept action (and its dependents); with every
    /// kept action ablated, asks for the closing run of the kept set.
    fn scan_ablate(&mut self) -> (res: Option<Trial>)
        requires
            old(self).inv(),
            old(self).phase is Ablate,
        ensures
            final(self).inv(),
            final(self).awaiting(),
            final(self).runs == old(self).runs,
            final(self).table == old(self).table,
            final(self).reductions == old(self).reductions,
            final(self).baseline_hash == old(self).baseline_hash,
            res matches Some(t) ==> ran(final(self).runs@, final(self).asked@, t.outcome),
            (final(self).phase is Ablate && final(self).minimal == old(self).minimal && final(self).scan == old(self).scan
                && final(self).pos == old(self).pos) || final(self).rank() < 2,
            res is Some ==> final(self).phase is Ablate,
    {
        if self.pos < self.scan.len() {
            let id = self.scan[self.pos];
            let cand = self.table.dependency_graph().remove_with_dependents(&self.minimal, id);
            let got = self.request(&cand);
            self.candidate = cand;
            return got;
        }
        self.phase = Phase::Final;
        self.asked = copy_ids(&self.scan);
        self.pending = None;
        None
    }

    /// Keeps `r` and starts reducing it.
    fn start_reduce(&mut self, r: BTreeSet<u64>) -> (res: Option<Trial>)
        requires
            old(self).cache.wf(),
            old(self).cache_from_runs(),
            old(self).full_ids@ == old(self).table.known(),
            old(self).trials_match_runs(),
            old(self).checkpoints(),
            reductions_chain(old(self).reductions@),
            old(self).reductions@.len() > 0 ==> old(self).reductions@.last().1 == r@.len(),
        ensures
            final(self).inv(),
            final(self).awaiting(),
            final(self).runs == old(self).runs,
            final(self).table == old(self).table,
            final(self).reductions == old(self).reductions,
            final(self).baseline_hash == old(self).baseline_hash,
            res matches Some(t) ==> ran(final(self).runs@, final(self).asked@, t.outcome),
            final(self).rank() <= 3,
            final(self).phase is Reduce ==> final(self).minimal == r,
            res is Some ==> final(self).phase is Reduce || final(self).phase is Ablate,
    {
        proof {
            lemma_btree_set_finite(&r);
        }
        self.minimal = r;
        self.phase = Phase::Reduce;
        self.scan = self.table.ordered_ids(&self.minimal);
        self.pos = 0;
        self.ablations = Vec::new();
        self.scan_reduce()
    }

    /// Follows a delta-debugging step: asks for its candidate, or keeps its result.
    fn continue_search(&mut self, step: DdminStep) -> (res: Option<Trial>)
        requires
            old(self).cache.wf(),
            old(self).cache_from_runs(),
            old(self).full_ids@ == old(self).table.known(),
            old(self).trials_match_runs(),
            old(self).checkpoints(),
            old(self).reductions@.len() == 0,
            old(self).phase is Search,
            old(self).search matches Some(d) && d.inv(&old(self).table) && (match step {
                DdminStep::Test(c) => !d.is_finished() && d.awaited() == Some(c@),
                DdminStep::Done(r) => d.is_finished(),
            }),
        ensures
            final(self).inv(),
            final(self).awaiting(),
            final(self).runs == old(self).runs,
            final(self).table == old(self).table,
            final(self).reductions == old(self).reductions,
            final(self).baseline_hash == old(self).baseline_hash,
            res matches Some(t) ==> ran(final(self).runs@, final(self).asked@, t.outcome),
            (final(self).phase is Search && final(self).search == old(self).search) || final(self).rank() < 4,
            res is Some ==> final(self).phase is Search || final(self).phase is Reduce || final(self).phase is Ablate,
    {
        match step {
            DdminStep::Test(c) => {
                self.request(&c)
            },
            DdminStep::Done(r) => {
                self.start_reduce(r)
            },
        }
    }
}

/// The outcome a checkpoint must have: the empty set fails, the others pass.
pub open spec fn expected_outcome(stage: Stage) -> TrialOutcome {
    if stage == Stage::EmptySet { TrialOutcome::StableFail } else { TrialOutcome::StablePass }
}

/// How the minimization answers `trial` when `awaited` names the checkpoint it waited for:
/// a wrong outcome stops it at once with that stage, the expected and the actual outcome and
/// the trial's id; the expected outcome never stops it at that stage. A stop on an
/// unexpected outcome always reports `trial` itself, at the awaited stage, or at the full
/// set when the empty set passed and the full set's run was the same (cached) run.
pub open spec fn checkpoint_step(awaited: Option<Stage>, trial: Trial, step: EngineStep) -> bool {
    &&& match awaited {
        Some(s) => if trial.outcome != expected_outcome(s) {
            step == EngineStep::Failed(
                MinimizeError::UnexpectedOutcome { stage: s, expected: expected_outcome(s), actual: trial.outcome, trial_id: trial.id },
            )
        } else {
            !(step matches EngineStep::Failed(MinimizeError::UnexpectedOutcome { stage, .. }) && stage == s)
        },
        None => true,
    }
    &&& step matches EngineStep::Failed(MinimizeError::UnexpectedOutcome { stage, expected, actual, trial_id }) ==> {
        &&& actual == trial.outcome
        &&& trial_id == trial.id
        &&& expected == expected_outcome(stage)
        &&& (awaited == Some(stage) || (awaited == Some(Stage::EmptySet) && stage == Stage::FullSet))
    }
}

/// What a stop of the minimization tells: a checkpoint with the wrong outcome, or a kept
/// action that could still be taken out.
pub open spec fn failure_holds(m: Minimizer, e: MinimizeError) -> bool {
    match e {
        MinimizeError::DuplicateActionIds => false,
        MinimizeError::UnexpectedOutcome { stage, expected, actual, trial_id } => {
            &&& actual != expected
            &&& expected == (if stage == Stage::EmptySet { TrialOutcome::StableFail } else { TrialOutcome::StablePass })
        },
        MinimizeError::StillRemovable { action_id } => {
            &&& m.minimal().contains(action_id)
            &&& ran(m.runs(), ablation_ids(m.table(), m.minimal(), action_id), TrialOutcome::StablePass)
        },
    }
}

impl Minimizer {
    /// Takes the trial of the awaited (or cached) run and goes on until a run is needed or
    /// the minimization ends.
    fn absorb(&mut self, first: Trial) -> (step: EngineStep)
        requires
            old(self).inv(),
            old(self).phase is Empty || old(self).awaiting(),
            ran(old(self).runs@, old(self).asked@, first.outcome),
            first.action_ids@ == old(self).asked@,
            old(self).phase is Empty ==> forall|k: KeyView| #[trigger] old(self).cache@.contains_key(k) ==> old(
                self,
            ).cache@[k].id == first.id && old(self).cache@[k].outcome == first.outcome,
        ensures
            checkpoint_step(old(self).awaited_checkpoint(), first, step),
            final(self).inv(),
            final(self).runs == old(self).runs,
            final(self).table == old(self).table,
            final(self).baseline_hash == old(self).baseline_hash,
            shrinking_from(old(self).reductions@, final(self).reductions@),
            match step {
                EngineStep::Run(ids) => final(self).awaiting() && ids@ == final(self).asked@,
                EngineStep::Finished => final(self).phase is Done,
                EngineStep::Failed(e) => failure_holds(*final(self), e),
            },
    {
        let mut t = first.duplicate();
        let ghost mut first_iter: bool = true;
        loop
            invariant
                first_iter ==> t.id == first.id && t.outcome == first.outcome && self.phase == old(self).phase
                    && self.cache == old(self).cache && t.action_ids@ == old(self).asked@ && self.asked == old(self).asked,
                !first_iter ==> (self.phase is Full && old(self).phase is Empty && t.id == first.id && t.outcome
                    == first.outcome) || self.phase is Search || self.phase is Reduce || self.phase is Ablate,
                !first_iter ==> !(old(self).phase is Final) && (old(self).phase is Empty ==> first.outcome
                    == TrialOutcome::StableFail) && (old(self).phase is Full ==> first.outcome == TrialOutcome::StablePass),
                old(self).phase is Empty ==> forall|k: KeyView| #[trigger] old(self).cache@.contains_key(k) ==> old(
                    self,
                ).cache@[k].id == first.id && old(self).cache@[k].outcome == first.outcome,
                self.inv(),
                self.phase is Empty || self.awaiting(),
                ran(self.runs@, self.asked@, t.outcome),
                self.runs == old(self).runs,
                self.table == old(self).table,
                self.baseline_hash == old(self).baseline_hash,
                shrinking_from(old(self).reductions@, self.reductions@),
            decreases
                self.rank(),
                self.search_measure().0,
                self.search_measure().1,
                self.search_measure().2,
                self.search_measure().3,
                self.kept_len(),
                self.scan_left(),
        {
            let next = match self.phase {
                Phase::Empty => {
                    if t.outcome != TrialOutcome::StableFail {
                        self.phase = Phase::Failed;
                        return EngineStep::Failed(MinimizeError::UnexpectedOutcome {
                            stage: Stage::EmptySet,
                            expected: TrialOutcome::StableFail,
                            actual: t.outcome,
                            trial_id: t.id,
                        });
                    }
                    self.empty_trial = Some(t);
                    self.phase = Phase::Full;
                    let full = self.full_ids.clone();
                    self.request(&full)
                },
                Phase::Full => {
                    if t.outcome != TrialOutcome::StablePass {
                        self.phase = Phase::Failed;
                        return EngineStep::Failed(MinimizeError::UnexpectedOutcome {
                            stage: Stage::FullSet,
                            expected: TrialOutcome::StablePass,
                            actual: t.outcome,
                            trial_id: t.id,
                        });
                    }
                    self.full_trial = Some(t);
                    let (d, step) = Ddmin::start(&self.table, &self.full_ids);
                    self.search = Some(d);
                    self.phase = Phase::Search;
                    self.continue_search(step)
                },
                Phase::Search => {
                    let mut d = self.search.take().unwrap();
                    let ghost before = d.measure();
                    let step = d.record(&self.table, t.outcome);
                    proof {
                        if step is Test {
                            d.lemma_measure_nonneg(&self.table);
                        }
                    }
                    self.search = Some(d);
                    self.continue_search(step)
                },
                Phase::Reduce => {
                    if t.outcome == TrialOutcome::StablePass {
                        let before = self.minimal.len();
                        let after = self.candidate.len();
                        self.reductions.push((before, after));
                        let kept = self.candidate.clone();
                        self.start_reduce(kept)
                    } else {
                        let n = self.scan.len();
                        assert(self.pos < n);
                        self.pos += 1;
                        self.scan_reduce()
                    }
                },
                Phase::Ablate => {
                    let id = self.scan[self.pos];
                    if t.outcome == TrialOutcome::StablePass {
                        proof {
                            lemma_replay_order_lists(self.table.orders(), self.minimal@);
                            assert(self.scan@.to_set().contains(id));
                        }
                        self.phase = Phase::Failed;
                        return EngineStep::Failed(MinimizeError::StillRemovable { action_id: id });
                    }
                    let evidence = AblationEvidence {
                        removed_action_id: id,
                        candidate_action_ids: copy_ids(&self.asked),
                        trial_id: t.id,
                        outcome: t.outcome,
                    };
                    self.ablations.push(evidence);
                    let n = self.scan.len();
                    assert(self.pos < n);
                    self.pos += 1;
                    self.scan_ablate()
                },
                Phase::Final => {
                    if t.outcome != TrialOutcome::StablePass {
                        self.phase = Phase::Failed;
                        return EngineStep::Failed(MinimizeError::UnexpectedOutcome {
                            stage: Stage::FinalSet,
                            expected: TrialOutcome::StablePass,
                            actual: t.outcome,
                            trial_id: t.id,
                        });
                    }
                    self.final_trial = Some(t);
                    self.phase = Phase::Done;
                    return EngineStep::Finished;
                },
                _ => {
                    return EngineStep::Finished;
                },
            };
            match next {
                Some(n) => {
                    t = n;
                    proof {
                        first_iter = false;
                    }
                },
                None => {
                    return EngineStep::Run(copy_ids(&self.asked));
                },
            }
        }
    }
}

/// Each reduction in `log` starts from the size the one before it left.
pub open spec fn reductions_chain(log: Seq<(usize, usize)>) -> bool {
    forall|k: int| 0 < k < log.len() ==> (#[trigger] log[k]).0 == log[k - 1].1
}

/// `later` extends `earlier`, and each added reduction leaves fewer actions than before it.
pub open spec fn shrinking_from(earlier: Seq<(usize, usize)>, later: Seq<(usize, usize)>) -> bool {
    &&& earlier.is_prefix_of(later)
    &&& forall|k: int| earlier.len() <= k < later.len() ==> (#[trigger] later[k]).1 < later[k].0
}

impl Minimizer {
    /// Starts minimizing `actions` under `graph`, for trials from the baseline with hash
    /// `baseline_hash` judged by `oracle` over `repetitions` attempts, and names the first
    /// run: the empty action set. Refused when two actions share an id.
    pub fn start(
        actions: &Vec<Action>,
        graph: DependencyGraph,
        baseline_hash: &str,
        oracle: &OracleSpec,
        repetitions: u32,
    ) -> (res: Result<(Minimizer, Vec<u64>), MinimizeError>)
        ensures
            res is Err <==> !ids_of(actions@).no_duplicates(),
            res matches Err(e) ==> e is DuplicateActionIds,
            res matches Ok((m, ids)) ==> {
                &&& m.inv()
                &&& m.is_awaiting()
                &&& ids@ == m.asked()
                &&& m.asked() == m.table().spec_ordered_ids(m.table().spec_normalize(Set::empty()))
                &&& m.runs() == Seq::<(Seq<u64>, TrialOutcome)>::empty()
                &&& m.reduction_log() == Seq::<(usize, usize)>::empty()
                &&& m.awaited_checkpoint() == Some(Stage::EmptySet)
                &&& m.table().graph() == graph
                &&& m.table().known() == ids_of(actions@).to_set()
                &&& m.baseline() == baseline_hash@
            },
    {
        let table = match ActionTable::new(actions, graph) {
            Some(t) => t,
            None => {
                return Err(MinimizeError::DuplicateActionIds);
            },
        };
        let ghost ids = ids_of(actions@);
        let mut full_ids: BTreeSet<u64> = BTreeSet::new();
        let mut i: usize = 0;
        while i < actions.len()
            invariant
                i <= actions@.len(),
                ids == ids_of(actions@),
                full_ids@ == ids.take(i as int).to_set(),
            decreases actions.len() - i,
        {
            full_ids.insert(actions[i].id);
            proof {
                assert(ids.take(i + 1) =~= ids.take(i as int).push(ids[i as int]));
                Seq::lemma_to_set_insert_commutes(ids.take(i as int), ids[i as int]);
                assert(ids.take(i as int).push(ids[i as int]) =~= ids.take(i as int) + seq![ids[i as int]]);
            }
            i += 1;
        }
        assert(ids.take(actions@.len() as int) =~= ids);
        let mut m = Minimizer {
            table,
            baseline_hash: baseline_hash.to_owned(),
            oracle: OracleSpec { command: copy_string(&oracle.command), timeout_ms: oracle.timeout_ms },
            repetitions,
            cache: TrialCache::new(),
            trials: Vec::new(),
            phase: Phase::Empty,
            full_ids,
            empty_trial: None,
            full_trial: None,
            final_trial: None,
            search: None,
            minimal: BTreeSet::new(),
            scan: Vec::new(),
            pos: 0,
            candidate: BTreeSet::new(),
            ablations: Vec::new(),
            asked: Vec::new(),
            pending: None,
            reductions: Vec::new(),
            runs: Ghost(Seq::empty()),
        };
        let empty: BTreeSet<u64> = BTreeSet::new();
        let got = m.request(&empty);
        match got {
            Some(_) => {
                assert(false);
            },
            None => {},
        }
        let ids_out = copy_ids(&m.asked);
        Ok((m, ids_out))
    }

    /// Takes the trial of the awaited run (a trial of exactly the asked ids, in the asked
    /// order) and names the next run, or ends.
    pub fn record(&mut self, trial: Trial) -> (step: EngineStep)
        requires
            old(self).inv(),
            old(self).is_awaiting(),
            trial.action_ids@ == old(self).asked(),
        ensures
            final(self).inv(),
            final(self).runs() == old(self).runs().push((old(self).asked(), trial.outcome)),
            final(self).table() == old(self).table(),
            final(self).baseline() == old(self).baseline(),
            shrinking_from(old(self).reduction_log(), final(self).reduction_log()),
            reductions_chain(final(self).reduction_log()),
            final(self).is_done() && final(self).reduction_log().len() > 0 ==> final(self).reduction_log().last().1
                == final(self).minimal().len(),
            checkpoint_step(old(self).awaited_checkpoint(), trial, step),
            match step {
                EngineStep::Run(ids) => final(self).is_awaiting() && ids@ == final(self).asked(),
                EngineStep::Finished => final(self).is_done(),
                EngineStep::Failed(e) => failure_holds(*final(self), e),
            },
    {
        let ghost before = self.runs@;
        let ghost entry = (self.asked@, trial.outcome);
        self.runs = Ghost(self.runs@.push(entry));
        proof {
            lemma_ran_grows(before, entry);
        }
        match self.pending.take() {
            Some(key) => {
                let stored = trial.duplicate();
                self.cache.insert(key, stored);
            },
            None => {},
        }
        let held = trial.duplicate();
        self.trials.push(trial);
        self.absorb(held)
    }

    /// The finished report.
    pub fn into_report(self) -> (r: MinimizationReport)
        requires
            self.inv(),
            self.is_done(),
        ensures
            r.empty_trial.outcome == TrialOutcome::StableFail,
            r.full_trial.outcome == TrialOutcome::StablePass,
            r.final_trial.outcome == TrialOutcome::StablePass,
            r.final_trial.action_ids@ == r.minimal_action_ids@,
            r.minimal_action_ids@ == self.table().spec_ordered_ids(self.minimal()),
            ran(self.runs(), r.minimal_action_ids@, TrialOutcome::StablePass),
            r.ablations@.len() == r.minimal_action_ids@.len(),
            forall|i: int| 0 <= i < r.ablations@.len() ==> ablation_holds(self.table(), self.runs(), self.minimal(),
                r.minimal_action_ids@[i], #[trigger] r.ablations@[i]),
            r.baseline_hash@ == self.baseline(),
            r.dependency_graph == self.table().graph(),
            r.trials@.len() == self.runs().len(),
            forall|k: int| 0 <= k < r.trials@.len() ==> (#[trigger] r.trials@[k]).outcome == self.runs()[k].1
                && r.trials@[k].action_ids@ == self.runs()[k].0,
            r.statement@ == "dependency-constrained 1-minimal sufficient repair trace"@,
    {
        let Minimizer { table, baseline_hash, trials, empty_trial, full_trial, final_trial, scan, ablations, .. } = self;
        MinimizationReport {
            baseline_hash,
            empty_trial: empty_trial.unwrap(),
            full_trial: full_trial.unwrap(),
            minimal_action_ids: scan,
            ablations,
            final_trial: final_trial.unwrap(),
            trials,
            dependency_graph: table.into_graph(),
            statement: String::from_str("dependency-constrained 1-minimal sufficient repair trace"),
        }
    }

    /// Each reduction of the kept set so far: its size before and after.
    pub closed spec fn reduction_log(&self) -> Seq<(usize, usize)> {
        self.reductions@
    }

    /// Each reduction of the kept set so far: its size before and after.
    pub fn reductions(&self) -> (res: &Vec<(usize, usize)>)
        ensures
            res@ == self.reduction_log(),
    {
        &self.reductions
    }
}

} // verus!

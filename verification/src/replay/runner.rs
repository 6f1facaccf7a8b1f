use vstd::prelude::*;
use crate::domain::action::Action;
use crate::domain::trial::{TrialAttempt, TrialOutcome};
use crate::order::{stable_order, stable_order_indices};
use crate::replay::executor::spec_passed;
use crate::replay::oracle::OracleSpec;
use crate::text::copy_string;

verus! {

/// The attempt cannot be judged: it broke off with an error, or its Oracle did not run,
/// ran out of time or was cancelled.
pub open spec fn attempt_unresolved(a: TrialAttempt) -> bool {
    ||| a.error is Some
    ||| a.oracle is None
    ||| a.oracle->0.timed_out
    ||| a.oracle->0.cancelled
}

/// The attempt's Oracle passed.
pub open spec fn attempt_passed(a: TrialAttempt) -> bool {
    a.oracle matches Some(o) && spec_passed(o)
}

/// How many attempts passed.
pub open spec fn pass_count(s: Seq<TrialAttempt>) -> nat
    decreases s.len(),
{
    if s.len() == 0 {
        0
    } else {
        pass_count(s.drop_last()) + (if attempt_passed(s.last()) { 1nat } else { 0nat })
    }
}

/// The outcome of a trial from its attempts: cancelled; unresolved when an attempt is
/// missing or cannot be judged; else a stable pass or fail when all attempts agree, and
/// flaky when they do not.
pub open spec fn spec_classify(s: Seq<TrialAttempt>, expected: u32, cancelled: bool) -> TrialOutcome {
    if cancelled {
        TrialOutcome::Cancelled
    } else if s.len() != expected || exists|i: int| 0 <= i < s.len() && attempt_unresolved(#[trigger] s[i]) {
        TrialOutcome::Unresolved
    } else if pass_count(s) == s.len() {
        TrialOutcome::StablePass
    } else if pass_count(s) == 0 {
        TrialOutcome::StableFail
    } else {
        TrialOutcome::Flaky
    }
}

proof fn lemma_pass_count_bound(s: Seq<TrialAttempt>)
    ensures
        pass_count(s) <= s.len(),
    decreases s.len(),
{
    if s.len() > 0 {
        lemma_pass_count_bound(s.drop_last());
    }
}

proof fn lemma_all_pass(s: Seq<TrialAttempt>)
    ensures
        pass_count(s) == s.len() ==> forall|i: int| 0 <= i < s.len() ==> attempt_passed(#[trigger] s[i]),
        pass_count(s) == 0 ==> forall|i: int| 0 <= i < s.len() ==> !attempt_passed(#[trigger] s[i]),
    decreases s.len(),
{
    if s.len() > 0 {
        let d = s.drop_last();
        lemma_all_pass(d);
        lemma_pass_count_bound(d);
        if pass_count(s) == s.len() {
            assert forall|i: int| 0 <= i < s.len() implies attempt_passed(#[trigger] s[i]) by {
                if i < s.len() - 1 {
                    assert(s[i] == d[i]);
                }
            }
        }
        if pass_count(s) == 0 {
            assert forall|i: int| 0 <= i < s.len() implies !attempt_passed(#[trigger] s[i]) by {
                if i < s.len() - 1 {
                    assert(s[i] == d[i]);
                }
            }
        }
    }
}

/// A trial is a stable pass only when it was not cancelled, had every attempt it should
/// have had, and every attempt's Oracle passed; and a stable fail only when none passed.
pub proof fn stable_outcomes_are_unanimous(s: Seq<TrialAttempt>, expected: u32, cancelled: bool)
    ensures
        spec_classify(s, expected, cancelled) == TrialOutcome::StablePass ==> !cancelled && s.len() == expected
            && forall|i: int| 0 <= i < s.len() ==> attempt_passed(#[trigger] s[i]),
        spec_classify(s, expected, cancelled) == TrialOutcome::StableFail ==> !cancelled && s.len() == expected
            && forall|i: int| 0 <= i < s.len() ==> !attempt_passed(#[trigger] s[i]),
{
    lemma_all_pass(s);
}

/// Attempts that can all be judged, some passing and some not, make a flaky trial.
pub proof fn mixed_attempts_are_flaky(s: Seq<TrialAttempt>, i: int, j: int)
    requires
        0 <= i < s.len(),
        0 <= j < s.len(),
        attempt_passed(s[i]),
        !attempt_passed(s[j]),
        forall|k: int| 0 <= k < s.len() ==> !attempt_unresolved(#[trigger] s[k]),
        s.len() <= u32::MAX,
    ensures
        spec_classify(s, s.len() as u32, false) == TrialOutcome::Flaky,
{
    lemma_all_pass(s);
}

/// Classifies a trial from its attempts, the number of attempts it should have had and
/// whether it was cancelled.
pub fn classify_outcome(attempts: &Vec<TrialAttempt>, expected_repetitions: u32, cancelled: bool) -> (res: TrialOutcome)
    ensures
        res == spec_classify(attempts@, expected_repetitions, cancelled),
{
    if cancelled {
        return TrialOutcome::Cancelled;
    }
    if attempts.len() != expected_repetitions as usize {
        return TrialOutcome::Unresolved;
    }
    let mut passes: usize = 0;
    let mut i: usize = 0;
    while i < attempts.len()
        invariant
            i <= attempts@.len(),
            attempts@.len() == expected_repetitions,
            !cancelled,
            passes == pass_count(attempts@.take(i as int)),
            forall|j: int| 0 <= j < i ==> !attempt_unresolved(#[trigger] attempts@[j]),
        decreases attempts.len() - i,
    {
        let a = &attempts[i];
        let unresolved = match &a.oracle {
            Some(o) => a.error.is_some() || o.timed_out || o.cancelled,
            None => true,
        };
        if unresolved {
            assert(attempt_unresolved(attempts@[i as int]));
            assert(exists|k: int| 0 <= k < attempts@.len() && attempt_unresolved(#[trigger] attempts@[k]));
            return TrialOutcome::Unresolved;
        }
        let passed = match &a.oracle {
            Some(o) => o.passed(),
            None => false,
        };
        proof {
            assert(attempts@.take(i + 1).drop_last() =~= attempts@.take(i as int));
            lemma_pass_count_bound(attempts@.take(i as int));
        }
        if passed {
            passes += 1;
        }
        i += 1;
    }
    assert(attempts@.take(attempts@.len() as int) =~= attempts@);
    if passes == attempts.len() {
        TrialOutcome::StablePass
    } else if passes == 0 {
        TrialOutcome::StableFail
    } else {
        TrialOutcome::Flaky
    }
}

/// An attempt ends the trial when the trial was cancelled or the attempt broke off.
pub fn attempt_ends_trial(attempt: &TrialAttempt, cancelled: bool) -> (res: bool)
    ensures
        res == (cancelled || attempt.error is Some),
{
    cancelled || attempt.error.is_some()
}

/// The recorded positions of the actions.
pub open spec fn orders_of(actions: Seq<Action>) -> Seq<u64> {
    actions.map_values(|a: Action| a.original_order)
}

/// The actions in the order a trial replays them: by recorded position, ties in the given
/// order.
pub open spec fn replay_sequence(actions: Seq<Action>) -> Seq<Action> {
    stable_order(orders_of(actions), actions.len() as int).map_values(|k: int| actions[k])
}

/// Action `i` of `ordered` repeats the id or the recorded position of an earlier one.
pub open spec fn clashes(ordered: Seq<Action>, i: int) -> bool {
    exists|j: int| 0 <= j < i && (ordered[j].id == ordered[i].id || ordered[j].original_order == ordered[i].original_order)
}

/// The order in which a trial replays `actions` (by recorded position, ties in the given
/// order), refused with the id of the first action, in that order, whose id or recorded
/// position was already seen.
pub fn plan_replay(actions: &Vec<Action>) -> (res: Result<Vec<usize>, u64>)
    ensures
        match res {
            Ok(idx) => {
                &&& idx@.map_values(|i: usize| i as int) == stable_order(orders_of(actions@), actions@.len() as int)
                &&& forall|i: int| 0 <= i < idx@.len() ==> !#[trigger] clashes(replay_sequence(actions@), i)
            },
            Err(id) => exists|i: int| {
                &&& 0 <= i < replay_sequence(actions@).len()
                &&& #[trigger] clashes(replay_sequence(actions@), i)
                &&& forall|j: int| 0 <= j < i ==> !clashes(replay_sequence(actions@), j)
                &&& replay_sequence(actions@)[i].id == id
            },
        },
{
    let mut keys: Vec<u64> = Vec::new();
    let mut k: usize = 0;
    while k < actions.len()
        invariant
            k <= actions@.len(),
            keys@ == orders_of(actions@).take(k as int),
        decreases actions.len() - k,
    {
        keys.push(actions[k].original_order);
        k += 1;
        assert(keys@ =~= orders_of(actions@).take(k as int));
    }
    assert(keys@ =~= orders_of(actions@));
    let idx = stable_order_indices(&keys);
    let ghost n = actions@.len() as int;
    let ghost so = stable_order(orders_of(actions@), n);
    proof {
        crate::order::lemma_stable_order_perm(orders_of(actions@), n);
    }
    let ghost ordered = so.map_values(|q: int| actions@[q]);
    assert(ordered == replay_sequence(actions@));
    let mut i: usize = 0;
    while i < idx.len()
        invariant
            idx@.len() == n,
            n == actions@.len(),
            idx@.map_values(|q: usize| q as int) == so,
            so == stable_order(orders_of(actions@), n),
            ordered == so.map_values(|q: int| actions@[q]),
            ordered == replay_sequence(actions@),
            forall|q: int| 0 <= q < n ==> 0 <= #[trigger] so[q] < n,
            i <= n,
            forall|j: int| 0 <= j < i ==> !clashes(ordered, j),
        decreases idx.len() - i,
    {
        assert(so[i as int] == idx@[i as int] as int);
        let a = &actions[idx[i]];
        let mut j: usize = 0;
        while j < i
            invariant
                j <= i,
                i < n,
                idx@.len() == n,
                n == actions@.len(),
                idx@.map_values(|q: usize| q as int) == so,
                ordered == so.map_values(|q: int| actions@[q]),
                ordered == replay_sequence(actions@),
                forall|q: int| 0 <= q < n ==> 0 <= #[trigger] so[q] < n,
                forall|m: int| 0 <= m < i ==> !clashes(ordered, m),
                *a == ordered[i as int],
                forall|m: int| 0 <= m < j ==> !(ordered[m].id == ordered[i as int].id || ordered[m].original_order
                    == ordered[i as int].original_order),
            decreases i - j,
        {
            assert(so[j as int] == idx@[j as int] as int);
            let b = &actions[idx[j]];
            assert(*b == ordered[j as int]);
            if b.id == a.id || b.original_order == a.original_order {
                assert(clashes(ordered, i as int));
                return Err(a.id);
            }
            j += 1;
        }
        i += 1;
    }
    Ok(idx)
}

/// Why a trial runner cannot be set up.
#[derive(Clone, Debug)]
pub enum RunnerError {
    /// Trials need at least one repetition.
    ZeroRepetitions,
    /// A fresh copy of the baseline does not have the baseline's snapshot hash.
    BaselineMismatch { expected: String, actual: String },
}

/// A trial needs at least one repetition.
pub fn validate_repetitions(repetitions: u32) -> (res: Result<(), RunnerError>)
    ensures
        res is Ok <==> repetitions > 0,
{
    if repetitions == 0 {
        Err(RunnerError::ZeroRepetitions)
    } else {
        Ok(())
    }
}

/// Runs candidates from copies of one baseline, judged by one Oracle.
pub struct TrialRunner {
    baseline: String,
    baseline_hash: String,
    oracle: OracleSpec,
    repetitions: u32,
    include_target: bool,
}

impl TrialRunner {
    /// The baseline directory.
    pub closed spec fn baseline_path(&self) -> Seq<char> {
        self.baseline@
    }

    /// The baseline's snapshot hash.
    pub closed spec fn hash(&self) -> Seq<char> {
        self.baseline_hash@
    }

    /// The Oracle.
    pub closed spec fn oracle_spec(&self) -> OracleSpec {
        self.oracle
    }

    /// How often each candidate is replayed.
    pub closed spec fn repetition_count(&self) -> u32 {
        self.repetitions
    }

    /// Whether build output is part of snapshots.
    pub closed spec fn includes_target(&self) -> bool {
        self.include_target
    }

    /// A runner for the baseline at `baseline`, whose snapshot hash is `baseline_hash`;
    /// refused when `repetitions` is zero.
    pub fn new(baseline: String, baseline_hash: String, oracle: OracleSpec, repetitions: u32, include_target: bool) -> (res: Result<Self, RunnerError>)
        ensures
            res is Ok <==> repetitions > 0,
            res matches Ok(r) ==> {
                &&& r.baseline_path() == baseline@
                &&& r.hash() == baseline_hash@
                &&& r.oracle_spec() == oracle
                &&& r.repetition_count() == repetitions
                &&& r.includes_target() == include_target
            },
    {
        match validate_repetitions(repetitions) {
            Err(e) => Err(e),
            Ok(()) => Ok(TrialRunner { baseline, baseline_hash, oracle, repetitions, include_target }),
        }
    }

    /// The baseline's snapshot hash.
    pub fn baseline_hash(&self) -> (res: &str)
        ensures
            res@ == self.hash(),
    {
        self.baseline_hash.as_str()
    }

    /// Accepts a fresh copy of the baseline only when its snapshot hash, `actual_hash`, is
    /// the baseline's own: every trial starts from the verified baseline.
    pub fn check_copy(&self, actual_hash: &str) -> (res: Result<(), RunnerError>)
        ensures
            res is Ok <==> actual_hash@ == self.hash(),
            res matches Err(e) ==> e matches RunnerError::BaselineMismatch { expected, actual } && expected@
                == self.hash() && actual@ == actual_hash@,
    {
        if crate::text::str_is(actual_hash, self.baseline_hash.as_str()) {
            Ok(())
        } else {
            Err(RunnerError::BaselineMismatch {
                expected: crate::text::copy_string(&self.baseline_hash),
                actual: actual_hash.to_owned(),
            })
        }
    }

    /// The baseline directory.
    pub fn baseline(&self) -> (res: &str)
        ensures
            res@ == self.baseline_path(),
    {
        self.baseline.as_str()
    }

    /// Whether build output is part of snapshots.
    pub fn include_target(&self) -> (res: bool)
        ensures
            res == self.includes_target(),
    {
        self.include_target
    }

    /// The Oracle.
    pub fn oracle(&self) -> (res: &OracleSpec)
        ensures
            *res == self.oracle_spec(),
    {
        &self.oracle
    }

    /// How often each candidate is replayed.
    pub fn repetitions(&self) -> (res: u32)
        ensures
            res == self.repetition_count(),
    {
        self.repetitions
    }
}

} // verus!

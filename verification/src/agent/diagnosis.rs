use vstd::prelude::*;
use std::collections::BTreeSet;
use crate::domain::trial::TrialOutcome;
use crate::ids::copy_ids;
use crate::minimize::engine::AblationEvidence;
use crate::text::{chars_of, decimal, decimal_text, string_from_chars, trim_chars, trimmed};

verus! {

broadcast use {vstd::std_specs::btree::group_btree_axioms, vstd::laws_cmp::group_laws_cmp};

/// How strongly the evidence supports a claim.
#[derive(Clone, Copy, Debug, PartialEq, Eq, Structural)]
pub enum EvidenceClassification {
    Necessary,
    Removable,
    Uncertain,
    Untested,
    NonReplayable,
}

/// One statement of a diagnosis with the actions and trials it rests on.
#[derive(Clone, Debug)]
pub struct EvidenceClaim {
    pub claim: String,
    pub classification: EvidenceClassification,
    pub action_ids: Vec<u64>,
    /// The cited trials' UUIDs, as 128-bit integers.
    pub trial_ids: Vec<u128>,
}

/// Why a diagnosis is refused.
#[derive(Clone, Copy, Debug, PartialEq, Eq, Structural)]
pub enum DiagnosisError {
    /// The statement is blank.
    EmptyStatement,
    /// No minimal action is named.
    NoMinimalActions,
    /// A claim is blank or cites neither an action nor a trial.
    UnsupportedClaim,
    /// An action that the session does not have is cited.
    UnknownAction { action_id: u64 },
    /// A trial that the session does not have is cited.
    UnknownTrial { trial_id: u128 },
}

/// A claim has text and cites an action or a trial.
pub open spec fn claim_supported(c: EvidenceClaim) -> bool {
    trimmed(c.claim@).len() > 0 && (c.action_ids@.len() > 0 || c.trial_ids@.len() > 0)
}

/// The result of checking a diagnosis on its own: a statement, at least one minimal action,
/// and every claim supported, checked in this order.
pub open spec fn spec_validate(statement: Seq<char>, minimal: Seq<u64>, evidence: Seq<EvidenceClaim>) -> Result<(), DiagnosisError> {
    if trimmed(statement).len() == 0 {
        Err(DiagnosisError::EmptyStatement)
    } else if minimal.len() == 0 {
        Err(DiagnosisError::NoMinimalActions)
    } else if exists|i: int| 0 <= i < evidence.len() && !claim_supported(#[trigger] evidence[i]) {
        Err(DiagnosisError::UnsupportedClaim)
    } else {
        Ok(())
    }
}

/// Checks a diagnosis on its own.
pub fn validate_diagnosis(statement: &str, minimal_action_ids: &Vec<u64>, evidence: &Vec<EvidenceClaim>) -> (res: Result<(), DiagnosisError>)
    ensures
        res == spec_validate(statement@, minimal_action_ids@, evidence@),
{
    if trim_chars(&chars_of(statement)).len() == 0 {
        return Err(DiagnosisError::EmptyStatement);
    }
    if minimal_action_ids.len() == 0 {
        return Err(DiagnosisError::NoMinimalActions);
    }
    let mut i: usize = 0;
    while i < evidence.len()
        invariant
            i <= evidence@.len(),
            trimmed(statement@).len() > 0,
            minimal_action_ids@.len() > 0,
            forall|j: int| 0 <= j < i ==> claim_supported(#[trigger] evidence@[j]),
        decreases evidence.len() - i,
    {
        let c = &evidence[i];
        if trim_chars(&chars_of(c.claim.as_str())).len() == 0 || (c.action_ids.len() == 0 && c.trial_ids.len() == 0) {
            assert(!claim_supported(evidence@[i as int]));
            assert(exists|k: int| 0 <= k < evidence@.len() && !claim_supported(#[trigger] evidence@[k]));
            return Err(DiagnosisError::UnsupportedClaim);
        }
        i += 1;
    }
    Ok(())
}

/// The actions that the claims cite, claim by claim.
pub open spec fn cited_actions(evidence: Seq<EvidenceClaim>) -> Seq<u64>
    decreases evidence.len(),
{
    if evidence.len() == 0 {
        Seq::empty()
    } else {
        cited_actions(evidence.drop_last()) + evidence.last().action_ids@
    }
}

/// The trials that the claims cite, claim by claim.
pub open spec fn cited_trials(evidence: Seq<EvidenceClaim>) -> Seq<u128>
    decreases evidence.len(),
{
    if evidence.len() == 0 {
        Seq::empty()
    } else {
        cited_trials(evidence.drop_last()) + evidence.last().trial_ids@
    }
}

/// The first id of `ids` outside `known`.
pub open spec fn first_unknown<T>(ids: Seq<T>, known: Set<T>) -> Option<T> {
    if exists|i: int| 0 <= i < ids.len() && !known.contains(#[trigger] ids[i]) {
        let i = choose|i: int| 0 <= i < ids.len() && !known.contains(#[trigger] ids[i]) && forall|j: int|
            0 <= j < i ==> known.contains(ids[j]);
        Some(ids[i])
    } else {
        None
    }
}

proof fn lemma_first_unknown<T>(ids: Seq<T>, known: Set<T>, i: int)
    requires
        0 <= i < ids.len(),
        !known.contains(ids[i]),
        forall|j: int| 0 <= j < i ==> known.contains(ids[j]),
    ensures
        first_unknown(ids, known) == Some(ids[i]),
{
    let k = choose|k: int| 0 <= k < ids.len() && !known.contains(#[trigger] ids[k]) && forall|j: int|
        0 <= j < k ==> known.contains(ids[j]);
    assert(0 <= k < ids.len() && !known.contains(ids[k]) && forall|j: int| 0 <= j < k ==> known.contains(ids[j]));
    if k < i {
        assert(known.contains(ids[k]));
    }
    if k > i {
        assert(known.contains(ids[i]));
    }
}

/// The first of `ids` outside `known`, checking `ids` from position `from` on.
fn find_unknown_actions(ids: &Vec<u64>, known: &BTreeSet<u64>) -> (res: Option<u64>)
    ensures
        res == first_unknown(ids@, known@),
{
    let mut i: usize = 0;
    while i < ids.len()
        invariant
            i <= ids@.len(),
            forall|j: int| 0 <= j < i ==> known@.contains(ids@[j]),
        decreases ids.len() - i,
    {
        if !known.contains(&ids[i]) {
            proof {
                lemma_first_unknown(ids@, known@, i as int);
            }
            return Some(ids[i]);
        }
        i += 1;
    }
    None
}

/// The first of `ids` outside `known`.
fn find_unknown_trials(ids: &Vec<u128>, known: &BTreeSet<u128>) -> (res: Option<u128>)
    ensures
        res == first_unknown(ids@, known@),
{
    let mut i: usize = 0;
    while i < ids.len()
        invariant
            i <= ids@.len(),
            forall|j: int| 0 <= j < i ==> known@.contains(ids@[j]),
        decreases ids.len() - i,
    {
        if !known.contains(&ids[i]) {
            proof {
                lemma_first_unknown(ids@, known@, i as int);
            }
            return Some(ids[i]);
        }
        i += 1;
    }
    None
}

fn append_all<T: Copy>(out: &mut Vec<T>, more: &Vec<T>)
    ensures
        final(out)@ == old(out)@ + more@,
{
    let ghost base = out@;
    let mut k: usize = 0;
    while k < more.len()
        invariant
            k <= more@.len(),
            out@ == base + more@.take(k as int),
        decreases more.len() - k,
    {
        out.push(more[k]);
        k += 1;
        assert(out@ =~= base + more@.take(k as int));
    }
    assert(more@.take(more@.len() as int) =~= more@);
}

/// The actions (the minimal ones first) and the trials that a diagnosis cites.
fn collect_citations(minimal_action_ids: &Vec<u64>, evidence: &Vec<EvidenceClaim>) -> (res: (Vec<u64>, Vec<u128>))
    ensures
        res.0@ == minimal_action_ids@ + cited_actions(evidence@),
        res.1@ == cited_trials(evidence@),
{
    let mut actions = copy_ids(minimal_action_ids);
    let mut trials: Vec<u128> = Vec::new();
    let mut i: usize = 0;
    assert(evidence@.take(0) =~= Seq::<EvidenceClaim>::empty());
    assert(actions@ =~= minimal_action_ids@ + cited_actions(evidence@.take(0)));
    while i < evidence.len()
        invariant
            i <= evidence@.len(),
            actions@ == minimal_action_ids@ + cited_actions(evidence@.take(i as int)),
            trials@ == cited_trials(evidence@.take(i as int)),
        decreases evidence.len() - i,
    {
        assert(evidence@.take(i + 1).drop_last() =~= evidence@.take(i as int));
        assert(evidence@.take(i + 1).last() == evidence@[i as int]);
        let c = &evidence[i];
        append_all(&mut actions, &c.action_ids);
        append_all(&mut trials, &c.trial_ids);
        assert(actions@ =~= minimal_action_ids@ + cited_actions(evidence@.take(i + 1)));
        i += 1;
    }
    assert(evidence@.take(evidence@.len() as int) =~= evidence@);
    (actions, trials)
}

/// Checks that a diagnosis cites only known actions (its minimal actions first, then the
/// claims' actions) and known trials, and names the first unknown one.
pub fn check_citations(
    minimal_action_ids: &Vec<u64>,
    evidence: &Vec<EvidenceClaim>,
    known_actions: &BTreeSet<u64>,
    known_trials: &BTreeSet<u128>,
) -> (res: Result<(), DiagnosisError>)
    ensures
        res == (match first_unknown(minimal_action_ids@ + cited_actions(evidence@), known_actions@) {
            Some(a) => Err(DiagnosisError::UnknownAction { action_id: a }),
            None => match first_unknown(cited_trials(evidence@), known_trials@) {
                Some(t) => Err(DiagnosisError::UnknownTrial { trial_id: t }),
                None => Ok(()),
            },
        }),
{
    let (actions, trials) = collect_citations(minimal_action_ids, evidence);
    match find_unknown_actions(&actions, known_actions) {
        Some(a) => Err(DiagnosisError::UnknownAction { action_id: a }),
        None => match find_unknown_trials(&trials, known_trials) {
            Some(t) => Err(DiagnosisError::UnknownTrial { trial_id: t }),
            None => Ok(()),
        },
    }
}

/// The name of an outcome as it is printed for people.
pub open spec fn outcome_name(o: TrialOutcome) -> Seq<char> {
    match o {
        TrialOutcome::StablePass => "StablePass"@,
        TrialOutcome::StableFail => "StableFail"@,
        TrialOutcome::Flaky => "Flaky"@,
        TrialOutcome::Unresolved => "Unresolved"@,
        TrialOutcome::Cancelled => "Cancelled"@,
    }
}

/// The text of the claim that taking action `id` out gave `o`.
pub open spec fn removal_claim_text(id: u64, o: TrialOutcome) -> Seq<char> {
    "Removing action "@ + decimal(id as nat) + " produced "@ + outcome_name(o)
}

fn outcome_chars(o: TrialOutcome) -> (res: Vec<char>)
    ensures
        res@ == outcome_name(o),
{
    match o {
        TrialOutcome::StablePass => chars_of("StablePass"),
        TrialOutcome::StableFail => chars_of("StableFail"),
        TrialOutcome::Flaky => chars_of("Flaky"),
        TrialOutcome::Unresolved => chars_of("Unresolved"),
        TrialOutcome::Cancelled => chars_of("Cancelled"),
    }
}

/// The claim that taking action `id` out gave `o`.
pub fn removal_claim(id: u64, o: TrialOutcome) -> (res: String)
    ensures
        res@ == removal_claim_text(id, o),
{
    let mut text = chars_of("Removing action ");
    append_all(&mut text, &decimal_text(id));
    append_all(&mut text, &chars_of(" produced "));
    append_all(&mut text, &outcome_chars(o));
    string_from_chars(&text)
}

/// The claim an ablation supports: the removed action is necessary, by the trial that
/// showed it.
pub open spec fn ablation_claim(a: AblationEvidence, c: EvidenceClaim) -> bool {
    &&& c.claim@ == removal_claim_text(a.removed_action_id, a.outcome)
    &&& c.classification == EvidenceClassification::Necessary
    &&& c.action_ids@ == seq![a.removed_action_id]
    &&& c.trial_ids@ == seq![a.trial_id]
}

/// The evidence of a diagnosis made without a model: one claim per ablation.
pub fn offline_evidence(ablations: &Vec<AblationEvidence>) -> (res: Vec<EvidenceClaim>)
    ensures
        res@.len() == ablations@.len(),
        forall|i: int| 0 <= i < res@.len() ==> ablation_claim(ablations@[i], #[trigger] res@[i]),
{
    let mut res: Vec<EvidenceClaim> = Vec::new();
    let mut i: usize = 0;
    while i < ablations.len()
        invariant
            i <= ablations@.len(),
            res@.len() == i,
            forall|j: int| 0 <= j < i ==> ablation_claim(ablations@[j], #[trigger] res@[j]),
        decreases ablations.len() - i,
    {
        let a = &ablations[i];
        let mut action_ids: Vec<u64> = Vec::new();
        action_ids.push(a.removed_action_id);
        let mut trial_ids: Vec<u128> = Vec::new();
        trial_ids.push(a.trial_id);
        assert(action_ids@ =~= seq![a.removed_action_id]);
        assert(trial_ids@ =~= seq![a.trial_id]);
        let claim = EvidenceClaim {
            claim: removal_claim(a.removed_action_id, a.outcome),
            classification: EvidenceClassification::Necessary,
            action_ids,
            trial_ids,
        };
        res.push(claim);
        i += 1;
    }
    res
}

/// The limits that a diagnosis made without a model states.
pub fn offline_limitations() -> (res: Vec<String>)
    ensures
        res@.len() == 2,
        res@[0]@ == "The result is scoped to the recorded baseline, Oracle, environment, and repetition count."@,
        res@[1]@ == "The result is not a claim of a unique global minimum or philosophical root cause."@,
{
    let mut res: Vec<String> = Vec::new();
    res.push(String::from_str("The result is scoped to the recorded baseline, Oracle, environment, and repetition count."));
    res.push(String::from_str("The result is not a claim of a unique global minimum or philosophical root cause."));
    res
}

} // verus!

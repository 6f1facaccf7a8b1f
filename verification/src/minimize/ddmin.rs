use vstd::prelude::*;
use std::collections::BTreeSet;
use crate::domain::trial::TrialOutcome;
use crate::minimize::dependency::{lemma_btree_set_finite, lemma_set_iter_members};
use vstd::std_specs::iter::IteratorSpec;

verus! {

broadcast use {vstd::std_specs::btree::group_btree_axioms, vstd::laws_cmp::group_laws_cmp};

/// The number of parts that `partition` aims for: `count` clamped to `1..=max(len, 1)`.
pub open spec fn part_count(len: int, count: int) -> int {
    let hi = if len >= 1 { len } else { 1 };
    if count < 1 { 1 } else if count > hi { hi } else { count }
}

/// Where part `k` of `len` ids split into `c` near-equal parts begins: the first
/// `len % c` parts hold one id more than the rest.
pub open spec fn part_start(len: int, c: int, k: int) -> int {
    k * (len / c) + (if k < len % c { k } else { len % c })
}

/// How many parts are non-empty.
pub open spec fn nonempty_parts(len: int, c: int) -> int {
    if len / c > 0 { c } else { len % c }
}

/// The parts of `ids`: consecutive runs, as sets, in order, empty runs left out.
pub open spec fn spec_partition(ids: Seq<u64>, count: int) -> Seq<Set<u64>> {
    let c = part_count(ids.len() as int, count);
    Seq::new(
        nonempty_parts(ids.len() as int, c) as nat,
        |k: int| ids.subrange(part_start(ids.len() as int, c, k), part_start(ids.len() as int, c, k + 1)).to_set(),
    )
}

proof fn lemma_part_start_step(len: int, c: int, k: int)
    requires
        len >= 0,
        c >= 1,
        0 <= k,
    ensures
        part_start(len, c, k + 1) == part_start(len, c, k) + len / c + (if k < len % c { 1int } else { 0 }),
{
    assert((k + 1) * (len / c) == k * (len / c) + len / c) by (nonlinear_arith);
}

proof fn lemma_part_start_end(len: int, c: int)
    requires
        len >= 0,
        c >= 1,
    ensures
        part_start(len, c, c) == len,
        len / c == 0 ==> len % c < c && part_start(len, c, len % c) == len,
{
    assert(c * (len / c) + len % c == len) by (nonlinear_arith)
        requires c >= 1;
    assert(0 <= len % c < c) by (nonlinear_arith)
        requires c >= 1;
}

/// Splits `ids` into `count` (clamped to `1..=ids.len()`) consecutive runs of near-equal
/// size, the longer runs first; empty runs are left out.
pub fn partition(ids: &Vec<u64>, count: usize) -> (res: Vec<BTreeSet<u64>>)
    ensures
        res@.len() == spec_partition(ids@, count as int).len(),
        forall|k: int| 0 <= k < res@.len() ==> #[trigger] res@[k]@ == spec_partition(ids@, count as int)[k],
{
    let n = ids.len();
    let hi = if n >= 1 { n } else { 1 };
    let c = if count < 1 { 1 } else if count > hi { hi } else { count };
    let base = n / c;
    let remainder = n % c;
    let ghost len = n as int;
    proof {
        lemma_part_start_end(len, c as int);
    }
    let mut result: Vec<BTreeSet<u64>> = Vec::new();
    let mut start: usize = 0;
    let mut index: usize = 0;
    while index < c
        invariant
            n == ids@.len(),
            len == n,
            1 <= c,
            c as int == part_count(len, count as int),
            base == len / c as int,
            remainder == len % c as int,
            part_start(len, c as int, c as int) == len,
            index <= c,
            start as int == part_start(len, c as int, index as int),
            result@.len() == (if base > 0 { index as int } else if index < remainder { index as int } else { remainder as int }),
            forall|k: int| 0 <= k < result@.len() ==> #[trigger] result@[k]@ == ids@.subrange(
                part_start(len, c as int, k),
                part_start(len, c as int, k + 1),
            ).to_set(),
        decreases c - index,
    {
        proof {
            lemma_part_start_step(len, c as int, index as int);
            lemma_part_start_mono(len, c as int, index as int + 1, c as int);
        }
        let size = base + if index < remainder { 1 } else { 0 };
        let end = start + size;
        if start < end {
            let mut part: BTreeSet<u64> = BTreeSet::new();
            let mut i = start;
            while i < end
                invariant
                    start <= i <= end <= n,
                    n == ids@.len(),
                    part@ == ids@.subrange(start as int, i as int).to_set(),
                decreases end - i,
            {
                part.insert(ids[i]);
                proof {
                    assert(ids@.subrange(start as int, i + 1) =~= ids@.subrange(start as int, i as int).push(ids@[i as int]));
                    Seq::lemma_to_set_insert_commutes(ids@.subrange(start as int, i as int), ids@[i as int]);
                    assert(ids@.subrange(start as int, i as int).push(ids@[i as int]) =~= ids@.subrange(start as int, i as int) + seq![ids@[i as int]]);
                }
                i += 1;
            }
            result.push(part);
        }
        start = end;
        index += 1;
    }
    proof {
        assert(result@.len() == nonempty_parts(len, c as int));
    }
    result
}

proof fn lemma_part_start_mono(len: int, c: int, a: int, b: int)
    requires
        len >= 0,
        c >= 1,
        0 <= a <= b,
    ensures
        part_start(len, c, a) <= part_start(len, c, b),
    decreases b - a,
{
    if a < b {
        lemma_part_start_step(len, c, a);
        lemma_part_start_mono(len, c, a + 1, b);
        assert(len / c >= 0) by (nonlinear_arith)
            requires len >= 0, c >= 1;
    }
}


/// How a minimization shapes candidate id sets before they are tried.
pub trait CandidateTester {
    /// The candidate that is actually tried for `candidate`.
    spec fn spec_normalize(&self, candidate: Set<u64>) -> Set<u64>;

    /// The order in which the ids of `candidate` are split into parts.
    spec fn spec_ordered_ids(&self, candidate: Set<u64>) -> Seq<u64>;

    /// The candidate that is actually tried for `candidate`.
    fn normalize(&self, candidate: &BTreeSet<u64>) -> (res: BTreeSet<u64>)
        ensures
            res@ == self.spec_normalize(candidate@),
    ;

    /// The ids of `candidate` in the order in which they are split into parts.
    fn ordered_ids(&self, candidate: &BTreeSet<u64>) -> (res: Vec<u64>)
        ensures
            res@ == self.spec_ordered_ids(candidate@),
    ;
}

/// What a minimization run asks for next.
pub enum DdminStep {
    /// Run this candidate and report its outcome.
    Test(BTreeSet<u64>),
    /// The minimization is over; this is the reduced set.
    Done(BTreeSet<u64>),
}

/// The state of a delta-debugging minimization between candidate runs.
pub struct Ddmin {
    current: BTreeSet<u64>,
    granularity: usize,
    parts: Vec<BTreeSet<u64>>,
    complements: bool,
    index: usize,
    pending: Option<BTreeSet<u64>>,
    finished: bool,
    /// The normalized starting set.
    start: Ghost<Set<u64>>,
    /// Every candidate tried so far with its reported outcome, oldest first.
    history: Ghost<Seq<(Set<u64>, TrialOutcome)>>,
}

/// `c` was tried and did not stably pass.
pub open spec fn rejected(h: Seq<(Set<u64>, TrialOutcome)>, c: Set<u64>) -> bool {
    exists|i: int| 0 <= i < h.len() && #[trigger] h[i].0 == c && h[i].1 != TrialOutcome::StablePass
}

/// `c` was tried and stably passed.
pub open spec fn accepted(h: Seq<(Set<u64>, TrialOutcome)>, c: Set<u64>) -> bool {
    exists|i: int| 0 <= i < h.len() && #[trigger] h[i].0 == c && h[i].1 == TrialOutcome::StablePass
}

/// A candidate that need not be tried again: not smaller than `current`, or rejected.
pub open spec fn settled(h: Seq<(Set<u64>, TrialOutcome)>, current: Set<u64>, c: Set<u64>) -> bool {
    !(c.len() < current.len()) || rejected(h, c)
}

/// The normalized part `k`.
pub open spec fn part_candidate<T: CandidateTester>(t: &T, parts: Seq<Set<u64>>, k: int) -> Set<u64> {
    t.spec_normalize(parts[k])
}

/// The normalized complement of part `k` within `current`.
pub open spec fn complement_candidate<T: CandidateTester>(t: &T, current: Set<u64>, parts: Seq<Set<u64>>, k: int) -> Set<u64> {
    t.spec_normalize(current.difference(parts[k]))
}

/// The parts of one round, as sets.
pub open spec fn part_sets(parts: Seq<BTreeSet<u64>>) -> Seq<Set<u64>> {
    parts.map_values(|p: BTreeSet<u64>| p@)
}

/// Lexicographic order on measures.
pub open spec fn measure_lt(a: (int, int, int, int), b: (int, int, int, int)) -> bool {
    ||| a.0 < b.0
    ||| a.0 == b.0 && a.1 < b.1
    ||| a.0 == b.0 && a.1 == b.1 && a.2 < b.2
    ||| a.0 == b.0 && a.1 == b.1 && a.2 == b.2 && a.3 < b.3
}

/// The granularity of the round after one that found no smaller passing candidate: twice
/// as many parts, at most one per id.
pub open spec fn refined(g: int, len: int) -> int {
    if g > len / 2 { len } else { 2 * g }
}

/// The parts of the round of granularity `g` over the kept set `cur`.
pub open spec fn round_parts<T: CandidateTester>(t: &T, cur: Set<u64>, g: int) -> Seq<Set<u64>> {
    spec_partition(t.spec_ordered_ids(cur), g)
}

/// Every part and every complement of the round of granularity `g` over `cur` is settled.
pub open spec fn round_settled<T: CandidateTester>(t: &T, h: Seq<(Set<u64>, TrialOutcome)>, cur: Set<u64>, g: int) -> bool {
    let parts = round_parts(t, cur, g);
    &&& forall|k: int| 0 <= k < parts.len() ==> #[trigger] settled(h, cur, part_candidate(t, parts, k))
    &&& forall|k: int| 0 <= k < parts.len() ==> #[trigger] settled(h, cur, complement_candidate(t, cur, parts, k))
}

/// The rounds over `cur` from granularity `g`, each refined from the one before, up to (not
/// including) granularity `last` were all settled.
pub open spec fn rounds_settled<T: CandidateTester>(t: &T, h: Seq<(Set<u64>, TrialOutcome)>, cur: Set<u64>, g: int, last: int) -> bool
    decreases cur.len() - g,
{
    if g == last {
        true
    } else if g < 1 || g >= cur.len() {
        false
    } else {
        round_settled(t, h, cur, g) && rounds_settled(t, h, cur, refined(g, cur.len() as int), last)
    }
}

/// The candidate tried at position `index` (counted from 1) of the round with `parts`:
/// parts first, then complements, each in partition order.
pub open spec fn scheduled<T: CandidateTester>(t: &T, cur: Set<u64>, parts: Seq<Set<u64>>, complements: bool, index: int) -> Set<u64> {
    if complements {
        complement_candidate(t, cur, parts, index - 1)
    } else {
        part_candidate(t, parts, index - 1)
    }
}

/// Position `(c1, i1)` of a round comes after `(c0, i0)`: complements after parts, and a
/// later index within the same phase.
pub open spec fn later_position(c1: bool, i1: int, c0: bool, i0: int) -> bool {
    (c1 && !c0) || (c1 == c0 && i1 > i0)
}

proof fn lemma_rounds_extend<T: CandidateTester>(t: &T, h: Seq<(Set<u64>, TrialOutcome)>, cur: Set<u64>, g: int, last: int)
    requires
        rounds_settled(t, h, cur, g, last),
        round_settled(t, h, cur, last),
        1 <= last < cur.len(),
    ensures
        rounds_settled(t, h, cur, g, refined(last, cur.len() as int)),
    decreases cur.len() - g,
{
    if g == last {
        assert(refined(last, cur.len() as int) > last);
        assert(rounds_settled(t, h, cur, refined(last, cur.len() as int), refined(last, cur.len() as int)));
    } else {
        lemma_rounds_extend(t, h, cur, refined(g, cur.len() as int), last);
    }
}

impl Ddmin {
    /// The granularity of the current round.
    pub closed spec fn granularity(&self) -> int {
        self.granularity as int
    }

    /// The parts of the current round.
    pub closed spec fn parts(&self) -> Seq<Set<u64>> {
        part_sets(self.parts@)
    }

    /// Whether the current round has gone on to the complements.
    pub closed spec fn trying_complements(&self) -> bool {
        self.complements
    }

    /// How many candidates of the current phase (parts or complements) have been passed.
    pub closed spec fn position(&self) -> int {
        self.index as int
    }

    /// The candidate `c` is the one at the current position of the current round, whose
    /// parts split the kept set at the current granularity (in the tester's order), and every
    /// candidate before it in the round (parts first, then complements) is settled.
    pub open spec fn awaits_on_schedule<T: CandidateTester>(&self, t: &T, c: Set<u64>) -> bool {
        let parts = self.parts();
        let cur = self.current();
        &&& parts == round_parts(t, cur, self.granularity())
        &&& c == scheduled(t, cur, parts, self.trying_complements(), self.position())
        &&& forall|k: int| 0 <= k < parts.len() && (self.trying_complements() || k < self.position() - 1)
            ==> #[trigger] settled(self.history(), cur, part_candidate(t, parts, k))
        &&& forall|k: int| 0 <= k < parts.len() && self.trying_complements() && k < self.position() - 1
            ==> #[trigger] settled(self.history(), cur, complement_candidate(t, cur, parts, k))
    }

    /// The set kept so far.
    pub closed spec fn current(&self) -> Set<u64> {
        self.current@
    }

    /// The normalized starting set.
    pub closed spec fn start_set(&self) -> Set<u64> {
        self.start@
    }

    /// Every candidate tried so far, with its outcome.
    pub closed spec fn history(&self) -> Seq<(Set<u64>, TrialOutcome)> {
        self.history@
    }

    /// Whether the run has ended.
    pub closed spec fn is_finished(&self) -> bool {
        self.finished
    }

    /// The candidate whose outcome the run waits for.
    pub closed spec fn awaited(&self) -> Option<Set<u64>> {
        match self.pending {
            Some(p) => Some(p@),
            None => None,
        }
    }

    /// A quantity that each reported outcome lowers (lexicographically).
    pub closed spec fn measure(&self) -> (int, int, int, int) {
        (
            self.current@.len() as int,
            if self.granularity <= self.current@.len() { self.current@.len() - self.granularity } else { 0 },
            if self.complements { 0 } else { 1 },
            self.parts@.len() - self.index,
        )
    }

    /// The run's invariant for the tester `t`.
    pub closed spec fn inv<T: CandidateTester>(&self, t: &T) -> bool {
        let h = self.history@;
        let cur = self.current@;
        let parts = part_sets(self.parts@);
        &&& cur == self.start@ || accepted(h, cur)
        &&& cur.finite()
        &&& cur.len() <= self.start@.len()
        &&& self.finished ==> self.pending is None
        &&& !self.finished ==> {
            &&& self.granularity >= 2
            &&& cur.len() >= 2
            &&& parts == spec_partition(t.spec_ordered_ids(cur), self.granularity as int)
            &&& self.index <= self.parts@.len()
            &&& self.pending is Some
            &&& self.index >= 1
            &&& forall|k: int| 0 <= k < self.parts@.len() && (self.complements || k < self.index - 1)
                ==> #[trigger] settled(h, cur, part_candidate(t, parts, k))
            &&& forall|k: int| 0 <= k < self.parts@.len() && self.complements && k < self.index - 1
                ==> #[trigger] settled(h, cur, complement_candidate(t, cur, parts, k))
            &&& self.pending->0@ == (if self.complements {
                complement_candidate(t, cur, parts, self.index - 1)
            } else {
                part_candidate(t, parts, self.index - 1)
            })
            &&& self.pending->0@.len() < cur.len()
        }
        &&& self.finished ==> (cur.len() < 2 || {
            &&& self.granularity >= cur.len()
            &&& parts == spec_partition(t.spec_ordered_ids(cur), self.granularity as int)
            &&& forall|k: int| 0 <= k < self.parts@.len() ==> #[trigger] settled(h, cur, part_candidate(t, parts, k))
            &&& forall|k: int| 0 <= k < self.parts@.len() ==> #[trigger] settled(h, cur, complement_candidate(t, cur, parts, k))
        })
    }
}


proof fn lemma_history_grows(h: Seq<(Set<u64>, TrialOutcome)>, x: (Set<u64>, TrialOutcome))
    ensures
        forall|c: Set<u64>| rejected(h, c) ==> #[trigger] rejected(h.push(x), c),
        forall|c: Set<u64>| accepted(h, c) ==> #[trigger] accepted(h.push(x), c),
{
    assert forall|c: Set<u64>| rejected(h, c) implies #[trigger] rejected(h.push(x), c) by {
        let i = choose|i: int| 0 <= i < h.len() && #[trigger] h[i].0 == c && h[i].1 != TrialOutcome::StablePass;
        assert(h.push(x)[i] == h[i]);
    }
    assert forall|c: Set<u64>| accepted(h, c) implies #[trigger] accepted(h.push(x), c) by {
        let i = choose|i: int| 0 <= i < h.len() && #[trigger] h[i].0 == c && h[i].1 == TrialOutcome::StablePass;
        assert(h.push(x)[i] == h[i]);
    }
}

/// The members of `a` that are not in `b`.
fn set_difference(a: &BTreeSet<u64>, b: &BTreeSet<u64>) -> (res: BTreeSet<u64>)
    ensures
        res@ == a@.difference(b@),
{
    let mut res: BTreeSet<u64> = BTreeSet::new();
    proof {
        lemma_set_iter_members(a);
    }
    for x in it: a.iter()
        invariant
            forall|i: int| 0 <= i < it.seq().len() ==> a@.contains(*it.seq()[i]),
            res@ <= a@.difference(b@),
            forall|i: int| 0 <= i < it.index() ==> b@.contains(*it.seq()[i]) || res@.contains(*it.seq()[i]),
    {
        if !b.contains(x) {
            res.insert(*x);
        }
    }
    proof {
        assert forall|x: u64| a@.difference(b@).contains(x) implies res@.contains(x) by {
            let keys = a.iter().remaining();
            assert(keys.unref().to_set().contains(x));
            let k = choose|k: int| 0 <= k < keys.unref().len() && keys.unref()[k] == x;
            assert(*keys[k] == x);
        }
        assert(res@ =~= a@.difference(b@));
    }
    res
}

impl Ddmin {
    /// Between candidates: no outcome awaited, and the parts seen so far settled.
    closed spec fn searching<T: CandidateTester>(&self, t: &T) -> bool {
        let h = self.history@;
        let cur = self.current@;
        let parts = part_sets(self.parts@);
        &&& cur == self.start@ || accepted(h, cur)
        &&& cur.finite()
        &&& cur.len() <= self.start@.len()
        &&& !self.finished
        &&& self.pending is None
        &&& self.granularity >= 2
        &&& cur.len() >= 2
        &&& parts == spec_partition(t.spec_ordered_ids(cur), self.granularity as int)
        &&& self.index <= self.parts@.len()
        &&& forall|k: int| 0 <= k < self.parts@.len() && (self.complements || k < self.index)
            ==> #[trigger] settled(h, cur, part_candidate(t, parts, k))
        &&& forall|k: int| 0 <= k < self.parts@.len() && self.complements && k < self.index
            ==> #[trigger] settled(h, cur, complement_candidate(t, cur, parts, k))
    }

    /// Splits the kept set into `granularity` parts and starts trying them.
    fn begin_round<T: CandidateTester>(&mut self, t: &T)
        requires
            old(self).current@.len() >= 2,
            old(self).current@.finite(),
            old(self).granularity >= 2,
            old(self).current@ == old(self).start@ || accepted(old(self).history@, old(self).current@),
            old(self).current@.len() <= old(self).start@.len(),
        ensures
            final(self).searching(t),
            final(self).current@ == old(self).current@,
            final(self).history@ == old(self).history@,
            final(self).start@ == old(self).start@,
            final(self).granularity == old(self).granularity,
            !final(self).complements,
    {
        let ids = t.ordered_ids(&self.current);
        self.parts = partition(&ids, self.granularity);
        self.complements = false;
        self.index = 0;
        self.pending = None;
        self.finished = false;
        assert(part_sets(self.parts@) =~= spec_partition(t.spec_ordered_ids(self.current@), self.granularity as int));
    }

    /// Tries parts, then complements, then finer rounds, until a candidate needs a run
    /// or the kept set cannot be split further.
    fn advance<T: CandidateTester>(&mut self, t: &T) -> (step: DdminStep)
        requires
            old(self).searching(t),
        ensures
            final(self).inv(t),
            final(self).current@ == old(self).current@,
            final(self).history@ == old(self).history@,
            final(self).start@ == old(self).start@,
            match step {
                DdminStep::Test(c) => !final(self).finished && final(self).awaited() == Some(c@)
                    && measure_lt(final(self).measure(), old(self).measure()),
                DdminStep::Done(r) => final(self).finished && r@ == final(self).current@,
            },
            step is Test ==> (final(self).granularity == old(self).granularity && later_position(
                final(self).complements,
                final(self).index as int,
                old(self).complements,
                old(self).index as int,
            )) || (old(self).granularity < old(self).current@.len() && round_settled(t, old(self).history@, old(self).current@, old(self).granularity as int)
                && rounds_settled(
                t,
                old(self).history@,
                old(self).current@,
                refined(old(self).granularity as int, old(self).current@.len() as int),
                final(self).granularity as int,
            )),
    {
        loop
            invariant
                (self.granularity == old(self).granularity && (later_position(
                    self.complements,
                    self.index as int,
                    old(self).complements,
                    old(self).index as int,
                ) || (self.complements == old(self).complements && self.index == old(self).index))) || (
                old(self).granularity < old(self).current@.len() && round_settled(t, old(self).history@, old(self).current@, old(self).granularity as int)
                    && rounds_settled(
                    t,
                    old(self).history@,
                    old(self).current@,
                    refined(old(self).granularity as int, old(self).current@.len() as int),
                    self.granularity as int,
                )),
                self.searching(t),
                self.current@ == old(self).current@,
                self.history@ == old(self).history@,
                self.start@ == old(self).start@,
                measure_lt(self.measure(), old(self).measure()) || self.measure() == old(self).measure(),
            decreases
                if self.granularity <= self.current@.len() { self.current@.len() - self.granularity } else { 0 },
                if self.complements { 0int } else { 1int },
                self.parts@.len() - self.index,
        {
            let ghost parts = part_sets(self.parts@);
            let ghost h = self.history@;
            let ghost cur = self.current@;
            if !self.complements {
                if self.index < self.parts.len() {
                    let subset = t.normalize(&self.parts[self.index]);
                    assert(subset@ == part_candidate(t, parts, self.index as int));
                    self.index += 1;
                    if subset.len() < self.current.len() {
                        let c = subset.clone();
                        self.pending = Some(subset);
                        return DdminStep::Test(c);
                    }
                    assert(settled(h, cur, part_candidate(t, parts, self.index - 1)));
                } else {
                    self.complements = true;
                    self.index = 0;
                }
            } else {
                if self.index < self.parts.len() {
                    let rest = set_difference(&self.current, &self.parts[self.index]);
                    let complement = t.normalize(&rest);
                    assert(complement@ == complement_candidate(t, cur, parts, self.index as int));
                    self.index += 1;
                    if complement.len() < self.current.len() {
                        let c = complement.clone();
                        self.pending = Some(complement);
                        return DdminStep::Test(c);
                    }
                    assert(settled(h, cur, complement_candidate(t, cur, parts, self.index - 1)));
                } else {
                    let len = self.current.len();
                    if self.granularity >= len {
                        self.finished = true;
                        return DdminStep::Done(self.current.clone());
                    }
                    proof {
                        assert(round_settled(t, h, cur, self.granularity as int));
                        if self.granularity != old(self).granularity {
                            lemma_rounds_extend(
                                t,
                                h,
                                cur,
                                refined(old(self).granularity as int, cur.len() as int),
                                self.granularity as int,
                            );
                        }
                    }
                    self.granularity = if self.granularity > len / 2 { len } else { self.granularity * 2 };
                    self.begin_round(t);
                }
            }
        }
    }

    /// Starts minimizing `initial`: normalizes it and names the first candidate to run,
    /// or ends at once when fewer than two ids are left.
    pub fn start<T: CandidateTester>(t: &T, initial: &BTreeSet<u64>) -> (res: (Self, DdminStep))
        ensures
            res.0.inv(t),
            res.0.start_set() == t.spec_normalize(initial@),
            res.0.history() == Seq::<(Set<u64>, TrialOutcome)>::empty(),
            res.0.current().len() <= res.0.start_set().len(),
            t.spec_normalize(initial@).len() < 2 ==> res.1 is Done,
            res.1 matches DdminStep::Test(c) ==> res.0.awaits_on_schedule(t, c@) && rounds_settled(
                t,
                res.0.history(),
                res.0.current(),
                2,
                res.0.granularity(),
            ),
            match res.1 {
                DdminStep::Test(c) => !res.0.is_finished() && res.0.awaited() == Some(c@),
                DdminStep::Done(r) => res.0.is_finished() && r@ == res.0.current() && r@ == t.spec_normalize(initial@),
            },
    {
        let current = t.normalize(initial);
        proof {
            lemma_btree_set_finite(&current);
        }
        let ghost start = current@;
        let mut run = Ddmin {
            current,
            granularity: 2,
            parts: Vec::new(),
            complements: false,
            index: 0,
            pending: None,
            finished: false,
            start: Ghost(start),
            history: Ghost(Seq::empty()),
        };
        if run.current.len() < 2 {
            run.finished = true;
            let r = run.current.clone();
            return (run, DdminStep::Done(r));
        }
        run.begin_round(t);
        let step = run.advance(t);
        (run, step)
    }

    /// Takes the outcome of the awaited candidate and names the next one to run, or ends.
    /// A stably passing candidate becomes the kept set.
    pub fn record<T: CandidateTester>(&mut self, t: &T, outcome: TrialOutcome) -> (step: DdminStep)
        requires
            old(self).inv(t),
            !old(self).is_finished(),
        ensures
            final(self).inv(t),
            final(self).start_set() == old(self).start_set(),
            final(self).history() == old(self).history().push((old(self).awaited()->0, outcome)),
            final(self).current().len() <= final(self).start_set().len(),
            step matches DdminStep::Test(c) ==> final(self).awaits_on_schedule(t, c@),
            step is Test && outcome == TrialOutcome::StablePass ==> rounds_settled(
                t,
                final(self).history(),
                final(self).current(),
                if old(self).granularity() > 2 { old(self).granularity() - 1 } else { 2 },
                final(self).granularity(),
            ),
            step is Test && outcome != TrialOutcome::StablePass ==> (final(self).granularity() == old(self).granularity()
                && later_position(
                final(self).trying_complements(),
                final(self).position(),
                old(self).trying_complements(),
                old(self).position(),
            )) || (round_settled(t, final(self).history(), final(self).current(), old(self).granularity())
                && rounds_settled(
                t,
                final(self).history(),
                final(self).current(),
                refined(old(self).granularity(), final(self).current().len() as int),
                final(self).granularity(),
            )),
            outcome == TrialOutcome::StablePass ==> final(self).current() == old(self).awaited()->0,
            outcome != TrialOutcome::StablePass ==> final(self).current() == old(self).current(),
            match step {
                DdminStep::Test(c) => !final(self).is_finished() && final(self).awaited() == Some(c@)
                    && measure_lt(final(self).measure(), old(self).measure()),
                DdminStep::Done(r) => final(self).is_finished() && r@ == final(self).current(),
            },
    {
        let candidate = self.pending.take().unwrap();
        let ghost old_h = self.history@;
        let ghost entry = (candidate@, outcome);
        self.history = Ghost(self.history@.push(entry));
        proof {
            lemma_history_grows(old_h, entry);
            assert(self.history@[old_h.len() as int] == entry);
        }
        if outcome == TrialOutcome::StablePass {
            proof {
                lemma_btree_set_finite(&candidate);
                assert(self.history@[old_h.len() as int].0 == candidate@);
                assert(accepted(self.history@, candidate@));
            }
            self.current = candidate;
            self.granularity = if self.granularity > 2 { self.granularity - 1 } else { 2 };
            if self.current.len() < 2 {
                self.finished = true;
                self.pending = None;
                return DdminStep::Done(self.current.clone());
            }
            let ghost before = self.measure();
            self.begin_round(t);
            let step = self.advance(t);
            return step;
        }
        proof {
            let h = self.history@;
            let cur = self.current@;
            let parts = part_sets(self.parts@);
            assert(h[old_h.len() as int].0 == candidate@);
            assert(rejected(h, candidate@));
            assert forall|k: int| 0 <= k < self.parts@.len() && (self.complements || k < self.index)
                implies #[trigger] settled(h, cur, part_candidate(t, parts, k)) by {
                if !self.complements && k == self.index - 1 {
                } else {
                    assert(settled(old_h, cur, part_candidate(t, parts, k)));
                }
            }
            assert forall|k: int| 0 <= k < self.parts@.len() && self.complements && k < self.index
                implies #[trigger] settled(h, cur, complement_candidate(t, cur, parts, k)) by {
                if k == self.index - 1 {
                } else {
                    assert(settled(old_h, cur, complement_candidate(t, cur, parts, k)));
                }
            }
        }
        self.advance(t)
    }
}

impl Ddmin {
    /// While a run waits for an outcome, each part of its measure is at least zero.
    pub proof fn lemma_measure_nonneg<T: CandidateTester>(&self, t: &T)
        requires
            self.inv(t),
            !self.is_finished(),
        ensures
            self.measure().0 >= 0,
            self.measure().1 >= 0,
            self.measure().2 >= 0,
            self.measure().3 >= 0,
    {
    }
}


/// A finished minimization keeps either the normalized starting set or a candidate that
/// was run and stably passed.
pub proof fn ddmin_result_is_start_or_passed<T: CandidateTester>(t: &T, run: &Ddmin)
    requires
        run.inv(t),
        run.is_finished(),
    ensures
        run.current() == run.start_set() || accepted(run.history(), run.current()),
{
}

/// A finished minimization is 1-minimal with respect to the runs it saw: when the kept set
/// still has two or more ids and its ordering lists exactly those ids, then for each id,
/// neither the id alone nor the set without it (both normalized) is a smaller candidate
/// that stably passed; each such smaller candidate was run and did not stably pass.
pub proof fn ddmin_result_is_one_minimal<T: CandidateTester>(t: &T, run: &Ddmin)
    requires
        run.inv(t),
        run.is_finished(),
        run.current().len() >= 2,
        t.spec_ordered_ids(run.current()).len() == run.current().len(),
        t.spec_ordered_ids(run.current()).to_set() == run.current(),
    ensures
        forall|x: u64| #[trigger] run.current().contains(x) ==> {
            &&& settled(run.history(), run.current(), t.spec_normalize(set![x]))
            &&& settled(run.history(), run.current(), t.spec_normalize(run.current().difference(set![x])))
        },
{
    let cur = run.current@;
    let ids = t.spec_ordered_ids(cur);
    let parts = part_sets(run.parts@);
    lemma_partition_singletons(ids, run.granularity as int);
    assert forall|x: u64| #[trigger] run.current().contains(x) implies {
        &&& settled(run.history(), run.current(), t.spec_normalize(set![x]))
        &&& settled(run.history(), run.current(), t.spec_normalize(run.current().difference(set![x])))
    } by {
        assert(ids.to_set().contains(x));
        let k = choose|k: int| 0 <= k < ids.len() && ids[k] == x;
        assert(parts[k] == set![x]);
        assert(settled(run.history@, cur, part_candidate(t, parts, k)));
        assert(settled(run.history@, cur, complement_candidate(t, cur, parts, k)));
    }
}

/// Splitting `ids` into at least as many parts as it has ids gives one singleton per id.
pub proof fn lemma_partition_singletons(ids: Seq<u64>, count: int)
    requires
        ids.len() >= 1,
        count >= ids.len(),
    ensures
        spec_partition(ids, count).len() == ids.len(),
        forall|k: int| 0 <= k < ids.len() ==> #[trigger] spec_partition(ids, count)[k] == set![ids[k]],
{
    let len = ids.len() as int;
    assert(part_count(len, count) == len);
    assert(len / len == 1) by (nonlinear_arith)
        requires len >= 1;
    assert(len % len == 0) by (nonlinear_arith)
        requires len >= 1;
    assert forall|k: int| 0 <= k < ids.len() implies #[trigger] spec_partition(ids, count)[k] == set![ids[k]] by {
        assert(part_start(len, len, k) == k);
        assert(part_start(len, len, k + 1) == k + 1);
        assert(ids.subrange(k, k + 1) =~= seq![ids[k]]);
        assert(seq![ids[k]].to_set() =~= set![ids[k]]) by {
            assert(seq![ids[k]][0] == ids[k]);
            assert forall|y: u64| seq![ids[k]].contains(y) implies y == ids[k] by {
                let j = choose|j: int| 0 <= j < 1 && seq![ids[k]][j] == y;
            }
        }
    }
}

} // verus!

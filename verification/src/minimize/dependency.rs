use vstd::prelude::*;
use std::collections::{BTreeMap, BTreeSet};
use vstd::std_specs::iter::IteratorSpec;
use crate::paths::{components, path_components, ComponentView, PathComponent};
use crate::shell::{shell_split, split_words, words_view};
use crate::text::{chars_of, str_is, string_from_range};
use crate::textmap::TextMap;
use crate::order::{insert_stable, lemma_stable_order_perm, stable_order, stable_order_indices};
use crate::domain::action::{Action, ActionKind, FileReplacement};
use crate::domain::snapshot::{has_path, SnapshotManifest};

verus! {

broadcast use {vstd::std_specs::btree::group_btree_axioms, vstd::laws_cmp::group_laws_cmp};

/// A resource that an action may read or write.
#[derive(Clone, Debug)]
pub enum Resource {
    File(String),
    EnvironmentVariable(String),
    WorkingDirectory,
}

/// The mathematical value of a [`Resource`].
pub enum ResourceView {
    File(Seq<char>),
    EnvironmentVariable(Seq<char>),
    WorkingDirectory,
}

impl View for Resource {
    type V = ResourceView;

    open spec fn view(&self) -> ResourceView {
        match self {
            Resource::File(p) => ResourceView::File(p@),
            Resource::EnvironmentVariable(k) => ResourceView::EnvironmentVariable(k@),
            Resource::WorkingDirectory => ResourceView::WorkingDirectory,
        }
    }
}

/// The resources of `v`, as a set.
pub open spec fn resource_set(v: Seq<Resource>) -> Set<ResourceView> {
    v.map_values(|r: Resource| r@).to_set()
}

/// No resource occurs twice in `v`.
pub open spec fn distinct_resources(v: Seq<Resource>) -> bool {
    forall|i: int, j: int| 0 <= i < v.len() && 0 <= j < v.len() && i != j ==> #[trigger] v[i]@ != #[trigger] v[j]@
}

/// The value of a [`ResourceAccess`]: what is read, what is written, and whether it is opaque.
#[verifier::ext_equal]
pub struct AccessView {
    pub reads: Set<ResourceView>,
    pub writes: Set<ResourceView>,
    pub opaque: bool,
}

impl View for ResourceAccess {
    type V = AccessView;

    open spec fn view(&self) -> AccessView {
        AccessView { reads: resource_set(self.reads@), writes: resource_set(self.writes@), opaque: self.opaque }
    }
}

impl ResourceAccess {
    /// No resource is listed twice.
    pub open spec fn wf(&self) -> bool {
        distinct_resources(self.reads@) && distinct_resources(self.writes@)
    }
}

/// Whether two resources are the same.
pub fn same_resource(a: &Resource, b: &Resource) -> (res: bool)
    ensures
        res == (a@ == b@),
{
    match (a, b) {
        (Resource::File(x), Resource::File(y)) => *x == *y,
        (Resource::EnvironmentVariable(x), Resource::EnvironmentVariable(y)) => *x == *y,
        (Resource::WorkingDirectory, Resource::WorkingDirectory) => true,
        _ => false,
    }
}

/// Adds `r` to the resource set `v` unless it is already there.
pub fn insert_resource(v: &mut Vec<Resource>, r: Resource)
    requires
        distinct_resources(old(v)@),
    ensures
        distinct_resources(final(v)@),
        resource_set(final(v)@) == resource_set(old(v)@).insert(r@),
{
    let mut i: usize = 0;
    while i < v.len()
        invariant
            i <= v@.len(),
            v@ == old(v)@,
            distinct_resources(v@),
            forall|j: int| 0 <= j < i ==> #[trigger] v@[j]@ != r@,
        decreases v.len() - i,
    {
        if same_resource(&v[i], &r) {
            proof {
                assert(v@.map_values(|x: Resource| x@)[i as int] == r@);
                assert(resource_set(v@) =~= resource_set(v@).insert(r@));
            }
            return;
        }
        i += 1;
    }
    let ghost prev = v@;
    v.push(r);
    proof {
        assert(v@.map_values(|x: Resource| x@) =~= prev.map_values(|x: Resource| x@) + seq![r@]);
        Seq::lemma_to_set_insert_commutes(prev.map_values(|x: Resource| x@), r@);
    }
}

/// The reads and writes inferred for one action; `opaque` when they could not all be seen.
#[derive(Clone, Debug)]
pub struct ResourceAccess {
    /// Resources read, each at most once.
    pub reads: Vec<Resource>,
    /// Resources written, each at most once.
    pub writes: Vec<Resource>,
    pub opaque: bool,
}

/// Inferred resources and hard ordering dependencies of a session's actions.
#[derive(Clone, Debug)]
pub struct DependencyGraph {
    /// Map from an action to the earlier actions it directly requires.
    pub hard_dependencies: BTreeMap<u64, BTreeSet<u64>>,
    pub accesses: BTreeMap<u64, ResourceAccess>,
}

/// `s` holds every direct dependency of each of its members.
pub open spec fn closed_under(g: Map<u64, Set<u64>>, s: Set<u64>) -> bool {
    forall|a: u64, d: u64|
        #![trigger s.contains(a), g[a].contains(d)]
        s.contains(a) && g.contains_key(a) && g[a].contains(d) ==> s.contains(d)
}

/// Every set that holds `c` and is closed under `g` also holds `r`'s members.
pub open spec fn least_closed_over(g: Map<u64, Set<u64>>, c: Set<u64>, r: Set<u64>) -> bool {
    forall|s: Set<u64>| c <= s && #[trigger] closed_under(g, s) ==> r <= s
}

/// The least superset of `c` closed under `g`.
pub open spec fn spec_closure(g: Map<u64, Set<u64>>, c: Set<u64>) -> Set<u64> {
    choose|r: Set<u64>| c <= r && closed_under(g, r) && least_closed_over(g, c, r)
}

/// A closed superset of `c` that lies within every closed superset of `c` is its closure.
pub proof fn lemma_closure_unique(g: Map<u64, Set<u64>>, c: Set<u64>, r: Set<u64>)
    requires
        c <= r,
        closed_under(g, r),
        least_closed_over(g, c, r),
    ensures
        r == spec_closure(g, c),
{
    let q = spec_closure(g, c);
    assert(c <= q && closed_under(g, q) && least_closed_over(g, c, q));
    assert(r <= q);
    assert(q <= r);
    assert(r =~= q);
}

/// Every set has a least closed superset: the members shared by all closed supersets.
pub proof fn lemma_closure_exists(g: Map<u64, Set<u64>>, c: Set<u64>)
    ensures
        c <= spec_closure(g, c),
        closed_under(g, spec_closure(g, c)),
        least_closed_over(g, c, spec_closure(g, c)),
{
    let r = Set::new(|x: u64| forall|s: Set<u64>| c <= s && #[trigger] closed_under(g, s) ==> s.contains(x));
    assert(c <= r);
    assert forall|a: u64, d: u64|
        #![trigger r.contains(a), g[a].contains(d)]
        r.contains(a) && g.contains_key(a) && g[a].contains(d) implies r.contains(d) by {
        assert forall|s: Set<u64>| c <= s && #[trigger] closed_under(g, s) implies s.contains(d) by {
            assert(s.contains(a));
        }
    }
    assert(closed_under(g, r));
    assert(least_closed_over(g, c, r));
    lemma_closure_unique(g, c, r);
}

/// Closing a set that is already a closure changes nothing.
pub proof fn closure_is_idempotent(g: Map<u64, Set<u64>>, c: Set<u64>)
    ensures
        spec_closure(g, spec_closure(g, c)) == spec_closure(g, c),
{
    lemma_closure_exists(g, c);
    let q = spec_closure(g, c);
    assert(least_closed_over(g, q, q));
    lemma_closure_unique(g, q, q);
}

/// `c` without `x` and without the members of `c` that transitively depend on it: what is
/// left when the least set that holds `x` and every member of `c` depending on one of its
/// members is taken out.
pub open spec fn spec_removal(g: Map<u64, Set<u64>>, c: Set<u64>, x: u64) -> Set<u64> {
    choose|r: Set<u64>| removal_of(g, c, x, r)
}

/// `r` is what is left of `c` when `x` and its dependents are taken out.
pub open spec fn removal_of(g: Map<u64, Set<u64>>, c: Set<u64>, x: u64, r: Set<u64>) -> bool {
    &&& r <= c
    &&& !r.contains(x)
    &&& dependents_closed(g, c, c.difference(r).insert(x))
    &&& forall|s: Set<u64>| s.contains(x) && #[trigger] dependents_closed(g, c, s) ==> c.difference(r) <= s
}

/// Only one set is left of `c` when `x` and its dependents are taken out.
pub proof fn lemma_removal_unique(g: Map<u64, Set<u64>>, c: Set<u64>, x: u64, r: Set<u64>)
    requires
        removal_of(g, c, x, r),
    ensures
        r == spec_removal(g, c, x),
{
    let q = spec_removal(g, c, x);
    assert(removal_of(g, c, x, q));
    assert(c.difference(r) <= c.difference(q).insert(x));
    assert(c.difference(q) <= c.difference(r).insert(x));
    assert forall|y: u64| r.contains(y) implies q.contains(y) by {
        assert(c.contains(y));
        if !q.contains(y) {
            assert(c.difference(q).contains(y));
            assert(c.difference(r).insert(x).contains(y));
        }
    }
    assert forall|y: u64| q.contains(y) implies r.contains(y) by {
        assert(c.contains(y));
        if !r.contains(y) {
            assert(c.difference(r).contains(y));
            assert(c.difference(q).insert(x).contains(y));
        }
    }
    assert(r =~= q);
}

impl DependencyGraph {
    /// The direct dependencies, as sets.
    pub open spec fn deps(&self) -> Map<u64, Set<u64>> {
        self.hard_dependencies@.map_values(|s: BTreeSet<u64>| s@)
    }

    /// The candidate together with everything it transitively requires: the least
    /// superset of `candidate` that holds the direct dependencies of each member.
    pub fn closure(&self, candidate: &BTreeSet<u64>) -> (res: BTreeSet<u64>)
        ensures
            candidate@ <= res@,
            closed_under(self.deps(), res@),
            least_closed_over(self.deps(), candidate@, res@),
            res@ == spec_closure(self.deps(), candidate@),
    {
        let u = self.universe(candidate);
        let ghost uset = u@.to_set();
        let ghost g = self.deps();
        proof {
            vstd::seq_lib::seq_to_set_is_finite(u@);
            vstd::set_lib::lemma_len_subset(candidate@, uset);
        }
        let mut closed = candidate.clone();
        let mut pending: Vec<u64> = Vec::new();
        push_all(&mut pending, candidate);
        proof {
            assert forall|x: u64| pending@.contains(x) implies closed@.contains(x) by {
                assert(!Seq::<u64>::empty().contains(x));
            }
        }
        while pending.len() > 0
            invariant
                g == self.deps(),
                uset == u@.to_set(),
                uset.finite(),
                forall|x: u64| candidate@.contains(x) ==> u@.contains(x),
                forall|k: u64, d: u64| g.contains_key(k) && #[trigger] g[k].contains(d) ==> u@.contains(d),
                candidate@ <= closed@,
                closed@ <= uset,
                forall|x: u64| pending@.contains(x) ==> closed@.contains(x),
                forall|a: u64| #[trigger] closed@.contains(a) ==> pending@.contains(a) || (g.contains_key(a)
                    ==> g[a] <= closed@),
                least_closed_over(g, candidate@, closed@),
            decreases uset.len() - closed@.len(), pending.len(),
        {
            proof {
                vstd::set_lib::lemma_len_subset(closed@, uset);
            }
            let ghost before_pending = pending@;
            let ghost before_closed = closed@;
            let a = pending.pop().unwrap();
            assert(before_pending.last() == a);
            assert(pending@ == before_pending.drop_last());
            assert forall|b: u64| #[trigger] closed@.contains(b) implies b == a || pending@.contains(b)
                || (g.contains_key(b) ==> g[b] <= closed@) by {
                if before_pending.contains(b) && b != a {
                    let j = choose|j: int| 0 <= j < before_pending.len() && before_pending[j] == b;
                    assert(j < before_pending.len() - 1);
                    assert(pending@[j] == b);
                }
            }
            assert forall|x: u64| pending@.contains(x) implies closed@.contains(x) by {
                let j = choose|j: int| 0 <= j < pending@.len() && pending@[j] == x;
                assert(before_pending[j] == x);
            }
            match self.hard_dependencies.get(&a) {
                Some(ds) => {
                    assert(g.contains_key(a) && g[a] == ds@);
                    proof {
                        lemma_set_iter_members(ds);
                    }
                    for d in it: ds.iter()
                        invariant
                            forall|i: int| 0 <= i < it.seq().len() ==> ds@.contains(*it.seq()[i]),
                            g == self.deps(),
                            g.contains_key(a),
                            g[a] == ds@,
                            uset == u@.to_set(),
                            uset.finite(),
                            forall|k: u64, d2: u64| g.contains_key(k) && #[trigger] g[k].contains(d2) ==> u@.contains(d2),
                            before_closed <= closed@,
                            closed@ <= uset,
                            closed@.contains(a),
                            pending@.len() == before_pending.len() - 1 + (closed@.len() - before_closed.len()),
                            closed@.finite(),
                            forall|x: u64| pending@.contains(x) ==> closed@.contains(x),
                            forall|b: u64| #[trigger] closed@.contains(b) ==> b == a || pending@.contains(b)
                                || (g.contains_key(b) ==> g[b] <= closed@),
                            forall|y: u64| #[trigger] ds@.contains(y) ==> closed@.contains(y) || exists|i: int|
                                it.index() <= i < it.seq().len() && *it.seq()[i] == y,
                            least_closed_over(g, candidate@, closed@),
                    {
                        let ghost prev_pending = pending@;
                        let ghost prev_closed = closed@;
                        assert(ds@.contains(*d));
                        assert(u@.contains(*d));
                        if closed.insert(*d) {
                            pending.push(*d);
                            assert(pending@.last() == *d);
                            assert forall|x: u64| prev_pending.contains(x) implies pending@.contains(x) by {
                                let j = choose|j: int| 0 <= j < prev_pending.len() && prev_pending[j] == x;
                                assert(pending@[j] == x);
                            }
                            assert forall|s: Set<u64>| candidate@ <= s && #[trigger] closed_under(g, s) implies closed@ <= s by {
                                assert(prev_closed <= s);
                                assert(s.contains(a));
                                assert(g[a].contains(*d));
                            }
                        }
                        assert forall|y: u64| #[trigger] ds@.contains(y) && !closed@.contains(y) implies exists|i: int|
                            it.index() + 1 <= i < it.seq().len() && *it.seq()[i] == y by {
                            let i = choose|i: int| it.index() <= i < it.seq().len() && *it.seq()[i] == y;
                            if i == it.index() {
                                assert(*it.seq()[i] == *d);
                            }
                        }
                    }
                },
                None => {},
            }
            proof {
                vstd::set_lib::lemma_len_subset(closed@, uset);
                vstd::set_lib::lemma_len_subset(before_closed, closed@);
                assert(pending@.len() == before_pending.len() - 1 + (closed@.len() - before_closed.len()));
                assert forall|b: u64| #[trigger] closed@.contains(b) implies pending@.contains(b) || (g.contains_key(b)
                    ==> g[b] <= closed@) by {
                    if b != a && !pending@.contains(b) {
                        if before_pending.contains(b) {
                            let j = choose|j: int| 0 <= j < before_pending.len() && before_pending[j] == b;
                            if j < before_pending.len() - 1 {
                                assert(before_pending.drop_last()[j] == b);
                            }
                        }
                    }
                }
            }
        }
        proof {
            lemma_closure_unique(g, candidate@, closed@);
        }
        closed
    }

    /// `candidate` without `removed_action` and without every member of `candidate` that
    /// transitively depends on it.
    pub fn remove_with_dependents(&self, candidate: &BTreeSet<u64>, removed_action: u64) -> (res: BTreeSet<u64>)
        ensures
            res@ <= candidate@,
            !res@.contains(removed_action),
            dependents_closed(self.deps(), candidate@, candidate@.difference(res@).insert(removed_action)),
            forall|s: Set<u64>| s.contains(removed_action) && #[trigger] dependents_closed(self.deps(), candidate@, s)
                ==> candidate@.difference(res@) <= s,
            res@ == spec_removal(self.deps(), candidate@, removed_action),
    {
        let ghost g = self.deps();
        let ghost bound = candidate@.insert(removed_action);
        proof {
            lemma_btree_set_finite(candidate);
        }
        let mut removed: BTreeSet<u64> = BTreeSet::new();
        removed.insert(removed_action);
        let mut changed = true;
        while changed
            invariant
                g == self.deps(),
                bound == candidate@.insert(removed_action),
                bound.finite(),
                removed@.contains(removed_action),
                removed@ <= bound,
                forall|s: Set<u64>| s.contains(removed_action) && #[trigger] dependents_closed(g, candidate@, s)
                    ==> removed@ <= s,
                !changed ==> dependents_closed(g, candidate@, removed@),
            decreases bound.len() - removed@.len(), if changed { 1int } else { 0int },
        {
            let ghost start = removed@;
            proof {
                vstd::set_lib::lemma_len_subset(removed@, bound);
            }
            changed = false;
            proof {
                lemma_set_iter_members(candidate);
            }
            for id in it: candidate.iter()
                invariant
                    forall|i: int| 0 <= i < it.seq().len() ==> candidate@.contains(*it.seq()[i]),
                    g == self.deps(),
                    bound == candidate@.insert(removed_action),
                    bound.finite(),
                    start <= removed@,
                    removed@.contains(removed_action),
                    removed@ <= bound,
                    forall|s: Set<u64>| s.contains(removed_action) && #[trigger] dependents_closed(g, candidate@, s)
                        ==> removed@ <= s,
                    changed ==> removed@.len() > start.len(),
                    !changed ==> removed@ == start,
                    !changed ==> forall|i: int| 0 <= i < it.index() ==> removed@.contains(*it.seq()[i])
                        || !hits(g, *it.seq()[i], removed@),
            {
                proof {
                    vstd::set_lib::lemma_len_subset(removed@, bound);
                }
                if !removed.contains(id) {
                    let hit = match self.hard_dependencies.get(id) {
                        Some(dependencies) => any_in(dependencies, &removed),
                        None => false,
                    };
                    assert(hit == hits(g, *id, removed@));
                    if hit {
                        let ghost prev = removed@;
                        removed.insert(*id);
                        proof {
                            assert forall|s: Set<u64>| s.contains(removed_action) && #[trigger] dependents_closed(g, candidate@, s)
                                implies removed@ <= s by {
                                assert(prev <= s);
                                let d = choose|d: u64| g[*id].contains(d) && prev.contains(d);
                                assert(s.contains(d));
                            }
                            vstd::set_lib::lemma_len_subset(prev, bound);
                            assert(removed@ == prev.insert(*id));
                        }
                        changed = true;
                    }
                }
            }
            proof {
                vstd::set_lib::lemma_len_subset(removed@, bound);
                if !changed {
                    assert forall|a: u64, d: u64|
                        candidate@.contains(a) && g.contains_key(a) && #[trigger] g[a].contains(d) && removed@.contains(d)
                        implies removed@.contains(a) by {
                        assert(hits(g, a, removed@));
                        let keys = candidate.iter().remaining();
                        assert(keys.unref().to_set().contains(a));
                        let k = choose|k: int| 0 <= k < keys.unref().len() && keys.unref()[k] == a;
                        assert(*keys[k] == a);
                    }
                }
            }
        }
        let mut res: BTreeSet<u64> = BTreeSet::new();
        proof {
            lemma_set_iter_members(candidate);
        }
        for id in it: candidate.iter()
            invariant
                forall|i: int| 0 <= i < it.seq().len() ==> candidate@.contains(*it.seq()[i]),
                res@ <= candidate@,
                forall|x: u64| res@.contains(x) ==> !removed@.contains(x),
                forall|i: int| 0 <= i < it.index() ==> removed@.contains(*it.seq()[i]) || res@.contains(*it.seq()[i]),
        {
            if !removed.contains(id) {
                res.insert(*id);
            }
        }
        proof {
            assert forall|x: u64| candidate@.contains(x) && !removed@.contains(x) implies res@.contains(x) by {
                let keys = candidate.iter().remaining();
                assert(keys.unref().to_set().contains(x));
                let k = choose|k: int| 0 <= k < keys.unref().len() && keys.unref()[k] == x;
                assert(*keys[k] == x);
            }
            assert(candidate@.difference(res@).insert(removed_action) =~= removed@);
            lemma_removal_unique(g, candidate@, removed_action, res@);
        }
        res
    }

    /// Every id in `candidate` or among the recorded dependencies.
    fn universe(&self, candidate: &BTreeSet<u64>) -> (u: Vec<u64>)
        ensures
            forall|x: u64| candidate@.contains(x) ==> u@.contains(x),
            forall|k: u64, d: u64|
                self.deps().contains_key(k) && #[trigger] self.deps()[k].contains(d) ==> u@.contains(d),
    {
        let mut u: Vec<u64> = Vec::new();
        push_all(&mut u, candidate);
        for kv in it: self.hard_dependencies.iter()
            invariant
                forall|x: u64| candidate@.contains(x) ==> u@.contains(x),
                forall|k: u64| #[trigger] self.hard_dependencies@.contains_key(k) ==>
                    (forall|d: u64| self.hard_dependencies@[k]@.contains(d) ==> u@.contains(d))
                    || exists|i: int| it.index() <= i < it.seq().len() && *it.seq()[i].0 == k,
        {
            let (k, v) = kv;
            let ghost old_u = u@;
            push_all(&mut u, v);
            assert forall|k2: u64| #[trigger] self.hard_dependencies@.contains_key(k2) && !(forall|d: u64| self.hard_dependencies@[k2]@.contains(d) ==> u@.contains(d))
                implies exists|i: int| it.index() + 1 <= i < it.seq().len() && *it.seq()[i].0 == k2 by {
                if forall|d: u64| self.hard_dependencies@[k2]@.contains(d) ==> old_u.contains(d) {
                    assert(false);
                }
                let i = choose|i: int| it.index() <= i < it.seq().len() && *it.seq()[i].0 == k2;
                if i == it.index() {
                    assert(*it.seq()[i].0 == *k);
                    assert(self.hard_dependencies@[*k] == *v);
                    assert(false);
                }
            }
        }
        u
    }
}

pub proof fn lemma_set_iter_members(s: &BTreeSet<u64>)
    ensures
        forall|i: int| 0 <= i < s.iter().remaining().len() ==> s@.contains(*#[trigger] s.iter().remaining()[i]),
{
    let r = s.iter().remaining();
    assert forall|i: int| 0 <= i < r.len() implies s@.contains(*#[trigger] r[i]) by {
        assert(r.unref()[i] == *r[i]);
        assert(r.unref().to_set().contains(r.unref()[i]));
    }
}

/// Some direct dependency of `a` lies in `s`.
pub open spec fn hits(g: Map<u64, Set<u64>>, a: u64, s: Set<u64>) -> bool {
    g.contains_key(a) && exists|d: u64| g[a].contains(d) && s.contains(d)
}

/// Every member of `c` that directly depends on a member of `s` is itself in `s`.
pub open spec fn dependents_closed(g: Map<u64, Set<u64>>, c: Set<u64>, s: Set<u64>) -> bool {
    forall|a: u64, d: u64|
        #![trigger g[a].contains(d), s.contains(a)]
        c.contains(a) && g.contains_key(a) && g[a].contains(d) && s.contains(d) ==> s.contains(a)
}

pub proof fn lemma_btree_set_finite(s: &BTreeSet<u64>)
    ensures
        s@.finite(),
{
    let r = s.iter().remaining();
    vstd::seq_lib::seq_to_set_is_finite(r.unref());
}

/// Whether some member of `a` is in `b`.
fn any_in(a: &BTreeSet<u64>, b: &BTreeSet<u64>) -> (res: bool)
    ensures
        res == exists|d: u64| a@.contains(d) && b@.contains(d),
{
    proof {
        lemma_set_iter_members(a);
    }
    for d in it: a.iter()
        invariant
            forall|i: int| 0 <= i < it.seq().len() ==> a@.contains(*it.seq()[i]),
            forall|i: int| 0 <= i < it.index() ==> !b@.contains(*it.seq()[i]),
    {
        if b.contains(d) {
            return true;
        }
    }
    proof {
        assert forall|d: u64| a@.contains(d) implies !b@.contains(d) by {
            let keys = a.iter().remaining();
            assert(keys.unref().to_set().contains(d));
            let k = choose|k: int| 0 <= k < keys.unref().len() && keys.unref()[k] == d;
            assert(*keys[k] == d);
        }
    }
    false
}

/// Appends every member of `s` to `u`.
fn push_all(u: &mut Vec<u64>, s: &BTreeSet<u64>)
    ensures
        forall|x: u64| old(u)@.contains(x) ==> final(u)@.contains(x),
        forall|x: u64| s@.contains(x) ==> final(u)@.contains(x),
        forall|x: u64| final(u)@.contains(x) ==> old(u)@.contains(x) || s@.contains(x),
{
    proof {
        lemma_set_iter_members(s);
    }
    for x in it: s.iter()
        invariant
            forall|i: int| 0 <= i < it.seq().len() ==> s@.contains(*it.seq()[i]),
            forall|y: u64| old(u)@.contains(y) ==> u@.contains(y),
            forall|y: u64| u@.contains(y) ==> old(u)@.contains(y) || s@.contains(y),
            forall|y: u64| #[trigger] s@.contains(y) ==> u@.contains(y) || exists|i: int|
                it.index() <= i < it.seq().len() && *it.seq()[i] == y,
    {
        let ghost prev = u@;
        u.push(*x);
        assert(u@.last() == *x);
        assert(s@.contains(*x));
        assert forall|y: u64| u@.contains(y) implies old(u)@.contains(y) || s@.contains(y) by {
            let j = choose|j: int| 0 <= j < u@.len() && u@[j] == y;
            if j < prev.len() {
                assert(prev[j] == y);
            }
        }
        assert forall|y: u64| prev.contains(y) implies u@.contains(y) by {
            let j = choose|j: int| 0 <= j < prev.len() && prev[j] == y;
            assert(u@[j] == y);
        }
        assert forall|y: u64| #[trigger] s@.contains(y) && !u@.contains(y) implies exists|i: int|
            it.index() + 1 <= i < it.seq().len() && *it.seq()[i] == y by {
            let i = choose|i: int| it.index() <= i < it.seq().len() && *it.seq()[i] == y;
            if i == it.index() {
                assert(*it.seq()[i] == *x);
            }
        }
    }
}


/// File resources for the paths `ps`.
pub open spec fn file_set(ps: Seq<Seq<char>>) -> Set<ResourceView> {
    ps.map_values(|p: Seq<char>| ResourceView::File(p)).to_set()
}

/// A shell word that joins commands (`&&`, `||`, `;`, `|`).
pub open spec fn is_operator(w: Seq<char>) -> bool {
    w == "&&"@ || w == "||"@ || w == ";"@ || w == "|"@
}

/// The last component of the path `w` when it is a name, else `w` itself.
pub open spec fn program_name(w: Seq<char>) -> Seq<char> {
    let cs = components(w);
    if cs.len() > 0 {
        match cs.last() {
            ComponentView::Normal(n) => n,
            _ => w,
        }
    } else {
        w
    }
}

/// The arguments that are not options (do not start with `-`).
pub open spec fn positional_args(args: Seq<Seq<char>>) -> Seq<Seq<char>> {
    args.filter(|a: Seq<char>| !(a.len() > 0 && a[0] == '-'))
}

/// A character that may appear in an environment variable name.
pub open spec fn is_name_char(c: char) -> bool {
    ('a' <= c && c <= 'z') || ('A' <= c && c <= 'Z') || ('0' <= c && c <= '9') || c == '_'
}

/// The end of the run of name characters that starts at `j`.
pub open spec fn name_end(s: Seq<char>, j: int) -> int
    decreases s.len() - j,
{
    if 0 <= j < s.len() && is_name_char(s[j]) {
        name_end(s, j + 1)
    } else {
        j
    }
}

/// Where the variable name after the `$` at `i` begins (after an optional `{`).
pub open spec fn name_start(s: Seq<char>, i: int) -> int {
    if i + 1 < s.len() && s[i + 1] == '{' {
        i + 2
    } else {
        i + 1
    }
}

/// The variable named after the `$` at `i` reads a non-empty name.
pub open spec fn names_variable(s: Seq<char>, i: int) -> bool {
    0 <= i < s.len() && s[i] == '$' && name_start(s, i) < name_end(s, name_start(s, i))
}

/// The environment variables that `$NAME` or `${NAME` in `s` mention.
pub open spec fn env_reads(s: Seq<char>) -> Set<ResourceView> {
    Set::new(
        |r: ResourceView|
            exists|i: int|
                #[trigger] names_variable(s, i) && r == ResourceView::EnvironmentVariable(
                    s.subrange(name_start(s, i), name_end(s, name_start(s, i))),
                ),
    )
}

/// The access of a command whose effects cannot be seen: it reads the working directory.
pub open spec fn opaque_view() -> AccessView {
    AccessView { reads: set![ResourceView::WorkingDirectory], writes: Set::empty(), opaque: true }
}

/// `paths` without its first element.
pub open spec fn after_first(paths: Seq<Seq<char>>) -> Seq<Seq<char>> {
    if paths.len() == 0 { paths } else { paths.drop_first() }
}

/// `cp`/`mv`: sources are read (and for `mv` written), the last path is written.
pub open spec fn copy_or_move_view(base: AccessView, paths: Seq<Seq<char>>, move_source: bool) -> AccessView {
    if paths.len() < 2 {
        AccessView { opaque: true, ..base }
    } else {
        let sources = paths.drop_last();
        AccessView {
            reads: base.reads + file_set(sources),
            writes: base.writes + (if move_source { file_set(sources) } else { Set::empty() }) + set![
                ResourceView::File(paths.last()),
            ],
            opaque: base.opaque,
        }
    }
}

/// What a shell command reads and writes, as far as its words show it.
pub open spec fn shell_access(command: Seq<char>) -> AccessView {
    match shell_split(command) {
        None => opaque_view(),
        Some(words) => words_access(command, words),
    }
}

/// The access of the command `command` once split into `words`: none can be seen past an
/// operator or in an empty command; a few programs are understood, any other is opaque.
pub open spec fn words_access(command: Seq<char>, words: Seq<Seq<char>>) -> AccessView {
    if words.len() == 0 || exists|i: int| 0 <= i < words.len() && #[trigger] is_operator(words[i]) {
        opaque_view()
    } else {
        let program = program_name(words[0]);
        let args = positional_args(words.drop_first());
        let base = AccessView {
            reads: set![ResourceView::WorkingDirectory] + env_reads(command),
            writes: Set::empty(),
            opaque: false,
        };
        if program == "chmod"@ {
            AccessView {
                reads: base.reads + file_set(after_first(args)),
                writes: file_set(after_first(args)),
                opaque: false,
            }
        } else if program == "cp"@ {
            copy_or_move_view(base, args, false)
        } else if program == "mv"@ {
            copy_or_move_view(base, args, true)
        } else if program == "rm"@ {
            AccessView { writes: file_set(args), ..base }
        } else if program == "cat"@ {
            AccessView { reads: base.reads + file_set(args), ..base }
        } else if program == "cargo"@ {
            AccessView {
                reads: base.reads + set![
                    ResourceView::File("Cargo.toml"@),
                    ResourceView::File("Cargo.lock"@),
                    ResourceView::File("src"@),
                ],
                writes: set![ResourceView::File("target"@)],
                opaque: false,
            }
        } else if program == "ls"@ || program == "pwd"@ || program == "true"@ || program == "false"@
            || program == "test"@ {
            base
        } else {
            AccessView { opaque: true, ..base }
        }
    }
}

/// The access of a command whose effects cannot be seen.
pub fn opaque_access() -> (res: ResourceAccess)
    ensures
        res@ == opaque_view(),
        res.wf(),
{
    let mut reads: Vec<Resource> = Vec::new();
    insert_resource(&mut reads, Resource::WorkingDirectory);
    proof {
        assert(resource_set(Seq::<Resource>::empty()) =~= Set::<ResourceView>::empty());
        assert(resource_set(Seq::<Resource>::empty()).insert(ResourceView::WorkingDirectory) =~= set![ResourceView::WorkingDirectory]);
    }
    ResourceAccess { reads, writes: Vec::new(), opaque: true }
}

/// Adds a file resource for each of `paths[from..]`.
fn insert_files(v: &mut Vec<Resource>, paths: &Vec<String>, from: usize)
    requires
        distinct_resources(old(v)@),
        from <= paths@.len(),
    ensures
        distinct_resources(final(v)@),
        resource_set(final(v)@) == resource_set(old(v)@) + file_set(words_view(paths@).skip(from as int)),
{
    let ghost ws = words_view(paths@);
    let mut i = from;
    proof {
        assert(file_set(ws.subrange(from as int, from as int)) =~= Set::<ResourceView>::empty());
    }
    while i < paths.len()
        invariant
            from <= i <= paths@.len(),
            ws == words_view(paths@),
            distinct_resources(v@),
            resource_set(v@) == resource_set(old(v)@) + file_set(ws.subrange(from as int, i as int)),
        decreases paths.len() - i,
    {
        insert_resource(v, Resource::File(paths[i].clone()));
        proof {
            lemma_file_set_push(ws.subrange(from as int, i as int), ws[i as int]);
            assert(ws.subrange(from as int, i + 1) =~= ws.subrange(from as int, i as int).push(ws[i as int]));
        }
        i += 1;
    }
    proof {
        assert(ws.subrange(from as int, paths@.len() as int) =~= ws.skip(from as int));
    }
}

proof fn lemma_file_set_push(ps: Seq<Seq<char>>, p: Seq<char>)
    ensures
        file_set(ps.push(p)) == file_set(ps).insert(ResourceView::File(p)),
{
    let f = |q: Seq<char>| ResourceView::File(q);
    assert(ps.push(p).map_values(f) =~= ps.map_values(f) + seq![ResourceView::File(p)]);
    Seq::lemma_to_set_insert_commutes(ps.map_values(f), ResourceView::File(p));
}

/// Whether `w` starts with `-`.
fn is_option(w: &String) -> (res: bool)
    ensures
        res == (w@.len() > 0 && w@[0] == '-'),
{
    let cs = chars_of(w.as_str());
    cs.len() > 0 && cs[0] == '-'
}

/// The arguments that do not start with `-`, in order.
pub fn positional(arguments: &Vec<String>) -> (res: Vec<String>)
    ensures
        words_view(res@) == positional_args(words_view(arguments@)),
{
    let ghost all = words_view(arguments@);
    let ghost pred = |a: Seq<char>| !(a.len() > 0 && a[0] == '-');
    let mut res: Vec<String> = Vec::new();
    let mut i: usize = 0;
    proof {
        assert(all.take(0) =~= Seq::<Seq<char>>::empty());
        reveal_with_fuel(Seq::filter, 1);
    }
    while i < arguments.len()
        invariant
            i <= arguments@.len(),
            all == words_view(arguments@),
            pred == (|a: Seq<char>| !(a.len() > 0 && a[0] == '-')),
            words_view(res@) == all.take(i as int).filter(pred),
        decreases arguments.len() - i,
    {
        proof {
            assert(all.take(i + 1) =~= all.take(i as int).push(all[i as int]));
            all.take(i as int).lemma_filter_push(all[i as int], pred);
        }
        if !is_option(&arguments[i]) {
            res.push(arguments[i].clone());
            assert(words_view(res@) =~= all.take(i as int).filter(pred).push(all[i as int]));
        }
        i += 1;
    }
    proof {
        assert(all.take(arguments@.len() as int) =~= all);
    }
    res
}

/// The words after the first one.
fn rest_of(words: &Vec<String>) -> (res: Vec<String>)
    requires
        words@.len() >= 1,
    ensures
        words_view(res@) == words_view(words@).drop_first(),
{
    let mut res: Vec<String> = Vec::new();
    let mut i: usize = 1;
    while i < words.len()
        invariant
            1 <= i <= words@.len(),
            words_view(res@) == words_view(words@).subrange(1, i as int),
        decreases words.len() - i,
    {
        let ghost prev = res@;
        res.push(words[i].clone());
        assert(words_view(res@) =~= words_view(prev).push(words@[i as int]@));
        assert(words_view(words@).subrange(1, i + 1) =~= words_view(words@).subrange(1, i as int).push(words@[i as int]@));
        i += 1;
    }
    assert(words_view(words@).subrange(1, words@.len() as int) =~= words_view(words@).drop_first());
    res
}

/// Records the environment variables that `command` mentions as `$NAME` or `${NAME`.
pub fn add_explicit_environment_reads(command: &str, access: &mut ResourceAccess)
    requires
        old(access).wf(),
    ensures
        final(access).wf(),
        final(access)@ == (AccessView { reads: old(access)@.reads + env_reads(command@), ..old(access)@ }),
{
    let bytes = chars_of(command);
    let ghost s = command@;
    let n = bytes.len();
    let mut index: usize = 0;
    proof {
        assert(resource_set(access.reads@) =~= resource_set(old(access).reads@) + found_before(s, 0));
    }
    while index < n
        invariant
            n == s.len(),
            bytes@ == s,
            index <= n,
            access.wf(),
            access.writes@ == old(access).writes@,
            access.opaque == old(access).opaque,
            resource_set(access.reads@) == resource_set(old(access).reads@) + found_before(s, index as int),
        decreases n - index,
    {
        if bytes[index] != '$' {
            proof {
                lemma_found_step_plain(s, index as int);
            }
            index += 1;
            continue;
        }
        let at = index;
        index += 1;
        if index < n && bytes[index] == '{' {
            index += 1;
        }
        let start = index;
        assert(start as int == name_start(s, at as int));
        while index < n && is_name_byte(bytes[index])
            invariant
                n == s.len(),
                bytes@ == s,
                start <= index <= n,
                name_end(s, start as int) == name_end(s, index as int),
                forall|k: int| start <= k < index ==> is_name_char(#[trigger] s[k]),
            decreases n - index,
        {
            index += 1;
        }
        assert(index as int == name_end(s, start as int));
        if start < index {
            let name = string_from_range(&bytes, start, index);
            insert_resource(&mut access.reads, Resource::EnvironmentVariable(name));
        }
        proof {
            lemma_found_step_dollar(s, at as int);
        }
    }
    proof {
        assert(found_before(s, s.len() as int) =~= env_reads(s));
    }
}

/// Whether `c` may appear in an environment variable name.
fn is_name_byte(c: char) -> (res: bool)
    ensures
        res == is_name_char(c),
{
    ('a' <= c && c <= 'z') || ('A' <= c && c <= 'Z') || ('0' <= c && c <= '9') || c == '_'
}

/// The variables named by `$` signs before position `k`.
pub open spec fn found_before(s: Seq<char>, k: int) -> Set<ResourceView> {
    Set::new(
        |r: ResourceView|
            exists|i: int|
                i < k && #[trigger] names_variable(s, i) && r == ResourceView::EnvironmentVariable(
                    s.subrange(name_start(s, i), name_end(s, name_start(s, i))),
                ),
    )
}

proof fn lemma_name_end_bounds(s: Seq<char>, j: int)
    requires
        0 <= j <= s.len(),
    ensures
        j <= name_end(s, j) <= s.len(),
        forall|k: int| j <= k < name_end(s, j) ==> is_name_char(#[trigger] s[k]),
        name_end(s, j) < s.len() ==> !is_name_char(s[name_end(s, j)]),
    decreases s.len() - j,
{
    if j < s.len() && is_name_char(s[j]) {
        lemma_name_end_bounds(s, j + 1);
    }
}

proof fn lemma_found_step_plain(s: Seq<char>, k: int)
    requires
        0 <= k < s.len(),
        s[k] != '$',
    ensures
        found_before(s, k + 1) == found_before(s, k),
{
    assert(!names_variable(s, k));
    assert(found_before(s, k + 1) =~= found_before(s, k));
}

proof fn lemma_found_step_dollar(s: Seq<char>, at: int)
    requires
        0 <= at < s.len(),
        s[at] == '$',
    ensures
        ({
            let e = name_end(s, name_start(s, at));
            &&& at < e <= s.len()
            &&& found_before(s, e) == if name_start(s, at) < e {
                found_before(s, at).insert(ResourceView::EnvironmentVariable(s.subrange(name_start(s, at), e)))
            } else {
                found_before(s, at)
            }
        }),
{
    let st = name_start(s, at);
    lemma_name_end_bounds(s, if st <= s.len() { st } else { s.len() as int });
    let e = name_end(s, st);
    assert forall|i: int| at < i < e implies s[i] != '$' by {
        if i >= st {
            assert(is_name_char(s[i]));
        }
    }
    assert forall|i: int| at < i < e implies !#[trigger] names_variable(s, i) by {}
    if st < e {
        assert(names_variable(s, at));
        assert(found_before(s, e) =~= found_before(s, at).insert(
            ResourceView::EnvironmentVariable(s.subrange(st, e)),
        ));
    } else {
        assert(!names_variable(s, at));
        assert(found_before(s, e) =~= found_before(s, at));
    }
}


/// `cp`/`mv` with `arguments`: of the non-option arguments, the sources are read (and, for a
/// move, written) and the last is written; fewer than two of them make the access opaque.
pub fn infer_copy_or_move(arguments: &Vec<String>, move_source: bool, access: &mut ResourceAccess)
    requires
        old(access).wf(),
    ensures
        final(access).wf(),
        final(access)@ == copy_or_move_view(old(access)@, positional_args(words_view(arguments@)), move_source),
{
    let paths = positional(arguments);
    if paths.len() < 2 {
        access.opaque = true;
        return;
    }
    let last = paths.len() - 1;
    let ghost ws = words_view(paths@);
    let mut i: usize = 0;
    proof {
        assert(ws.take(0) =~= Seq::<Seq<char>>::empty());
        assert(file_set(Seq::<Seq<char>>::empty()) =~= Set::<ResourceView>::empty());
        assert(resource_set(access.reads@) =~= resource_set(old(access).reads@) + file_set(ws.take(0)));
        assert(resource_set(access.writes@) =~= resource_set(old(access).writes@) + (if move_source { file_set(ws.take(0)) } else { Set::empty() }));
    }
    while i < last
        invariant
            last == paths@.len() - 1,
            ws == words_view(paths@),
            i <= last,
            access.wf(),
            access.opaque == old(access).opaque,
            resource_set(access.reads@) == resource_set(old(access).reads@) + file_set(ws.take(i as int)),
            resource_set(access.writes@) == resource_set(old(access).writes@) + (if move_source { file_set(ws.take(i as int)) } else { Set::empty() }),
        decreases last - i,
    {
        proof {
            lemma_file_set_push(ws.take(i as int), ws[i as int]);
            assert(ws.take(i + 1) =~= ws.take(i as int).push(ws[i as int]));
        }
        insert_resource(&mut access.reads, Resource::File(paths[i].clone()));
        if move_source {
            insert_resource(&mut access.writes, Resource::File(paths[i].clone()));
        }
        i += 1;
    }
    insert_resource(&mut access.writes, Resource::File(paths[last].clone()));
    proof {
        assert(ws.take(last as int) =~= ws.drop_last());
        assert(ws.last() == paths@[last as int]@);
        let v = copy_or_move_view(old(access)@, ws, move_source);
        assert(access@.reads =~= v.reads);
        assert(access@.writes =~= v.writes);
        assert(access@ =~= v);
    }
}

/// What the shell command `command` reads and writes, as far as its words show it.
pub fn infer_shell_resources(command: &str) -> (res: ResourceAccess)
    ensures
        res.wf(),
        res@ == shell_access(command@),
{
    match split_words(command) {
        Some(words) => access_of_words(command, &words),
        None => opaque_access(),
    }
}

/// The files, environment and directory that the command `command`, split into `words`,
/// reads and writes.
pub fn access_of_words(command: &str, words: &Vec<String>) -> (res: ResourceAccess)
    ensures
        res.wf(),
        res@ == words_access(command@, words_view(words@)),
{
    let ghost ws = words_view(words@);
    if words.len() == 0 {
        return opaque_access();
    }
    let mut i: usize = 0;
    while i < words.len()
        invariant
            ws == words_view(words@),
            i <= words@.len(),
            forall|k: int| 0 <= k < i ==> !#[trigger] is_operator(ws[k]),
        decreases words.len() - i,
    {
        let w = words[i].as_str();
        if str_is(w, "&&") || str_is(w, "||") || str_is(w, ";") || str_is(w, "|") {
            assert(is_operator(ws[i as int]));
            return opaque_access();
        }
        i += 1;
    }
    let program = program_of(&words[0]);
    let arguments = rest_of(&words);
    let args = positional(&arguments);
    let mut reads: Vec<Resource> = Vec::new();
    insert_resource(&mut reads, Resource::WorkingDirectory);
    let mut access = ResourceAccess { reads, writes: Vec::new(), opaque: false };
    proof {
        assert(resource_set(Seq::<Resource>::empty()) =~= Set::<ResourceView>::empty());
    }
    add_explicit_environment_reads(command, &mut access);
    let ghost base = access@;
    proof {
        assert(base.reads =~= set![ResourceView::WorkingDirectory] + env_reads(command@));
        assert(base.writes =~= Set::<ResourceView>::empty());
    }
    let p = program.as_str();
    if str_is(p, "chmod") {
        if args.len() > 0 {
            insert_files(&mut access.reads, &args, 1);
            insert_files(&mut access.writes, &args, 1);
            assert(words_view(args@).skip(1) =~= after_first(words_view(args@)));
        } else {
            assert(file_set(after_first(words_view(args@))) =~= Set::<ResourceView>::empty());
        }
    } else if str_is(p, "cp") {
        infer_copy_or_move(&arguments, false, &mut access);
    } else if str_is(p, "mv") {
        infer_copy_or_move(&arguments, true, &mut access);
    } else if str_is(p, "rm") {
        insert_files(&mut access.writes, &args, 0);
        assert(words_view(args@).skip(0) =~= words_view(args@));
    } else if str_is(p, "cat") {
        insert_files(&mut access.reads, &args, 0);
        assert(words_view(args@).skip(0) =~= words_view(args@));
    } else if str_is(p, "cargo") {
        insert_resource(&mut access.reads, Resource::File(String::from_str("Cargo.toml")));
        insert_resource(&mut access.reads, Resource::File(String::from_str("Cargo.lock")));
        insert_resource(&mut access.reads, Resource::File(String::from_str("src")));
        insert_resource(&mut access.writes, Resource::File(String::from_str("target")));
    } else if str_is(p, "ls") || str_is(p, "pwd") || str_is(p, "true") || str_is(p, "false") || str_is(p, "test") {
    } else {
        access.opaque = true;
    }
    proof {
        assert(access@ =~= words_access(command@, ws));
    }
    access
}

/// The program a command runs: the file name of its first word.
fn program_of(word: &String) -> (res: String)
    ensures
        res@ == program_name(word@),
{
    let cs = path_components(word.as_str());
    assert(cs@.len() == components(word@).len());
    if cs.len() > 0 {
        let last = cs.len() - 1;
        assert(cs@.map_values(|c: PathComponent| c@)[last as int] == cs@[last as int]@);
        match &cs[last] {
            PathComponent::Normal(name) => return name.clone(),
            _ => {},
        }
    }
    word.clone()
}


/// The paths that a patch touches.
pub open spec fn patch_paths(files: Seq<FileReplacement>) -> Seq<Seq<char>> {
    files.map_values(|f: FileReplacement| f.path@)
}

/// What an action reads and writes.
pub open spec fn action_access(kind: ActionKind) -> AccessView {
    match kind {
        ActionKind::ChangeDirectory { path } => AccessView {
            reads: set![ResourceView::File(path@)],
            writes: set![ResourceView::WorkingDirectory],
            opaque: false,
        },
        ActionKind::SetEnvironment { key, .. } => AccessView {
            reads: Set::empty(),
            writes: set![ResourceView::EnvironmentVariable(key@)],
            opaque: false,
        },
        ActionKind::UnsetEnvironment { key } => AccessView {
            reads: Set::empty(),
            writes: set![ResourceView::EnvironmentVariable(key@)],
            opaque: false,
        },
        ActionKind::FilePatch { files } => AccessView {
            reads: file_set(patch_paths(files@)),
            writes: file_set(patch_paths(files@)),
            opaque: false,
        },
        ActionKind::ShellCommand { command } => shell_access(command@),
    }
}

/// The resources that `action` reads and writes.
pub fn infer_resources(action: &Action) -> (res: ResourceAccess)
    ensures
        res.wf(),
        res@ == action_access(action.kind),
{
    let mut reads: Vec<Resource> = Vec::new();
    let mut writes: Vec<Resource> = Vec::new();
    proof {
        assert(resource_set(Seq::<Resource>::empty()) =~= Set::<ResourceView>::empty());
    }
    match &action.kind {
        ActionKind::ChangeDirectory { path } => {
            insert_resource(&mut reads, Resource::File(path.clone()));
            insert_resource(&mut writes, Resource::WorkingDirectory);
        },
        ActionKind::SetEnvironment { key, .. } => {
            insert_resource(&mut writes, Resource::EnvironmentVariable(key.clone()));
        },
        ActionKind::UnsetEnvironment { key } => {
            insert_resource(&mut writes, Resource::EnvironmentVariable(key.clone()));
        },
        ActionKind::FilePatch { files } => {
            let mut paths: Vec<String> = Vec::new();
            let mut i: usize = 0;
            while i < files.len()
                invariant
                    i <= files@.len(),
                    words_view(paths@) == patch_paths(files@).take(i as int),
                decreases files.len() - i,
            {
                let ghost prev = paths@;
                paths.push(files[i].path.clone());
                assert(patch_paths(files@).take(i + 1) =~= patch_paths(files@).take(i as int).push(files@[i as int].path@));
                assert(words_view(paths@) =~= words_view(prev).push(files@[i as int].path@));
                i += 1;
            }
            insert_files(&mut reads, &paths, 0);
            insert_files(&mut writes, &paths, 0);
            assert(words_view(paths@).skip(0) =~= patch_paths(files@));
        },
        ActionKind::ShellCommand { command } => {
            return infer_shell_resources(command.as_str());
        },
    }
    let res = ResourceAccess { reads, writes, opaque: false };
    assert(res@ =~= action_access(action.kind));
    res
}

/// The state that dependency inference carries from one action to the next.
pub struct InferView {
    /// Which action created each path that the baseline lacks.
    pub created_by: Map<Seq<char>, u64>,
    /// Which action last set or unset each environment variable.
    pub env_writer: Map<Seq<char>, u64>,
    /// Which action last changed into each directory.
    pub cwd_writers: Map<Seq<char>, u64>,
    pub deps: Map<u64, Set<u64>>,
    pub accesses: Map<u64, AccessView>,
}

/// The action that last wrote the resource `r` that `a` reads, if one is known.
pub open spec fn writer_of(st: InferView, a: Action, r: ResourceView) -> Option<u64> {
    match r {
        ResourceView::File(p) => if st.created_by.contains_key(p) { Some(st.created_by[p]) } else { None },
        ResourceView::EnvironmentVariable(k) => if st.env_writer.contains_key(k) {
            Some(st.env_writer[k])
        } else {
            None
        },
        ResourceView::WorkingDirectory => if st.cwd_writers.contains_key(a.cwd_before@) {
            Some(st.cwd_writers[a.cwd_before@])
        } else {
            None
        },
    }
}

/// The direct dependencies of `a`: the writers of what it reads, and the action that
/// entered its working directory when that directory is not the project root.
pub open spec fn dependencies_of(st: InferView, a: Action, reads: Set<ResourceView>) -> Set<u64> {
    Set::new(
        |d: u64|
            (exists|r: ResourceView| reads.contains(r) && #[trigger] writer_of(st, a, r) == Some(d)) || (a.cwd_before@.len()
                > 0 && st.cwd_writers.contains_key(a.cwd_before@) && st.cwd_writers[a.cwd_before@] == d),
    )
}

/// How a patch changes which action created each new path: a new file that the baseline
/// lacks is credited to its first creator, a deleted path is forgotten.
pub open spec fn patch_creators(cb: Map<Seq<char>, u64>, files: Seq<FileReplacement>, id: u64, baseline: Seq<crate::domain::snapshot::FileState>) -> Map<Seq<char>, u64>
    decreases files.len(),
{
    if files.len() == 0 {
        cb
    } else {
        let prev = patch_creators(cb, files.drop_last(), id, baseline);
        let f = files.last();
        if f.content is Some && !has_path(baseline, f.path@) {
            if prev.contains_key(f.path@) { prev } else { prev.insert(f.path@, id) }
        } else if f.content is None {
            prev.remove(f.path@)
        } else {
            prev
        }
    }
}

/// Dependency inference after one more action.
pub open spec fn infer_step(st: InferView, a: Action, baseline: Seq<crate::domain::snapshot::FileState>) -> InferView {
    let access = action_access(a.kind);
    let st2 = InferView {
        deps: st.deps.insert(a.id, dependencies_of(st, a, access.reads)),
        accesses: st.accesses.insert(a.id, access),
        ..st
    };
    match a.kind {
        ActionKind::FilePatch { files } => InferView { created_by: patch_creators(st.created_by, files@, a.id, baseline), ..st2 },
        ActionKind::SetEnvironment { key, .. } => InferView { env_writer: st.env_writer.insert(key@, a.id), ..st2 },
        ActionKind::UnsetEnvironment { key } => InferView { env_writer: st.env_writer.insert(key@, a.id), ..st2 },
        ActionKind::ChangeDirectory { path } => InferView { cwd_writers: st.cwd_writers.insert(path@, a.id), ..st2 },
        ActionKind::ShellCommand { .. } => st2,
    }
}

/// The recording order of the actions.
pub open spec fn recorded_orders(actions: Seq<Action>) -> Seq<u64> {
    actions.map_values(|a: Action| a.original_order)
}

/// Dependency inference over the first `k` actions in recording order.
pub open spec fn infer_prefix(actions: Seq<Action>, k: int, baseline: Seq<crate::domain::snapshot::FileState>) -> InferView
    decreases k,
{
    if k <= 0 {
        InferView {
            created_by: Map::empty(),
            env_writer: Map::empty(),
            cwd_writers: Map::empty(),
            deps: Map::empty(),
            accesses: Map::empty(),
        }
    } else {
        let order = stable_order(recorded_orders(actions), actions.len() as int);
        infer_step(infer_prefix(actions, k - 1, baseline), actions[order[k - 1]], baseline)
    }
}

/// Dependency inference over all actions in recording order.
pub open spec fn spec_infer(actions: Seq<Action>, baseline: Seq<crate::domain::snapshot::FileState>) -> InferView {
    infer_prefix(actions, actions.len() as int, baseline)
}

/// The exec maps that inference threads through the actions.
struct Writers {
    created_by: TextMap<u64>,
    environment_writer: TextMap<u64>,
    cwd_writers: TextMap<u64>,
}

impl Writers {
    spec fn wf(&self) -> bool {
        self.created_by.wf() && self.environment_writer.wf() && self.cwd_writers.wf()
    }

    spec fn agrees(&self, st: InferView) -> bool {
        self.created_by@ == st.created_by && self.environment_writer@ == st.env_writer && self.cwd_writers@ == st.cwd_writers
    }
}

/// The writer that `action` depends on for the read resource `r`.
fn writer_for(w: &Writers, action: &Action, r: &Resource, Ghost(st): Ghost<InferView>) -> (res: Option<u64>)
    requires
        w.wf(),
        w.agrees(st),
    ensures
        res == writer_of(st, *action, r@),
{
    match r {
        Resource::File(path) => w.created_by.get(path),
        Resource::EnvironmentVariable(key) => w.environment_writer.get(key),
        Resource::WorkingDirectory => w.cwd_writers.get(&action.cwd_before),
    }
}

/// Applies one patch's effect on which action created each path.
fn apply_patch_creators(created_by: &mut TextMap<u64>, files: &Vec<FileReplacement>, id: u64, baseline: &SnapshotManifest)
    requires
        old(created_by).wf(),
    ensures
        final(created_by).wf(),
        final(created_by)@ == patch_creators(old(created_by)@, files@, id, baseline.files@),
{
    let mut i: usize = 0;
    while i < files.len()
        invariant
            i <= files@.len(),
            created_by.wf(),
            created_by@ == patch_creators(old(created_by)@, files@.take(i as int), id, baseline.files@),
        decreases files.len() - i,
    {
        proof {
            assert(files@.take(i + 1).drop_last() =~= files@.take(i as int));
            assert(files@.take(i + 1).last() == files@[i as int]);
        }
        let file = &files[i];
        if file.content.is_some() && !baseline_has(baseline, &file.path) {
            created_by.insert_if_absent(file.path.clone(), id);
        } else if file.content.is_none() {
            created_by.remove(&file.path);
        }
        i += 1;
    }
    proof {
        assert(files@.take(files@.len() as int) =~= files@);
    }
}

/// Whether the baseline snapshot holds `path`.
fn baseline_has(baseline: &SnapshotManifest, path: &String) -> (res: bool)
    ensures
        res == has_path(baseline.files@, path@),
{
    let mut j: usize = 0;
    while j < baseline.files.len()
        invariant
            j <= baseline.files@.len(),
            forall|k: int| 0 <= k < j ==> #[trigger] baseline.files@[k].path@ != path@,
        decreases baseline.files.len() - j,
    {
        if baseline.files[j].path == *path {
            return true;
        }
        j += 1;
    }
    false
}


/// The writers of the first `i` resources that `a` reads.
pub open spec fn writers_of_prefix(st: InferView, a: Action, reads: Seq<Resource>, i: int) -> Set<u64> {
    Set::new(|d: u64| exists|j: int| 0 <= j < i && #[trigger] writer_of(st, a, reads[j]@) == Some(d))
}

impl DependencyGraph {
    /// The accesses, as values.
    pub open spec fn access_views(&self) -> Map<u64, AccessView> {
        self.accesses@.map_values(|a: ResourceAccess| a@)
    }

    /// Infers each action's resources and the earlier actions it directly requires,
    /// walking the actions in recording order.
    pub fn infer(actions: &Vec<Action>, baseline: &SnapshotManifest) -> (res: Self)
        ensures
            res.deps() == spec_infer(actions@, baseline.files@).deps,
            res.access_views() == spec_infer(actions@, baseline.files@).accesses,
    {
        let mut keys: Vec<u64> = Vec::new();
        let mut i: usize = 0;
        while i < actions.len()
            invariant
                i <= actions@.len(),
                keys@ == recorded_orders(actions@).take(i as int),
            decreases actions.len() - i,
        {
            keys.push(actions[i].original_order);
            assert(keys@ =~= recorded_orders(actions@).take(i + 1));
            i += 1;
        }
        assert(keys@ =~= recorded_orders(actions@));
        let order = stable_order_indices(&keys);
        let ghost sorder = stable_order(recorded_orders(actions@), actions@.len() as int);
        proof {
            lemma_stable_order_bounds(recorded_orders(actions@), actions@.len() as int);
        }
        let mut graph = DependencyGraph { hard_dependencies: BTreeMap::new(), accesses: BTreeMap::new() };
        let mut w = Writers { created_by: TextMap::new(), environment_writer: TextMap::new(), cwd_writers: TextMap::new() };
        proof {
            assert(graph.deps() =~= Map::<u64, Set<u64>>::empty());
            assert(graph.access_views() =~= Map::<u64, AccessView>::empty());
        }
        let mut step: usize = 0;
        while step < order.len()
            invariant
                step <= order@.len(),
                order@.len() == actions@.len(),
                order@.map_values(|i: usize| i as int) == sorder,
                sorder == stable_order(recorded_orders(actions@), actions@.len() as int),
                forall|q: int| 0 <= q < sorder.len() ==> 0 <= #[trigger] sorder[q] < actions@.len(),
                w.wf(),
                w.agrees(infer_prefix(actions@, step as int, baseline.files@)),
                graph.deps() == infer_prefix(actions@, step as int, baseline.files@).deps,
                graph.access_views() == infer_prefix(actions@, step as int, baseline.files@).accesses,
            decreases order.len() - step,
        {
            let ghost st = infer_prefix(actions@, step as int, baseline.files@);
            assert(order@.map_values(|i: usize| i as int)[step as int] == sorder[step as int]);
            let action = &actions[order[step]];
            assert(*action == actions@[sorder[step as int]]);
            let access = infer_resources(action);
            let mut dependencies: BTreeSet<u64> = BTreeSet::new();
            let mut j: usize = 0;
            proof {
                assert(dependencies@ =~= writers_of_prefix(st, *action, access.reads@, 0));
            }
            while j < access.reads.len()
                invariant
                    j <= access.reads@.len(),
                    w.wf(),
                    w.agrees(st),
                    dependencies@ == writers_of_prefix(st, *action, access.reads@, j as int),
                decreases access.reads.len() - j,
            {
                match writer_for(&w, action, &access.reads[j], Ghost(st)) {
                    Some(d) => {
                        dependencies.insert(d);
                    },
                    None => {},
                }
                proof {
                    assert(dependencies@ =~= writers_of_prefix(st, *action, access.reads@, j + 1));
                }
                j += 1;
            }
            if !action.cwd_before.as_str().is_empty() {
                match w.cwd_writers.get(&action.cwd_before) {
                    Some(d) => {
                        dependencies.insert(d);
                    },
                    None => {},
                }
            }
            proof {
                let reads = access@.reads;
                let mapped = access.reads@.map_values(|r: Resource| r@);
                assert forall|d: u64| #[trigger] dependencies@.contains(d) == dependencies_of(st, *action, reads).contains(d) by {
                    if exists|jj: int| 0 <= jj < access.reads@.len() && #[trigger] writer_of(st, *action, access.reads@[jj]@) == Some(d) {
                        let jj = choose|jj: int| 0 <= jj < access.reads@.len() && #[trigger] writer_of(st, *action, access.reads@[jj]@) == Some(d);
                        assert(access.reads@.map_values(|r: Resource| r@)[jj] == access.reads@[jj]@);
                        assert(reads.contains(access.reads@[jj]@));
                    }
                    if exists|r: ResourceView| reads.contains(r) && #[trigger] writer_of(st, *action, r) == Some(d) {
                        let r = choose|r: ResourceView| reads.contains(r) && #[trigger] writer_of(st, *action, r) == Some(d);
                        let jj = choose|jj: int| 0 <= jj < mapped.len() && #[trigger] mapped[jj] == r;
                        assert(writer_of(st, *action, access.reads@[jj]@) == Some(d));
                    }
                }
                assert(dependencies@ =~= dependencies_of(st, *action, reads));
            }
            let ghost access_view = access@;
            let ghost deps_view = dependencies@;
            graph.hard_dependencies.insert(action.id, dependencies);
            graph.accesses.insert(action.id, access);
            proof {
                assert(graph.deps() =~= st.deps.insert(action.id, deps_view));
                assert(graph.access_views() =~= st.accesses.insert(action.id, access_view));
            }
            match &action.kind {
                ActionKind::FilePatch { files } => {
                    apply_patch_creators(&mut w.created_by, files, action.id, baseline);
                },
                ActionKind::SetEnvironment { key, .. } => {
                    w.environment_writer.insert(key.clone(), action.id);
                },
                ActionKind::UnsetEnvironment { key } => {
                    w.environment_writer.insert(key.clone(), action.id);
                },
                ActionKind::ChangeDirectory { path } => {
                    w.cwd_writers.insert(path.clone(), action.id);
                },
                ActionKind::ShellCommand { .. } => {},
            }
            proof {
                let next = infer_prefix(actions@, step + 1, baseline.files@);
                assert(next == infer_step(st, actions@[sorder[step as int]], baseline.files@));
                assert(w.agrees(next));
            }
            step += 1;
        }
        graph
    }
}

proof fn lemma_stable_order_bounds(keys: Seq<u64>, n: int)
    requires
        0 <= n,
    ensures
        stable_order(keys, n).len() == n,
        forall|q: int| 0 <= q < n ==> 0 <= #[trigger] stable_order(keys, n)[q] < n,
    decreases n,
{
    if n > 0 {
        lemma_stable_order_bounds(keys, n - 1);
        lemma_insert_stable_bounds(stable_order(keys, n - 1), keys, n - 1);
    }
}

proof fn lemma_insert_stable_bounds(idx: Seq<int>, keys: Seq<u64>, j: int)
    requires
        0 <= j,
        forall|q: int| 0 <= q < idx.len() ==> 0 <= #[trigger] idx[q] < j,
    ensures
        insert_stable(idx, keys, j).len() == idx.len() + 1,
        forall|q: int| 0 <= q < idx.len() + 1 ==> 0 <= #[trigger] insert_stable(idx, keys, j)[q] <= j,
    decreases idx.len(),
{
    if idx.len() > 0 && !(keys[idx.last()] <= keys[j]) {
        let d = idx.drop_last();
        assert forall|q: int| 0 <= q < d.len() implies 0 <= #[trigger] d[q] < j by {
            assert(d[q] == idx[q]);
        }
        lemma_insert_stable_bounds(d, keys, j);
    }
}

/// The action at position `j` of the recording order.
pub open spec fn recorded_at(actions: Seq<Action>, j: int) -> Action {
    actions[stable_order(recorded_orders(actions), actions.len() as int)[j]]
}

/// The ids of the first `k` actions in recording order.
pub open spec fn ids_before(actions: Seq<Action>, k: int) -> Set<u64> {
    Set::new(|d: u64| exists|j: int| 0 <= j < k && #[trigger] recorded_at(actions, j).id == d)
}

/// Every value of `m` is in `s`.
pub open spec fn values_in(m: Map<Seq<char>, u64>, s: Set<u64>) -> bool {
    forall|p: Seq<char>| #[trigger] m.contains_key(p) ==> s.contains(m[p])
}

proof fn lemma_patch_creators_values(cb: Map<Seq<char>, u64>, files: Seq<FileReplacement>, id: u64, baseline: Seq<crate::domain::snapshot::FileState>, s: Set<u64>)
    requires
        values_in(cb, s),
        s.contains(id),
    ensures
        values_in(patch_creators(cb, files, id, baseline), s),
    decreases files.len(),
{
    if files.len() > 0 {
        lemma_patch_creators_values(cb, files.drop_last(), id, baseline, s);
    }
}

proof fn lemma_infer_prefix(actions: Seq<Action>, k: int, baseline: Seq<crate::domain::snapshot::FileState>)
    requires
        0 <= k <= actions.len(),
    ensures
        values_in(infer_prefix(actions, k, baseline).created_by, ids_before(actions, k)),
        values_in(infer_prefix(actions, k, baseline).env_writer, ids_before(actions, k)),
        values_in(infer_prefix(actions, k, baseline).cwd_writers, ids_before(actions, k)),
        infer_prefix(actions, k, baseline).deps.dom() == ids_before(actions, k),
        forall|j: int|
            0 <= j < k && (forall|l: int| j < l < k ==> #[trigger] recorded_at(actions, l).id != recorded_at(actions, j).id)
                ==> infer_prefix(actions, k, baseline).deps[#[trigger] recorded_at(actions, j).id].subset_of(
                ids_before(actions, j)),
    decreases k,
{
    if k > 0 {
        lemma_infer_prefix(actions, k - 1, baseline);
        let st = infer_prefix(actions, k - 1, baseline);
        let a = recorded_at(actions, k - 1);
        let before = ids_before(actions, k - 1);
        let now = ids_before(actions, k);
        assert(now.contains(a.id)) by {
            assert(recorded_at(actions, k - 1).id == a.id);
        }
        assert(before.subset_of(now)) by {
            assert forall|d: u64| before.contains(d) implies now.contains(d) by {
                let j = choose|j: int| 0 <= j < k - 1 && #[trigger] recorded_at(actions, j).id == d;
                assert(recorded_at(actions, j).id == d);
            }
        }
        let order = stable_order(recorded_orders(actions), actions.len() as int);
        assert(infer_prefix(actions, k, baseline) == infer_step(st, actions[order[k - 1]], baseline));
        let next = infer_step(st, a, baseline);
        lemma_patch_creators_values(st.created_by, match a.kind {
            ActionKind::FilePatch { files } => files@,
            _ => Seq::empty(),
        }, a.id, baseline, now);
        let access = action_access(a.kind);
        assert(dependencies_of(st, a, access.reads).subset_of(before)) by {
            assert forall|d: u64| dependencies_of(st, a, access.reads).contains(d) implies before.contains(d) by {
                if exists|r: ResourceView| access.reads.contains(r) && #[trigger] writer_of(st, a, r) == Some(d) {
                    let r = choose|r: ResourceView| access.reads.contains(r) && #[trigger] writer_of(st, a, r) == Some(d);
                    match r {
                        ResourceView::File(p) => {},
                        ResourceView::EnvironmentVariable(v) => {},
                        ResourceView::WorkingDirectory => {},
                    }
                }
            }
        }
        assert(next.deps.dom() =~= now) by {
            assert forall|d: u64| now.contains(d) implies next.deps.dom().contains(d) by {
                let j = choose|j: int| 0 <= j < k && #[trigger] recorded_at(actions, j).id == d;
                if j < k - 1 {
                    assert(before.contains(d));
                }
            }
        }
        assert forall|j: int|
            0 <= j < k && (forall|l: int| j < l < k ==> #[trigger] recorded_at(actions, l).id != recorded_at(actions, j).id)
            implies next.deps[#[trigger] recorded_at(actions, j).id].subset_of(ids_before(actions, j)) by {
            if j < k - 1 {
                assert(recorded_at(actions, k - 1).id != recorded_at(actions, j).id);
                assert(forall|l: int| j < l < k - 1 ==> #[trigger] recorded_at(actions, l).id != recorded_at(actions, j).id);
            } else {
                assert(before == ids_before(actions, j));
            }
        }
    } else {
        assert(ids_before(actions, 0) =~= Set::<u64>::empty());
        assert(infer_prefix(actions, 0, baseline).deps.dom() =~= Set::<u64>::empty());
    }
}

/// Dependency inference covers every action and points only backwards: the inferred graph
/// has an entry for exactly the recorded actions' ids, and, when no two actions share an
/// id, every dependency of the action at position `j` of the recording order is the id of
/// an action recorded before it.
pub proof fn inferred_dependencies_point_back(actions: Seq<Action>, baseline: Seq<crate::domain::snapshot::FileState>)
    ensures
        spec_infer(actions, baseline).deps.dom() == actions.map_values(|a: Action| a.id).to_set(),
        actions.map_values(|a: Action| a.id).no_duplicates() ==> forall|j: int| 0 <= j < actions.len()
            ==> spec_infer(actions, baseline).deps[#[trigger] recorded_at(actions, j).id].subset_of(ids_before(actions, j)),
{
    let n = actions.len() as int;
    let ids = actions.map_values(|a: Action| a.id);
    let order = stable_order(recorded_orders(actions), n);
    lemma_stable_order_perm(recorded_orders(actions), n);
    lemma_infer_prefix(actions, n, baseline);
    assert(ids_before(actions, n) =~= ids.to_set()) by {
        assert forall|d: u64| ids_before(actions, n).contains(d) implies ids.to_set().contains(d) by {
            let j = choose|j: int| 0 <= j < n && #[trigger] recorded_at(actions, j).id == d;
            assert(0 <= order[j] < n);
            assert(ids[order[j]] == d);
        }
        assert forall|d: u64| ids.to_set().contains(d) implies ids_before(actions, n).contains(d) by {
            let i = choose|i: int| 0 <= i < n && ids[i] == d;
            assert(order.contains(i));
            let q = choose|q: int| 0 <= q < order.len() && order[q] == i;
            assert(recorded_at(actions, q).id == d);
        }
    }
    if ids.no_duplicates() {
        assert forall|j: int| 0 <= j < n implies spec_infer(actions, baseline).deps[#[trigger] recorded_at(actions, j).id].subset_of(ids_before(actions, j)) by {
            assert forall|l: int| j < l < n implies #[trigger] recorded_at(actions, l).id != recorded_at(actions, j).id by {
                assert(0 <= order[l] < n && 0 <= order[j] < n);
                assert(order[l] != order[j]);
                assert(ids[order[l]] != ids[order[j]]);
            }
        }
    }
}

/// `a` sets or unsets the environment variable `key`.
pub open spec fn writes_variable(a: Action, key: Seq<char>) -> bool {
    match a.kind {
        ActionKind::SetEnvironment { key: k, .. } => k@ == key,
        ActionKind::UnsetEnvironment { key: k } => k@ == key,
        _ => false,
    }
}

/// `a` changes into the directory `path`.
pub open spec fn enters_directory(a: Action, path: Seq<char>) -> bool {
    a.kind matches ActionKind::ChangeDirectory { path: p } && p@ == path
}

/// Position `m`, before `j` in recording order, holds the last action before `j` that sets
/// or unsets the environment variable `key`.
pub open spec fn last_variable_writer(actions: Seq<Action>, j: int, m: int, key: Seq<char>) -> bool {
    &&& 0 <= m < j
    &&& writes_variable(recorded_at(actions, m), key)
    &&& forall|l: int| m < l < j ==> !writes_variable(#[trigger] recorded_at(actions, l), key)
}

/// Position `m`, before `j` in recording order, holds the last action before `j` that
/// changes into the directory `path`.
pub open spec fn last_directory_entry(actions: Seq<Action>, j: int, m: int, path: Seq<char>) -> bool {
    &&& 0 <= m < j
    &&& enters_directory(recorded_at(actions, m), path)
    &&& forall|l: int| m < l < j ==> !enters_directory(#[trigger] recorded_at(actions, l), path)
}

proof fn lemma_latest_writers(actions: Seq<Action>, j: int, baseline: Seq<crate::domain::snapshot::FileState>, key: Seq<char>, path: Seq<char>)
    requires
        0 <= j <= actions.len(),
    ensures
        ({
            let st = infer_prefix(actions, j, baseline);
            &&& st.env_writer.contains_key(key) <==> exists|m: int| 0 <= m < j && writes_variable(#[trigger] recorded_at(actions, m), key)
            &&& st.env_writer.contains_key(key) ==> exists|m: int| #[trigger] last_variable_writer(actions, j, m, key)
                && st.env_writer[key] == recorded_at(actions, m).id
            &&& st.cwd_writers.contains_key(path) <==> exists|m: int| 0 <= m < j && enters_directory(#[trigger] recorded_at(actions, m), path)
            &&& st.cwd_writers.contains_key(path) ==> exists|m: int| #[trigger] last_directory_entry(actions, j, m, path)
                && st.cwd_writers[path] == recorded_at(actions, m).id
        }),
    decreases j,
{
    if j > 0 {
        lemma_latest_writers(actions, j - 1, baseline, key, path);
        let st = infer_prefix(actions, j - 1, baseline);
        let a = recorded_at(actions, j - 1);
        let order = stable_order(recorded_orders(actions), actions.len() as int);
        assert(infer_prefix(actions, j, baseline) == infer_step(st, actions[order[j - 1]], baseline));
        let next = infer_prefix(actions, j, baseline);
        if writes_variable(a, key) {
            assert(next.env_writer.contains_key(key) && next.env_writer[key] == a.id);
            assert(last_variable_writer(actions, j, j - 1, key));
        } else {
            assert(next.env_writer.contains_key(key) == st.env_writer.contains_key(key));
            assert(next.env_writer.contains_key(key) ==> next.env_writer[key] == st.env_writer[key]);
            if st.env_writer.contains_key(key) {
                let m = choose|m: int| #[trigger] last_variable_writer(actions, j - 1, m, key) && st.env_writer[key] == recorded_at(actions, m).id;
                assert(last_variable_writer(actions, j, m, key));
            }
            if exists|m: int| 0 <= m < j && writes_variable(#[trigger] recorded_at(actions, m), key) {
                let m = choose|m: int| 0 <= m < j && writes_variable(#[trigger] recorded_at(actions, m), key);
                assert(m < j - 1);
            }
        }
        if enters_directory(a, path) {
            assert(next.cwd_writers.contains_key(path) && next.cwd_writers[path] == a.id);
            assert(last_directory_entry(actions, j, j - 1, path));
        } else {
            assert(next.cwd_writers.contains_key(path) == st.cwd_writers.contains_key(path));
            assert(next.cwd_writers.contains_key(path) ==> next.cwd_writers[path] == st.cwd_writers[path]);
            if st.cwd_writers.contains_key(path) {
                let m = choose|m: int| #[trigger] last_directory_entry(actions, j - 1, m, path) && st.cwd_writers[path] == recorded_at(actions, m).id;
                assert(last_directory_entry(actions, j, m, path));
            }
            if exists|m: int| 0 <= m < j && enters_directory(#[trigger] recorded_at(actions, m), path) {
                let m = choose|m: int| 0 <= m < j && enters_directory(#[trigger] recorded_at(actions, m), path);
                assert(m < j - 1);
            }
        }
    }
}

/// `a` is a patch that gives the path `p` content.
pub open spec fn patch_writes(a: Action, p: Seq<char>) -> bool {
    a.kind matches ActionKind::FilePatch { files } && exists|k: int|
        0 <= k < files@.len() && #[trigger] files@[k].path@ == p && files@[k].content is Some
}

proof fn lemma_patch_creators_sound(cb: Map<Seq<char>, u64>, files: Seq<FileReplacement>, id: u64, baseline: Seq<crate::domain::snapshot::FileState>, p: Seq<char>)
    ensures
        patch_creators(cb, files, id, baseline).contains_key(p) ==> (cb.contains_key(p) && patch_creators(cb, files, id, baseline)[p] == cb[p]) || (
        patch_creators(cb, files, id, baseline)[p] == id && !has_path(baseline, p) && exists|k: int|
            0 <= k < files.len() && #[trigger] files[k].path@ == p && files[k].content is Some),
    decreases files.len(),
{
    if files.len() > 0 {
        lemma_patch_creators_sound(cb, files.drop_last(), id, baseline, p);
        let prev = patch_creators(cb, files.drop_last(), id, baseline);
        if prev.contains_key(p) && !(cb.contains_key(p) && prev[p] == cb[p]) {
            let k = choose|k: int| 0 <= k < files.drop_last().len() && #[trigger] files.drop_last()[k].path@ == p && files.drop_last()[k].content is Some;
            assert(files[k] == files.drop_last()[k]);
        }
        let f = files.last();
        if f.content is Some && !has_path(baseline, f.path@) && f.path@ == p && !prev.contains_key(p) {
            assert(files[files.len() - 1].path@ == p);
        }
    }
}

proof fn lemma_created_by_sound(actions: Seq<Action>, j: int, baseline: Seq<crate::domain::snapshot::FileState>, p: Seq<char>)
    requires
        0 <= j <= actions.len(),
    ensures
        infer_prefix(actions, j, baseline).created_by.contains_key(p) ==> !has_path(baseline, p) && exists|m: int|
            0 <= m < j && #[trigger] recorded_at(actions, m).id == infer_prefix(actions, j, baseline).created_by[p]
                && patch_writes(recorded_at(actions, m), p),
    decreases j,
{
    if j > 0 {
        lemma_created_by_sound(actions, j - 1, baseline, p);
        let st = infer_prefix(actions, j - 1, baseline);
        let a = recorded_at(actions, j - 1);
        let order = stable_order(recorded_orders(actions), actions.len() as int);
        assert(infer_prefix(actions, j, baseline) == infer_step(st, actions[order[j - 1]], baseline));
        let next = infer_prefix(actions, j, baseline);
        match a.kind {
            ActionKind::FilePatch { files } => {
                lemma_patch_creators_sound(st.created_by, files@, a.id, baseline, p);
                if next.created_by.contains_key(p) {
                    if st.created_by.contains_key(p) && next.created_by[p] == st.created_by[p] {
                        let m = choose|m: int| 0 <= m < j - 1 && #[trigger] recorded_at(actions, m).id == st.created_by[p]
                            && patch_writes(recorded_at(actions, m), p);
                        assert(recorded_at(actions, m).id == next.created_by[p]);
                    } else {
                        assert(patch_writes(a, p));
                        assert(recorded_at(actions, j - 1).id == next.created_by[p]);
                    }
                }
            },
            _ => {
                if next.created_by.contains_key(p) {
                    let m = choose|m: int| 0 <= m < j - 1 && #[trigger] recorded_at(actions, m).id == st.created_by[p]
                        && patch_writes(recorded_at(actions, m), p);
                    assert(recorded_at(actions, m).id == next.created_by[p]);
                }
            },
        }
    }
}

proof fn lemma_deps_stable(actions: Seq<Action>, j: int, k: int, baseline: Seq<crate::domain::snapshot::FileState>)
    requires
        0 <= j < k <= actions.len(),
        forall|l: int| j < l < k ==> #[trigger] recorded_at(actions, l).id != recorded_at(actions, j).id,
    ensures
        infer_prefix(actions, k, baseline).deps.contains_key(recorded_at(actions, j).id),
        infer_prefix(actions, k, baseline).deps[recorded_at(actions, j).id] == dependencies_of(
            infer_prefix(actions, j, baseline),
            recorded_at(actions, j),
            action_access(recorded_at(actions, j).kind).reads,
        ),
    decreases k,
{
    let order = stable_order(recorded_orders(actions), actions.len() as int);
    assert(infer_prefix(actions, k, baseline) == infer_step(infer_prefix(actions, k - 1, baseline), actions[order[k - 1]], baseline));
    if k > j + 1 {
        lemma_deps_stable(actions, j, k - 1, baseline);
        assert(recorded_at(actions, k - 1).id != recorded_at(actions, j).id);
    }
}

/// Each inferred dependency is a latest writer of something the action reads: when no two
/// actions share an id, `d` is a dependency of the action `a` at position `j` of the
/// recording order exactly when it is
/// - the last action before `a` that set or unset an environment variable `a` reads,
/// - for a file that `a` reads and the baseline lacks, the first action before `a` that
///   created it and left it present (no later action before `a` deleted it, and every
///   earlier creation was deleted again), or
/// - the last action before `a` that changed into `a`'s working directory, when `a` reads
///   the working directory or runs below the project root.
pub proof fn inferred_dependencies_are_latest_writers(actions: Seq<Action>, baseline: Seq<crate::domain::snapshot::FileState>, j: int, d: u64)
    requires
        actions.map_values(|a: Action| a.id).no_duplicates(),
        0 <= j < actions.len(),
    ensures
        ({
            let a = recorded_at(actions, j);
            let reads = action_access(a.kind).reads;
            spec_infer(actions, baseline).deps[a.id].contains(d) <==> {
                ||| exists|key: Seq<char>, m: int| #![trigger reads.contains(ResourceView::EnvironmentVariable(key)), last_variable_writer(actions, j, m, key)]
                    reads.contains(ResourceView::EnvironmentVariable(key)) && last_variable_writer(actions, j, m, key) && recorded_at(actions, m).id == d
                ||| exists|p: Seq<char>, m: int| #![trigger reads.contains(ResourceView::File(p)), first_creator(actions, j, m, p)]
                    reads.contains(ResourceView::File(p)) && !has_path(baseline, p) && first_creator(actions, j, m, p)
                        && recorded_at(actions, m).id == d
                ||| (reads.contains(ResourceView::WorkingDirectory) || a.cwd_before@.len() > 0) && exists|m: int|
                    #[trigger] last_directory_entry(actions, j, m, a.cwd_before@) && recorded_at(actions, m).id == d
            }
        }),
{
    let n = actions.len() as int;
    let ids = actions.map_values(|a: Action| a.id);
    let order = stable_order(recorded_orders(actions), n);
    lemma_stable_order_perm(recorded_orders(actions), n);
    assert forall|l: int| j < l < n implies #[trigger] recorded_at(actions, l).id != recorded_at(actions, j).id by {
        assert(0 <= order[l] < n && 0 <= order[j] < n);
        assert(order[l] != order[j]);
        assert(ids[order[l]] != ids[order[j]]);
    }
    lemma_deps_stable(actions, j, n, baseline);
    let a = recorded_at(actions, j);
    let st = infer_prefix(actions, j, baseline);
    let reads = action_access(a.kind).reads;
    let deps = dependencies_of(st, a, reads);
    if deps.contains(d) {
        if exists|r: ResourceView| reads.contains(r) && #[trigger] writer_of(st, a, r) == Some(d) {
            let r = choose|r: ResourceView| reads.contains(r) && #[trigger] writer_of(st, a, r) == Some(d);
            match r {
                ResourceView::File(p) => {
                    lemma_created_by_sound(actions, j, baseline, p);
                    lemma_creators_exact(actions, j, baseline, p);
                    let m = choose|m: int| #[trigger] first_creator(actions, j, m, p);
                    assert(reads.contains(ResourceView::File(p)) && first_creator(actions, j, m, p));
                },
                ResourceView::EnvironmentVariable(key) => {
                    lemma_latest_writers(actions, j, baseline, key, a.cwd_before@);
                    let m = choose|m: int| #[trigger] last_variable_writer(actions, j, m, key)
                        && st.env_writer[key] == recorded_at(actions, m).id;
                    assert(reads.contains(ResourceView::EnvironmentVariable(key)));
                },
                ResourceView::WorkingDirectory => {
                    lemma_latest_writers(actions, j, baseline, a.cwd_before@, a.cwd_before@);
                    let m = choose|m: int| #[trigger] last_directory_entry(actions, j, m, a.cwd_before@)
                        && st.cwd_writers[a.cwd_before@] == recorded_at(actions, m).id;
                },
            }
        } else {
            lemma_latest_writers(actions, j, baseline, a.cwd_before@, a.cwd_before@);
            let m = choose|m: int| #[trigger] last_directory_entry(actions, j, m, a.cwd_before@)
                && st.cwd_writers[a.cwd_before@] == recorded_at(actions, m).id;
        }
    }
    if exists|key: Seq<char>, m: int| #![trigger reads.contains(ResourceView::EnvironmentVariable(key)), last_variable_writer(actions, j, m, key)]
        reads.contains(ResourceView::EnvironmentVariable(key)) && last_variable_writer(actions, j, m, key)
            && recorded_at(actions, m).id == d {
        let (key, m) = choose|key: Seq<char>, m: int| #![trigger reads.contains(ResourceView::EnvironmentVariable(key)), last_variable_writer(actions, j, m, key)]
            reads.contains(ResourceView::EnvironmentVariable(key)) && last_variable_writer(actions, j, m, key)
                && recorded_at(actions, m).id == d;
        lemma_latest_writers(actions, j, baseline, key, a.cwd_before@);
        assert(writes_variable(recorded_at(actions, m), key));
        let m2 = choose|m2: int| #[trigger] last_variable_writer(actions, j, m2, key)
            && st.env_writer[key] == recorded_at(actions, m2).id;
        if m2 < m {
            assert(!writes_variable(recorded_at(actions, m), key));
        } else if m < m2 {
            assert(!writes_variable(recorded_at(actions, m2), key));
        }
        assert(writer_of(st, a, ResourceView::EnvironmentVariable(key)) == Some(d));
    }
    if exists|p: Seq<char>, m: int| #![trigger reads.contains(ResourceView::File(p)), first_creator(actions, j, m, p)]
        reads.contains(ResourceView::File(p)) && !has_path(baseline, p) && first_creator(actions, j, m, p)
            && recorded_at(actions, m).id == d {
        let (p, m) = choose|p: Seq<char>, m: int| #![trigger reads.contains(ResourceView::File(p)), first_creator(actions, j, m, p)]
            reads.contains(ResourceView::File(p)) && !has_path(baseline, p) && first_creator(actions, j, m, p)
                && recorded_at(actions, m).id == d;
        lemma_creators_exact(actions, j, baseline, p);
        assert(writer_of(st, a, ResourceView::File(p)) == Some(d));
    }
    if (reads.contains(ResourceView::WorkingDirectory) || a.cwd_before@.len() > 0) && exists|m: int|
        #[trigger] last_directory_entry(actions, j, m, a.cwd_before@) && recorded_at(actions, m).id == d {
        let m = choose|m: int| #[trigger] last_directory_entry(actions, j, m, a.cwd_before@) && recorded_at(actions, m).id == d;
        lemma_latest_writers(actions, j, baseline, a.cwd_before@, a.cwd_before@);
        assert(enters_directory(recorded_at(actions, m), a.cwd_before@));
        let m2 = choose|m2: int| #[trigger] last_directory_entry(actions, j, m2, a.cwd_before@)
            && st.cwd_writers[a.cwd_before@] == recorded_at(actions, m2).id;
        if m2 < m {
            assert(!enters_directory(recorded_at(actions, m), a.cwd_before@));
        } else if m < m2 {
            assert(!enters_directory(recorded_at(actions, m2), a.cwd_before@));
        }
        if reads.contains(ResourceView::WorkingDirectory) {
            assert(writer_of(st, a, ResourceView::WorkingDirectory) == Some(d));
        }
    }
}

/// Some entry of `files` is for the path `p`.
pub open spec fn entries_touch(files: Seq<FileReplacement>, p: Seq<char>) -> bool {
    exists|k: int| 0 <= k < files.len() && (#[trigger] files[k]).path@ == p
}

/// Some entry of `files` deletes the path `p`.
pub open spec fn entries_delete(files: Seq<FileReplacement>, p: Seq<char>) -> bool {
    exists|k: int| 0 <= k < files.len() && (#[trigger] files[k]).path@ == p && files[k].content is None
}

/// The last entry of `files` for the path `p` gives it content.
pub open spec fn entries_leave(files: Seq<FileReplacement>, p: Seq<char>) -> bool {
    exists|k: int|
        0 <= k < files.len() && (#[trigger] files[k]).path@ == p && files[k].content is Some && forall|k2: int|
            k < k2 < files.len() ==> (#[trigger] files[k2]).path@ != p
}

proof fn lemma_patch_effect(cb: Map<Seq<char>, u64>, files: Seq<FileReplacement>, id: u64, baseline: Seq<crate::domain::snapshot::FileState>, p: Seq<char>)
    requires
        !has_path(baseline, p),
    ensures
        ({
            let r = patch_creators(cb, files, id, baseline);
            &&& entries_touch(files, p) ==> entries_leave(files, p) || entries_delete(files, p)
            &&& !entries_touch(files, p) ==> r.contains_key(p) == cb.contains_key(p) && (cb.contains_key(p) ==> r[p] == cb[p])
            &&& entries_touch(files, p) && !entries_leave(files, p) ==> !r.contains_key(p)
            &&& entries_leave(files, p) && entries_delete(files, p) ==> r.contains_key(p) && r[p] == id
            &&& entries_leave(files, p) && !entries_delete(files, p) ==> r.contains_key(p) && r[p] == (if cb.contains_key(p) {
                cb[p]
            } else {
                id
            })
        }),
    decreases files.len(),
{
    if files.len() > 0 {
        let init = files.drop_last();
        let f = files.last();
        let last = files.len() - 1;
        assert(files[last] == f);
        lemma_patch_effect(cb, init, id, baseline, p);
        let prev = patch_creators(cb, init, id, baseline);
        assert forall|k: int| 0 <= k < init.len() implies #[trigger] init[k] == files[k] by {}
        if f.path@ != p {
            assert(entries_touch(files, p) == entries_touch(init, p)) by {
                if entries_touch(files, p) {
                    let k = choose|k: int| 0 <= k < files.len() && (#[trigger] files[k]).path@ == p;
                    assert(init[k] == files[k]);
                }
                if entries_touch(init, p) {
                    let k = choose|k: int| 0 <= k < init.len() && (#[trigger] init[k]).path@ == p;
                    assert(init[k] == files[k]);
                }
            }
            assert(entries_delete(files, p) == entries_delete(init, p)) by {
                if entries_delete(files, p) {
                    let k = choose|k: int| 0 <= k < files.len() && (#[trigger] files[k]).path@ == p && files[k].content is None;
                    assert(init[k] == files[k]);
                }
                if entries_delete(init, p) {
                    let k = choose|k: int| 0 <= k < init.len() && (#[trigger] init[k]).path@ == p && init[k].content is None;
                    assert(init[k] == files[k]);
                }
            }
            assert(entries_leave(files, p) == entries_leave(init, p)) by {
                if entries_leave(files, p) {
                    let k = choose|k: int|
                        0 <= k < files.len() && (#[trigger] files[k]).path@ == p && files[k].content is Some && forall|k2: int|
                            k < k2 < files.len() ==> (#[trigger] files[k2]).path@ != p;
                    assert(init[k] == files[k]);
                    assert forall|k2: int| k < k2 < init.len() implies (#[trigger] init[k2]).path@ != p by {
                        assert(init[k2] == files[k2]);
                    }
                }
                if entries_leave(init, p) {
                    let k = choose|k: int|
                        0 <= k < init.len() && (#[trigger] init[k]).path@ == p && init[k].content is Some && forall|k2: int|
                            k < k2 < init.len() ==> (#[trigger] init[k2]).path@ != p;
                    assert(init[k] == files[k]);
                    assert forall|k2: int| k < k2 < files.len() implies (#[trigger] files[k2]).path@ != p by {
                        if k2 < init.len() {
                            assert(init[k2] == files[k2]);
                        }
                    }
                }
            }
        } else if f.content is Some {
            assert(entries_leave(files, p)) by {
                assert(files[last].path@ == p);
            }
            assert(entries_delete(files, p) == entries_delete(init, p)) by {
                if entries_delete(files, p) {
                    let k = choose|k: int| 0 <= k < files.len() && (#[trigger] files[k]).path@ == p && files[k].content is None;
                    assert(k != last);
                    assert(init[k] == files[k]);
                }
                if entries_delete(init, p) {
                    let k = choose|k: int| 0 <= k < init.len() && (#[trigger] init[k]).path@ == p && init[k].content is None;
                    assert(init[k] == files[k]);
                }
            }
            if entries_touch(init, p) && !entries_leave(init, p) {
                assert(!prev.contains_key(p));
            }
        } else {
            assert(entries_delete(files, p)) by {
                assert(files[last].path@ == p);
            }
            assert(entries_touch(files, p)) by {
                assert(files[last].path@ == p);
            }
            assert(!entries_leave(files, p)) by {
                if entries_leave(files, p) {
                    let k = choose|k: int|
                        0 <= k < files.len() && (#[trigger] files[k]).path@ == p && files[k].content is Some && forall|k2: int|
                            k < k2 < files.len() ==> (#[trigger] files[k2]).path@ != p;
                    assert(k != last);
                    assert(files[last].path@ != p);
                }
            }
        }
    }
}

/// `a` is a patch whose last entry for `p` gives it content.
pub open spec fn leaves_content(a: Action, p: Seq<char>) -> bool {
    a.kind matches ActionKind::FilePatch { files } && entries_leave(files@, p)
}

/// `a` is a patch with an entry that deletes `p`.
pub open spec fn deletes_path(a: Action, p: Seq<char>) -> bool {
    a.kind matches ActionKind::FilePatch { files } && entries_delete(files@, p)
}

/// The action at position `m`, before `j` in recording order, left `p` with content and
/// no action after it and before `j` deletes `p`.
pub open spec fn present_since(actions: Seq<Action>, j: int, m: int, p: Seq<char>) -> bool {
    &&& 0 <= m < j
    &&& leaves_content(recorded_at(actions, m), p)
    &&& forall|l: int| m < l < j ==> !deletes_path(#[trigger] recorded_at(actions, l), p)
}

/// The action at position `m` is the first creator of `p` still present before `j`: it
/// left `p` with content, nothing deleted `p` after it, and every earlier action that left
/// `p` with content was followed by a deletion of `p` up to `m`.
pub open spec fn first_creator(actions: Seq<Action>, j: int, m: int, p: Seq<char>) -> bool {
    &&& present_since(actions, j, m, p)
    &&& forall|l: int|
        0 <= l < m && leaves_content(#[trigger] recorded_at(actions, l), p) ==> exists|l2: int|
            l < l2 <= m && deletes_path(#[trigger] recorded_at(actions, l2), p)
}

proof fn lemma_creators_exact(actions: Seq<Action>, j: int, baseline: Seq<crate::domain::snapshot::FileState>, p: Seq<char>)
    requires
        0 <= j <= actions.len(),
        !has_path(baseline, p),
    ensures
        ({
            let cb = infer_prefix(actions, j, baseline).created_by;
            &&& cb.contains_key(p) <==> exists|m: int| #[trigger] present_since(actions, j, m, p)
            &&& cb.contains_key(p) ==> exists|m: int| #[trigger] first_creator(actions, j, m, p)
            &&& forall|m: int| #[trigger] first_creator(actions, j, m, p) ==> cb.contains_key(p) && cb[p] == recorded_at(actions, m).id
        }),
    decreases j,
{
    if j > 0 {
        lemma_creators_exact(actions, j - 1, baseline, p);
        let st = infer_prefix(actions, j - 1, baseline);
        let a = recorded_at(actions, j - 1);
        let order = stable_order(recorded_orders(actions), actions.len() as int);
        assert(infer_prefix(actions, j, baseline) == infer_step(st, actions[order[j - 1]], baseline));
        let next = infer_prefix(actions, j, baseline).created_by;
        let prev = st.created_by;
        let leaves = leaves_content(a, p);
        let dels = deletes_path(a, p);
        match a.kind {
            ActionKind::FilePatch { files } => {
                lemma_patch_effect(prev, files@, a.id, baseline, p);
                if leaves {
                    let k = choose|k: int|
                        0 <= k < files@.len() && (#[trigger] files@[k]).path@ == p && files@[k].content is Some && forall|k2: int|
                            k < k2 < files@.len() ==> (#[trigger] files@[k2]).path@ != p;
                    assert(entries_touch(files@, p));
                }
                if dels {
                    let k = choose|k: int| 0 <= k < files@.len() && (#[trigger] files@[k]).path@ == p && files@[k].content is None;
                    assert(entries_touch(files@, p));
                }
            },
            _ => {},
        }
        // Positions before j - 1 keep their standing when `a` does not delete `p`.
        assert forall|m: int| 0 <= m < j - 1 && !dels implies (#[trigger] present_since(actions, j, m, p) <==> present_since(actions, j - 1, m, p)) by {}
        assert forall|m: int| 0 <= m < j - 1 && !dels implies (#[trigger] first_creator(actions, j, m, p) <==> first_creator(actions, j - 1, m, p)) by {}
        if !leaves && !dels {
            assert(next.contains_key(p) == prev.contains_key(p) && (prev.contains_key(p) ==> next[p] == prev[p]));
            if exists|m: int| #[trigger] present_since(actions, j - 1, m, p) {
                let m = choose|m: int| #[trigger] present_since(actions, j - 1, m, p);
                assert(present_since(actions, j, m, p));
            }
            if exists|m: int| #[trigger] present_since(actions, j, m, p) {
                let m = choose|m: int| #[trigger] present_since(actions, j, m, p);
                assert(present_since(actions, j - 1, m, p));
            }
            if prev.contains_key(p) {
                let m = choose|m: int| #[trigger] first_creator(actions, j - 1, m, p);
                assert(first_creator(actions, j, m, p));
            }
            assert forall|m: int| #[trigger] first_creator(actions, j, m, p) implies next.contains_key(p) && next[p] == recorded_at(actions, m).id by {
                assert(first_creator(actions, j - 1, m, p));
            }
        } else if !leaves && dels {
            assert(!next.contains_key(p));
            assert forall|m: int| !(#[trigger] present_since(actions, j, m, p)) by {
                if present_since(actions, j, m, p) && m < j - 1 {
                    assert(!deletes_path(recorded_at(actions, j - 1), p));
                }
            }
        } else if leaves && dels {
            assert(next.contains_key(p) && next[p] == a.id);
            assert(present_since(actions, j, j - 1, p));
            assert(first_creator(actions, j, j - 1, p)) by {
                assert forall|l: int| 0 <= l < j - 1 && leaves_content(#[trigger] recorded_at(actions, l), p) implies exists|l2: int|
                    l < l2 <= j - 1 && deletes_path(#[trigger] recorded_at(actions, l2), p) by {
                    assert(deletes_path(recorded_at(actions, j - 1), p));
                }
            }
            assert forall|m: int| #[trigger] first_creator(actions, j, m, p) implies next.contains_key(p) && next[p] == recorded_at(actions, m).id by {
                if m < j - 1 {
                    assert(!deletes_path(recorded_at(actions, j - 1), p));
                }
            }
        } else {
            assert(present_since(actions, j, j - 1, p));
            if prev.contains_key(p) {
                let m0 = choose|m0: int| #[trigger] first_creator(actions, j - 1, m0, p);
                assert(prev[p] == recorded_at(actions, m0).id);
                assert(next.contains_key(p) && next[p] == prev[p]);
                assert(first_creator(actions, j, m0, p));
                assert forall|m: int| #[trigger] first_creator(actions, j, m, p) implies next.contains_key(p) && next[p] == recorded_at(actions, m).id by {
                    if m == j - 1 {
                        assert(leaves_content(recorded_at(actions, m0), p));
                        let l2 = choose|l2: int| m0 < l2 <= j - 1 && deletes_path(#[trigger] recorded_at(actions, l2), p);
                        assert(l2 != j - 1);
                        assert(!deletes_path(recorded_at(actions, l2), p));
                    } else {
                        assert(first_creator(actions, j - 1, m, p));
                    }
                }
            } else {
                assert(next.contains_key(p) && next[p] == a.id);
                assert(first_creator(actions, j, j - 1, p)) by {
                    assert forall|l: int| 0 <= l < j - 1 && leaves_content(#[trigger] recorded_at(actions, l), p) implies exists|l2: int|
                        l < l2 <= j - 1 && deletes_path(#[trigger] recorded_at(actions, l2), p) by {
                        assert(!present_since(actions, j - 1, l, p));
                        let l2 = choose|l2: int| l < l2 < j - 1 && deletes_path(#[trigger] recorded_at(actions, l2), p);
                    }
                }
                assert forall|m: int| #[trigger] first_creator(actions, j, m, p) implies next.contains_key(p) && next[p] == recorded_at(actions, m).id by {
                    if m < j - 1 {
                        assert(present_since(actions, j - 1, m, p));
                    }
                }
            }
        }
    }
}

proof fn lemma_no_options_are_all_positional(args: Seq<Seq<char>>)
    requires
        forall|k: int| 0 <= k < args.len() ==> !((#[trigger] args[k]).len() > 0 && args[k][0] == '-'),
    ensures
        positional_args(args) == args,
    decreases args.len(),
{
    reveal(Seq::filter);
    if args.len() > 0 {
        lemma_no_options_are_all_positional(args.drop_last());
        assert(args.drop_last().push(args.last()) =~= args);
    }
}

proof fn lemma_file_set_has(ps: Seq<Seq<char>>, k: int)
    requires
        0 <= k < ps.len(),
    ensures
        file_set(ps).contains(ResourceView::File(ps[k])),
{
    assert(ps.map_values(|p: Seq<char>| ResourceView::File(p))[k] == ResourceView::File(ps[k]));
}

/// `mv SRC.. DST` and `cp SRC.. DST`, with no options and at least one source, are
/// understood: every source is read, the destination is written, and a move also writes
/// (removes) every source.
pub proof fn copies_and_moves_read_their_sources(command: Seq<char>, words: Seq<Seq<char>>)
    requires
        words.len() >= 3,
        program_name(words[0]) == "mv"@ || program_name(words[0]) == "cp"@,
        forall|k: int|
            0 <= k < words.len() ==> #[trigger] words[k] != "&&"@ && words[k] != "||"@ && words[k] != ";"@ && words[k]
                != "|"@,
        forall|k: int| 1 <= k < words.len() ==> !((#[trigger] words[k]).len() > 0 && words[k][0] == '-'),
    ensures
        !words_access(command, words).opaque,
        forall|k: int|
            1 <= k < words.len() - 1 ==> words_access(command, words).reads.contains(ResourceView::File(#[trigger] words[k])),
        words_access(command, words).writes.contains(ResourceView::File(words[words.len() - 1])),
        program_name(words[0]) == "mv"@ ==> forall|k: int|
            1 <= k < words.len() - 1 ==> words_access(command, words).writes.contains(ResourceView::File(#[trigger] words[k])),
{
    reveal_strlit("mv");
    reveal_strlit("cp");
    reveal_strlit("chmod");
    let args = words.drop_first();
    assert forall|k: int| 0 <= k < args.len() implies !((#[trigger] args[k]).len() > 0 && args[k][0] == '-') by {
        assert(args[k] == words[k + 1]);
    }
    lemma_no_options_are_all_positional(args);
    assert(!exists|i: int| 0 <= i < words.len() && #[trigger] is_operator(words[i]));
    let sources = args.drop_last();
    assert(args.last() == words[words.len() - 1]);
    lemma_file_set_has(seq![args.last()], 0);
    assert forall|k: int| 1 <= k < words.len() - 1 implies file_set(sources).contains(ResourceView::File(#[trigger] words[k])) by {
        assert(sources[k - 1] == words[k]);
        lemma_file_set_has(sources, k - 1);
    }
    let base = AccessView {
        reads: set![ResourceView::WorkingDirectory] + env_reads(command),
        writes: Set::empty(),
        opaque: false,
    };
    let program = program_name(words[0]);
    assert("mv"@.len() == 2 && "cp"@.len() == 2 && "chmod"@.len() == 5);
    assert("mv"@[0] == 'm' && "cp"@[0] == 'c');
    assert(program != "chmod"@);
    if program == "mv"@ {
        assert(program != "cp"@);
        assert(words_access(command, words) == copy_or_move_view(base, args, true));
    } else {
        assert(words_access(command, words) == copy_or_move_view(base, args, false));
    }
}

proof fn lemma_name_run_end(s: Seq<char>, j: int, e: int)
    requires
        0 <= j <= e <= s.len(),
        forall|k: int| j <= k < e ==> is_name_char(#[trigger] s[k]),
        e == s.len() || !is_name_char(s[e]),
    ensures
        name_end(s, j) == e,
    decreases e - j,
{
    if j < e {
        lemma_name_run_end(s, j + 1, e);
    }
}

/// A variable reference in a command is a read of the variable: when the `$` at `i` is
/// followed by a name (after a `{` when `braced`), that is, by a non-empty run of ASCII
/// letters, digits and underscores that ends the text or is followed by another character,
/// the command's explicit environment reads hold that name, and so do the reads of any
/// command built from it that joins no commands.
pub proof fn variable_references_are_reads(s: Seq<char>, i: int, braced: bool, e: int)
    requires
        0 <= i < s.len(),
        s[i] == '$',
        braced ==> i + 1 < s.len() && s[i + 1] == '{',
        (if braced { i + 2 } else { i + 1 }) < e <= s.len(),
        forall|k: int|
            (if braced { i + 2 } else { i + 1 }) <= k < e ==> ('a' <= #[trigger] s[k] && s[k] <= 'z') || ('A' <= s[k]
                && s[k] <= 'Z') || ('0' <= s[k] && s[k] <= '9') || s[k] == '_',
        e == s.len() || !(('a' <= s[e] && s[e] <= 'z') || ('A' <= s[e] && s[e] <= 'Z') || ('0' <= s[e] && s[e] <= '9')
            || s[e] == '_'),
    ensures
        ({
            let name = s.subrange(if braced { i + 2 } else { i + 1 }, e);
            &&& env_reads(s).contains(ResourceView::EnvironmentVariable(name))
            &&& forall|words: Seq<Seq<char>>|
                words.len() > 0 && (forall|k: int| 0 <= k < words.len() ==> !is_operator(#[trigger] words[k]))
                    ==> #[trigger] words_access(s, words).reads.contains(ResourceView::EnvironmentVariable(name))
        }),
{
    let start = if braced { i + 2 } else { i + 1 };
    if !braced {
        assert(is_name_char(s[i + 1]));
    }
    assert(name_start(s, i) == start);
    lemma_name_run_end(s, start, e);
    assert(names_variable(s, i));
    let name = s.subrange(start, e);
    assert(env_reads(s).contains(ResourceView::EnvironmentVariable(name)));
    assert forall|words: Seq<Seq<char>>|
        words.len() > 0 && (forall|k: int| 0 <= k < words.len() ==> !is_operator(#[trigger] words[k])) implies
        #[trigger] words_access(s, words).reads.contains(ResourceView::EnvironmentVariable(name)) by {
        assert(!exists|k: int| 0 <= k < words.len() && #[trigger] is_operator(words[k]));
    }
}

/// What the other understood programs touch, for a command of plain words (no options, no
/// operators): every such command reads the working directory; `rm` writes each path, `cat`
/// reads each path, `chmod MODE PATH..` reads and writes each path, `cargo` reads the
/// manifest, the lock file and `src` and writes `target`; `ls`, `pwd`, `true`, `false` and
/// `test` write nothing; any other program has effects that cannot be seen.
pub proof fn listed_programs_access(command: Seq<char>, words: Seq<Seq<char>>)
    requires
        words.len() >= 1,
        forall|k: int|
            0 <= k < words.len() ==> #[trigger] words[k] != "&&"@ && words[k] != "||"@ && words[k] != ";"@ && words[k]
                != "|"@,
        forall|k: int| 1 <= k < words.len() ==> !((#[trigger] words[k]).len() > 0 && words[k][0] == '-'),
    ensures
        ({
            let a = words_access(command, words);
            let p = program_name(words[0]);
            &&& a.reads.contains(ResourceView::WorkingDirectory)
            &&& p == "rm"@ ==> !a.opaque && forall|k: int|
                1 <= k < words.len() ==> a.writes.contains(ResourceView::File(#[trigger] words[k]))
            &&& p == "cat"@ ==> !a.opaque && forall|k: int|
                1 <= k < words.len() ==> a.reads.contains(ResourceView::File(#[trigger] words[k]))
            &&& p == "chmod"@ ==> !a.opaque && forall|k: int|
                2 <= k < words.len() ==> a.reads.contains(ResourceView::File(#[trigger] words[k]))
                    && a.writes.contains(ResourceView::File(words[k]))
            &&& p == "cargo"@ ==> !a.opaque && a.reads.contains(ResourceView::File("Cargo.toml"@)) && a.reads.contains(
                ResourceView::File("Cargo.lock"@),
            ) && a.reads.contains(ResourceView::File("src"@)) && a.writes.contains(ResourceView::File("target"@))
            &&& (p == "ls"@ || p == "pwd"@ || p == "true"@ || p == "false"@ || p == "test"@) ==> !a.opaque
                && a.writes == Set::<ResourceView>::empty()
            &&& !(p == "chmod"@ || p == "cp"@ || p == "mv"@ || p == "rm"@ || p == "cat"@ || p == "cargo"@ || p == "ls"@
                || p == "pwd"@ || p == "true"@ || p == "false"@ || p == "test"@) ==> a.opaque
        }),
{
    reveal_strlit("chmod");
    reveal_strlit("cp");
    reveal_strlit("mv");
    reveal_strlit("rm");
    reveal_strlit("cat");
    reveal_strlit("cargo");
    reveal_strlit("ls");
    reveal_strlit("pwd");
    reveal_strlit("true");
    reveal_strlit("false");
    reveal_strlit("test");
    assert("chmod"@.len() == 5);
    assert("cp"@.len() == 2);
    assert("mv"@.len() == 2);
    assert("rm"@.len() == 2);
    assert("cat"@.len() == 3);
    assert("cargo"@.len() == 5);
    assert("ls"@.len() == 2);
    assert("pwd"@.len() == 3);
    assert("true"@.len() == 4);
    assert("false"@.len() == 5);
    assert("test"@.len() == 4);
    assert("cargo"@[0] == 'c');
    assert("cargo"@[1] == 'a');
    assert("cat"@[0] == 'c');
    assert("chmod"@[0] == 'c');
    assert("chmod"@[1] == 'h');
    assert("cp"@[0] == 'c');
    assert("false"@[0] == 'f');
    assert("ls"@[0] == 'l');
    assert("mv"@[0] == 'm');
    assert("pwd"@[0] == 'p');
    assert("rm"@[0] == 'r');
    assert("test"@[1] == 'e');
    assert("true"@[1] == 'r');
    let args = words.drop_first();
    assert forall|k: int| 0 <= k < args.len() implies !((#[trigger] args[k]).len() > 0 && args[k][0] == '-') by {
        assert(args[k] == words[k + 1]);
    }
    lemma_no_options_are_all_positional(args);
    assert(!exists|i: int| 0 <= i < words.len() && #[trigger] is_operator(words[i]));
    let a = words_access(command, words);
    let p = program_name(words[0]);
    assert forall|k: int| 1 <= k < words.len() implies file_set(args).contains(ResourceView::File(#[trigger] words[k])) by {
        assert(args[k - 1] == words[k]);
        lemma_file_set_has(args, k - 1);
    }
    if args.len() > 0 {
        assert forall|k: int| 2 <= k < words.len() implies file_set(after_first(args)).contains(
            ResourceView::File(#[trigger] words[k]),
        ) by {
            assert(after_first(args)[k - 2] == words[k]);
            lemma_file_set_has(after_first(args), k - 2);
        }
    }
}

/// Options are skipped and nothing else: a word is a positional argument exactly when it is
/// one of the arguments and does not start with `-`.
pub proof fn positional_arguments_are_the_non_options(args: Seq<Seq<char>>, w: Seq<char>)
    ensures
        positional_args(args).contains(w) <==> args.contains(w) && !(w.len() > 0 && w[0] == '-'),
{
    let pred = |a: Seq<char>| !(a.len() > 0 && a[0] == '-');
    if positional_args(args).contains(w) {
        args.lemma_filter_contains_rev(pred, w);
        let i = choose|i: int| 0 <= i < positional_args(args).len() && positional_args(args)[i] == w;
        args.lemma_filter_pred(pred, i);
    }
    if args.contains(w) && !(w.len() > 0 && w[0] == '-') {
        let i = choose|i: int| 0 <= i < args.len() && args[i] == w;
        args.lemma_filter_contains(pred, i);
    }
}

/// `mv` and `cp` read every source among their positional arguments (all but the last),
/// whatever options come with them, and write the last; `mv` also writes its sources.
pub proof fn copies_and_moves_read_positional_sources(command: Seq<char>, words: Seq<Seq<char>>)
    requires
        words.len() >= 1,
        program_name(words[0]) == "mv"@ || program_name(words[0]) == "cp"@,
        forall|k: int|
            0 <= k < words.len() ==> #[trigger] words[k] != "&&"@ && words[k] != "||"@ && words[k] != ";"@ && words[k]
                != "|"@,
        positional_args(words.drop_first()).len() >= 2,
    ensures
        ({
            let a = words_access(command, words);
            let paths = positional_args(words.drop_first());
            &&& !a.opaque
            &&& forall|k: int| 0 <= k < paths.len() - 1 ==> a.reads.contains(ResourceView::File(#[trigger] paths[k]))
            &&& a.writes.contains(ResourceView::File(paths.last()))
            &&& program_name(words[0]) == "mv"@ ==> forall|k: int|
                0 <= k < paths.len() - 1 ==> a.writes.contains(ResourceView::File(#[trigger] paths[k]))
        }),
{
    reveal_strlit("mv");
    reveal_strlit("cp");
    reveal_strlit("chmod");
    assert("mv"@.len() == 2 && "cp"@.len() == 2 && "chmod"@.len() == 5);
    assert("mv"@[0] == 'm' && "cp"@[0] == 'c');
    assert(!exists|i: int| 0 <= i < words.len() && #[trigger] is_operator(words[i]));
    let args = positional_args(words.drop_first());
    let sources = args.drop_last();
    lemma_file_set_has(seq![args.last()], 0);
    assert forall|k: int| 0 <= k < args.len() - 1 implies file_set(sources).contains(ResourceView::File(#[trigger] args[k])) by {
        assert(sources[k] == args[k]);
        lemma_file_set_has(sources, k);
    }
    let base = AccessView {
        reads: set![ResourceView::WorkingDirectory] + env_reads(command),
        writes: Set::empty(),
        opaque: false,
    };
    let program = program_name(words[0]);
    if program == "mv"@ {
        assert(words_access(command, words) == copy_or_move_view(base, args, true));
    } else {
        assert(words_access(command, words) == copy_or_move_view(base, args, false));
    }
}

} // verus!

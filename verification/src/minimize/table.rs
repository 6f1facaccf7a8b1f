use vstd::prelude::*;
use std::collections::{BTreeMap, BTreeSet};
use crate::domain::action::Action;
use crate::ids::{lemma_increasing_len, lemma_sorted_seq, sorted_members, sorted_seq, strictly_increasing};
use crate::minimize::ddmin::CandidateTester;
use crate::minimize::dependency::{closed_under, lemma_btree_set_finite, lemma_closure_exists, lemma_set_iter_members, spec_closure, DependencyGraph};
use crate::order::{lemma_stable_order_perm, stable_order, stable_order_indices};
use vstd::std_specs::iter::IteratorSpec;

verus! {

broadcast use {vstd::std_specs::btree::group_btree_axioms, vstd::laws_cmp::group_laws_cmp};

/// The ids of the actions, in recorded order.
pub open spec fn ids_of(actions: Seq<Action>) -> Seq<u64> {
    actions.map_values(|a: Action| a.id)
}

/// The known ids of `c` in replay order: ascending by id, then stably by recorded order.
pub open spec fn replay_order(orders: Map<u64, u64>, c: Set<u64>) -> Seq<u64> {
    let asc = sorted_seq(c.intersect(orders.dom()));
    stable_order(asc.map_values(|id: u64| orders[id]), asc.len() as int).map_values(|k: int| asc[k])
}

/// The recorded actions that a minimization may use, each id with its recorded
/// position, and the dependencies between them.
pub struct ActionTable {
    graph: DependencyGraph,
    orders: BTreeMap<u64, u64>,
}

impl ActionTable {
    /// Each known id with its recorded position.
    pub closed spec fn orders(&self) -> Map<u64, u64> {
        self.orders@
    }

    /// The dependencies between the actions.
    pub closed spec fn graph(&self) -> DependencyGraph {
        self.graph
    }

    /// The dependencies between the actions.
    pub fn dependency_graph(&self) -> (res: &DependencyGraph)
        ensures
            *res == self.graph(),
    {
        &self.graph
    }

    /// The dependencies, taking the table apart.
    pub fn into_graph(self) -> (res: DependencyGraph)
        ensures
            res == self.graph(),
    {
        self.graph
    }

    /// The ids of the known actions.
    pub open spec fn known(&self) -> Set<u64> {
        self.orders().dom()
    }

    /// The table of `actions`; refused when two actions share an id.
    pub fn new(actions: &Vec<Action>, graph: DependencyGraph) -> (res: Option<ActionTable>)
        ensures
            res is Some <==> ids_of(actions@).no_duplicates(),
            res matches Some(t) ==> {
                &&& t.graph() == graph
                &&& t.known() == ids_of(actions@).to_set()
                &&& forall|i: int| 0 <= i < actions@.len() ==> t.orders()[#[trigger] actions@[i].id]
                    == actions@[i].original_order
            },
    {
        let ghost ids = ids_of(actions@);
        let mut orders: BTreeMap<u64, u64> = BTreeMap::new();
        let mut i: usize = 0;
        while i < actions.len()
            invariant
                i <= actions@.len(),
                ids == ids_of(actions@),
                ids.take(i as int).no_duplicates(),
                orders@.dom() == ids.take(i as int).to_set(),
                forall|j: int| 0 <= j < i ==> orders@[#[trigger] actions@[j].id] == actions@[j].original_order,
            decreases actions.len() - i,
        {
            let a = &actions[i];
            let ghost before = orders@;
            match orders.insert(a.id, a.original_order) {
                Some(_) => {
                    proof {
                        assert(ids.take(i as int).to_set().contains(a.id));
                        let j = choose|j: int| 0 <= j < i && ids.take(i as int)[j] == a.id;
                        assert(ids[j] == ids[i as int]);
                    }
                    return None;
                },
                None => {},
            }
            proof {
                assert(ids[i as int] == a.id);
                assert(ids.take(i + 1) =~= ids.take(i as int).push(a.id));
                assert(!ids.take(i as int).contains(a.id)) by {
                    if ids.take(i as int).contains(a.id) {
                        assert(ids.take(i as int).to_set().contains(a.id));
                    }
                }
                let t1 = ids.take(i + 1);
                let t0 = ids.take(i as int);
                assert forall|x: u64| #[trigger] orders@.dom().contains(x) == t1.to_set().contains(x) by {
                    if t1.to_set().contains(x) {
                        let j = choose|j: int| 0 <= j < t1.len() && t1[j] == x;
                        if j < i {
                            assert(t0[j] == x);
                            assert(t0.to_set().contains(x));
                        }
                    }
                    if before.dom().contains(x) {
                        let j = choose|j: int| 0 <= j < t0.len() && t0[j] == x;
                        assert(t1[j] == x);
                    }
                    if x == a.id {
                        assert(t1[i as int] == x);
                    }
                }
                assert(orders@.dom() =~= ids.take(i + 1).to_set());
                assert forall|j: int| 0 <= j < i + 1 implies orders@[#[trigger] actions@[j].id] == actions@[j].original_order by {
                    if j < i {
                        assert(ids.take(i as int)[j] == actions@[j].id);
                        assert(ids.take(i as int).to_set().contains(actions@[j].id));
                        assert(actions@[j].id != a.id);
                    }
                }
            }
            i += 1;
        }
        assert(ids.take(actions@.len() as int) =~= ids);
        Some(ActionTable { graph, orders })
    }

    /// The members of `s` that are known.
    fn keep_known(&self, s: &BTreeSet<u64>) -> (res: BTreeSet<u64>)
        ensures
            res@ == s@.intersect(self.known()),
    {
        let mut res: BTreeSet<u64> = BTreeSet::new();
        proof {
            lemma_set_iter_members(s);
        }
        for x in it: s.iter()
            invariant
                forall|i: int| 0 <= i < it.seq().len() ==> s@.contains(*it.seq()[i]),
                res@ <= s@.intersect(self.known()),
                forall|i: int| 0 <= i < it.index() ==> !self.known().contains(*it.seq()[i]) || res@.contains(*it.seq()[i]),
        {
            if self.orders.contains_key(x) {
                res.insert(*x);
            }
        }
        proof {
            assert forall|x: u64| s@.intersect(self.known()).contains(x) implies res@.contains(x) by {
                let keys = s.iter().remaining();
                assert(keys.unref().to_set().contains(x));
                let k = choose|k: int| 0 <= k < keys.unref().len() && keys.unref()[k] == x;
                assert(*keys[k] == x);
            }
            assert(res@ =~= s@.intersect(self.known()));
        }
        res
    }
}

/// The replay order of `c` lists each known member of a finite `c` once.
pub proof fn lemma_replay_order_lists(orders: Map<u64, u64>, c: Set<u64>)
    requires
        c.finite(),
    ensures
        replay_order(orders, c).len() == c.intersect(orders.dom()).len(),
        replay_order(orders, c).to_set() == c.intersect(orders.dom()),
        replay_order(orders, c).no_duplicates(),
{
    let k = c.intersect(orders.dom());
    vstd::set_lib::lemma_len_intersect(c, orders.dom());
    lemma_sorted_seq(k);
    let asc = sorted_seq(k);
    lemma_increasing_len(asc);
    let keys = asc.map_values(|id: u64| orders[id]);
    let n = asc.len() as int;
    lemma_stable_order_perm(keys, n);
    let idx = stable_order(keys, n);
    let r = replay_order(orders, c);
    assert(r == idx.map_values(|q: int| asc[q]));
    assert forall|v: u64| r.to_set().contains(v) <==> k.contains(v) by {
        if r.to_set().contains(v) {
            let q = choose|q: int| 0 <= q < r.len() && r[q] == v;
            assert(0 <= idx[q] < n);
            assert(asc.to_set().contains(asc[idx[q]]));
        }
        if k.contains(v) {
            assert(asc.to_set().contains(v));
            let p = choose|p: int| 0 <= p < asc.len() && asc[p] == v;
            assert(idx.contains(p));
            let q = choose|q: int| 0 <= q < idx.len() && idx[q] == p;
            assert(r[q] == v);
        }
    }
    assert(r.to_set() =~= k);
    assert forall|a: int, b: int| 0 <= a < r.len() && 0 <= b < r.len() && a != b implies r[a] != r[b] by {
        assert(idx[a] != idx[b]);
        assert(0 <= idx[a] < n && 0 <= idx[b] < n);
    }
}

impl CandidateTester for ActionTable {
    /// The closure of the candidate under the dependencies, without unknown ids.
    open spec fn spec_normalize(&self, candidate: Set<u64>) -> Set<u64> {
        spec_closure(self.graph().deps(), candidate).intersect(self.known())
    }

    /// The known ids of the candidate in replay order.
    open spec fn spec_ordered_ids(&self, candidate: Set<u64>) -> Seq<u64> {
        replay_order(self.orders(), candidate)
    }

    fn normalize(&self, candidate: &BTreeSet<u64>) -> (res: BTreeSet<u64>) {
        let closed = self.graph.closure(candidate);
        self.keep_known(&closed)
    }

    fn ordered_ids(&self, candidate: &BTreeSet<u64>) -> (res: Vec<u64>) {
        let known = self.keep_known(candidate);
        proof {
            lemma_btree_set_finite(&known);
        }
        let asc = sorted_members(&known);
        let ghost o = self.orders();
        let mut keys: Vec<u64> = Vec::new();
        let mut i: usize = 0;
        while i < asc.len()
            invariant
                i <= asc@.len(),
                asc@.to_set() == known@,
                known@ == candidate@.intersect(self.known()),
                o == self.orders(),
                keys@ == asc@.take(i as int).map_values(|id: u64| o[id]),
            decreases asc.len() - i,
        {
            let id = asc[i];
            assert(asc@.to_set().contains(id));
            let pos = match self.orders.get(&id) {
                Some(p) => *p,
                None => 0,
            };
            keys.push(pos);
            i += 1;
            assert(keys@ =~= asc@.take(i as int).map_values(|id: u64| o[id]));
        }
        assert(asc@.take(asc@.len() as int) =~= asc@);
        let idx = stable_order_indices(&keys);
        let ghost n = asc@.len() as int;
        proof {
            lemma_stable_order_perm(keys@, n);
        }
        let mut res: Vec<u64> = Vec::new();
        let mut q: usize = 0;
        while q < idx.len()
            invariant
                q <= idx@.len(),
                idx@.len() == n,
                n == asc@.len(),
                n == keys@.len(),
                idx@.map_values(|i: usize| i as int) == stable_order(keys@, n),
                forall|j: int| 0 <= j < n ==> 0 <= #[trigger] stable_order(keys@, n)[j] < n,
                res@ == stable_order(keys@, n).take(q as int).map_values(|k: int| asc@[k]),
            decreases idx.len() - q,
        {
            assert(stable_order(keys@, n)[q as int] == idx@[q as int] as int);
            let k = idx[q];
            res.push(asc[k]);
            q += 1;
            assert(res@ =~= stable_order(keys@, n).take(q as int).map_values(|k: int| asc@[k]));
        }
        assert(stable_order(keys@, n).take(n) =~= stable_order(keys@, n));
        res
    }
}

/// Normalizing a normalized candidate changes nothing: the closure of a normalized set,
/// kept to known ids, is that set again.
pub proof fn normalize_is_idempotent(t: ActionTable, c: Set<u64>)
    ensures
        t.spec_normalize(t.spec_normalize(c)) == t.spec_normalize(c),
{
    let g = t.graph().deps();
    let k = t.known();
    let n = spec_closure(g, c).intersect(k);
    lemma_closure_exists(g, c);
    lemma_closure_exists(g, n);
    assert(n <= spec_closure(g, c));
    assert(closed_under(g, spec_closure(g, c)));
    assert(spec_closure(g, n) <= spec_closure(g, c));
    assert(spec_closure(g, n).intersect(k) =~= n);
}

} // verus!

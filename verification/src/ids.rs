use vstd::prelude::*;
use std::collections::BTreeSet;
use vstd::std_specs::iter::IteratorSpec;
use vstd::std_specs::cmp::OrdSpec;

verus! {

broadcast use {vstd::std_specs::btree::group_btree_axioms, vstd::laws_cmp::group_laws_cmp};

/// Each element is smaller than the next.
pub open spec fn strictly_increasing(q: Seq<u64>) -> bool {
    forall|i: int, j: int| 0 <= i < j < q.len() ==> #[trigger] q[i] < #[trigger] q[j]
}

/// The members of `s` in increasing order.
pub open spec fn sorted_seq(s: Set<u64>) -> Seq<u64> {
    choose|q: Seq<u64>| q.to_set() == s && strictly_increasing(q)
}

/// Two increasing sequences with the same members are equal.
pub proof fn lemma_increasing_unique(x: Seq<u64>, y: Seq<u64>)
    requires
        strictly_increasing(x),
        strictly_increasing(y),
        x.to_set() == y.to_set(),
    ensures
        x == y,
    decreases x.len(),
{
    if x.len() == 0 {
        if y.len() > 0 {
            assert(y.to_set().contains(y[0]));
        }
        assert(x =~= y);
    } else {
        assert(x.to_set().contains(x[0]));
        assert(y.len() > 0);
        assert(y.to_set().contains(y[0]));
        let jx = choose|j: int| 0 <= j < x.len() && x[j] == y[0];
        let jy = choose|j: int| 0 <= j < y.len() && y[j] == x[0];
        if jx > 0 {
            assert(x[0] < x[jx]);
        }
        if jy > 0 {
            assert(y[0] < y[jy]);
        }
        assert(x[0] == y[0]);
        let xs = x.drop_first();
        let ys = y.drop_first();
        assert forall|v: u64| #[trigger] xs.to_set().contains(v) implies ys.to_set().contains(v) by {
            let i = choose|i: int| 0 <= i < xs.len() && xs[i] == v;
            assert(x[i + 1] == v);
            assert(y.to_set().contains(v));
            let k = choose|k: int| 0 <= k < y.len() && y[k] == v;
            assert(v > x[0]);
            assert(k > 0);
            assert(ys[k - 1] == v);
        }
        assert forall|v: u64| #[trigger] ys.to_set().contains(v) implies xs.to_set().contains(v) by {
            let i = choose|i: int| 0 <= i < ys.len() && ys[i] == v;
            assert(y[i + 1] == v);
            assert(x.to_set().contains(v));
            let k = choose|k: int| 0 <= k < x.len() && x[k] == v;
            assert(v > y[0]);
            assert(k > 0);
            assert(xs[k - 1] == v);
        }
        assert(xs.to_set() =~= ys.to_set());
        lemma_increasing_unique(xs, ys);
        assert forall|i: int| 0 <= i < x.len() implies x[i] == y[i] by {
            if i > 0 {
                assert(x[i] == xs[i - 1]);
                assert(y[i] == ys[i - 1]);
            }
        }
        assert(x =~= y);
    }
}

proof fn lemma_insert_increasing(q: Seq<u64>, x: u64)
    requires
        strictly_increasing(q),
        !q.contains(x),
    ensures
        exists|p: int| 0 <= p <= q.len() && #[trigger] strictly_increasing(q.insert(p, x)),
    decreases q.len(),
{
    if q.len() == 0 {
        assert(strictly_increasing(q.insert(0, x)));
    } else if q.last() < x {
        let r = q.insert(q.len() as int, x);
        assert(r =~= q.push(x));
        assert(strictly_increasing(r));
    } else {
        assert(q.last() != x);
        let d = q.drop_last();
        assert forall|v: u64| d.contains(v) implies q.contains(v) by {
            let i = choose|i: int| 0 <= i < d.len() && d[i] == v;
            assert(q[i] == v);
        }
        lemma_insert_increasing(d, x);
        let p = choose|p: int| 0 <= p <= d.len() && #[trigger] strictly_increasing(d.insert(p, x));
        let r = d.insert(p, x).push(q.last());
        assert(r =~= q.insert(p, x));
        let di = d.insert(p, x);
        assert forall|i: int| 0 <= i < di.len() implies #[trigger] di[i] < q.last() by {
            if i < p {
                assert(di[i] == q[i]);
            } else if i > p {
                assert(di[i] == q[i - 1]);
            }
        }
        assert forall|i: int, j: int| 0 <= i < j < r.len() implies #[trigger] r[i] < #[trigger] r[j] by {
            if j == r.len() - 1 {
                assert(r[i] == di[i]);
            } else {
                assert(r[i] == di[i]);
                assert(r[j] == di[j]);
            }
        }
        assert(strictly_increasing(q.insert(p, x)));
    }
}

/// Every finite set of ids has an increasing listing, and `sorted_seq` is one.
pub proof fn lemma_sorted_seq(s: Set<u64>)
    requires
        s.finite(),
    ensures
        strictly_increasing(sorted_seq(s)),
        sorted_seq(s).to_set() == s,
    decreases s.len(),
{
    if s.len() == 0 {
        let q = Seq::<u64>::empty();
        assert(q.to_set() =~= s);
        assert(strictly_increasing(q));
    } else {
        let x = s.choose();
        let rest = s.remove(x);
        lemma_sorted_seq(rest);
        let q = sorted_seq(rest);
        assert(!q.contains(x)) by {
            if q.contains(x) {
                assert(q.to_set().contains(x));
            }
        }
        lemma_insert_increasing(q, x);
        let p = choose|p: int| 0 <= p <= q.len() && #[trigger] strictly_increasing(q.insert(p, x));
        let r = q.insert(p, x);
        assert forall|v: u64| r.to_set().contains(v) <==> s.contains(v) by {
            if r.to_set().contains(v) {
                let i = choose|i: int| 0 <= i < r.len() && r[i] == v;
                if i < p {
                    assert(q[i] == v);
                    assert(q.to_set().contains(v));
                } else if i > p {
                    assert(q[i - 1] == v);
                    assert(q.to_set().contains(v));
                }
            }
            if s.contains(v) {
                if v == x {
                    assert(r[p] == x);
                } else {
                    assert(rest.contains(v));
                    assert(q.to_set().contains(v));
                    let i = choose|i: int| 0 <= i < q.len() && q[i] == v;
                    if i < p {
                        assert(r[i] == v);
                    } else {
                        assert(r[i + 1] == v);
                    }
                }
            }
        }
        assert(r.to_set() =~= s);
    }
}

/// An increasing listing has each member once, so its length is the set's size.
pub proof fn lemma_increasing_len(q: Seq<u64>)
    requires
        strictly_increasing(q),
    ensures
        q.no_duplicates(),
        q.to_set().len() == q.len(),
{
    assert forall|i: int, j: int| 0 <= i < q.len() && 0 <= j < q.len() && i != j implies q[i] != q[j] by {
        if i < j {
            assert(q[i] < q[j]);
        } else {
            assert(q[j] < q[i]);
        }
    }
    q.unique_seq_to_set();
}

proof fn lemma_ref_u64_obeys_cmp()
    ensures
        vstd::laws_cmp::obeys_cmp::<&u64>(),
{
    reveal(vstd::laws_eq::obeys_eq_spec_properties);
    reveal(vstd::laws_cmp::obeys_partial_cmp_spec_properties);
    reveal(vstd::laws_cmp::obeys_cmp_ord);
    assert(vstd::laws_cmp::obeys_cmp::<u64>());
}

proof fn lemma_iter_increasing(s: &BTreeSet<u64>)
    ensures
        forall|i: int, j: int|
            0 <= i < j < s.iter().remaining().len() ==> *#[trigger] s.iter().remaining()[i] < *#[trigger] s.iter().remaining()[j],
{
    let keys = s.iter().remaining();
    lemma_ref_u64_obeys_cmp();
    assert(vstd::std_specs::btree::increasing_seq(keys));
    vstd::std_specs::btree::axiom_increasing_seq_meaning(keys);
    assert forall|i: int, j: int| 0 <= i < j < keys.len() implies *#[trigger] keys[i] < *#[trigger] keys[j] by {
        assert(OrdSpec::cmp_spec(&keys[i], &keys[j]) is Less);
        assert(OrdSpec::cmp_spec(keys[i], keys[j]) is Less);
    }
}

/// The members of `s`, smallest first.
pub fn sorted_members(s: &BTreeSet<u64>) -> (res: Vec<u64>)
    ensures
        res@ == sorted_seq(s@),
        strictly_increasing(res@),
        res@.to_set() == s@,
{
    let ghost keys = s.iter().remaining();
    let mut res: Vec<u64> = Vec::new();
    for x in it: s.iter()
        invariant
            it.seq() == keys,
            res@ == keys.take(it.index() as int).map_values(|r: &u64| *r),
    {
        res.push(*x);
        assert(res@ =~= keys.take(it.index() + 1).map_values(|r: &u64| *r));
    }
    proof {
        assert(res@ =~= keys.unref());
        assert(keys.unref().to_set() == s@);
        lemma_iter_increasing(s);
        assert forall|i: int, j: int| 0 <= i < j < res@.len() implies #[trigger] res@[i] < #[trigger] res@[j] by {
            assert(*keys[i] < *keys[j]);
        }
        lemma_increasing_unique(res@, sorted_seq(s@));
    }
    res
}

/// A copy of `v`.
pub fn copy_ids(v: &Vec<u64>) -> (res: Vec<u64>)
    ensures
        res@ == v@,
{
    let mut res: Vec<u64> = Vec::new();
    let mut i: usize = 0;
    while i < v.len()
        invariant
            i <= v@.len(),
            res@ == v@.take(i as int),
        decreases v.len() - i,
    {
        res.push(v[i]);
        i += 1;
        assert(res@ =~= v@.take(i as int));
    }
    assert(res@ =~= v@);
    res
}

} // verus!

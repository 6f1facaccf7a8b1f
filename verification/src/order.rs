use vstd::prelude::*;

verus! {

/// `idx` with index `j` inserted after every index whose key is at most `keys[j]`
/// and before the trailing run of indices whose keys exceed it.
pub open spec fn insert_stable(idx: Seq<int>, keys: Seq<u64>, j: int) -> Seq<int>
    decreases idx.len(),
{
    if idx.len() == 0 || keys[idx.last()] <= keys[j] {
        idx.push(j)
    } else {
        insert_stable(idx.drop_last(), keys, j).push(idx.last())
    }
}

/// The indices `0..n` ordered by `keys`, equal keys keeping their index order
/// (what a stable sort by key gives).
pub open spec fn stable_order(keys: Seq<u64>, n: int) -> Seq<int>
    decreases n,
{
    if n <= 0 {
        Seq::empty()
    } else {
        insert_stable(stable_order(keys, n - 1), keys, n - 1)
    }
}

proof fn lemma_insert_stable_at(idx: Seq<int>, keys: Seq<u64>, j: int, p: int)
    requires
        0 <= p <= idx.len(),
        forall|q: int| p <= q < idx.len() ==> keys[#[trigger] idx[q]] > keys[j],
        p == 0 || keys[idx[p - 1]] <= keys[j],
    ensures
        insert_stable(idx, keys, j) == idx.insert(p, j),
    decreases idx.len(),
{
    if idx.len() == 0 {
        assert(idx.insert(p, j) =~= seq![j]);
    } else if keys[idx.last()] <= keys[j] {
        assert(p == idx.len());
        assert(idx.insert(p, j) =~= idx.push(j));
    } else {
        let d = idx.drop_last();
        assert forall|q: int| p <= q < d.len() implies keys[#[trigger] d[q]] > keys[j] by {
            assert(d[q] == idx[q]);
        }
        if p > 0 {
            assert(d[p - 1] == idx[p - 1]);
        }
        lemma_insert_stable_at(d, keys, j, p);
        assert(d.insert(p, j).push(idx.last()) =~= idx.insert(p, j));
    }
}

proof fn lemma_insert_stable_is_insert(idx: Seq<int>, keys: Seq<u64>, j: int)
    ensures
        exists|p: int| 0 <= p <= idx.len() && #[trigger] idx.insert(p, j) == insert_stable(idx, keys, j),
    decreases idx.len(),
{
    if idx.len() == 0 || keys[idx.last()] <= keys[j] {
        assert(idx.insert(idx.len() as int, j) =~= idx.push(j));
    } else {
        let d = idx.drop_last();
        lemma_insert_stable_is_insert(d, keys, j);
        let p = choose|p: int| 0 <= p <= d.len() && #[trigger] d.insert(p, j) == insert_stable(d, keys, j);
        assert(d.insert(p, j).push(idx.last()) =~= idx.insert(p, j));
    }
}

/// A stable order of `0..n` lists each of `0..n` exactly once.
pub proof fn lemma_stable_order_perm(keys: Seq<u64>, n: int)
    requires
        n >= 0,
    ensures
        stable_order(keys, n).len() == n,
        stable_order(keys, n).no_duplicates(),
        forall|q: int| 0 <= q < n ==> 0 <= #[trigger] stable_order(keys, n)[q] < n,
        forall|i: int| 0 <= i < n ==> stable_order(keys, n).contains(i),
    decreases n,
{
    if n > 0 {
        let prev = stable_order(keys, n - 1);
        lemma_stable_order_perm(keys, n - 1);
        lemma_insert_stable_is_insert(prev, keys, n - 1);
        let p = choose|p: int| 0 <= p <= prev.len() && #[trigger] prev.insert(p, n - 1) == insert_stable(prev, keys, n - 1);
        let cur = prev.insert(p, n - 1);
        assert(cur == stable_order(keys, n));
        assert forall|q: int| 0 <= q < n implies 0 <= #[trigger] cur[q] < n by {
            if q < p {
                assert(cur[q] == prev[q]);
            } else if q > p {
                assert(cur[q] == prev[q - 1]);
            }
        }
        assert forall|a: int, b: int| 0 <= a < cur.len() && 0 <= b < cur.len() && a != b implies cur[a] != cur[b] by {
            let pa = if a < p { a } else { a - 1 };
            let pb = if b < p { b } else { b - 1 };
            if a != p && b != p {
                assert(cur[a] == prev[pa]);
                assert(cur[b] == prev[pb]);
            } else if a == p {
                assert(cur[b] == prev[pb]);
            } else {
                assert(cur[a] == prev[pa]);
            }
        }
        assert forall|i: int| 0 <= i < n implies cur.contains(i) by {
            if i == n - 1 {
                assert(cur[p] == i);
            } else {
                assert(prev.contains(i));
                let q = choose|q: int| 0 <= q < prev.len() && prev[q] == i;
                if q < p {
                    assert(cur[q] == i);
                } else {
                    assert(cur[q + 1] == i);
                }
            }
        }
    }
}

/// The positions `0..keys.len()` in the order of a stable sort by `keys`.
pub fn stable_order_indices(keys: &Vec<u64>) -> (res: Vec<usize>)
    ensures
        res@.len() == keys@.len(),
        res@.map_values(|i: usize| i as int) == stable_order(keys@, keys@.len() as int),
{
    let mut idx: Vec<usize> = Vec::new();
    let mut j: usize = 0;
    while j < keys.len()
        invariant
            j <= keys@.len(),
            idx@.len() == j,
            idx@.map_values(|i: usize| i as int) == stable_order(keys@, j as int),
            forall|q: int| 0 <= q < idx@.len() ==> idx@[q] < j,
        decreases keys.len() - j,
    {
        let kj = keys[j];
        let mut p = idx.len();
        while p > 0 && keys[idx[p - 1]] > kj
            invariant
                p <= idx@.len(),
                idx@.len() == j,
                j < keys@.len(),
                kj == keys@[j as int],
                forall|q: int| 0 <= q < idx@.len() ==> idx@[q] < j,
                forall|q: int| p <= q < idx@.len() ==> keys@[#[trigger] idx@[q] as int] > kj,
            decreases p,
        {
            p -= 1;
        }
        let ghost before = idx@.map_values(|i: usize| i as int);
        proof {
            assert forall|q: int| p <= q < before.len() implies keys@[#[trigger] before[q]] > keys@[j as int] by {
                assert(before[q] == idx@[q] as int);
            }
            if p > 0 {
                assert(before[p - 1] == idx@[p - 1] as int);
            }
            lemma_insert_stable_at(before, keys@, j as int, p as int);
        }
        idx.insert(p, j);
        proof {
            assert(idx@.map_values(|i: usize| i as int) =~= before.insert(p as int, j as int));
        }
        j += 1;
    }
    idx
}

} // verus!

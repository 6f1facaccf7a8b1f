use vstd::prelude::*;

verus! {

/// A small map from text keys to values, kept as a list of distinct keys.
pub struct TextMap<V> {
    entries: Vec<(String, V)>,
}

/// Some entry has key `k`.
pub open spec fn has_key<V>(e: Seq<(String, V)>, k: Seq<char>) -> bool {
    exists|i: int| 0 <= i < e.len() && #[trigger] e[i].0@ == k
}

/// The map that the entries `e` stand for.
pub open spec fn entries_map<V>(e: Seq<(String, V)>) -> Map<Seq<char>, V> {
    Map::new(
        |k: Seq<char>| has_key(e, k),
        |k: Seq<char>| e[choose|i: int| 0 <= i < e.len() && #[trigger] e[i].0@ == k].1,
    )
}

/// No key occurs twice.
pub open spec fn distinct_keys<V>(e: Seq<(String, V)>) -> bool {
    forall|i: int, j: int| 0 <= i < e.len() && 0 <= j < e.len() && i != j ==> #[trigger] e[i].0@ != #[trigger] e[j].0@
}

proof fn lemma_entry<V>(e: Seq<(String, V)>, i: int)
    requires
        distinct_keys(e),
        0 <= i < e.len(),
    ensures
        entries_map(e).contains_key(e[i].0@),
        entries_map(e)[e[i].0@] == e[i].1,
{
    let k = e[i].0@;
    assert(has_key(e, k));
    let j = choose|j: int| 0 <= j < e.len() && #[trigger] e[j].0@ == k;
    assert(j == i);
}

impl<V> View for TextMap<V> {
    type V = Map<Seq<char>, V>;

    closed spec fn view(&self) -> Map<Seq<char>, V> {
        entries_map(self.entries@)
    }
}

impl<V> TextMap<V> {
    /// Keys are distinct.
    pub closed spec fn wf(&self) -> bool {
        distinct_keys(self.entries@)
    }

    /// The empty map.
    pub fn new() -> (res: Self)
        ensures
            res.wf(),
            res@ == Map::<Seq<char>, V>::empty(),
    {
        let res = TextMap { entries: Vec::new() };
        assert(res@ =~= Map::<Seq<char>, V>::empty());
        res
    }

    fn find(&self, k: &String) -> (res: Option<usize>)
        requires
            self.wf(),
        ensures
            match res {
                Some(i) => i < self.entries@.len() && self.entries@[i as int].0@ == k@,
                None => !has_key(self.entries@, k@),
            },
    {
        let mut i: usize = 0;
        while i < self.entries.len()
            invariant
                i <= self.entries@.len(),
                forall|j: int| 0 <= j < i ==> #[trigger] self.entries@[j].0@ != k@,
            decreases self.entries.len() - i,
        {
            if self.entries[i].0 == *k {
                return Some(i);
            }
            i += 1;
        }
        None
    }

    /// The entries, each key once.
    pub fn entries(&self) -> (res: &Vec<(String, V)>)
        requires
            self.wf(),
        ensures
            entries_map(res@) == self@,
            distinct_keys(res@),
    {
        &self.entries
    }

    /// Stores `v` under `k`, replacing any earlier value.
    pub fn insert(&mut self, k: String, v: V)
        requires
            old(self).wf(),
        ensures
            final(self).wf(),
            final(self)@ == old(self)@.insert(k@, v),
    {
        match self.find(&k) {
            Some(i) => {
                let ghost e = self.entries@;
                self.entries.set(i, (k, v));
                proof {
                    let n = self.entries@;
                    assert(n[i as int].0@ == k@);
                    assert forall|a: int, b: int| 0 <= a < n.len() && 0 <= b < n.len() && a != b implies #[trigger] n[a].0@
                        != #[trigger] n[b].0@ by {
                        assert(a != i ==> n[a] == e[a]);
                        assert(b != i ==> n[b] == e[b]);
                    }
                    assert forall|key: Seq<char>| #[trigger] entries_map(n).contains_key(key) == entries_map(e).insert(k@, v).contains_key(key) by {
                        if has_key(e, key) {
                            let j = choose|j: int| 0 <= j < e.len() && #[trigger] e[j].0@ == key;
                            if j != i {
                                assert(n[j] == e[j]);
                            }
                        }
                        if has_key(n, key) {
                            let j = choose|j: int| 0 <= j < n.len() && #[trigger] n[j].0@ == key;
                            if j != i {
                                assert(n[j] == e[j]);
                            }
                        }
                    }
                    assert forall|key: Seq<char>| #[trigger] entries_map(n).contains_key(key) implies entries_map(n)[key] == entries_map(e).insert(k@, v)[key] by {
                        let j = choose|j: int| 0 <= j < n.len() && #[trigger] n[j].0@ == key;
                        lemma_entry(n, j);
                        if j != i {
                            assert(n[j] == e[j]);
                            lemma_entry(e, j);
                        }
                    }
                    assert(entries_map(n) =~= entries_map(e).insert(k@, v));
                }
            },
            None => {
                let ghost e = self.entries@;
                let ghost key = k@;
                self.entries.push((k, v));
                proof {
                    let n = self.entries@;
                    assert(n[e.len() as int].0@ == key);
                    assert forall|a: int, b: int| 0 <= a < n.len() && 0 <= b < n.len() && a != b implies #[trigger] n[a].0@
                        != #[trigger] n[b].0@ by {
                        if a < e.len() {
                            assert(n[a] == e[a]);
                        }
                        if b < e.len() {
                            assert(n[b] == e[b]);
                        }
                    }
                    assert forall|kk: Seq<char>| #[trigger] entries_map(n).contains_key(kk) == entries_map(e).insert(key, v).contains_key(kk) by {
                        if has_key(e, kk) {
                            let j = choose|j: int| 0 <= j < e.len() && #[trigger] e[j].0@ == kk;
                            assert(n[j] == e[j]);
                        }
                        if has_key(n, kk) {
                            let j = choose|j: int| 0 <= j < n.len() && #[trigger] n[j].0@ == kk;
                            if j < e.len() {
                                assert(n[j] == e[j]);
                            }
                        }
                    }
                    assert forall|kk: Seq<char>| #[trigger] entries_map(n).contains_key(kk) implies entries_map(n)[kk] == entries_map(e).insert(key, v)[kk] by {
                        let j = choose|j: int| 0 <= j < n.len() && #[trigger] n[j].0@ == kk;
                        lemma_entry(n, j);
                        if j < e.len() {
                            assert(n[j] == e[j]);
                            lemma_entry(e, j);
                        }
                    }
                    assert(entries_map(n) =~= entries_map(e).insert(key, v));
                }
            },
        }
    }

    /// Stores `v` under `k` unless `k` already has a value.
    pub fn insert_if_absent(&mut self, k: String, v: V)
        requires
            old(self).wf(),
        ensures
            final(self).wf(),
            final(self)@ == (if old(self)@.contains_key(k@) { old(self)@ } else { old(self)@.insert(k@, v) }),
    {
        if self.find(&k).is_none() {
            proof {
                assert(!entries_map(self.entries@).contains_key(k@));
            }
            self.insert(k, v);
        } else {
            proof {
                let i = choose|i: int| 0 <= i < self.entries@.len() && self.entries@[i].0@ == k@;
                lemma_entry(self.entries@, i);
            }
        }
    }

    /// Forgets the value under `k`.
    pub fn remove(&mut self, k: &String)
        requires
            old(self).wf(),
        ensures
            final(self).wf(),
            final(self)@ == old(self)@.remove(k@),
    {
        match self.find(k) {
            Some(i) => {
                let ghost e = self.entries@;
                self.entries.remove(i);
                proof {
                    let n = self.entries@;
                    assert forall|a: int| 0 <= a < n.len() implies #[trigger] n[a] == e[if a < i { a } else { a + 1 }] by {}
                    assert forall|a: int, b: int| 0 <= a < n.len() && 0 <= b < n.len() && a != b implies #[trigger] n[a].0@
                        != #[trigger] n[b].0@ by {
                        assert(n[a] == e[if a < i { a } else { a + 1 }]);
                        assert(n[b] == e[if b < i { b } else { b + 1 }]);
                    }
                    assert forall|kk: Seq<char>| #[trigger] entries_map(n).contains_key(kk) == entries_map(e).remove(k@).contains_key(kk) by {
                        if has_key(e, kk) {
                            let j = choose|j: int| 0 <= j < e.len() && #[trigger] e[j].0@ == kk;
                            if j < i {
                                assert(n[j] == e[j]);
                            } else if j > i {
                                assert(n[j - 1] == e[j]);
                            }
                        }
                        if has_key(n, kk) {
                            let j = choose|j: int| 0 <= j < n.len() && #[trigger] n[j].0@ == kk;
                            assert(n[j] == e[if j < i { j } else { j + 1 }]);
                        }
                    }
                    assert forall|kk: Seq<char>| #[trigger] entries_map(n).contains_key(kk) implies entries_map(n)[kk] == entries_map(e).remove(k@)[kk] by {
                        let j = choose|j: int| 0 <= j < n.len() && #[trigger] n[j].0@ == kk;
                        lemma_entry(n, j);
                        let jj = if j < i { j } else { j + 1 };
                        assert(n[j] == e[jj]);
                        lemma_entry(e, jj);
                    }
                    assert(entries_map(n) =~= entries_map(e).remove(k@));
                }
            },
            None => {
                assert(self@ =~= old(self)@.remove(k@));
            },
        }
    }
}

impl TextMap<u64> {
    /// The value stored under `k`.
    pub fn get(&self, k: &String) -> (res: Option<u64>)
        requires
            self.wf(),
        ensures
            res == (if self@.contains_key(k@) { Some(self@[k@]) } else { None::<u64> }),
    {
        match self.find(k) {
            Some(i) => {
                proof {
                    lemma_entry(self.entries@, i as int);
                }
                Some(self.entries[i].1)
            },
            None => None,
        }
    }
}

} // verus!

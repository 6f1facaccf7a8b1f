use vstd::prelude::*;
use crate::digest::{len_prefixed, push_bytes, push_len_prefixed, push_u64_le, sha256_hex, sha256_hex_string, u64_le};
use crate::domain::trial::Trial;
use crate::replay::oracle::OracleSpec;
use crate::text::copy_string;

verus! {

/// What identifies a trial whose result can be reused.
#[derive(Clone, Debug, PartialEq, Eq)]
pub struct TrialCacheKey {
    pub baseline_hash: String,
    pub oracle_hash: String,
    pub action_ids: Vec<u64>,
    pub repetitions: u32,
}

/// The value of a [`TrialCacheKey`].
pub struct KeyView {
    pub baseline_hash: Seq<char>,
    pub oracle_hash: Seq<char>,
    pub action_ids: Seq<u64>,
    pub repetitions: u32,
}

impl View for TrialCacheKey {
    type V = KeyView;

    open spec fn view(&self) -> KeyView {
        KeyView {
            baseline_hash: self.baseline_hash@,
            oracle_hash: self.oracle_hash@,
            action_ids: self.action_ids@,
            repetitions: self.repetitions,
        }
    }
}

/// The bytes hashed to identify an Oracle: a version tag, the length-prefixed command and
/// the timeout.
pub open spec fn oracle_encoding(command: Seq<char>, timeout_ms: u64) -> Seq<u8> {
    vstd::utf8::encode_utf8("fixtrace-oracle-v1"@) + seq![0u8] + len_prefixed(vstd::utf8::encode_utf8(command))
        + u64_le(timeout_ms)
}

/// Hex SHA-256 over the Oracle's command and timeout.
pub fn hash_oracle(oracle: &OracleSpec) -> (res: String)
    ensures
        res@ == sha256_hex(oracle_encoding(oracle.command@, oracle.timeout_ms)),
{
    let mut out: Vec<u8> = Vec::new();
    push_bytes(&mut out, "fixtrace-oracle-v1".as_bytes());
    out.push(0u8);
    push_len_prefixed(&mut out, oracle.command.as_str());
    push_u64_le(&mut out, oracle.timeout_ms);
    assert(out@ =~= oracle_encoding(oracle.command@, oracle.timeout_ms));
    sha256_hex_string(&out)
}

impl TrialCacheKey {
    /// The key for running `action_ids`, `repetitions` times, from the baseline with hash
    /// `baseline_hash`, judged by `oracle`.
    pub fn new(baseline_hash: &str, oracle: &OracleSpec, action_ids: Vec<u64>, repetitions: u32) -> (res: Self)
        ensures
            res@ == (KeyView {
                baseline_hash: baseline_hash@,
                oracle_hash: sha256_hex(oracle_encoding(oracle.command@, oracle.timeout_ms)),
                action_ids: action_ids@,
                repetitions,
            }),
    {
        TrialCacheKey {
            baseline_hash: baseline_hash.to_owned(),
            oracle_hash: hash_oracle(oracle),
            action_ids,
            repetitions,
        }
    }

    /// Whether two keys are equal.
    pub fn same_as(&self, other: &Self) -> (res: bool)
        ensures
            res == (self@ == other@),
    {
        if self.baseline_hash != other.baseline_hash || self.oracle_hash != other.oracle_hash
            || self.repetitions != other.repetitions || self.action_ids.len() != other.action_ids.len()
        {
            return false;
        }
        let mut i: usize = 0;
        while i < self.action_ids.len()
            invariant
                self.action_ids@.len() == other.action_ids@.len(),
                i <= self.action_ids@.len(),
                forall|j: int| 0 <= j < i ==> self.action_ids@[j] == other.action_ids@[j],
            decreases self.action_ids.len() - i,
        {
            if self.action_ids[i] != other.action_ids[i] {
                return false;
            }
            i += 1;
        }
        assert(self.action_ids@ =~= other.action_ids@);
        true
    }
}

/// Trials already run, by key.
pub struct TrialCache {
    entries: Vec<(TrialCacheKey, Trial)>,
}

/// Some entry has key `k`.
pub open spec fn cached(e: Seq<(TrialCacheKey, Trial)>, k: KeyView) -> bool {
    exists|i: int| 0 <= i < e.len() && #[trigger] e[i].0@ == k
}

/// The entries as a map.
pub open spec fn cache_map(e: Seq<(TrialCacheKey, Trial)>) -> Map<KeyView, Trial> {
    Map::new(|k: KeyView| cached(e, k), |k: KeyView| e[choose|i: int| 0 <= i < e.len() && #[trigger] e[i].0@ == k].1)
}

/// No key occurs twice.
pub open spec fn distinct_cache_keys(e: Seq<(TrialCacheKey, Trial)>) -> bool {
    forall|i: int, j: int| 0 <= i < e.len() && 0 <= j < e.len() && i != j ==> #[trigger] e[i].0@ != #[trigger] e[j].0@
}

proof fn lemma_cache_entry(e: Seq<(TrialCacheKey, Trial)>, i: int)
    requires
        distinct_cache_keys(e),
        0 <= i < e.len(),
    ensures
        cache_map(e).contains_key(e[i].0@),
        cache_map(e)[e[i].0@] == e[i].1,
{
    let k = e[i].0@;
    assert(cached(e, k));
    let j = choose|j: int| 0 <= j < e.len() && #[trigger] e[j].0@ == k;
    assert(j == i);
}

impl View for TrialCache {
    type V = Map<KeyView, Trial>;

    closed spec fn view(&self) -> Map<KeyView, Trial> {
        cache_map(self.entries@)
    }
}

impl TrialCache {
    /// No key is stored twice.
    pub closed spec fn wf(&self) -> bool {
        distinct_cache_keys(self.entries@)
    }

    /// An empty cache.
    pub fn new() -> (res: Self)
        ensures
            res.wf(),
            res@ == Map::<KeyView, Trial>::empty(),
    {
        let res = TrialCache { entries: Vec::new() };
        assert(res@ =~= Map::<KeyView, Trial>::empty());
        res
    }

    fn find(&self, key: &TrialCacheKey) -> (res: Option<usize>)
        ensures
            match res {
                Some(i) => i < self.entries@.len() && self.entries@[i as int].0@ == key@,
                None => !cached(self.entries@, key@),
            },
    {
        let mut i: usize = 0;
        while i < self.entries.len()
            invariant
                i <= self.entries@.len(),
                forall|j: int| 0 <= j < i ==> #[trigger] self.entries@[j].0@ != key@,
            decreases self.entries.len() - i,
        {
            if self.entries[i].0.same_as(key) {
                return Some(i);
            }
            i += 1;
        }
        None
    }

    /// The trial stored under `key`.
    pub fn get(&self, key: &TrialCacheKey) -> (res: Option<&Trial>)
        requires
            self.wf(),
        ensures
            match res {
                Some(t) => self@.contains_key(key@) && self@[key@] == *t,
                None => !self@.contains_key(key@),
            },
    {
        match self.find(key) {
            Some(i) => {
                proof {
                    lemma_cache_entry(self.entries@, i as int);
                }
                Some(&self.entries[i].1)
            },
            None => None,
        }
    }

    /// Stores `trial` under `key`, replacing an earlier trial under the same key.
    pub fn insert(&mut self, key: TrialCacheKey, trial: Trial)
        requires
            old(self).wf(),
        ensures
            final(self).wf(),
            final(self)@ == old(self)@.insert(key@, trial),
    {
        let ghost k = key@;
        let ghost e = self.entries@;
        match self.find(&key) {
            Some(i) => {
                self.entries.set(i, (key, trial));
                proof {
                    let n = self.entries@;
                    assert(n[i as int].0@ == k);
                    assert forall|a: int, b: int| 0 <= a < n.len() && 0 <= b < n.len() && a != b implies #[trigger] n[a].0@
                        != #[trigger] n[b].0@ by {
                        assert(a != i ==> n[a] == e[a]);
                        assert(b != i ==> n[b] == e[b]);
                    }
                    assert forall|kk: KeyView| #[trigger] cache_map(n).contains_key(kk) == cache_map(e).insert(k, trial).contains_key(kk) by {
                        if cached(e, kk) {
                            let j = choose|j: int| 0 <= j < e.len() && #[trigger] e[j].0@ == kk;
                            if j != i {
                                assert(n[j] == e[j]);
                            }
                        }
                        if cached(n, kk) {
                            let j = choose|j: int| 0 <= j < n.len() && #[trigger] n[j].0@ == kk;
                            if j != i {
                                assert(n[j] == e[j]);
                            }
                        }
                    }
                    assert forall|kk: KeyView| #[trigger] cache_map(n).contains_key(kk) implies cache_map(n)[kk] == cache_map(e).insert(k, trial)[kk] by {
                        let j = choose|j: int| 0 <= j < n.len() && #[trigger] n[j].0@ == kk;
                        lemma_cache_entry(n, j);
                        if j != i {
                            assert(n[j] == e[j]);
                            lemma_cache_entry(e, j);
                        }
                    }
                    assert(cache_map(n) =~= cache_map(e).insert(k, trial));
                }
            },
            None => {
                self.entries.push((key, trial));
                proof {
                    let n = self.entries@;
                    assert(n[e.len() as int].0@ == k);
                    assert forall|a: int, b: int| 0 <= a < n.len() && 0 <= b < n.len() && a != b implies #[trigger] n[a].0@
                        != #[trigger] n[b].0@ by {
                        if a < e.len() {
                            assert(n[a] == e[a]);
                        }
                        if b < e.len() {
                            assert(n[b] == e[b]);
                        }
                    }
                    assert forall|kk: KeyView| #[trigger] cache_map(n).contains_key(kk) == cache_map(e).insert(k, trial).contains_key(kk) by {
                        if cached(e, kk) {
                            let j = choose|j: int| 0 <= j < e.len() && #[trigger] e[j].0@ == kk;
                            assert(n[j] == e[j]);
                        }
                        if cached(n, kk) {
                            let j = choose|j: int| 0 <= j < n.len() && #[trigger] n[j].0@ == kk;
                            if j < e.len() {
                                assert(n[j] == e[j]);
                            }
                        }
                    }
                    assert forall|kk: KeyView| #[trigger] cache_map(n).contains_key(kk) implies cache_map(n)[kk] == cache_map(e).insert(k, trial)[kk] by {
                        let j = choose|j: int| 0 <= j < n.len() && #[trigger] n[j].0@ == kk;
                        lemma_cache_entry(n, j);
                        if j < e.len() {
                            assert(n[j] == e[j]);
                            lemma_cache_entry(e, j);
                        }
                    }
                    assert(cache_map(n) =~= cache_map(e).insert(k, trial));
                }
            },
        }
    }
}

/// After a trial is stored under a key, looking the key up finds that trial, and every
/// other key still finds what it found before.
pub proof fn cache_finds_what_was_stored(before: Map<KeyView, Trial>, after: Map<KeyView, Trial>, key: KeyView, trial: Trial)
    requires
        after == before.insert(key, trial),
    ensures
        after.contains_key(key),
        after[key] == trial,
        forall|other: KeyView| other != key ==> (#[trigger] after.contains_key(other) == before.contains_key(other)
            && (before.contains_key(other) ==> after[other] == before[other])),
{
}

} // verus!

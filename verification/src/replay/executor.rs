use vstd::prelude::*;
use crate::domain::action::{Action, ActionKind, ActionResult, ArtifactRef};
use crate::domain::snapshot::SnapshotDelta;
use crate::replay::runner::replay_sequence;
use crate::text::{chars_of, copy_string};
use crate::textmap::TextMap;

verus! {

/// What running a process left behind.
#[derive(Clone, Debug)]
pub struct ProcessEvidence {
    pub exit_code: Option<i32>,
    pub duration_ms: u64,
    pub stdout: String,
    pub stderr: String,
    pub stdout_artifact: Option<ArtifactRef>,
    pub stderr_artifact: Option<ArtifactRef>,
    pub timed_out: bool,
    pub cancelled: bool,
}

/// A process passed: it exited with status 0, in time, and was not cancelled.
pub open spec fn spec_passed(e: ProcessEvidence) -> bool {
    e.exit_code == Some(0i32) && !e.timed_out && !e.cancelled
}

impl ProcessEvidence {
    /// Whether the process passed.
    pub fn passed(&self) -> (res: bool)
        ensures
            res == spec_passed(*self),
    {
        self.exit_code == Some(0) && !self.timed_out && !self.cancelled
    }
}

/// Why an action could not be replayed.
#[derive(Clone, Debug)]
pub enum ReplayError {
    /// The name is empty or holds `=` or a NUL character.
    InvalidEnvironmentKey { key: String },
    /// The action was marked non-replayable when it was recorded.
    NotReplayable { action_id: u64 },
    /// The action was recorded in another working directory than the replay is in.
    WorkingDirectoryMismatch { action_id: u64, expected: String, actual: String },
    /// A recorded working directory cannot be entered.
    UnusableDirectory { path: String, reason: String },
    /// A shell command is blank.
    EmptyCommand,
}

/// An environment variable name that a process can be given: not empty, without `=` and
/// without NUL.
pub open spec fn valid_environment_key(key: Seq<char>) -> bool {
    key.len() > 0 && !key.contains('=') && !key.contains('\0')
}

/// Accepts a variable name that a process can be given.
pub fn validate_environment_key(key: &str) -> (res: Result<(), ReplayError>)
    ensures
        res is Ok <==> valid_environment_key(key@),
        res matches Err(e) ==> e matches ReplayError::InvalidEnvironmentKey { key: k } && k@ == key@,
{
    let chars = chars_of(key);
    if chars.len() == 0 {
        return Err(ReplayError::InvalidEnvironmentKey { key: key.to_owned() });
    }
    let mut i: usize = 0;
    while i < chars.len()
        invariant
            chars@ == key@,
            i <= chars@.len(),
            forall|j: int| 0 <= j < i ==> chars@[j] != '=' && chars@[j] != '\0',
        decreases chars.len() - i,
    {
        if chars[i] == '=' || chars[i] == '\0' {
            assert(key@.contains(chars@[i as int]));
            return Err(ReplayError::InvalidEnvironmentKey { key: key.to_owned() });
        }
        i += 1;
    }
    Ok(())
}

/// Milliseconds as a `u64`, the largest `u64` when they do not fit.
pub fn elapsed_ms(millis: u128) -> (res: u64)
    ensures
        res == (if millis > u64::MAX { u64::MAX as int } else { millis as int }),
{
    if millis > u64::MAX as u128 {
        u64::MAX
    } else {
        millis as u64
    }
}

/// The evidence of a step that FixTrace carried out itself: exit status 0, no output.
pub fn successful_internal_action(duration_ms: u64) -> (res: ProcessEvidence)
    ensures
        res.exit_code == Some(0i32),
        res.duration_ms == duration_ms,
        res.stdout@ == Seq::<char>::empty(),
        res.stderr@ == Seq::<char>::empty(),
        res.stdout_artifact is None,
        res.stderr_artifact is None,
        !res.timed_out,
        !res.cancelled,
        spec_passed(res),
{
    ProcessEvidence {
        exit_code: Some(0),
        duration_ms,
        stdout: String::new(),
        stderr: String::new(),
        stdout_artifact: None,
        stderr_artifact: None,
        timed_out: false,
        cancelled: false,
    }
}

/// The result of a step skipped because the trial was cancelled: no exit status, no
/// output, no change to the project whose snapshot hash is `snapshot_hash`.
pub fn cancelled_action_result(snapshot_hash: String) -> (res: ActionResult)
    ensures
        res.exit_code is None,
        res.duration_ms == 0,
        res.stdout@ == Seq::<char>::empty(),
        res.stderr@ == Seq::<char>::empty(),
        res.stdout_artifact is None,
        res.stderr_artifact is None,
        !res.timed_out,
        res.cancelled,
        res.before_snapshot_hash@ == snapshot_hash@,
        res.after_snapshot_hash@ == snapshot_hash@,
        res.delta.created@.len() == 0,
        res.delta.deleted@.len() == 0,
        res.delta.content_modified@.len() == 0,
        res.delta.permission_modified@.len() == 0,
{
    ActionResult {
        exit_code: None,
        duration_ms: 0,
        stdout: String::new(),
        stderr: String::new(),
        stdout_artifact: None,
        stderr_artifact: None,
        timed_out: false,
        cancelled: true,
        before_snapshot_hash: copy_string(&snapshot_hash),
        after_snapshot_hash: snapshot_hash,
        delta: SnapshotDelta {
            created: Vec::new(),
            deleted: Vec::new(),
            content_modified: Vec::new(),
            permission_modified: Vec::new(),
        },
    }
}

/// The environment after `acts`: each setting stores its value, each unsetting stores
/// `None`, later actions winning.
pub open spec fn environment_after(acts: Seq<Action>) -> Map<Seq<char>, Option<String>>
    decreases acts.len(),
{
    if acts.len() == 0 {
        Map::empty()
    } else {
        let before = environment_after(acts.drop_last());
        match acts.last().kind {
            ActionKind::SetEnvironment { key, value } => before.insert(key@, Some(value)),
            ActionKind::UnsetEnvironment { key } => before.insert(key@, None),
            _ => before,
        }
    }
}

/// The working directory after `acts`: the target of the last directory change, or the
/// project root (empty) when there is none.
pub open spec fn cwd_after(acts: Seq<Action>) -> Seq<char>
    decreases acts.len(),
{
    if acts.len() == 0 {
        Seq::empty()
    } else {
        match acts.last().kind {
            ActionKind::ChangeDirectory { path } => path@,
            _ => cwd_after(acts.drop_last()),
        }
    }
}

/// `a` sets or unsets the variable `key`.
pub open spec fn changes_variable(a: Action, key: Seq<char>) -> bool {
    match a.kind {
        ActionKind::SetEnvironment { key: k, value } => k@ == key,
        ActionKind::UnsetEnvironment { key: k } => k@ == key,
        _ => false,
    }
}

/// Every variable name that `actions` set or unset is valid, and none changes directory:
/// restoring their context needs no directory lookup.
pub open spec fn restorable_without_lookup(actions: Seq<Action>) -> bool {
    forall|j: int| 0 <= j < actions.len() ==> match #[trigger] actions[j].kind {
        ActionKind::SetEnvironment { key, value } => valid_environment_key(key@),
        ActionKind::UnsetEnvironment { key } => valid_environment_key(key@),
        ActionKind::ChangeDirectory { path } => false,
        _ => true,
    }
}

/// Every variable name that `acts` set or unset can be given to a process.
pub open spec fn environment_keys_valid(acts: Seq<Action>) -> bool {
    forall|i: int| 0 <= i < acts.len() ==> match #[trigger] acts[i].kind {
        ActionKind::SetEnvironment { key, value } => valid_environment_key(key@),
        ActionKind::UnsetEnvironment { key } => valid_environment_key(key@),
        _ => true,
    }
}

/// Where a replay stands: the project copy, the working directory relative to it, and
/// the environment changes made so far.
pub struct ReplayState {
    root: String,
    cwd: String,
    environment: TextMap<Option<String>>,
    include_target: bool,
}

impl ReplayState {
    /// The project copy.
    pub closed spec fn root_path(&self) -> Seq<char> {
        self.root@
    }

    /// The working directory, relative to the project copy (empty: its root).
    pub closed spec fn cwd_path(&self) -> Seq<char> {
        self.cwd@
    }

    /// Each variable set (to a value) or unset (`None`) so far.
    pub closed spec fn env(&self) -> Map<Seq<char>, Option<String>> {
        self.environment@
    }

    /// Whether build output is part of snapshots.
    pub closed spec fn includes_target(&self) -> bool {
        self.include_target
    }

    /// The state's invariant.
    pub closed spec fn wf(&self) -> bool {
        self.environment.wf()
    }

    /// A replay at the root of the project copy `root`, with no environment changes.
    pub fn new(root: String, include_target: bool) -> (res: Self)
        ensures
            res.wf(),
            res.root_path() == root@,
            res.cwd_path() == Seq::<char>::empty(),
            res.env() == Map::<Seq<char>, Option<String>>::empty(),
            res.includes_target() == include_target,
    {
        ReplayState { root, cwd: String::new(), environment: TextMap::new(), include_target }
    }

    /// The project copy.
    pub fn root(&self) -> (res: &str)
        ensures
            res@ == self.root_path(),
    {
        self.root.as_str()
    }

    /// The working directory, relative to the project copy.
    pub fn cwd(&self) -> (res: &str)
        ensures
            res@ == self.cwd_path(),
    {
        self.cwd.as_str()
    }

    /// The environment changes made so far.
    pub fn environment(&self) -> (res: &TextMap<Option<String>>)
        requires
            self.wf(),
        ensures
            res.wf(),
            res@ == self.env(),
    {
        &self.environment
    }

    /// Whether build output is part of snapshots.
    pub fn include_target(&self) -> (res: bool)
        ensures
            res == self.includes_target(),
    {
        self.include_target
    }

    /// Refuses an action that was marked non-replayable, or that was recorded in another
    /// working directory than the replay is in.
    pub fn precheck(&self, action: &Action) -> (res: Result<(), ReplayError>)
        ensures
            res is Ok <==> action.replayable && action.cwd_before@ == self.cwd_path(),
            res matches Err(e) ==> match e {
                ReplayError::NotReplayable { action_id } => !action.replayable && action_id == action.id,
                ReplayError::WorkingDirectoryMismatch { action_id, expected, actual } => action.replayable
                    && action_id == action.id && expected@ == action.cwd_before@ && actual@ == self.cwd_path(),
                _ => false,
            },
    {
        if !action.replayable {
            return Err(ReplayError::NotReplayable { action_id: action.id });
        }
        if action.cwd_before != self.cwd {
            return Err(ReplayError::WorkingDirectoryMismatch {
                action_id: action.id,
                expected: copy_string(&action.cwd_before),
                actual: copy_string(&self.cwd),
            });
        }
        Ok(())
    }

    /// Sets `key` to `value` (`None`: unset) after checking the name.
    pub fn set_variable(&mut self, key: &String, value: Option<String>) -> (res: Result<(), ReplayError>)
        requires
            old(self).wf(),
        ensures
            final(self).wf(),
            res is Ok <==> valid_environment_key(key@),
            res matches Err(e) ==> e matches ReplayError::InvalidEnvironmentKey { key: k } && k@ == key@,
            final(self).env() == (if res is Ok { old(self).env().insert(key@, value) } else { old(self).env() }),
            final(self).root_path() == old(self).root_path(),
            final(self).cwd_path() == old(self).cwd_path(),
            final(self).includes_target() == old(self).includes_target(),
    {
        match validate_environment_key(key.as_str()) {
            Err(e) => Err(e),
            Ok(()) => {
                self.environment.insert(key.clone(), value);
                Ok(())
            },
        }
    }

    /// Enters `path`, relative to the project copy.
    pub fn set_cwd(&mut self, path: String)
        ensures
            final(self).cwd_path() == path@,
            final(self).env() == old(self).env(),
            final(self).root_path() == old(self).root_path(),
            final(self).includes_target() == old(self).includes_target(),
            final(self).wf() == old(self).wf(),
    {
        self.cwd = path;
    }
}

/// Some action of `actions` changes into `path`, and `f` refused that directory with
/// `reason`.
pub open spec fn directory_refused<F: Fn(&str) -> Option<String>>(f: F, actions: Seq<Action>, path: String, reason: String) -> bool {
    exists|i: int, p: &str|
        #![trigger actions[i], f.ensures((p,), Some(reason))]
        0 <= i < actions.len() && actions[i].kind == (ActionKind::ChangeDirectory { path }) && p@ == path@
            && f.ensures((p,), Some(reason))
}

/// The state that the environment and directory changes of `actions`, in replay order,
/// leave on the project copy `root`. `directory_problem` says why a recorded working
/// directory cannot be entered, or `None` when it can.
pub fn restore_context<F: Fn(&str) -> Option<String>>(
    root: String,
    include_target: bool,
    actions: &Vec<Action>,
    directory_problem: F,
) -> (res: Result<ReplayState, ReplayError>)
    requires
        forall|p: &str| directory_problem.requires((p,)),
    ensures
        res matches Ok(st) ==> {
            &&& st.wf()
            &&& st.root_path() == root@
            &&& st.includes_target() == include_target
            &&& environment_keys_valid(replay_sequence(actions@))
            &&& st.env() == environment_after(replay_sequence(actions@))
            &&& st.cwd_path() == cwd_after(replay_sequence(actions@))
        },
        res matches Err(e) ==> match e {
            ReplayError::InvalidEnvironmentKey { key } => !valid_environment_key(key@) && exists|i: int|
                0 <= i < actions@.len() && changes_variable(#[trigger] actions@[i], key@),
            ReplayError::UnusableDirectory { path, reason } => directory_refused(directory_problem, actions@, path, reason),
            _ => false,
        },
        restorable_without_lookup(actions@) ==> res is Ok,
{
    let mut keys: Vec<u64> = Vec::new();
    let mut k: usize = 0;
    while k < actions.len()
        invariant
            k <= actions@.len(),
            keys@ == crate::replay::runner::orders_of(actions@).take(k as int),
        decreases actions.len() - k,
    {
        keys.push(actions[k].original_order);
        k += 1;
        assert(keys@ =~= crate::replay::runner::orders_of(actions@).take(k as int));
    }
    assert(keys@ =~= crate::replay::runner::orders_of(actions@));
    let idx = crate::order::stable_order_indices(&keys);
    let ghost n = actions@.len() as int;
    let ghost so = crate::order::stable_order(crate::replay::runner::orders_of(actions@), n);
    let ghost seq = replay_sequence(actions@);
    proof {
        crate::order::lemma_stable_order_perm(crate::replay::runner::orders_of(actions@), n);
    }
    let mut state = ReplayState::new(root, include_target);
    let mut i: usize = 0;
    while i < idx.len()
        invariant
            idx@.len() == n,
            n == actions@.len(),
            idx@.map_values(|q: usize| q as int) == so,
            seq == so.map_values(|q: int| actions@[q]),
            forall|q: int| 0 <= q < n ==> 0 <= #[trigger] so[q] < n,
            forall|p: &str| directory_problem.requires((p,)),
            i <= n,
            state.wf(),
            state.root_path() == root@,
            state.includes_target() == include_target,
            environment_keys_valid(seq.take(i as int)),
            state.env() == environment_after(seq.take(i as int)),
            state.cwd_path() == cwd_after(seq.take(i as int)),
        decreases idx.len() - i,
    {
        assert(so[i as int] == idx@[i as int] as int);
        let action = &actions[idx[i]];
        assert(*action == seq[i as int]);
        let ghost at = idx@[i as int] as int;
        assert(actions@[at] == *action);
        assert(seq.take(i + 1).drop_last() =~= seq.take(i as int));
        assert(seq.take(i + 1).last() == seq[i as int]);
        match &action.kind {
            ActionKind::SetEnvironment { key, value } => {
                match state.set_variable(key, Some(value.clone())) {
                    Err(e) => {
                        assert(!restorable_without_lookup(actions@)) by {
                            assert(actions@[at].kind == action.kind);
                        }
                        return Err(e);
                    },
                    Ok(()) => {},
                }
            },
            ActionKind::UnsetEnvironment { key } => {
                match state.set_variable(key, None) {
                    Err(e) => {
                        assert(!restorable_without_lookup(actions@)) by {
                            assert(actions@[at].kind == action.kind);
                        }
                        return Err(e);
                    },
                    Ok(()) => {},
                }
            },
            ActionKind::ChangeDirectory { path } => {
                let p = path.as_str();
                match directory_problem(p) {
                    Some(reason) => {
                        let owned = path.clone();
                        assert(!restorable_without_lookup(actions@)) by {
                            assert(actions@[at].kind == action.kind);
                        }
                        assert(actions@[at].kind == ActionKind::ChangeDirectory { path: owned });
                        assert(p@ == owned@);
                        assert(0 <= at < actions@.len());
                        assert(directory_problem.ensures((p,), Some(reason)));
                        assert(directory_refused(directory_problem, actions@, owned, reason));
                        return Err(ReplayError::UnusableDirectory { path: owned, reason });
                    },
                    None => {},
                }
                state.set_cwd(copy_string(path));
            },
            _ => {},
        }
        proof {
            assert forall|j: int| 0 <= j < i + 1 implies match #[trigger] seq.take(i + 1)[j].kind {
                ActionKind::SetEnvironment { key, value } => valid_environment_key(key@),
                ActionKind::UnsetEnvironment { key } => valid_environment_key(key@),
                _ => true,
            } by {
                if j < i {
                    assert(seq.take(i + 1)[j] == seq.take(i as int)[j]);
                }
            }
        }
        i += 1;
    }
    assert(seq.take(n) =~= seq);
    Ok(state)
}

} // verus!

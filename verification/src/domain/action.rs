use vstd::prelude::*;
use crate::domain::snapshot::SnapshotDelta;

verus! {

/// One recorded step of a debugging session.
#[derive(Clone, Debug)]
pub struct Action {
    pub id: u64,
    pub original_order: u64,
    /// Project-relative working directory before the step (empty: the project root).
    pub cwd_before: String,
    pub kind: ActionKind,
    pub replayable: bool,
    pub note: Option<String>,
    pub result: Option<ActionResult>,
}

/// What a recorded step does.
#[derive(Clone, Debug)]
pub enum ActionKind {
    ShellCommand { command: String },
    FilePatch { files: Vec<FileReplacement> },
    SetEnvironment { key: String, value: String },
    UnsetEnvironment { key: String },
    ChangeDirectory { path: String },
}

/// New content for one project file; `content: None` deletes it.
#[derive(Clone, Debug)]
pub struct FileReplacement {
    pub path: String,
    pub content: Option<String>,
    pub unix_mode: Option<u32>,
}

/// What running a step produced.
#[derive(Clone, Debug)]
pub struct ActionResult {
    pub exit_code: Option<i32>,
    pub duration_ms: u64,
    pub stdout: String,
    pub stderr: String,
    pub stdout_artifact: Option<ArtifactRef>,
    pub stderr_artifact: Option<ArtifactRef>,
    pub timed_out: bool,
    pub cancelled: bool,
    pub before_snapshot_hash: String,
    pub after_snapshot_hash: String,
    pub delta: SnapshotDelta,
}

/// Output stored beside the history, with its size and hex SHA-256.
#[derive(Clone, Debug)]
pub struct ArtifactRef {
    pub path: String,
    pub size: u64,
    pub sha256: String,
}

/// Whether an action read back without the flag counts as replayable.
pub fn default_replayable() -> (res: bool)
    ensures
        res,
{
    true
}

} // verus!

use fixtrace::domain::snapshot::{hash_manifest, FileState, FileType, SnapshotManifest};
use fixtrace::patch::{plan_replacements, PlannedReplacement};
use fixtrace::recorder::RecorderError;

fn entry(path: &str, file_type: FileType, digest: Option<&str>, mode: u32) -> FileState {
    FileState {
        path: path.to_owned(),
        file_type,
        sha256: digest.map(str::to_owned),
        size: digest.map_or(0, |d| d.len() as u64),
        unix_mode: Some(mode),
        symlink_target: if file_type == FileType::Symlink { Some("target".to_owned()) } else { None },
    }
}

fn manifest(files: Vec<FileState>) -> SnapshotManifest {
    SnapshotManifest { root_hash: hash_manifest(&files), files }
}

fn write(path: &str, mode: u32) -> (String, Option<Option<u32>>) {
    (path.to_owned(), Some(Some(mode)))
}

fn view(plan: &[PlannedReplacement]) -> Vec<(String, Option<Option<u32>>)> {
    plan.iter()
        .map(|p| match p {
            PlannedReplacement::Write { path, unix_mode } => (path.clone(), Some(*unix_mode)),
            PlannedReplacement::Delete { path } => (path.clone(), None),
        })
        .collect()
}

#[test]
fn checkpoint_writes_changed_files_and_deletes_vanished_ones() {
    let before = manifest(vec![
        entry("a.txt", FileType::Regular, Some("aa"), 0o644),
        entry("gone.txt", FileType::Regular, Some("gg"), 0o644),
        entry("mode.sh", FileType::Regular, Some("mm"), 0o644),
        entry("same.txt", FileType::Regular, Some("ss"), 0o644),
        entry("src", FileType::Directory, None, 0o755),
    ]);
    let after = manifest(vec![
        entry("a.txt", FileType::Regular, Some("ab"), 0o644),
        entry("mode.sh", FileType::Regular, Some("mm"), 0o755),
        entry("new.txt", FileType::Regular, Some("nn"), 0o600),
        entry("same.txt", FileType::Regular, Some("ss"), 0o644),
        entry("src", FileType::Directory, None, 0o700),
    ]);
    let plan = plan_replacements(&before, &after).expect("no symbolic link changed");
    assert_eq!(
        view(&plan),
        vec![write("a.txt", 0o644), write("mode.sh", 0o755), write("new.txt", 0o600), ("gone.txt".to_owned(), None)]
    );
}

#[test]
fn checkpoint_without_changes_is_empty() {
    let m = manifest(vec![entry("a.txt", FileType::Regular, Some("aa"), 0o644)]);
    assert!(plan_replacements(&m, &m).expect("nothing changed").is_empty());
}

#[test]
fn checkpoint_refuses_a_changed_symbolic_link() {
    let before = manifest(vec![entry("a.txt", FileType::Regular, Some("aa"), 0o644)]);
    let after = manifest(vec![
        entry("a.txt", FileType::Regular, Some("ab"), 0o644),
        entry("link", FileType::Symlink, Some("tt"), 0o777),
    ]);
    match plan_replacements(&before, &after) {
        Err(RecorderError::SymlinkPatch { path }) => assert_eq!(path, "link"),
        other => panic!("expected a refused symbolic link, got {other:?}"),
    }
}

#[test]
fn checkpoint_refuses_a_deleted_symbolic_link() {
    let before = manifest(vec![entry("link", FileType::Symlink, Some("tt"), 0o777)]);
    let after = manifest(Vec::new());
    match plan_replacements(&before, &after) {
        Err(RecorderError::SymlinkPatch { path }) => assert_eq!(path, "link"),
        other => panic!("expected a refused symbolic link, got {other:?}"),
    }
}

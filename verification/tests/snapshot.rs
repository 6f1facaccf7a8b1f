use fixtrace::domain::snapshot::{hash_manifest, is_excluded_relative, FileState, FileType, SnapshotManifest};

fn file(path: &str, digest: &str, mode: u32) -> FileState {
    FileState {
        path: path.to_owned(),
        file_type: FileType::Regular,
        sha256: Some(digest.to_owned()),
        size: digest.len() as u64,
        unix_mode: Some(mode),
        symlink_target: None,
    }
}

fn manifest(files: Vec<FileState>) -> SnapshotManifest {
    SnapshotManifest { root_hash: hash_manifest(&files), files }
}

#[test]
fn identical_listings_have_the_same_hash() {
    let a = manifest(vec![file("src/lib.rs", "aa", 0o644)]);
    let b = manifest(vec![file("src/lib.rs", "aa", 0o644)]);
    assert_eq!(a.root_hash, b.root_hash);
    assert_eq!(a.root_hash.len(), 64);
    let c = manifest(vec![file("src/lib.rs", "ab", 0o644)]);
    assert_ne!(a.root_hash, c.root_hash);
    let d = manifest(vec![file("src/lib.rs", "aa", 0o755)]);
    assert_ne!(a.root_hash, d.root_hash);
}

#[test]
fn diff_reports_created_deleted_and_changed_paths() {
    let before = manifest(vec![file("changed.txt", "before", 0o644), file("deleted.txt", "old", 0o644)]);
    let after = manifest(vec![file("changed.txt", "after!", 0o644), file("created.txt", "new", 0o644)]);
    let delta = before.diff(&after);
    assert_eq!(delta.created, vec!["created.txt".to_owned()]);
    assert_eq!(delta.deleted, vec!["deleted.txt".to_owned()]);
    assert_eq!(delta.content_modified, vec!["changed.txt".to_owned()]);
    assert!(delta.permission_modified.is_empty());
    assert!(!before.has_same_content(&after));
}

#[test]
fn diff_reports_permission_changes_only_as_such() {
    let before = manifest(vec![file("script.sh", "x", 0o644)]);
    let after = manifest(vec![file("script.sh", "x", 0o755)]);
    let delta = before.diff(&after);
    assert!(delta.created.is_empty() && delta.deleted.is_empty() && delta.content_modified.is_empty());
    assert_eq!(delta.permission_modified, vec!["script.sh".to_owned()]);
    assert!(before.has_same_content(&after));
}

#[test]
fn a_snapshot_shows_no_change_against_itself() {
    let m = manifest(vec![file("a", "1", 0o644), file("b/c", "2", 0o600)]);
    let delta = m.diff(&m);
    assert!(delta.created.is_empty());
    assert!(delta.deleted.is_empty());
    assert!(delta.content_modified.is_empty());
    assert!(delta.permission_modified.is_empty());
    assert!(m.has_same_content(&m));
}

#[test]
fn tool_directories_are_excluded() {
    assert!(is_excluded_relative(".git/config", false));
    assert!(is_excluded_relative(".fixtrace", true));
    assert!(is_excluded_relative("target/debug", false));
    assert!(!is_excluded_relative("target/debug", true));
    assert!(!is_excluded_relative("src/target", false));
    assert!(!is_excluded_relative("", false));
}

#[test]
fn same_content_matches_an_empty_diff_both_ways() {
    let a = manifest(vec![file("a", "1", 0o644), file("b", "2", 0o600)]);
    let b = manifest(vec![file("a", "1", 0o755), file("b", "2", 0o600)]);
    let c = manifest(vec![file("a", "1", 0o644)]);
    for (x, y) in [(&a, &b), (&b, &a), (&a, &c), (&c, &a)] {
        let d = x.diff(y);
        let empty = d.created.is_empty() && d.deleted.is_empty() && d.content_modified.is_empty();
        assert_eq!(x.has_same_content(y), empty);
        assert_eq!(x.has_same_content(y), y.has_same_content(x));
    }
    assert!(a.has_same_content(&b));
    assert!(!a.has_same_content(&c));
}

#[test]
fn created_one_way_is_deleted_the_other_way() {
    let a = manifest(vec![file("a", "1", 0o644), file("gone", "2", 0o600)]);
    let b = manifest(vec![file("a", "9", 0o644), file("b", "3", 0o600), file("c", "4", 0o600)]);
    assert_eq!(a.diff(&b).created, b.diff(&a).deleted);
    assert_eq!(a.diff(&b).deleted, b.diff(&a).created);
    assert_eq!(a.diff(&b).created, vec!["b".to_owned(), "c".to_owned()]);
    assert_eq!(a.diff(&b).content_modified, b.diff(&a).content_modified);
}

use std::path::Path;

use tempfile::tempdir;

use fixtrace::recorder::normalize_project_path;
use fixtrace::sandbox::{join, safe_existing_path, safe_write_path, starts_with_path, validate_relative, SandboxError};

fn canonicalize(path: &str) -> Result<String, String> {
    Path::new(path)
        .canonicalize()
        .map(|p| p.to_string_lossy().into_owned())
        .map_err(|error| error.to_string())
}

fn is_symlink(path: &str) -> Result<bool, String> {
    match Path::new(path).symlink_metadata() {
        Ok(metadata) => Ok(metadata.file_type().is_symlink()),
        Err(error) if error.kind() == std::io::ErrorKind::NotFound => Ok(false),
        Err(error) => Err(error.to_string()),
    }
}

#[test]
fn project_paths_cannot_escape_root() {
    let root = tempdir().expect("temporary root should be created");
    let root_text = root.path().to_string_lossy().into_owned();

    assert!(safe_write_path(&root_text, "../escape.txt", is_symlink).is_err());
    assert!(safe_existing_path(&root_text, "../escape.txt", canonicalize).is_err());
}

#[test]
fn paths_inside_the_project_are_resolved() {
    let root = tempdir().expect("temporary root should be created");
    let sub = tempfile::Builder::new().prefix("src").tempdir_in(root.path()).expect("directory");
    let name = sub.path().file_name().expect("name").to_string_lossy().into_owned();
    let root_text = root.path().to_string_lossy().into_owned();
    let resolved = safe_existing_path(&root_text, &name, canonicalize).expect("inside");
    assert!(resolved.ends_with(&format!("/{name}")));
    assert!(matches!(
        safe_existing_path(&root_text, "missing", canonicalize),
        Err(SandboxError::Io { .. })
    ));
    let target = safe_write_path(&root_text, "src/new/file.txt", is_symlink).expect("writable");
    assert_eq!(target, format!("{root_text}/src/new/file.txt"));
}

#[test]
fn relative_paths_are_validated_by_component() {
    assert!(validate_relative("").is_ok());
    assert!(validate_relative("src/lib.rs").is_ok());
    assert!(validate_relative("./a/../b").is_err());
    assert!(validate_relative("/etc/passwd").is_err());
    assert!(validate_relative("a/..b/c").is_ok());
    assert!(starts_with_path("/a/b/c", "/a/b"));
    assert!(starts_with_path("/a/b/", "/a/b"));
    assert!(!starts_with_path("/a/bc", "/a/b"));
    assert_eq!(join("/root", "x"), "/root/x");
    assert_eq!(join("/root/", "x"), "/root/x");
    assert_eq!(join("", "x"), "x");
    assert_eq!(join("/root", "/x"), "/x");
}

#[test]
fn requested_paths_resolve_inside_the_working_directory() {
    assert_eq!(normalize_project_path("", "src").ok(), Some("src".to_owned()));
    assert_eq!(normalize_project_path("src", "../tests/./a").ok(), Some("tests/a".to_owned()));
    assert_eq!(normalize_project_path("src", "..").ok(), Some(String::new()));
    assert!(normalize_project_path("", "..").is_err());
    assert!(normalize_project_path("src", "/etc").is_err());
}

#[test]
fn write_paths_without_names_need_no_lookup_and_links_are_refused() {
    let always_fails = |_: &str| -> Result<bool, String> { Err("no lookup expected".to_owned()) };
    assert_eq!(safe_write_path("/root", ".", always_fails).ok(), Some("/root/.".to_owned()));
    let link_at_a = |p: &str| -> Result<bool, String> { Ok(p == "/root/a") };
    assert!(matches!(
        safe_write_path("/root", "a/b.txt", link_at_a),
        Err(SandboxError::ThroughSymlink { path }) if path == "a/b.txt"
    ));
    let nothing_linked = |_: &str| -> Result<bool, String> { Ok(false) };
    assert_eq!(safe_write_path("/root", "a/b.txt", nothing_linked).ok(), Some("/root/a/b.txt".to_owned()));
    assert!(matches!(safe_write_path("/root", "/etc/passwd", nothing_linked), Err(SandboxError::NotProjectRelative { .. })));
}

use fixtrace::service::{
    artifact_id, paginate, parse_usize, safe_artifact_relative_path, valid_environment_name, PageError,
};
use sha2::{Digest, Sha256};

#[test]
fn environment_names_are_portable_identifiers() {
    assert!(valid_environment_name("FIXTRACE_API_KEY"));
    assert!(valid_environment_name("_private1"));
    assert!(valid_environment_name("a"));
    assert!(!valid_environment_name(""));
    assert!(!valid_environment_name("1KEY"));
    assert!(!valid_environment_name("API-KEY"));
    assert!(!valid_environment_name("KEY=1"));
    assert!(!valid_environment_name("SCHLÜSSEL"));
}

#[test]
fn artifact_paths_stay_in_the_artifacts_directory() {
    assert!(safe_artifact_relative_path("artifacts/action-1-stdout.txt"));
    assert!(safe_artifact_relative_path("artifacts"));
    assert!(safe_artifact_relative_path("artifacts//nested/./file"));
    assert!(!safe_artifact_relative_path("baseline/file"));
    assert!(!safe_artifact_relative_path("artifacts/../secret"));
    assert!(!safe_artifact_relative_path("/artifacts/file"));
    assert!(!safe_artifact_relative_path("./artifacts/file"));
    assert!(!safe_artifact_relative_path(""));
}

#[test]
fn usize_numerals_parse_as_std_does() {
    for text in ["0", "7", "+42", "007", "18446744073709551615", "", "+", "-1", " 1", "1a", "18446744073709551616"] {
        assert_eq!(parse_usize(text), text.parse::<usize>().ok(), "numeral {text:?}");
    }
}

#[test]
fn pages_follow_the_cursor() {
    let items: Vec<u32> = (0..5).collect();
    let (page, info) = paginate(items.clone(), None, 2).expect("first page");
    assert_eq!(page, vec![0, 1]);
    assert!(info.has_more);
    assert_eq!(info.next_cursor.as_deref(), Some("2"));
    let (page, info) = paginate(items.clone(), Some("4"), 2).expect("last page");
    assert_eq!(page, vec![4]);
    assert!(!info.has_more);
    assert_eq!(info.next_cursor, None);
    let (page, info) = paginate(items.clone(), Some("5"), 2).expect("empty page at the end");
    assert!(page.is_empty() && !info.has_more);
    assert_eq!(paginate(items.clone(), Some("6"), 2).err(), Some(PageError::CursorBeyondEnd));
    assert_eq!(paginate(items, Some("x"), 2).err(), Some(PageError::InvalidCursor));
}

#[test]
fn artifact_ids_are_version_five_uuids_of_the_digest() {
    let session: u128 = 0x0123_4567_89ab_cdef_0123_4567_89ab_cdef;
    let path = "artifacts/action-3-stdout.txt";
    let mut hasher = Sha256::new();
    hasher.update(session.to_be_bytes());
    hasher.update([0u8]);
    hasher.update(path.as_bytes());
    let digest = hasher.finalize();
    let mut expected = digest[..16].to_vec();
    expected[6] = (expected[6] & 0x0f) | 0x50;
    expected[8] = (expected[8] & 0x3f) | 0x80;
    let id = artifact_id(session, path);
    assert_eq!(id, expected);
    assert_eq!(id[6] >> 4, 5);
    assert_eq!(id[8] & 0xc0, 0x80);
    assert_ne!(artifact_id(session, "artifacts/other.txt"), id);
}

use fixtrace::domain::action::{Action, ActionKind};
use fixtrace::history::output::{externalize_text, INLINE_OUTPUT_LIMIT};
use fixtrace::history::paths::{state_root, StatePaths};
use fixtrace::history::redaction::{is_sensitive_key, redact_environment, redact_json, redact_text, JsonValue};

fn set(id: u64, key: &str, value: &str) -> Action {
    Action {
        id,
        original_order: id,
        cwd_before: String::new(),
        kind: ActionKind::SetEnvironment { key: key.to_owned(), value: value.to_owned() },
        replayable: true,
        note: None,
        result: None,
    }
}

#[test]
fn sensitive_names_are_recognized_in_any_case() {
    assert!(is_sensitive_key("SERVICE_TOKEN"));
    assert!(is_sensitive_key("my_api_key"));
    assert!(is_sensitive_key("Authorization"));
    assert!(is_sensitive_key("db_password"));
    assert!(is_sensitive_key("client-secret-x"));
    assert!(!is_sensitive_key("PATH"));
    assert!(!is_sensitive_key("API-KEY"));
}

#[test]
fn secret_environment_values_are_redacted_once() {
    let mut actions = vec![
        set(1, "SERVICE_TOKEN", "top-secret"),
        set(2, "PATH", "/bin"),
        set(3, "API_KEY", ""),
        set(4, "PASSWORD", "<redacted>"),
    ];
    let secrets = redact_environment(&mut actions);
    assert_eq!(secrets, vec!["top-secret".to_owned()]);
    let values: Vec<String> = actions
        .iter()
        .map(|a| match &a.kind {
            ActionKind::SetEnvironment { value, .. } => value.clone(),
            _ => String::new(),
        })
        .collect();
    assert_eq!(values, vec!["<redacted>", "/bin", "<redacted>", "<redacted>"]);
    assert!(redact_environment(&mut actions).is_empty());
    assert_eq!(
        redact_text("token top-secret in top-secret", &secrets),
        "token <redacted> in <redacted>"
    );
    assert_eq!(redact_text("nothing here", &vec![String::new()]), "nothing here");
}

#[test]
fn long_output_moves_to_an_artifact() {
    assert!(externalize_text("short", "1-stdout.txt").is_none());
    let exact = "x".repeat(INLINE_OUTPUT_LIMIT);
    assert!(externalize_text(&exact, "1-stdout.txt").is_none());
    let long = format!("{}é", "x".repeat(INLINE_OUTPUT_LIMIT - 1));
    let out = externalize_text(&long, "1-stdout.txt").expect("too long to inline");
    assert_eq!(out.artifact.path, "artifacts/1-stdout.txt");
    assert_eq!(out.artifact.size, (INLINE_OUTPUT_LIMIT + 1) as u64);
    assert_eq!(out.artifact.sha256.len(), 64);
    assert_eq!(out.bytes, long.as_bytes());
    assert_eq!(
        out.preview,
        format!("{}\n[output truncated; complete content stored as an artifact]\n", "x".repeat(INLINE_OUTPUT_LIMIT - 1))
    );
}

#[test]
fn state_paths_follow_the_chosen_root() {
    assert_eq!(state_root(Some("/o".to_owned()), Some("/h".to_owned()), Some("/home".to_owned())), Some("/o".to_owned()));
    assert_eq!(state_root(None, Some("/h".to_owned()), Some("/home".to_owned())), Some("/h".to_owned()));
    assert_eq!(state_root(None, None, Some("/home/me".to_owned())), Some("/home/me/.fixtrace".to_owned()));
    assert_eq!(state_root(None, None, None), None);
    let paths = StatePaths::under("/state");
    assert_eq!(paths.database, "/state/history.sqlite3");
    assert_eq!(paths.config, "/state/config.toml");
    assert_eq!(paths.sessions, "/state/sessions");
    assert_eq!(paths.session_root("abc"), "/state/sessions/abc");
}

#[test]
fn exported_json_is_redacted_throughout() {
    let secrets = vec!["top-secret".to_owned()];
    let value = JsonValue::Object(vec![
        ("stdout".to_owned(), JsonValue::Text("token=top-secret; again top-secret".to_owned())),
        ("SERVICE_TOKEN".to_owned(), JsonValue::Number("42".to_owned())),
        (
            "nested".to_owned(),
            JsonValue::Array(vec![JsonValue::Text("top-secret".to_owned()), JsonValue::Bool(true), JsonValue::Null]),
        ),
    ]);
    match redact_json(&value, &secrets) {
        JsonValue::Object(members) => {
            assert_eq!(members.len(), 3);
            assert_eq!(members[0].0, "stdout");
            assert!(matches!(&members[0].1, JsonValue::Text(t) if t == "token=<redacted>; again <redacted>"));
            assert!(matches!(&members[1].1, JsonValue::Text(t) if t == "<redacted>"));
            match &members[2].1 {
                JsonValue::Array(items) => {
                    assert!(matches!(&items[0], JsonValue::Text(t) if t == "<redacted>"));
                    assert!(matches!(items[1], JsonValue::Bool(true)));
                    assert!(matches!(items[2], JsonValue::Null));
                }
                other => panic!("expected an array, got {other:?}"),
            }
        }
        other => panic!("expected an object, got {other:?}"),
    }
}

#[test]
fn redacted_text_keeps_no_secret_and_is_stable() {
    let secrets = vec!["top-secret".to_owned(), "sk-12".to_owned()];
    let once = redact_text("a top-secret, sk-12 and sk-123 here", &secrets);
    assert_eq!(once, "a <redacted>, <redacted> and <redacted>3 here");
    assert!(!once.contains("top-secret") && !once.contains("sk-12"));
    assert_eq!(redact_text(&once, &secrets), once);
}

#[test]
fn redacting_exported_json_twice_changes_nothing() {
    let secrets = vec!["pw-9".to_owned()];
    let value = JsonValue::Array(vec![
        JsonValue::Text("login pw-9pw-9".to_owned()),
        JsonValue::Object(vec![("password".to_owned(), JsonValue::Text("plain".to_owned()))]),
    ]);
    let once = redact_json(&value, &secrets);
    let twice = redact_json(&once, &secrets);
    assert_eq!(format!("{once:?}"), format!("{twice:?}"));
    assert!(!format!("{once:?}").contains("pw-9"));
    assert!(format!("{once:?}").contains("<redacted><redacted>"));
}

use fixtrace::config::ModelConfig;
use fixtrace::llm::openai_compatible::{chat_completions_endpoint, ProviderError, ProviderSettings};
use fixtrace::llm::usage::{TokenCounts, Usage, UsageObservation};

#[test]
fn endpoint_whitespace_and_trailing_slashes_are_normalized() {
    assert_eq!(
        chat_completions_endpoint(" https://example.test/v1/ "),
        "https://example.test/v1/chat/completions"
    );
    assert_eq!(
        chat_completions_endpoint("https://example.test/v1/chat/completions"),
        "https://example.test/v1/chat/completions"
    );
}

#[test]
fn endpoint_normalization_is_idempotent_on_examples() {
    for raw in ["", " ", "a /", "https://x.test//", "\thttps://x.test/v1/chat/completions/ \n", "/"] {
        let once = chat_completions_endpoint(raw);
        assert_eq!(chat_completions_endpoint(&once), once);
    }
    assert_eq!(chat_completions_endpoint(""), "/chat/completions");
    assert_eq!(chat_completions_endpoint("a /"), "a /chat/completions");
}

#[test]
fn provider_settings_check_style_and_key() {
    let mut config = ModelConfig::default();
    let settings = ProviderSettings::from_config(&config, Some("  secret-key \n".to_owned())).expect("settings");
    assert_eq!(settings.api_key, "secret-key");
    assert_eq!(settings.endpoint, "https://api.openai.com/v1/chat/completions");
    assert_eq!(settings.model, "gpt-5-mini");
    assert_eq!(settings.reasoning_mode, "medium");
    assert!(matches!(
        ProviderSettings::from_config(&config, None),
        Err(ProviderError::MissingApiKey { variable }) if variable == "FIXTRACE_API_KEY"
    ));
    assert!(matches!(
        ProviderSettings::from_config(&config, Some(" \t".to_owned())),
        Err(ProviderError::EmptyApiKey { .. })
    ));
    config.api_style = "responses".to_owned();
    assert!(matches!(
        ProviderSettings::from_config(&config, Some("k".to_owned())),
        Err(ProviderError::UnsupportedApiStyle { style }) if style == "responses"
    ));
}

#[test]
fn total_tokens_saturate() {
    assert_eq!(Usage { input_tokens: 1_000_000, output_tokens: 500_000 }.total_tokens(), 1_500_000);
    assert_eq!(Usage { input_tokens: u64::MAX, output_tokens: 2 }.total_tokens(), u64::MAX);
}

#[test]
fn token_counts_record_known_and_unknown_usage() {
    let mut counts = TokenCounts::new();
    counts.record(UsageObservation::Known { usage: Usage { input_tokens: 1_000_000, output_tokens: 500_000 } });
    counts.record(UsageObservation::Unknown);
    assert_eq!(counts.calls, 2);
    assert_eq!(counts.unknown_usage_calls, 1);
    assert_eq!(counts.input_tokens, 1_000_000);
    assert_eq!(counts.output_tokens, 500_000);
    assert_eq!(counts.total_tokens, 1_500_000);
    assert!(counts.exceeds_tokens(1_500_000));
    assert!(!counts.exceeds_tokens(1_500_001));
}

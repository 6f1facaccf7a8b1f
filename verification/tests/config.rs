use fixtrace::config::{
    parse_config_key, ConfigKey, ConfigKeyError, default_max_total_tokens, validate_model, validate_replay, validate_token_budget, ConfigError, ModelConfig,
    ReplayConfig,
};

#[test]
fn model_and_replay_defaults_hold_the_required_settings() {
    let model = ModelConfig::default();
    assert_eq!(model.provider, "openai-compatible");
    assert_eq!(model.endpoint, "https://api.openai.com/v1");
    assert_eq!(model.api_key_env, "FIXTRACE_API_KEY");
    assert_eq!(model.model, "gpt-5-mini");
    assert_eq!(model.api_style, "chat-completions");
    assert_eq!(model.context_length, 32_768);
    assert_eq!(model.reasoning_mode, "medium");
    assert_eq!(model.max_agent_steps, 12);
    assert_eq!(default_max_total_tokens(), 100_000);
    let replay = ReplayConfig::default();
    assert_eq!(replay.repetitions, 3);
    assert_eq!(replay.oracle_timeout_secs, 120);
    assert!(!replay.include_target);
}

#[test]
fn validation_reports_the_first_problem() {
    let mut model = ModelConfig::default();
    assert_eq!(validate_model(&model), Ok(()));
    model.context_length = 0;
    assert_eq!(validate_model(&model), Err(ConfigError::ModelLimitsNotPositive));
    model.api_key_env = "  ".to_owned();
    assert_eq!(validate_model(&model), Err(ConfigError::EmptyApiKeyEnv));
    model.endpoint = "\n".to_owned();
    assert_eq!(validate_model(&model), Err(ConfigError::EmptyEndpoint));
    assert_eq!(validate_token_budget(0), Err(ConfigError::TokenBudgetNotPositive));
    assert_eq!(validate_token_budget(1), Ok(()));
    let mut replay = ReplayConfig::default();
    assert_eq!(validate_replay(&replay), Ok(()));
    replay.oracle_timeout_secs = 0;
    assert_eq!(validate_replay(&replay), Err(ConfigError::ReplayLimitsNotPositive));
}

#[test]
fn config_contains_required_course_settings() {
    let model = ModelConfig::default();

    assert_eq!(model.api_key_env, "FIXTRACE_API_KEY");
    assert_eq!(model.context_length, 32_768);
    assert_eq!(model.reasoning_mode, "medium");
    assert_eq!(default_max_total_tokens(), 100_000);
}

#[test]
fn setting_names_are_checked_and_the_api_key_is_refused() {
    assert_eq!(parse_config_key("model.api_key"), Err(ConfigKeyError::ApiKeyNotStorable));
    assert_eq!(parse_config_key("model.api_key_env"), Ok(ConfigKey::ModelApiKeyEnv));
    assert_eq!(parse_config_key("replay.repetitions"), Ok(ConfigKey::ReplayRepetitions));
    assert_eq!(parse_config_key("pricing.input_per_million_usd"), Ok(ConfigKey::PricingInputPerMillionUsd));
    assert_eq!(parse_config_key("model"), Err(ConfigKeyError::UnknownKey));
}

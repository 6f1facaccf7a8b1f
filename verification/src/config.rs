use vstd::prelude::*;
use crate::text::{chars_of, str_is, trim_chars, trimmed};

verus! {

/// How the model is reached and used.
#[derive(Clone, Debug)]
pub struct ModelConfig {
    pub provider: String,
    pub endpoint: String,
    pub api_key_env: String,
    pub model: String,
    pub api_style: String,
    pub context_length: u64,
    pub reasoning_mode: String,
    pub max_agent_steps: usize,
}

impl Default for ModelConfig {
    fn default() -> (res: Self)
        ensures
            res.provider@ == "openai-compatible"@,
            res.endpoint@ == "https://api.openai.com/v1"@,
            res.api_key_env@ == "FIXTRACE_API_KEY"@,
            res.model@ == "gpt-5-mini"@,
            res.api_style@ == "chat-completions"@,
            res.context_length == 32768,
            res.reasoning_mode@ == "medium"@,
            res.max_agent_steps == 12,
    {
        ModelConfig {
            provider: String::from_str("openai-compatible"),
            endpoint: String::from_str("https://api.openai.com/v1"),
            api_key_env: String::from_str("FIXTRACE_API_KEY"),
            model: String::from_str("gpt-5-mini"),
            api_style: String::from_str("chat-completions"),
            context_length: 32768,
            reasoning_mode: String::from_str("medium"),
            max_agent_steps: 12,
        }
    }
}

/// How trials are replayed.
#[derive(Clone, Debug)]
pub struct ReplayConfig {
    pub repetitions: u32,
    pub oracle_timeout_secs: u64,
    pub include_target: bool,
}

impl Default for ReplayConfig {
    fn default() -> (res: Self)
        ensures
            res.repetitions == 3,
            res.oracle_timeout_secs == 120,
            !res.include_target,
    {
        ReplayConfig { repetitions: 3, oracle_timeout_secs: 120, include_target: false }
    }
}

/// The budget's token limit by default.
pub fn default_max_total_tokens() -> (res: u64)
    ensures
        res == 100000,
{
    100000
}

/// What makes a configuration unusable.
#[derive(Clone, Copy, Debug, PartialEq, Eq, Structural)]
pub enum ConfigError {
    /// `model.endpoint` is blank.
    EmptyEndpoint,
    /// `model.api_key_env` is blank.
    EmptyApiKeyEnv,
    /// `model.context_length` or `model.max_agent_steps` is zero.
    ModelLimitsNotPositive,
    /// `budget.max_total_tokens` is zero.
    TokenBudgetNotPositive,
    /// `replay.repetitions` or `replay.oracle_timeout_secs` is zero.
    ReplayLimitsNotPositive,
}

/// Checks the model settings, in this order: the endpoint and the key's variable name are
/// not blank, the context length and the step limit are positive.
pub fn validate_model(model: &ModelConfig) -> (res: Result<(), ConfigError>)
    ensures
        res == (if trimmed(model.endpoint@).len() == 0 {
            Err(ConfigError::EmptyEndpoint)
        } else if trimmed(model.api_key_env@).len() == 0 {
            Err(ConfigError::EmptyApiKeyEnv)
        } else if model.context_length == 0 || model.max_agent_steps == 0 {
            Err(ConfigError::ModelLimitsNotPositive)
        } else {
            Ok(())
        }),
{
    if trim_chars(&chars_of(model.endpoint.as_str())).len() == 0 {
        return Err(ConfigError::EmptyEndpoint);
    }
    if trim_chars(&chars_of(model.api_key_env.as_str())).len() == 0 {
        return Err(ConfigError::EmptyApiKeyEnv);
    }
    if model.context_length == 0 || model.max_agent_steps == 0 {
        return Err(ConfigError::ModelLimitsNotPositive);
    }
    Ok(())
}

/// The token budget must be positive.
pub fn validate_token_budget(max_total_tokens: u64) -> (res: Result<(), ConfigError>)
    ensures
        res == (if max_total_tokens == 0 { Err(ConfigError::TokenBudgetNotPositive) } else { Ok(()) }),
{
    if max_total_tokens == 0 {
        Err(ConfigError::TokenBudgetNotPositive)
    } else {
        Ok(())
    }
}

/// Replays need at least one repetition and a positive Oracle timeout.
pub fn validate_replay(replay: &ReplayConfig) -> (res: Result<(), ConfigError>)
    ensures
        res == (if replay.repetitions == 0 || replay.oracle_timeout_secs == 0 {
            Err(ConfigError::ReplayLimitsNotPositive)
        } else {
            Ok(())
        }),
{
    if replay.repetitions == 0 || replay.oracle_timeout_secs == 0 {
        Err(ConfigError::ReplayLimitsNotPositive)
    } else {
        Ok(())
    }
}

/// A setting that can be changed by its dotted name.
#[derive(Clone, Copy, Debug, PartialEq, Eq, Structural)]
pub enum ConfigKey {
    ModelProvider,
    ModelEndpoint,
    ModelApiKeyEnv,
    ModelName,
    ModelApiStyle,
    ModelContextLength,
    ModelReasoningMode,
    ModelMaxAgentSteps,
    PricingInputPerMillionUsd,
    PricingOutputPerMillionUsd,
    BudgetMaxTotalTokens,
    BudgetMaxCostUsd,
    ReplayRepetitions,
    ReplayOracleTimeoutSecs,
    ReplayIncludeTarget,
}

/// The dotted name of a setting.
pub open spec fn key_name(k: ConfigKey) -> Seq<char> {
    match k {
        ConfigKey::ModelProvider => "model.provider"@,
        ConfigKey::ModelEndpoint => "model.endpoint"@,
        ConfigKey::ModelApiKeyEnv => "model.api_key_env"@,
        ConfigKey::ModelName => "model.model"@,
        ConfigKey::ModelApiStyle => "model.api_style"@,
        ConfigKey::ModelContextLength => "model.context_length"@,
        ConfigKey::ModelReasoningMode => "model.reasoning_mode"@,
        ConfigKey::ModelMaxAgentSteps => "model.max_agent_steps"@,
        ConfigKey::PricingInputPerMillionUsd => "pricing.input_per_million_usd"@,
        ConfigKey::PricingOutputPerMillionUsd => "pricing.output_per_million_usd"@,
        ConfigKey::BudgetMaxTotalTokens => "budget.max_total_tokens"@,
        ConfigKey::BudgetMaxCostUsd => "budget.max_cost_usd"@,
        ConfigKey::ReplayRepetitions => "replay.repetitions"@,
        ConfigKey::ReplayOracleTimeoutSecs => "replay.oracle_timeout_secs"@,
        ConfigKey::ReplayIncludeTarget => "replay.include_target"@,
    }
}

/// Why a setting name was refused.
#[derive(Clone, Copy, Debug, PartialEq, Eq, Structural)]
pub enum ConfigKeyError {
    /// `model.api_key`: the key itself is never stored, only the name of its variable.
    ApiKeyNotStorable,
    /// No setting has this name.
    UnknownKey,
}

/// The setting named `key`. `model.api_key` is refused, since only the name of the
/// variable that holds the key (`model.api_key_env`) is kept; any other unknown name is
/// refused too.
pub fn parse_config_key(key: &str) -> (res: Result<ConfigKey, ConfigKeyError>)
    ensures
        res matches Ok(k) ==> key_name(k) == key@,
        (res == Err::<ConfigKey, ConfigKeyError>(ConfigKeyError::ApiKeyNotStorable)) <==> key@ == "model.api_key"@,
        res == Err::<ConfigKey, ConfigKeyError>(ConfigKeyError::UnknownKey) ==> forall|k: ConfigKey| #[trigger] key_name(k) != key@,
        (exists|k: ConfigKey| #[trigger] key_name(k) == key@) && key@ != "model.api_key"@ ==> res is Ok,
        key@ == "model.provider"@ ==> res == Ok::<ConfigKey, ConfigKeyError>(ConfigKey::ModelProvider),
        key@ == "model.endpoint"@ ==> res == Ok::<ConfigKey, ConfigKeyError>(ConfigKey::ModelEndpoint),
        key@ == "model.api_key_env"@ ==> res == Ok::<ConfigKey, ConfigKeyError>(ConfigKey::ModelApiKeyEnv),
        key@ == "model.model"@ ==> res == Ok::<ConfigKey, ConfigKeyError>(ConfigKey::ModelName),
        key@ == "model.api_style"@ ==> res == Ok::<ConfigKey, ConfigKeyError>(ConfigKey::ModelApiStyle),
        key@ == "model.context_length"@ ==> res == Ok::<ConfigKey, ConfigKeyError>(ConfigKey::ModelContextLength),
        key@ == "model.reasoning_mode"@ ==> res == Ok::<ConfigKey, ConfigKeyError>(ConfigKey::ModelReasoningMode),
        key@ == "model.max_agent_steps"@ ==> res == Ok::<ConfigKey, ConfigKeyError>(ConfigKey::ModelMaxAgentSteps),
        key@ == "pricing.input_per_million_usd"@ ==> res == Ok::<ConfigKey, ConfigKeyError>(ConfigKey::PricingInputPerMillionUsd),
        key@ == "pricing.output_per_million_usd"@ ==> res == Ok::<ConfigKey, ConfigKeyError>(ConfigKey::PricingOutputPerMillionUsd),
        key@ == "budget.max_total_tokens"@ ==> res == Ok::<ConfigKey, ConfigKeyError>(ConfigKey::BudgetMaxTotalTokens),
        key@ == "budget.max_cost_usd"@ ==> res == Ok::<ConfigKey, ConfigKeyError>(ConfigKey::BudgetMaxCostUsd),
        key@ == "replay.repetitions"@ ==> res == Ok::<ConfigKey, ConfigKeyError>(ConfigKey::ReplayRepetitions),
        key@ == "replay.oracle_timeout_secs"@ ==> res == Ok::<ConfigKey, ConfigKeyError>(ConfigKey::ReplayOracleTimeoutSecs),
        key@ == "replay.include_target"@ ==> res == Ok::<ConfigKey, ConfigKeyError>(ConfigKey::ReplayIncludeTarget),
{
    proof {
        reveal_strlit("model.api_key");
        reveal_strlit("model.provider");
        reveal_strlit("model.endpoint");
        reveal_strlit("model.api_key_env");
        reveal_strlit("model.model");
        reveal_strlit("model.api_style");
        reveal_strlit("model.context_length");
        reveal_strlit("model.reasoning_mode");
        reveal_strlit("model.max_agent_steps");
        reveal_strlit("pricing.input_per_million_usd");
        reveal_strlit("pricing.output_per_million_usd");
        reveal_strlit("budget.max_total_tokens");
        reveal_strlit("budget.max_cost_usd");
        reveal_strlit("replay.repetitions");
        reveal_strlit("replay.oracle_timeout_secs");
        reveal_strlit("replay.include_target");
        assert("model.api_key"@.len() == 13);
        assert("model.provider"@.len() == 14);
        assert("model.endpoint"@.len() == 14);
        assert("model.api_key_env"@.len() == 17);
        assert("model.model"@.len() == 11);
        assert("model.api_style"@.len() == 15);
        assert("model.context_length"@.len() == 20);
        assert("model.reasoning_mode"@.len() == 20);
        assert("model.max_agent_steps"@.len() == 21);
        assert("pricing.input_per_million_usd"@.len() == 29);
        assert("pricing.output_per_million_usd"@.len() == 30);
        assert("budget.max_total_tokens"@.len() == 23);
        assert("budget.max_cost_usd"@.len() == 19);
        assert("replay.repetitions"@.len() == 18);
        assert("replay.oracle_timeout_secs"@.len() == 26);
        assert("replay.include_target"@.len() == 21);
        assert("model.context_length"@[6] == 'c');
        assert("model.endpoint"@[6] == 'e');
        assert("model.max_agent_steps"@[0] == 'm');
        assert("model.provider"@[6] == 'p');
        assert("model.reasoning_mode"@[6] == 'r');
        assert("replay.include_target"@[0] == 'r');
    }
    if str_is(key, "model.api_key") {
        return Err(ConfigKeyError::ApiKeyNotStorable);
    }
    if str_is(key, "model.provider") {
        return Ok(ConfigKey::ModelProvider);
    }
    if str_is(key, "model.endpoint") {
        return Ok(ConfigKey::ModelEndpoint);
    }
    if str_is(key, "model.api_key_env") {
        return Ok(ConfigKey::ModelApiKeyEnv);
    }
    if str_is(key, "model.model") {
        return Ok(ConfigKey::ModelName);
    }
    if str_is(key, "model.api_style") {
        return Ok(ConfigKey::ModelApiStyle);
    }
    if str_is(key, "model.context_length") {
        return Ok(ConfigKey::ModelContextLength);
    }
    if str_is(key, "model.reasoning_mode") {
        return Ok(ConfigKey::ModelReasoningMode);
    }
    if str_is(key, "model.max_agent_steps") {
        return Ok(ConfigKey::ModelMaxAgentSteps);
    }
    if str_is(key, "pricing.input_per_million_usd") {
        return Ok(ConfigKey::PricingInputPerMillionUsd);
    }
    if str_is(key, "pricing.output_per_million_usd") {
        return Ok(ConfigKey::PricingOutputPerMillionUsd);
    }
    if str_is(key, "budget.max_total_tokens") {
        return Ok(ConfigKey::BudgetMaxTotalTokens);
    }
    if str_is(key, "budget.max_cost_usd") {
        return Ok(ConfigKey::BudgetMaxCostUsd);
    }
    if str_is(key, "replay.repetitions") {
        return Ok(ConfigKey::ReplayRepetitions);
    }
    if str_is(key, "replay.oracle_timeout_secs") {
        return Ok(ConfigKey::ReplayOracleTimeoutSecs);
    }
    if str_is(key, "replay.include_target") {
        return Ok(ConfigKey::ReplayIncludeTarget);
    }
    assert forall|k: ConfigKey| #[trigger] key_name(k) != key@ by {}
    Err(ConfigKeyError::UnknownKey)
}

} // verus!

use vstd::prelude::*;

verus! {

/// Tokens a model call consumed.
#[derive(Clone, Copy, Debug, PartialEq, Eq, Structural)]
pub struct Usage {
    pub input_tokens: u64,
    pub output_tokens: u64,
}

impl Usage {
    /// Input and output tokens together, the largest `u64` when they do not fit.
    pub fn total_tokens(self) -> (res: u64)
        ensures
            res == (if self.input_tokens + self.output_tokens > u64::MAX { u64::MAX as int } else { self.input_tokens
                + self.output_tokens }),
    {
        self.input_tokens.saturating_add(self.output_tokens)
    }
}

/// What a model call reported about its token use.
#[derive(Clone, Copy, Debug, PartialEq, Eq, Structural)]
pub enum UsageObservation {
    Known { usage: Usage },
    Unknown,
}

/// `a + b`, the largest `u64` when it does not fit.
pub open spec fn sat_add(a: u64, b: u64) -> u64 {
    if a + b > u64::MAX { u64::MAX } else { (a + b) as u64 }
}

/// The token side of a usage summary: how many calls were made, how many did not report
/// their usage, and the tokens the others reported; every count saturates.
#[derive(Clone, Copy, Debug, PartialEq, Eq, Structural)]
pub struct TokenCounts {
    pub calls: u64,
    pub unknown_usage_calls: u64,
    pub input_tokens: u64,
    pub output_tokens: u64,
    pub total_tokens: u64,
}

impl TokenCounts {
    /// No calls yet.
    pub fn new() -> (res: Self)
        ensures
            res == (TokenCounts { calls: 0, unknown_usage_calls: 0, input_tokens: 0, output_tokens: 0, total_tokens: 0 }),
    {
        TokenCounts { calls: 0, unknown_usage_calls: 0, input_tokens: 0, output_tokens: 0, total_tokens: 0 }
    }

    /// Counts one call and what it reported.
    pub fn record(&mut self, observation: UsageObservation)
        ensures
            final(self).calls == sat_add(old(self).calls, 1),
            match observation {
                UsageObservation::Known { usage } => {
                    &&& final(self).unknown_usage_calls == old(self).unknown_usage_calls
                    &&& final(self).input_tokens == sat_add(old(self).input_tokens, usage.input_tokens)
                    &&& final(self).output_tokens == sat_add(old(self).output_tokens, usage.output_tokens)
                    &&& final(self).total_tokens == sat_add(old(self).total_tokens, sat_add(usage.input_tokens, usage.output_tokens))
                },
                UsageObservation::Unknown => {
                    &&& final(self).unknown_usage_calls == sat_add(old(self).unknown_usage_calls, 1)
                    &&& final(self).input_tokens == old(self).input_tokens
                    &&& final(self).output_tokens == old(self).output_tokens
                    &&& final(self).total_tokens == old(self).total_tokens
                },
            },
    {
        self.calls = self.calls.saturating_add(1);
        match observation {
            UsageObservation::Known { usage } => {
                self.input_tokens = self.input_tokens.saturating_add(usage.input_tokens);
                self.output_tokens = self.output_tokens.saturating_add(usage.output_tokens);
                self.total_tokens = self.total_tokens.saturating_add(usage.total_tokens());
            },
            UsageObservation::Unknown => {
                self.unknown_usage_calls = self.unknown_usage_calls.saturating_add(1);
            },
        }
    }

    /// Whether the tokens used so far reach the budget `max_total_tokens`.
    pub fn exceeds_tokens(&self, max_total_tokens: u64) -> (res: bool)
        ensures
            res == (self.total_tokens >= max_total_tokens),
    {
        self.total_tokens >= max_total_tokens
    }
}

} // verus!

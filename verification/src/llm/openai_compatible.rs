use vstd::prelude::*;
use crate::config::ModelConfig;
use crate::text::{copy_string, str_is, 
    chars_end_with, chars_of, ends_with, is_white, lemma_trimmed_edges, lemma_trimmed_fixed, string_from_chars,
    trim_chars, trimmed,
};

verus! {

/// The path that a Chat Completions endpoint ends in.
pub open spec fn completions_path() -> Seq<char> {
    seq!['/', 'c', 'h', 'a', 't', '/', 'c', 'o', 'm', 'p', 'l', 'e', 't', 'i', 'o', 'n', 's']
}

/// `s` without its trailing `/` characters.
pub open spec fn without_trailing_slashes(s: Seq<char>) -> Seq<char>
    decreases s.len(),
{
    if s.len() > 0 && s.last() == '/' {
        without_trailing_slashes(s.drop_last())
    } else {
        s
    }
}

/// The Chat Completions URL for a configured endpoint: trimmed, without trailing slashes,
/// and ending in `/chat/completions` (appended unless it is already there).
pub open spec fn spec_endpoint(endpoint: Seq<char>) -> Seq<char> {
    let e = without_trailing_slashes(trimmed(endpoint));
    if ends_with(e, completions_path()) {
        e
    } else {
        e + completions_path()
    }
}

/// The Chat Completions URL for a configured endpoint.
pub fn chat_completions_endpoint(endpoint: &str) -> (res: String)
    ensures
        res@ == spec_endpoint(endpoint@),
{
    let chars = chars_of(endpoint);
    let mut e = trim_chars(&chars);
    let ghost t = e@;
    while e.len() > 0 && e[e.len() - 1] == '/'
        invariant
            without_trailing_slashes(e@) == without_trailing_slashes(t),
        decreases e.len(),
    {
        let ghost before = e@;
        e.pop();
        assert(e@ == before.drop_last());
    }
    let suffix_text = "/chat/completions";
    proof {
        reveal_strlit("/chat/completions");
    }
    let suffix = chars_of(suffix_text);
    assert(suffix@ == completions_path());
    if chars_end_with(&e, &suffix) {
        string_from_chars(&e)
    } else {
        let mut i: usize = 0;
        let ghost base = e@;
        while i < suffix.len()
            invariant
                i <= suffix@.len(),
                e@ == base + suffix@.take(i as int),
            decreases suffix.len() - i,
        {
            e.push(suffix[i]);
            i += 1;
            assert(e@ =~= base + suffix@.take(i as int));
        }
        assert(suffix@.take(suffix@.len() as int) =~= suffix@);
        string_from_chars(&e)
    }
}

proof fn lemma_strip_keeps_front(s: Seq<char>)
    ensures
        without_trailing_slashes(s).len() <= s.len(),
        without_trailing_slashes(s) == s.subrange(0, without_trailing_slashes(s).len() as int),
        without_trailing_slashes(s).len() > 0 ==> without_trailing_slashes(s).last() != '/',
    decreases s.len(),
{
    if s.len() > 0 && s.last() == '/' {
        lemma_strip_keeps_front(s.drop_last());
        let r = without_trailing_slashes(s);
        assert(r == s.drop_last().subrange(0, r.len() as int));
        assert(r =~= s.subrange(0, r.len() as int));
    } else {
        assert(s =~= s.subrange(0, s.len() as int));
    }
}

/// Normalizing an endpoint twice gives what normalizing it once gives.
pub proof fn endpoint_normalization_is_idempotent(endpoint: Seq<char>)
    ensures
        spec_endpoint(spec_endpoint(endpoint)) == spec_endpoint(endpoint),
{
    let t = trimmed(endpoint);
    let e = without_trailing_slashes(t);
    let r = spec_endpoint(endpoint);
    lemma_trimmed_edges(endpoint);
    lemma_strip_keeps_front(t);
    let p = completions_path();
    assert(p.last() == 's');
    assert(!is_white('s'));
    // `r` starts where the trimmed text starts and ends with `s`, or is empty.
    if ends_with(e, p) {
        assert(r == e);
        assert(e.subrange(e.len() - p.len(), e.len() as int) == p);
        assert(e.last() == p.last());
        assert(e[0] == t[0]);
    } else {
        assert(r == e + p);
        assert(r.last() == 's');
        if e.len() > 0 {
            assert(r[0] == e[0]);
            assert(e[0] == t[0]);
        } else {
            assert(r[0] == p[0]);
            assert(!is_white('/'));
        }
        assert(r.subrange(r.len() - p.len(), r.len() as int) =~= p);
    }
    assert(r.len() > 0);
    lemma_trimmed_fixed(r);
    assert(without_trailing_slashes(r) == r);
    assert(ends_with(r, p));
}

/// Why a Chat Completions provider cannot be set up.
#[derive(Clone, Debug)]
pub enum ProviderError {
    /// Only the `chat-completions` API style is spoken.
    UnsupportedApiStyle { style: String },
    /// The variable named by `api_key_env` is not set.
    MissingApiKey { variable: String },
    /// The variable named by `api_key_env` holds only white space.
    EmptyApiKey { variable: String },
}

/// What a Chat Completions provider sends with every request.
#[derive(Clone, Debug)]
pub struct ProviderSettings {
    pub endpoint: String,
    pub api_key: String,
    pub model: String,
    pub reasoning_mode: String,
}

impl ProviderSettings {
    /// The settings for `config`, where `api_key` is the value of the variable that
    /// `config.api_key_env` names (`None`: not set). The key is trimmed.
    pub fn from_config(config: &ModelConfig, api_key: Option<String>) -> (res: Result<Self, ProviderError>)
        ensures
            res matches Err(ProviderError::UnsupportedApiStyle { style }) <==> config.api_style@ != "chat-completions"@,
            res matches Err(ProviderError::UnsupportedApiStyle { style }) ==> style@ == config.api_style@,
            res matches Err(ProviderError::MissingApiKey { variable }) <==> config.api_style@ == "chat-completions"@
                && api_key is None,
            res matches Err(ProviderError::MissingApiKey { variable }) ==> variable@ == config.api_key_env@,
            res matches Err(ProviderError::EmptyApiKey { variable }) <==> config.api_style@ == "chat-completions"@
                && (api_key matches Some(k) && trimmed(k@).len() == 0),
            res matches Err(ProviderError::EmptyApiKey { variable }) ==> variable@ == config.api_key_env@,
            res matches Ok(p) ==> {
                &&& (api_key matches Some(k) && p.api_key@ == trimmed(k@))
                &&& p.endpoint@ == spec_endpoint(config.endpoint@)
                &&& p.model@ == config.model@
                &&& p.reasoning_mode@ == config.reasoning_mode@
            },
    {
        if !str_is(config.api_style.as_str(), "chat-completions") {
            return Err(ProviderError::UnsupportedApiStyle { style: copy_string(&config.api_style) });
        }
        let key = match api_key {
            None => {
                return Err(ProviderError::MissingApiKey { variable: copy_string(&config.api_key_env) });
            },
            Some(k) => k,
        };
        let trimmed_key = trim_chars(&chars_of(key.as_str()));
        if trimmed_key.len() == 0 {
            return Err(ProviderError::EmptyApiKey { variable: copy_string(&config.api_key_env) });
        }
        Ok(ProviderSettings {
            endpoint: chat_completions_endpoint(config.endpoint.as_str()),
            api_key: string_from_chars(&trimmed_key),
            model: copy_string(&config.model),
            reasoning_mode: copy_string(&config.reasoning_mode),
        })
    }
}

} // verus!

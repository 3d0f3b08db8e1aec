//! The providers of language models that can be checked.
use vstd::prelude::*;

use crate::hash::HashRef;

verus! {

/// The programming interface of a provider.
#[derive(Clone, Copy, Debug, PartialEq, Eq, Structural)]
pub enum LlmApiKind {
    Responses,
    AnthropicMessages,
}

/// A provider, and where its settings are found.
#[derive(Clone, Copy, Debug)]
pub struct ProviderCase {
    pub provider_id: &'static str,
    pub api_kind: LlmApiKind,
    pub api_key_env: &'static str,
    pub model_env: &'static str,
    /// The model to ask where no setting names one.
    pub default_model: Option<&'static str>,
    pub base_url_env: &'static str,
    pub default_base_url: &'static str,
    pub supports_response_format: bool,
    pub strict_multi_tool: bool,
}

/// A provider that can be asked.
#[derive(Debug)]
pub struct ProviderRuntime {
    pub provider_id: String,
    pub api_kind: LlmApiKind,
    pub api_key: String,
    pub model: String,
    pub base_url: String,
    pub supports_response_format: bool,
    pub strict_multi_tool: bool,
}

/// Whether a case is one of OpenAI, with the model that a setting names.
pub open spec fn is_openai(
    c: ProviderCase,
    model_env: Seq<char>,
    default_model: Seq<char>,
    strict: bool,
) -> bool {
    &&& c.provider_id@ == "openai-responses"@
    &&& c.api_kind == LlmApiKind::Responses
    &&& c.api_key_env@ == "OPENAI_API_KEY"@
    &&& c.model_env@ == model_env
    &&& c.default_model matches Some(m) && m@ == default_model
    &&& c.base_url_env@ == "OPENAI_BASE_URL"@
    &&& c.default_base_url@ == "https://api.openai.com/v1"@
    &&& c.supports_response_format
    &&& c.strict_multi_tool == strict
}

pub open spec fn is_anthropic(c: ProviderCase) -> bool {
    &&& c.provider_id@ == "anthropic"@
    &&& c.api_kind == LlmApiKind::AnthropicMessages
    &&& c.api_key_env@ == "ANTHROPIC_API_KEY"@
    &&& c.model_env@ == "ANTHROPIC_LIVE_MODEL"@
    &&& c.default_model is None
    &&& c.base_url_env@ == "ANTHROPIC_BASE_URL"@
    &&& c.default_base_url@ == "https://api.anthropic.com/v1"@
    &&& !c.supports_response_format
    &&& !c.strict_multi_tool
}

fn openai_case(model_env: &'static str, default_model: &'static str, strict: bool) -> (r:
    ProviderCase)
    ensures
        is_openai(r, model_env@, default_model@, strict),
{
    ProviderCase {
        provider_id: "openai-responses",
        api_kind: LlmApiKind::Responses,
        api_key_env: "OPENAI_API_KEY",
        model_env,
        default_model: Some(default_model),
        base_url_env: "OPENAI_BASE_URL",
        default_base_url: "https://api.openai.com/v1",
        supports_response_format: true,
        strict_multi_tool: strict,
    }
}

/// The providers that are known.
pub fn provider_cases() -> (r: Vec<ProviderCase>)
    ensures
        r@.len() == 3,
        is_openai(r@[0], "OPENAI_LIVE_MODEL"@, "gpt-5-mini"@, false),
        is_openai(r@[1], "OPENAI_CODEX_LIVE_MODEL"@, "gpt-5.2-codex"@, true),
        is_anthropic(r@[2]),
{
    let mut out: Vec<ProviderCase> = Vec::new();
    out.push(openai_case("OPENAI_LIVE_MODEL", "gpt-5-mini", false));
    out.push(openai_case("OPENAI_CODEX_LIVE_MODEL", "gpt-5.2-codex", true));
    out.push(
        ProviderCase {
            provider_id: "anthropic",
            api_kind: LlmApiKind::AnthropicMessages,
            api_key_env: "ANTHROPIC_API_KEY",
            model_env: "ANTHROPIC_LIVE_MODEL",
            default_model: None,
            base_url_env: "ANTHROPIC_BASE_URL",
            default_base_url: "https://api.anthropic.com/v1",
            supports_response_format: false,
            strict_multi_tool: false,
        },
    );
    out
}

/// The settings that were found for a provider.
#[derive(Debug)]
pub struct CaseSettings {
    pub api_key: Option<String>,
    pub model: Option<String>,
    pub base_url: Option<String>,
}

pub open spec fn or_default(found: Option<String>, default_text: Seq<char>) -> Seq<char> {
    match found {
        Some(t) => t@,
        None => default_text,
    }
}

/// The model to ask, if there is one: that of the settings, or the default.
pub open spec fn chosen_model(found: Option<String>, default_model: Option<&'static str>) -> Option<
    Seq<char>,
> {
    match (found, default_model) {
        (Some(t), _) => Some(t@),
        (None, Some(m)) => Some(m@),
        (None, None) => None,
    }
}

/// Whether settings say enough to ask a provider.
pub open spec fn can_be_asked(c: ProviderCase, s: CaseSettings) -> bool {
    s.api_key is Some && chosen_model(s.model, c.default_model) is Some
}

/// Whether a provider is set up as a case and its settings say.
pub open spec fn is_runtime(r: ProviderRuntime, c: ProviderCase, s: CaseSettings) -> bool {
    &&& r.provider_id@ == c.provider_id@
    &&& r.api_kind == c.api_kind
    &&& s.api_key matches Some(k) && r.api_key@ == k@
    &&& chosen_model(s.model, c.default_model) == Some(r.model@)
    &&& r.base_url@ == or_default(s.base_url, c.default_base_url@)
    &&& r.supports_response_format == c.supports_response_format
    &&& r.strict_multi_tool == c.strict_multi_tool
}

fn text_or(found: &Option<String>, default_text: &str) -> (r: String)
    ensures
        r@ == or_default(*found, default_text@),
{
    match found {
        Some(t) => t.clone(),
        None => default_text.to_owned(),
    }
}

/// A provider that can be asked: one for which there is a key, and a model.
pub fn activate(case: &ProviderCase, settings: &CaseSettings) -> (r: Option<ProviderRuntime>)
    ensures
        match r {
            Some(p) => is_runtime(p, *case, *settings),
            None => !can_be_asked(*case, *settings),
        },
{
    let model = match (&settings.model, case.default_model) {
        (Some(t), _) => t.clone(),
        (None, Some(m)) => m.to_owned(),
        (None, None) => return None,
    };
    match &settings.api_key {
        None => None,
        Some(key) => Some(
            ProviderRuntime {
                provider_id: case.provider_id.to_owned(),
                api_kind: case.api_kind,
                api_key: key.clone(),
                model,
                base_url: text_or(&settings.base_url, case.default_base_url),
                supports_response_format: case.supports_response_format,
                strict_multi_tool: case.strict_multi_tool,
            },
        ),
    }
}

/// The positions of the first `n` cases that can be asked.
pub open spec fn active(cases: Seq<ProviderCase>, settings: Seq<CaseSettings>, n: nat) -> Seq<int>
    decreases n,
{
    if n == 0 || n > settings.len() || n > cases.len() {
        Seq::empty()
    } else if can_be_asked(cases[n - 1], settings[n - 1]) {
        active(cases, settings, (n - 1) as nat).push(n - 1)
    } else {
        active(cases, settings, (n - 1) as nat)
    }
}

/// Whether providers are those of the first `n` cases that can be asked, in order.
pub open spec fn are_active(
    r: Seq<ProviderRuntime>,
    cases: Seq<ProviderCase>,
    settings: Seq<CaseSettings>,
    n: nat,
) -> bool {
    let at = active(cases, settings, n);
    &&& r.len() == at.len()
    &&& forall|i: int|
        #![trigger r[i]]
        0 <= i < r.len() ==> is_runtime(r[i], cases[at[i]], settings[at[i]])
}

/// The providers that can be asked, in order; `settings` are those of the cases.
pub fn active_provider_matrix(cases: &Vec<ProviderCase>, settings: &Vec<CaseSettings>) -> (r: Vec<
    ProviderRuntime,
>)
    requires
        cases@.len() == settings@.len(),
    ensures
        are_active(r@, cases@, settings@, settings@.len()),
{
    let mut out: Vec<ProviderRuntime> = Vec::new();
    let mut i: usize = 0;
    while i < cases.len()
        invariant
            i <= cases@.len(),
            cases@.len() == settings@.len(),
            are_active(out@, cases@, settings@, i as nat),
        decreases cases@.len() - i,
    {
        let ghost before = out@;
        let ghost at = active(cases@, settings@, i as nat);
        let ghost next = active(cases@, settings@, (i + 1) as nat);
        match activate(&cases[i], &settings[i]) {
            Some(p) => {
                out.push(p);
                assert(next == at.push(i as int));
                assert forall|j: int| #![trigger out@[j]] 0 <= j < out@.len() implies is_runtime(
                    out@[j],
                    cases@[next[j]],
                    settings@[next[j]],
                ) by {
                    if j < before.len() {
                        assert(out@[j] == before[j]);
                        assert(next[j] == at[j]);
                    }
                }
            },
            None => {
                assert(next == at);
            },
        }
        i += 1;
    }
    out
}

/// How a model is run, as far as the checks say. Everything else is left to the provider.
#[derive(Debug)]
pub struct RuntimeArgs {
    pub max_tokens: Option<u64>,
    pub tool_refs: Option<Vec<HashRef>>,
    pub tool_required: bool,
    pub provider_options_ref: Option<HashRef>,
    pub response_format_ref: Option<HashRef>,
}

/// The plainest way to run a model.
pub fn default_runtime() -> (r: RuntimeArgs)
    ensures
        r.max_tokens == Some(512u64),
        r.tool_refs is None,
        !r.tool_required,
        r.provider_options_ref is None,
        r.response_format_ref is None,
{
    RuntimeArgs {
        max_tokens: Some(512),
        tool_refs: None,
        tool_required: false,
        provider_options_ref: None,
        response_format_ref: None,
    }
}

/// A request to a model.
#[derive(Debug)]
pub struct LlmGenerateParams {
    pub provider: String,
    pub model: String,
    pub message_refs: Vec<HashRef>,
    pub runtime: RuntimeArgs,
    pub api_key: Option<String>,
}

/// A request to a provider about messages in the store.
pub fn generate_params(case: &ProviderRuntime, message_ref: HashRef, runtime: RuntimeArgs) -> (r:
    LlmGenerateParams)
    ensures
        r.provider == case.provider_id,
        r.model == case.model,
        r.message_refs@ == seq![message_ref],
        r.runtime == runtime,
        r.api_key == Some(case.api_key),
{
    let mut message_refs: Vec<HashRef> = Vec::new();
    message_refs.push(message_ref);
    assert(message_refs@ =~= seq![message_ref]);
    LlmGenerateParams {
        provider: case.provider_id.clone(),
        model: case.model.clone(),
        message_refs,
        runtime,
        api_key: Some(case.api_key.clone()),
    }
}

} // verus!

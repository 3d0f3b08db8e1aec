//! Requests to a model that take one answer.
use vstd::prelude::*;

use crate::llm_live::chat::{blank, is_blank, ChatMessage, MessageView};
use crate::llm_live::providers::ProviderRuntime;
use crate::receipts::ReceiptStatus;
use crate::text::{join2, join3, join5, str_eq};

verus! {

/// A request that takes one answer.
#[derive(Clone, Copy, Debug, PartialEq, Eq, Structural)]
pub enum Scenario {
    PlainCompletion,
    RequiredToolCall,
    RuntimeRefs,
    InvalidApiKey,
}

/// What a model is asked.
pub open spec fn scenario_prompt(s: Scenario) -> Seq<char> {
    match s {
        Scenario::PlainCompletion => "Reply with exactly: live_adapter_ok"@,
        Scenario::RequiredToolCall
            => "Call echo_payload exactly once with an object containing a non-empty string field named `value`."@,
        Scenario::RuntimeRefs => "Reply with a short confirmation message."@,
        Scenario::InvalidApiKey => "hello"@,
    }
}

pub fn prompt(s: Scenario) -> (r: ChatMessage)
    ensures
        r@ == MessageView::User(scenario_prompt(s)),
{
    let text = match s {
        Scenario::PlainCompletion => "Reply with exactly: live_adapter_ok",
        Scenario::RequiredToolCall
            => "Call echo_payload exactly once with an object containing a non-empty string field named `value`.",
        Scenario::RuntimeRefs => "Reply with a short confirmation message.",
        Scenario::InvalidApiKey => "hello",
    };
    ChatMessage::User(text.to_owned())
}

/// The key that no provider takes.
pub const INVALID_API_KEY: &'static str = "invalid-live-adapter-key";

/// The options, in JSON, that a provider is given to see whether it takes options.
pub fn provider_options(provider_id: &str) -> (r: &'static str)
    ensures
        r@ == if provider_id@ == "anthropic"@ {
            "{\"anthropic\":{\"auto_cache\":false}}"@
        } else {
            "{\"openai\":{\"parallel_tool_calls\":false}}"@
        },
{
    if str_eq(provider_id, "anthropic") {
        "{\"anthropic\":{\"auto_cache\":false}}"
    } else {
        "{\"openai\":{\"parallel_tool_calls\":false}}"
    }
}

/// The format for responses, in JSON, that a provider is given, if it takes one.
pub fn response_format(supports_response_format: bool) -> (r: Option<&'static str>)
    ensures
        r is Some <==> supports_response_format,
        r matches Some(t) ==> t@ == "{\"strict\":false,\"type\":\"json_object\"}"@,
{
    if supports_response_format {
        Some("{\"strict\":false,\"type\":\"json_object\"}")
    } else {
        None
    }
}

pub open spec fn status_name(s: ReceiptStatus) -> Seq<char> {
    match s {
        ReceiptStatus::Success => "Ok"@,
        ReceiptStatus::Error => "Error"@,
        ReceiptStatus::Timeout => "Timeout"@,
    }
}

/// Whether a request went well; where it did not, the failure names the request, the provider and
/// what the provider said.
pub fn check_receipt(case: &ProviderRuntime, scenario: &str, status: ReceiptStatus, error: &str)
    -> (r: Result<(), String>)
    ensures
        match r {
            Ok(_) => status == ReceiptStatus::Success,
            Err(e) => status != ReceiptStatus::Success && e@ == scenario@
                + " failed for provider="@ + case.provider_id@ + " model="@ + case.model@
                + ": status="@ + status_name(status) + " error="@ + error@,
        },
{
    let name = match status {
        ReceiptStatus::Success => {
            return Ok(());
        },
        ReceiptStatus::Error => "Error",
        ReceiptStatus::Timeout => "Timeout",
    };
    let head = join5(
        scenario,
        " failed for provider=",
        case.provider_id.as_str(),
        " model=",
        case.model.as_str(),
    );
    let head = join3(head.as_str(), ": status=", name);
    Err(join3(head.as_str(), " error=", error))
}

/// Whether a key that no provider takes was refused.
pub fn check_refused(case: &ProviderRuntime, status: ReceiptStatus) -> (r: Result<(), String>)
    ensures
        match r {
            Ok(_) => status == ReceiptStatus::Error,
            Err(e) => status != ReceiptStatus::Error && e@
                == "expected error status for invalid key on "@ + case.provider_id@,
        },
{
    match status {
        ReceiptStatus::Error => Ok(()),
        _ => Err(
            join2("expected error status for invalid key on ", case.provider_id.as_str()),
        ),
    }
}

/// What a blank answer to a request is called.
pub open spec fn silence(s: Scenario, provider: Seq<char>) -> Seq<char> {
    match s {
        Scenario::RuntimeRefs => "expected assistant text for runtime refs smoke on "@ + provider,
        _ => "expected assistant text for "@ + provider,
    }
}

/// Whether a model has said something.
pub fn check_text(case: &ProviderRuntime, s: Scenario, text: &str) -> (r: Result<(), String>)
    ensures
        match r {
            Ok(_) => !blank(text@),
            Err(e) => blank(text@) && e@ == silence(s, case.provider_id@),
        },
{
    if !is_blank(text) {
        return Ok(());
    }
    match s {
        Scenario::RuntimeRefs => Err(
            join2(
                "expected assistant text for runtime refs smoke on ",
                case.provider_id.as_str(),
            ),
        ),
        _ => Err(join2("expected assistant text for ", case.provider_id.as_str())),
    }
}

/// Whether an answer came from the adapter of a provider.
pub fn is_adapter_of(provider: &str, adapter_id: &str) -> (r: bool)
    ensures
        r == (adapter_id@ == "host.llm."@ + provider@),
{
    let want = join2("host.llm.", provider);
    str_eq(adapter_id, want.as_str())
}

} // verus!

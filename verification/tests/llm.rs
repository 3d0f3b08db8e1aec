use aos_kernel::hash::{ContentHash, HashRef};
use aos_kernel::llm_live::chat::{is_blank, ChatMessage, ToolCall};
use aos_kernel::llm_live::dotenv::{env_or_dotenv_var, live_tests_enabled, parse_dotenv_value};
use aos_kernel::llm_live::multi_turn::{MultiTurn, TurnPhase, TOKEN};
use aos_kernel::llm_live::providers::{
    active_provider_matrix, default_runtime, generate_params, provider_cases, CaseSettings,
    LlmApiKind, ProviderRuntime,
};
use aos_kernel::llm_live::scenarios::{
    check_receipt, check_refused, check_text, is_adapter_of, prompt, provider_options,
    response_format, Scenario,
};
use aos_kernel::llm_live::tools::{
    check_required_call, judge_tool_calls, multi_tool_options, multi_tool_prompt,
    retry_without_format, tool_definitions, tool_result_followup, tool_result_messages,
    tool_runtime, CallsOutcome, MultiToolRun, ToolPhase, ToolSet,
};
use aos_kernel::receipts::ReceiptStatus;

fn names(items: &[&str]) -> Vec<String> {
    items.iter().map(|s| s.to_string()).collect()
}

fn call(name: &str) -> ToolCall {
    ToolCall {
        call_id: format!("id_{name}"),
        tool_name: name.to_string(),
        arguments_ref: HashRef::of_hash(&ContentHash::of_bytes(b"{}")),
    }
}

#[test]
fn settings_come_from_files_too() {
    assert!(live_tests_enabled(&Some("1".to_string())));
    assert!(!live_tests_enabled(&None));
    let file = "A=1\nKEY=\"value\" \n".to_string();
    assert_eq!(
        parse_dotenv_value(&file, "KEY"),
        Some("value".to_string())
    );
    assert_eq!(parse_dotenv_value(&file, "NONE"), None);
    assert_eq!(
        env_or_dotenv_var(&Some("env".to_string()), &vec![file.clone()], "KEY"),
        Some("env".to_string())
    );
    assert_eq!(
        env_or_dotenv_var(&None, &vec![file], "A"),
        Some("1".to_string())
    );
}

#[test]
fn only_providers_with_a_key_are_asked() {
    let cases = provider_cases();
    assert_eq!(cases.len(), 3);
    let none = || CaseSettings {
        api_key: None,
        model: None,
        base_url: None,
    };
    let key = |model: Option<&str>| CaseSettings {
        api_key: Some("SECRET-REDACTED".to_string()),
        model: model.map(|m| m.to_string()),
        base_url: None,
    };
    let active = active_provider_matrix(&cases, &vec![none(), key(None), key(Some("m"))]);
    assert_eq!(active.len(), 2);
    assert_eq!(active[0].model, "gpt-5.2-codex");
    assert!(active[0].strict_multi_tool);
    assert_eq!(active[0].base_url, "https://api.openai.com/v1");
    assert_eq!(active[1].provider_id, "anthropic");
    assert_eq!(active[1].model, "m");
    assert!(!active[1].supports_response_format);
    let r = HashRef::of_hash(&ContentHash::of_bytes(b"[]"));
    let params = generate_params(&active[1], r.clone(), default_runtime());
    assert_eq!(params.provider, "anthropic");
    assert_eq!(params.runtime.max_tokens, Some(512));
    assert_eq!(params.message_refs[0].as_str(), r.as_str());
}

#[test]
fn a_conversation_recalls_its_token() {
    let mut run = MultiTurn::new("p");
    let (label, messages) = run.ask().unwrap();
    assert_eq!(label, "multi-turn turn1");
    assert_eq!(messages.len(), 1);
    run.answer("  ");
    assert_eq!(run.phase, TurnPhase::Turn1Retry);
    run.answer("stored");
    assert_eq!(run.ask().unwrap().1.len(), 3);
    run.answer("I forgot");
    let (label, messages) = run.ask().unwrap();
    assert_eq!(label, "multi-turn turn2 retry for token recall");
    assert_eq!(messages.len(), 5);
    run.answer(TOKEN);
    assert_eq!(run.phase, TurnPhase::Turn3);
    run.answer("");
    assert!(matches!(
        run.ask().unwrap().1.last(),
        Some(ChatMessage::User(t)) if t.starts_with("Please provide")
    ));
    run.answer("done");
    assert_eq!(run.phase, TurnPhase::Done);
    assert!(run.ask().is_none());
}

#[test]
fn a_conversation_without_its_token_fails() {
    let mut run = MultiTurn::new("p");
    run.answer("stored");
    run.answer("no");
    run.answer("still no");
    assert_eq!(run.phase, TurnPhase::Failed);
    assert_eq!(
        run.failure,
        "expected turn2 response to contain token `LIVE_CTX_TOKEN_4281` for p (got: still no)"
    );
    let mut silent = MultiTurn::new("p");
    silent.answer("");
    silent.answer(" ");
    assert_eq!(
        silent.failure,
        "expected assistant text for multi-turn turn1 on p"
    );
}

#[test]
fn calls_of_tools_are_judged() {
    let judge = |strict: bool, attempt: u64, n: &[&str]| {
        judge_tool_calls("p", "m", strict, attempt, &names(n))
    };
    assert!(matches!(
        judge(true, 0, &["sum_pair", "echo_payload"]),
        CallsOutcome::Accepted
    ));
    assert!(matches!(
        judge(false, 0, &["echo_payload"]),
        CallsOutcome::Accepted
    ));
    assert!(matches!(
        judge(true, 1, &["echo_payload"]),
        CallsOutcome::Again
    ));
    match judge(true, 2, &["echo_payload", "echo_payload"]) {
        CallsOutcome::Failed(t) => assert_eq!(
            t,
            "strict multi-tool expectation not met for provider=p model=m; \
             distinct_tools=1 names=[\"echo_payload\"]"
        ),
        _ => panic!("accepted"),
    }
    match judge(false, 0, &["zz", "aa", "echo_payload"]) {
        CallsOutcome::Failed(t) => assert_eq!(t, "unexpected tool name `aa` for p"),
        _ => panic!("accepted"),
    }
    match judge(false, 0, &[]) {
        CallsOutcome::Failed(t) => assert_eq!(t, "expected at least one tool call for p"),
        _ => panic!("accepted"),
    }
    assert!(multi_tool_prompt(2).contains("\"alpha-2\""));
}

#[test]
fn a_conversation_with_tools_ends() {
    let calls = vec![call("echo_payload"), call("sum_pair")];
    let mut run = MultiToolRun::new("p", &calls);
    assert_eq!(run.ask().unwrap().len(), 4);
    run.answer("", &Some(vec![call("sum_pair")]));
    let asked = run.ask().unwrap();
    assert_eq!(asked.len(), 6);
    assert!(matches!(
        &asked[5],
        ChatMessage::ToolResult { result, .. } if result == "live_result_followup_sum_pair"
    ));
    run.answer(" ", &None);
    run.answer("both", &None);
    assert_eq!(run.phase, ToolPhase::Followup);
    run.answer("echo and sum", &None);
    assert_eq!(run.phase, ToolPhase::Done);

    let mut silent = MultiToolRun::new("p", &calls);
    for _ in 0..4 {
        silent.answer("", &None);
    }
    assert_eq!(
        silent.failure,
        "expected assistant text after iterative multi-tool roundtrip for p"
    );
}

#[test]
fn the_result_of_a_tool_is_acknowledged() {
    let messages = tool_result_messages(&call("echo_payload"));
    assert_eq!(messages.len(), 3);
    assert_eq!(
        tool_result_followup("p", &messages, "ok").unwrap().len(),
        5
    );
    assert_eq!(
        tool_result_followup("p", &messages, " ").unwrap_err(),
        "expected assistant text after tool-result roundtrip for p"
    );
    assert!(check_required_call("p", &vec![call("echo_payload")], "v").is_ok());
    assert!(check_required_call("p", &vec![call("echo_payload")], "").is_err());
    assert!(check_required_call("p", &vec![call("sum_pair")], "v").is_err());
    assert!(check_required_call("p", &vec![], "v").is_err());
}

#[test]
fn a_format_that_is_refused_is_left_out() {
    assert!(retry_without_format(true, "Unsupported response_format"));
    assert!(retry_without_format(true, "this Response Format is NOT SUPPORTED"));
    assert!(!retry_without_format(true, "rate limit"));
    assert!(!retry_without_format(false, "unsupported response_format"));
    assert!(is_blank(" \n\t"));
    assert!(!is_blank(" x "));
}

fn provider() -> ProviderRuntime {
    ProviderRuntime {
        provider_id: "anthropic".to_string(),
        api_kind: LlmApiKind::AnthropicMessages,
        api_key: "SECRET-REDACTED".to_string(),
        model: "m".to_string(),
        base_url: "u".to_string(),
        supports_response_format: false,
        strict_multi_tool: false,
    }
}

#[test]
fn single_answers_are_checked() {
    let case = provider();
    assert!(matches!(
        prompt(Scenario::PlainCompletion),
        ChatMessage::User(t) if t == "Reply with exactly: live_adapter_ok"
    ));
    assert!(check_receipt(&case, "s", ReceiptStatus::Success, "").is_ok());
    assert_eq!(
        check_receipt(&case, "s", ReceiptStatus::Timeout, "late").unwrap_err(),
        "s failed for provider=anthropic model=m: status=Timeout error=late"
    );
    assert!(check_refused(&case, ReceiptStatus::Error).is_ok());
    assert!(check_refused(&case, ReceiptStatus::Success).is_err());
    assert_eq!(
        check_text(&case, Scenario::RuntimeRefs, " ").unwrap_err(),
        "expected assistant text for runtime refs smoke on anthropic"
    );
    assert!(check_text(&case, Scenario::PlainCompletion, "x").is_ok());
    assert!(is_adapter_of("anthropic", "host.llm.anthropic"));
    assert!(provider_options("anthropic").contains("auto_cache"));
    assert_eq!(response_format(false), None);
}

#[test]
fn tools_are_offered_and_one_must_be_called() {
    let one: serde_json::Value = serde_json::from_str(tool_definitions(ToolSet::Echo)).unwrap();
    assert_eq!(one["tool_choice"], "required");
    assert_eq!(one["tools"].as_array().unwrap().len(), 1);
    assert_eq!(one["tools"][0]["name"], "echo_payload");
    assert_eq!(
        one["tools"][0]["description"],
        "Echo payload for adapter contract tests"
    );
    let two: serde_json::Value =
        serde_json::from_str(tool_definitions(ToolSet::EchoAndSum)).unwrap();
    assert_eq!(two["tools"][0]["parameters"]["required"][0], "value");
    assert_eq!(two["tools"][1]["name"], "sum_pair");
    assert_eq!(two["tools"][1]["parameters"]["properties"]["b"]["type"], "integer");
    assert_eq!(
        multi_tool_options("openai-responses"),
        Some("{\"openai\":{\"parallel_tool_calls\":true}}")
    );
    assert_eq!(multi_tool_options("anthropic"), None);
    let r = HashRef::of_hash(&ContentHash::of_bytes(b"[]"));
    let runtime = tool_runtime(r.clone(), Some(r.clone()));
    assert!(runtime.tool_required);
    assert_eq!(runtime.tool_refs.unwrap()[0].as_str(), r.as_str());
    assert!(runtime.provider_options_ref.is_some());
    assert!(runtime.response_format_ref.is_none());
}

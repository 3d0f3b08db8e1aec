//! Conversations in which the model calls tools.
use vstd::prelude::*;

use crate::hash::HashRef;
use crate::llm_live::chat::{add_message, blank, calls_view, copy_calls, copy_messages, is_blank,
    messages_view, CallView, ChatMessage, MessageView, ToolCall};
use crate::llm_live::providers::{default_runtime, RuntimeArgs};
use crate::text::{ascii_lower, ascii_lowercase, decimal, decimal_text, has_part, has_text, join2,
    join3, join5, str_eq, text_has, texts};
use crate::text_order::{sort_texts, texts_sorted};

verus! {

/// Whether a tool is one of those that are offered.
pub open spec fn offered(name: Seq<char>) -> bool {
    name == "echo_payload"@ || name == "sum_pair"@
}

/// The tools that a request offers.
#[derive(Clone, Copy, Debug, PartialEq, Eq, Structural)]
pub enum ToolSet {
    /// The tool that gives back what it is given.
    Echo,
    /// That one, and the one that adds.
    EchoAndSum,
}

/// The definitions of tools, in JSON, of which one must be called.
pub fn tool_definitions(tools: ToolSet) -> (r: &'static str)
    ensures
        r@ == match tools {
            ToolSet::Echo
                => "{\"tool_choice\":\"required\",\"tools\":[{\"description\":\"Echo payload for adapter contract tests\",\"name\":\"echo_payload\",\"parameters\":{\"additionalProperties\":false,\"properties\":{\"value\":{\"type\":\"string\"}},\"required\":[\"value\"],\"type\":\"object\"}}]}"@,
            ToolSet::EchoAndSum
                => "{\"tool_choice\":\"required\",\"tools\":[{\"description\":\"Echo payload for multi-tool test\",\"name\":\"echo_payload\",\"parameters\":{\"additionalProperties\":false,\"properties\":{\"value\":{\"type\":\"string\"}},\"required\":[\"value\"],\"type\":\"object\"}},{\"description\":\"Return the sum of two integers\",\"name\":\"sum_pair\",\"parameters\":{\"additionalProperties\":false,\"properties\":{\"a\":{\"type\":\"integer\"},\"b\":{\"type\":\"integer\"}},\"required\":[\"a\",\"b\"],\"type\":\"object\"}}]}"@,
        },
{
    match tools {
        ToolSet::Echo
            => "{\"tool_choice\":\"required\",\"tools\":[{\"description\":\"Echo payload for adapter contract tests\",\"name\":\"echo_payload\",\"parameters\":{\"additionalProperties\":false,\"properties\":{\"value\":{\"type\":\"string\"}},\"required\":[\"value\"],\"type\":\"object\"}}]}",
        ToolSet::EchoAndSum
            => "{\"tool_choice\":\"required\",\"tools\":[{\"description\":\"Echo payload for multi-tool test\",\"name\":\"echo_payload\",\"parameters\":{\"additionalProperties\":false,\"properties\":{\"value\":{\"type\":\"string\"}},\"required\":[\"value\"],\"type\":\"object\"}},{\"description\":\"Return the sum of two integers\",\"name\":\"sum_pair\",\"parameters\":{\"additionalProperties\":false,\"properties\":{\"a\":{\"type\":\"integer\"},\"b\":{\"type\":\"integer\"}},\"required\":[\"a\",\"b\"],\"type\":\"object\"}}]}",
    }
}

/// The options, in JSON, that a provider is given so that it may call both tools at once.
pub fn multi_tool_options(provider_id: &str) -> (r: Option<&'static str>)
    ensures
        match r {
            Some(t) => provider_id@ == "openai-responses"@ && t@
                == "{\"openai\":{\"parallel_tool_calls\":true}}"@,
            None => provider_id@ != "openai-responses"@,
        },
{
    if str_eq(provider_id, "openai-responses") {
        Some("{\"openai\":{\"parallel_tool_calls\":true}}")
    } else {
        None
    }
}

/// The settings of a request that offers the tools under a reference, of which one must be called.
pub fn tool_runtime(tool_ref: HashRef, provider_options_ref: Option<HashRef>) -> (r: RuntimeArgs)
    ensures
        r.max_tokens == Some(512u64),
        r.tool_refs is Some,
        r.tool_refs->0@ == seq![tool_ref],
        r.tool_required,
        r.provider_options_ref == provider_options_ref,
        r.response_format_ref is None,
{
    let mut runtime = default_runtime();
    let mut refs: Vec<HashRef> = Vec::new();
    refs.push(tool_ref);
    assert(refs@ =~= seq![tool_ref]);
    runtime.tool_refs = Some(refs);
    runtime.tool_required = true;
    runtime.provider_options_ref = provider_options_ref;
    runtime
}

/// What the calls of a model come to.
pub enum CallsVerdict {
    Accepted,
    Again,
    Failed(Seq<char>),
}

/// The first name, in name order from position `from` on, that is not offered.
pub open spec fn first_strange(sorted: Seq<Seq<char>>, from: int) -> Option<Seq<char>>
    decreases sorted.len() - from,
{
    if from < 0 || from >= sorted.len() {
        None
    } else if !offered(sorted[from]) {
        Some(sorted[from])
    } else {
        first_strange(sorted, from + 1)
    }
}

/// How many different tools of those offered are called.
pub open spec fn distinct_tools(names: Seq<Seq<char>>) -> nat {
    (if names.contains("echo_payload"@) {
        1nat
    } else {
        0
    }) + (if names.contains("sum_pair"@) {
        1nat
    } else {
        0
    })
}

/// The names of the tools that are called, as they are shown.
pub open spec fn shown_tools(names: Seq<Seq<char>>) -> Seq<char> {
    let echo = names.contains("echo_payload"@);
    let sum = names.contains("sum_pair"@);
    if echo && sum {
        "[\"echo_payload\", \"sum_pair\"]"@
    } else if echo {
        "[\"echo_payload\"]"@
    } else if sum {
        "[\"sum_pair\"]"@
    } else {
        "[]"@
    }
}

/// How often a model is asked to call both tools.
pub const MAX_ATTEMPTS: u64 = 3;

/// What the calls of a model come to at an attempt, counted from zero: there must be calls, and
/// none of a tool that is not offered; where both tools are wanted the model is asked again.
pub open spec fn verdict(
    provider: Seq<char>,
    model: Seq<char>,
    strict: bool,
    attempt: u64,
    names: Seq<Seq<char>>,
) -> CallsVerdict {
    if names.len() == 0 {
        CallsVerdict::Failed("expected at least one tool call for "@ + provider)
    } else {
        match first_strange(texts_sorted(names), 0) {
            Some(name) => CallsVerdict::Failed(
                "unexpected tool name `"@ + name + "` for "@ + provider,
            ),
            None => if !strict || distinct_tools(names) >= 2 {
                CallsVerdict::Accepted
            } else if attempt + 1 < MAX_ATTEMPTS {
                CallsVerdict::Again
            } else {
                CallsVerdict::Failed(
                    "strict multi-tool expectation not met for provider="@ + provider + " model="@
                        + model + "; distinct_tools="@ + decimal(distinct_tools(names)) + " names="@
                        + shown_tools(names),
                )
            },
        }
    }
}

/// What to do with the calls of a model.
#[derive(Debug)]
pub enum CallsOutcome {
    Accepted,
    Again,
    Failed(String),
}

pub open spec fn is_outcome(o: CallsOutcome, v: CallsVerdict) -> bool {
    match (o, v) {
        (CallsOutcome::Accepted, CallsVerdict::Accepted) => true,
        (CallsOutcome::Again, CallsVerdict::Again) => true,
        (CallsOutcome::Failed(a), CallsVerdict::Failed(b)) => a@ == b,
        _ => false,
    }
}

/// What to do with the calls of a model that was asked to call both tools.
pub fn judge_tool_calls(
    provider: &str,
    model: &str,
    strict: bool,
    attempt: u64,
    names: &Vec<String>,
) -> (r: CallsOutcome)
    requires
        attempt < u64::MAX,
    ensures
        is_outcome(r, verdict(provider@, model@, strict, attempt, texts(names@))),
{
    if names.len() == 0 {
        return CallsOutcome::Failed(join2("expected at least one tool call for ", provider));
    }
    let sorted = sort_texts(names);
    let ghost s = texts(sorted@);
    let ghost given = texts(names@);
    let mut i: usize = 0;
    while i < sorted.len()
        invariant
            i <= sorted@.len(),
            s == texts(sorted@),
            given == texts(names@),
            given.len() > 0,
            s == texts_sorted(given),
            first_strange(s, 0) == first_strange(s, i as int),
        decreases sorted@.len() - i,
    {
        assert(s[i as int] == sorted@[i as int]@);
        let name = sorted[i].as_str();
        if !str_eq(name, "echo_payload") && !str_eq(name, "sum_pair") {
            let head = join3("unexpected tool name `", name, "` for ");
            return CallsOutcome::Failed(join2(head.as_str(), provider));
        }
        i += 1;
    }
    let echo = has_text(names, "echo_payload");
    let sum = has_text(names, "sum_pair");
    if !strict || (echo && sum) {
        return CallsOutcome::Accepted;
    }
    if attempt + 1 < MAX_ATTEMPTS {
        return CallsOutcome::Again;
    }
    let count: u64 = if echo || sum {
        1
    } else {
        0
    };
    let shown = if echo {
        "[\"echo_payload\"]"
    } else if sum {
        "[\"sum_pair\"]"
    } else {
        "[]"
    };
    let number = decimal_text(count);
    let head = join5(
        "strict multi-tool expectation not met for provider=",
        provider,
        " model=",
        model,
        "; distinct_tools=",
    );
    CallsOutcome::Failed(
        crate::text::join4(head.as_str(), number.as_str(), " names=", shown),
    )
}

/// What a model is asked at an attempt.
pub open spec fn both_tools_prompt(attempt: u64) -> Seq<char> {
    "Call BOTH tools before any final answer. Tool plan: (1) echo_payload with {\"value\":\"alpha-"@
        + decimal(attempt as nat) + "\"} (2) sum_pair with {\"a\":7,\"b\":8}."@
}

pub fn multi_tool_prompt(attempt: u64) -> (r: String)
    ensures
        r@ == both_tools_prompt(attempt),
{
    let n = decimal_text(attempt);
    join3(
        "Call BOTH tools before any final answer. Tool plan: (1) echo_payload with {\"value\":\"alpha-",
        n.as_str(),
        "\"} (2) sum_pair with {\"a\":7,\"b\":8}.",
    )
}

/// What calls of tools add to a conversation: the calls, and what each came to.
pub open spec fn tool_messages(calls: Seq<CallView>, prefix: Seq<char>, n: nat) -> Seq<MessageView>
    decreases n,
{
    if n == 0 || n > calls.len() {
        seq![MessageView::ToolCalls(calls)]
    } else {
        let c = calls[n - 1];
        tool_messages(calls, prefix, (n - 1) as nat).push(
            MessageView::ToolResult { call_id: c.0, tool: c.1, result: prefix + c.1 },
        )
    }
}

fn add_tool_messages(history: &mut Vec<ChatMessage>, calls: &Vec<ToolCall>, prefix: &str)
    ensures
        messages_view(final(history)@) == messages_view(old(history)@) + tool_messages(
            calls_view(calls@),
            prefix@,
            calls@.len(),
        ),
{
    let ghost start = messages_view(history@);
    let ghost all = calls_view(calls@);
    add_message(history, ChatMessage::ToolCalls(copy_calls(calls)));
    let mut i: usize = 0;
    assert(start.push(MessageView::ToolCalls(all)) =~= start + tool_messages(all, prefix@, 0));
    while i < calls.len()
        invariant
            i <= calls@.len(),
            all == calls_view(calls@),
            messages_view(history@) == start + tool_messages(all, prefix@, i as nat),
        decreases calls@.len() - i,
    {
        let c = &calls[i];
        assert(all[i as int] == c@);
        let ghost done = tool_messages(all, prefix@, i as nat);
        let m = ChatMessage::ToolResult {
            call_id: c.call_id.clone(),
            tool: c.tool_name.clone(),
            result: join2(prefix, c.tool_name.as_str()),
        };
        add_message(history, m);
        assert((start + done).push(m@) =~= start + done.push(m@));
        i += 1;
    }
}

/// Where a conversation with tools stands.
#[derive(Clone, Copy, Debug, PartialEq, Eq, Structural)]
pub enum ToolPhase {
    /// The model has the results and is to answer.
    Results,
    /// The model is asked once more.
    Followup,
    Done,
    Failed,
}

/// The model of a conversation with tools: with whom, where it stands, how many rounds have passed
/// without an answer, what has been said, and why it failed.
pub struct ToolView {
    pub provider: Seq<char>,
    pub phase: ToolPhase,
    pub round: u64,
    pub history: Seq<MessageView>,
    pub failure: Seq<char>,
}

/// A conversation with several tools under way.
#[derive(Debug)]
pub struct MultiToolRun {
    pub provider: String,
    pub phase: ToolPhase,
    pub round: u64,
    pub history: Vec<ChatMessage>,
    pub failure: String,
}

impl View for MultiToolRun {
    type V = ToolView;

    open spec fn view(&self) -> ToolView {
        ToolView {
            provider: self.provider@,
            phase: self.phase,
            round: self.round,
            history: messages_view(self.history@),
            failure: self.failure@,
        }
    }
}

/// How many rounds a model has to answer.
pub const MAX_ROUNDS: u64 = 4;

/// Where a conversation stands after an answer: a text, and the calls of tools, if there are any.
pub open spec fn tool_answered(v: ToolView, text: Seq<char>, calls: Option<Seq<CallView>>) -> ToolView {
    match v.phase {
        ToolPhase::Results => if !blank(text) {
            ToolView {
                phase: ToolPhase::Followup,
                history: v.history.push(MessageView::Assistant(text)).push(
                    MessageView::User(
                        "Now answer in one sentence: which tool outputs did you use?"@,
                    ),
                ),
                ..v
            }
        } else if v.round + 1 >= MAX_ROUNDS {
            ToolView {
                phase: ToolPhase::Failed,
                failure: "expected assistant text after iterative multi-tool roundtrip for "@
                    + v.provider,
                ..v
            }
        } else {
            ToolView {
                round: (v.round + 1) as u64,
                history: match calls {
                    None => v.history.push(
                        MessageView::User(
                            "Provide a plain-text final answer now. Do not call any more tools."@,
                        ),
                    ),
                    Some(c) => v.history + tool_messages(c, "live_result_followup_"@, c.len()),
                },
                ..v
            }
        },
        ToolPhase::Followup => if blank(text) {
            ToolView {
                phase: ToolPhase::Failed,
                failure: "expected assistant text in multi-tool follow-up turn for "@ + v.provider,
                ..v
            }
        } else {
            ToolView { phase: ToolPhase::Done, ..v }
        },
        ToolPhase::Done => v,
        ToolPhase::Failed => v,
    }
}

pub open spec fn calls_option(c: Option<Vec<ToolCall>>) -> Option<Seq<CallView>> {
    match c {
        Some(v) => Some(calls_view(v@)),
        None => None,
    }
}

impl MultiToolRun {
    /// A conversation in which the model has called tools.
    pub fn new(provider: &str, calls: &Vec<ToolCall>) -> (r: Self)
        ensures
            r@ == (ToolView {
                provider: provider@,
                phase: ToolPhase::Results,
                round: 0,
                history: seq![
                    MessageView::User(
                        "Use the tool outputs and reply with a concise combined answer."@,
                    ),
                ] + tool_messages(calls_view(calls@), "live_result_"@, calls@.len()),
                failure: Seq::empty(),
            }),
    {
        proof {
            reveal_strlit("");
        }
        let mut history: Vec<ChatMessage> = Vec::new();
        add_message(
            &mut history,
            ChatMessage::User(
                "Use the tool outputs and reply with a concise combined answer.".to_owned(),
            ),
        );
        assert(messages_view(history@) =~= seq![
            MessageView::User(
                "Use the tool outputs and reply with a concise combined answer."@,
            ),
        ]);
        add_tool_messages(&mut history, calls, "live_result_");
        let r = MultiToolRun {
            provider: provider.to_owned(),
            phase: ToolPhase::Results,
            round: 0,
            history,
            failure: "".to_owned(),
        };
        assert(r@.failure =~= Seq::empty());
        r
    }

    /// What is asked next.
    pub fn ask(&self) -> (r: Option<Vec<ChatMessage>>)
        ensures
            match self.phase {
                ToolPhase::Results => r matches Some(m) && messages_view(m@) == self@.history,
                ToolPhase::Followup => r matches Some(m) && messages_view(m@) == self@.history,
                _ => r is None,
            },
    {
        match self.phase {
            ToolPhase::Results => Some(copy_messages(&self.history)),
            ToolPhase::Followup => Some(copy_messages(&self.history)),
            _ => None,
        }
    }

    /// Takes an answer.
    pub fn answer(&mut self, text: &str, calls: &Option<Vec<ToolCall>>)
        requires
            old(self).round < MAX_ROUNDS,
        ensures
            final(self)@ == tool_answered(old(self)@, text@, calls_option(*calls)),
            final(self).round < MAX_ROUNDS,
    {
        match self.phase {
            ToolPhase::Results => {
                if !is_blank(text) {
                    add_message(&mut self.history, ChatMessage::Assistant(text.to_owned()));
                    add_message(
                        &mut self.history,
                        ChatMessage::User(
                            "Now answer in one sentence: which tool outputs did you use?".to_owned(),
                        ),
                    );
                    self.phase = ToolPhase::Followup;
                } else if self.round + 1 >= MAX_ROUNDS {
                    self.failure = join2(
                        "expected assistant text after iterative multi-tool roundtrip for ",
                        self.provider.as_str(),
                    );
                    self.phase = ToolPhase::Failed;
                } else {
                    match calls {
                        None => {
                            add_message(
                                &mut self.history,
                                ChatMessage::User(
                                    "Provide a plain-text final answer now. Do not call any more tools.".to_owned(),
                                ),
                            );
                        },
                        Some(c) => {
                            add_tool_messages(&mut self.history, c, "live_result_followup_");
                        },
                    }
                    self.round = self.round + 1;
                }
            },
            ToolPhase::Followup => {
                if is_blank(text) {
                    self.failure = join2(
                        "expected assistant text in multi-tool follow-up turn for ",
                        self.provider.as_str(),
                    );
                    self.phase = ToolPhase::Failed;
                } else {
                    self.phase = ToolPhase::Done;
                }
            },
            ToolPhase::Done => {},
            ToolPhase::Failed => {},
        }
    }
}

/// How many more questions there can be.
pub open spec fn asks_left(v: ToolView) -> int {
    match v.phase {
        ToolPhase::Results => MAX_ROUNDS - v.round + 1,
        ToolPhase::Followup => 1,
        ToolPhase::Done => 0,
        ToolPhase::Failed => 0,
    }
}

/// Every answer brings a conversation with tools closer to its end.
pub proof fn lemma_tool_conversation_ends(
    v: ToolView,
    text: Seq<char>,
    calls: Option<Seq<CallView>>,
)
    requires
        v.phase == ToolPhase::Results || v.phase == ToolPhase::Followup,
        v.round < MAX_ROUNDS,
    ensures
        0 <= asks_left(tool_answered(v, text, calls)) < asks_left(v),
{
}

/// What is said to a model once the one tool that it called has come to something.
pub fn tool_result_messages(call: &ToolCall) -> (r: Vec<ChatMessage>)
    ensures
        messages_view(r@) == seq![
            MessageView::User(
                "You received the tool result. Reply with a brief plain-text answer."@,
            ),
            MessageView::ToolCalls(seq![call@]),
            MessageView::ToolNote {
                call_id: call@.0,
                note: "tool_result_from_live_adapter_test"@,
            },
        ],
{
    let mut one: Vec<ToolCall> = Vec::new();
    one.push(
        ToolCall {
            call_id: call.call_id.clone(),
            tool_name: call.tool_name.clone(),
            arguments_ref: call.arguments_ref.clone(),
        },
    );
    assert(calls_view(one@) =~= seq![call@]);
    let mut out: Vec<ChatMessage> = Vec::new();
    add_message(
        &mut out,
        ChatMessage::User(
            "You received the tool result. Reply with a brief plain-text answer.".to_owned(),
        ),
    );
    add_message(&mut out, ChatMessage::ToolCalls(one));
    add_message(
        &mut out,
        ChatMessage::ToolNote {
            call_id: call.call_id.clone(),
            note: "tool_result_from_live_adapter_test".to_owned(),
        },
    );
    assert(messages_view(out@) =~= seq![
        MessageView::User(
            "You received the tool result. Reply with a brief plain-text answer."@,
        ),
        MessageView::ToolCalls(seq![call@]),
        MessageView::ToolNote {
            call_id: call@.0,
            note: "tool_result_from_live_adapter_test"@,
        },
    ]);
    out
}

/// What is said to a model that has answered after a tool: the conversation goes on, unless the
/// answer is blank.
pub fn tool_result_followup(provider: &str, history: &Vec<ChatMessage>, text: &str) -> (r: Result<
    Vec<ChatMessage>,
    String,
>)
    ensures
        match r {
            Ok(m) => !blank(text@) && messages_view(m@) == messages_view(history@).push(
                MessageView::Assistant(text@),
            ).push(
                MessageView::User(
                    "In one short sentence, confirm that you processed the tool result."@,
                ),
            ),
            Err(e) => blank(text@) && e@
                == "expected assistant text after tool-result roundtrip for "@ + provider@,
        },
{
    if is_blank(text) {
        return Err(join2("expected assistant text after tool-result roundtrip for ", provider));
    }
    let mut out = copy_messages(history);
    add_message(&mut out, ChatMessage::Assistant(text.to_owned()));
    add_message(
        &mut out,
        ChatMessage::User(
            "In one short sentence, confirm that you processed the tool result.".to_owned(),
        ),
    );
    Ok(out)
}

/// Why a required call of a tool is not the one that was asked for: the first call must be of
/// `echo_payload`, with a value that is not empty.
pub open spec fn required_call_fault(
    provider: Seq<char>,
    calls: Seq<CallView>,
    value: Seq<char>,
) -> Option<Seq<char>> {
    if calls.len() == 0 {
        Some("expected at least one tool call for "@ + provider)
    } else if calls[0].1 != "echo_payload"@ {
        Some("unexpected tool name `"@ + calls[0].1 + "` for "@ + provider)
    } else if value.len() == 0 {
        Some("expected non-empty `value` tool argument for "@ + provider)
    } else {
        None
    }
}

/// Whether a required call of a tool is the one that was asked for; `value` is its argument.
pub fn check_required_call(provider: &str, calls: &Vec<ToolCall>, value: &str) -> (r: Result<
    (),
    String,
>)
    ensures
        match (r, required_call_fault(provider@, calls_view(calls@), value@)) {
            (Ok(_), None) => true,
            (Err(e), Some(t)) => e@ == t,
            _ => false,
        },
{
    if calls.len() == 0 {
        return Err(join2("expected at least one tool call for ", provider));
    }
    assert(calls_view(calls@)[0] == calls@[0]@);
    let name = calls[0].tool_name.as_str();
    if !str_eq(name, "echo_payload") {
        let head = join3("unexpected tool name `", name, "` for ");
        return Err(join2(head.as_str(), provider));
    }
    if value.unicode_len() == 0 {
        return Err(join2("expected non-empty `value` tool argument for ", provider));
    }
    Ok(())
}

/// Whether an error, in small letters, says that the format of responses is not supported.
pub open spec fn format_refused(error: Seq<char>) -> bool {
    let e = error.map_values(|c: char| ascii_lower(c));
    text_has(e, "unsupported response_format"@) || (text_has(e, "response format"@) && (text_has(
        e,
        "unsupported"@,
    ) || text_has(e, "not supported"@)))
}

/// Whether a request that failed is made again without a format of responses.
pub fn retry_without_format(supports_response_format: bool, error: &str) -> (r: bool)
    ensures
        r == (supports_response_format && format_refused(error@)),
{
    let e = ascii_lowercase(error);
    let e = e.as_str();
    supports_response_format && (has_part(e, "unsupported response_format") || (has_part(
        e,
        "response format",
    ) && (has_part(e, "unsupported") || has_part(e, "not supported"))))
}

} // verus!

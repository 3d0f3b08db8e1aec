//! Conversations with a language model.
use vstd::prelude::*;

use crate::hash::HashRef;
use crate::text::{trim, trimmed};

verus! {

/// A call of a tool that a model asks for. The arguments are in the store.
#[derive(Debug)]
pub struct ToolCall {
    pub call_id: String,
    pub tool_name: String,
    pub arguments_ref: HashRef,
}

/// A message of a conversation.
#[derive(Debug)]
pub enum ChatMessage {
    User(String),
    Assistant(String),
    /// The model asks for tools.
    ToolCalls(Vec<ToolCall>),
    /// What a tool came to.
    ToolResult { call_id: String, tool: String, result: String },
    /// A note in place of what a tool came to.
    ToolNote { call_id: String, note: String },
}

/// The model of a call: its number, the tool and the digest of the arguments.
pub type CallView = (Seq<char>, Seq<char>, Seq<char>);

/// The model of a message.
pub enum MessageView {
    User(Seq<char>),
    Assistant(Seq<char>),
    ToolCalls(Seq<CallView>),
    ToolResult { call_id: Seq<char>, tool: Seq<char>, result: Seq<char> },
    ToolNote { call_id: Seq<char>, note: Seq<char> },
}

impl View for ToolCall {
    type V = CallView;

    open spec fn view(&self) -> CallView {
        (self.call_id@, self.tool_name@, self.arguments_ref@)
    }
}

pub open spec fn calls_view(s: Seq<ToolCall>) -> Seq<CallView> {
    Seq::new(s.len(), |i: int| s[i]@)
}

impl View for ChatMessage {
    type V = MessageView;

    open spec fn view(&self) -> MessageView {
        match *self {
            ChatMessage::User(t) => MessageView::User(t@),
            ChatMessage::Assistant(t) => MessageView::Assistant(t@),
            ChatMessage::ToolCalls(v) => MessageView::ToolCalls(calls_view(v@)),
            ChatMessage::ToolResult { call_id, tool, result } => MessageView::ToolResult {
                call_id: call_id@,
                tool: tool@,
                result: result@,
            },
            ChatMessage::ToolNote { call_id, note } => MessageView::ToolNote {
                call_id: call_id@,
                note: note@,
            },
        }
    }
}

pub open spec fn messages_view(s: Seq<ChatMessage>) -> Seq<MessageView> {
    Seq::new(s.len(), |i: int| s[i]@)
}

pub fn copy_calls(calls: &Vec<ToolCall>) -> (r: Vec<ToolCall>)
    ensures
        calls_view(r@) == calls_view(calls@),
{
    let mut out: Vec<ToolCall> = Vec::new();
    let mut i: usize = 0;
    while i < calls.len()
        invariant
            i <= calls@.len(),
            out@.len() == i,
            forall|k: int| 0 <= k < i ==> (#[trigger] out@[k])@ == calls@[k]@,
        decreases calls@.len() - i,
    {
        let c = &calls[i];
        out.push(
            ToolCall {
                call_id: c.call_id.clone(),
                tool_name: c.tool_name.clone(),
                arguments_ref: c.arguments_ref.clone(),
            },
        );
        i += 1;
    }
    assert(calls_view(out@) =~= calls_view(calls@));
    out
}

fn copy_message(m: &ChatMessage) -> (r: ChatMessage)
    ensures
        r@ == m@,
{
    match m {
        ChatMessage::User(t) => ChatMessage::User(t.clone()),
        ChatMessage::Assistant(t) => ChatMessage::Assistant(t.clone()),
        ChatMessage::ToolCalls(v) => ChatMessage::ToolCalls(copy_calls(v)),
        ChatMessage::ToolResult { call_id, tool, result } => ChatMessage::ToolResult {
            call_id: call_id.clone(),
            tool: tool.clone(),
            result: result.clone(),
        },
        ChatMessage::ToolNote { call_id, note } => ChatMessage::ToolNote {
            call_id: call_id.clone(),
            note: note.clone(),
        },
    }
}

pub fn copy_messages(items: &Vec<ChatMessage>) -> (r: Vec<ChatMessage>)
    ensures
        messages_view(r@) == messages_view(items@),
{
    let mut out: Vec<ChatMessage> = Vec::new();
    let mut i: usize = 0;
    while i < items.len()
        invariant
            i <= items@.len(),
            out@.len() == i,
            forall|k: int| 0 <= k < i ==> (#[trigger] out@[k])@ == items@[k]@,
        decreases items@.len() - i,
    {
        out.push(copy_message(&items[i]));
        i += 1;
    }
    assert(messages_view(out@) =~= messages_view(items@));
    out
}

/// Adds a message to a conversation.
pub fn add_message(items: &mut Vec<ChatMessage>, m: ChatMessage)
    ensures
        messages_view(final(items)@) == messages_view(old(items)@).push(m@),
{
    let ghost before = items@;
    items.push(m);
    assert(messages_view(items@) =~= messages_view(before).push(m@));
}

/// Whether a text is empty or white space.
pub open spec fn blank(t: Seq<char>) -> bool {
    trimmed(t).len() == 0
}

pub fn is_blank(t: &str) -> (r: bool)
    ensures
        r == blank(t@),
{
    trim(t).unicode_len() == 0
}

} // verus!

//! A conversation over several turns, in which the model must recall what it was told.
use vstd::prelude::*;

use crate::llm_live::chat::{add_message, blank, copy_messages, is_blank, messages_view,
    ChatMessage, MessageView};
use crate::text::{has_part, join2, join3, join5, text_has};

verus! {

/// What the model is told to remember.
pub const TOKEN: &'static str = "LIVE_CTX_TOKEN_4281";

/// Where a conversation stands.
#[derive(Clone, Copy, Debug, PartialEq, Eq, Structural)]
pub enum TurnPhase {
    Turn1,
    Turn1Retry,
    Turn2,
    Turn2Retry,
    Turn3,
    Turn3Retry,
    Done,
    Failed,
}

/// The model of a conversation: with whom, where it stands, what has been said that still counts,
/// and why it failed.
pub struct TurnView {
    pub provider: Seq<char>,
    pub phase: TurnPhase,
    pub history: Seq<MessageView>,
    pub failure: Seq<char>,
}

/// A conversation under way.
#[derive(Debug)]
pub struct MultiTurn {
    pub provider: String,
    pub phase: TurnPhase,
    pub history: Vec<ChatMessage>,
    pub failure: String,
}

impl View for MultiTurn {
    type V = TurnView;

    open spec fn view(&self) -> TurnView {
        TurnView {
            provider: self.provider@,
            phase: self.phase,
            history: messages_view(self.history@),
            failure: self.failure@,
        }
    }
}

pub open spec fn first_question() -> Seq<char> {
    "Remember this exact token for later: "@ + TOKEN@ + ". Reply with exactly `stored`."@
}

/// What is asked next: the name of the question, and all that is said.
pub open spec fn question(v: TurnView) -> Option<(Seq<char>, Seq<MessageView>)> {
    match v.phase {
        TurnPhase::Turn1 => Some(
            ("multi-turn turn1"@, seq![MessageView::User(first_question())]),
        ),
        TurnPhase::Turn1Retry => Some(
            (
                "multi-turn turn1 retry for text output"@,
                seq![MessageView::User(first_question() + " Output plain text only."@)],
            ),
        ),
        TurnPhase::Turn2 => Some(("multi-turn turn2"@, v.history)),
        TurnPhase::Turn2Retry => Some(("multi-turn turn2 retry for token recall"@, v.history)),
        TurnPhase::Turn3 => Some(("multi-turn turn3"@, v.history)),
        TurnPhase::Turn3Retry => Some(
            (
                "multi-turn turn3 retry for text output"@,
                v.history.push(
                    MessageView::User(
                        "Please provide a plain-text summary in one short sentence."@,
                    ),
                ),
            ),
        ),
        TurnPhase::Done => None,
        TurnPhase::Failed => None,
    }
}

pub open spec fn failed(v: TurnView, why: Seq<char>) -> TurnView {
    TurnView { phase: TurnPhase::Failed, failure: why, ..v }
}

/// The second turn, after an answer to the first.
pub open spec fn second_turn(v: TurnView, reply: Seq<char>) -> TurnView {
    TurnView {
        phase: TurnPhase::Turn2,
        history: seq![
            MessageView::User(first_question()),
            MessageView::Assistant(reply),
            MessageView::User(
                "What exact token did I ask you to remember? Reply with token only."@,
            ),
        ],
        ..v
    }
}

/// The third turn, after an answer to the second.
pub open spec fn third_turn(v: TurnView, reply: Seq<char>) -> TurnView {
    TurnView {
        phase: TurnPhase::Turn3,
        history: v.history.push(MessageView::Assistant(reply)).push(
            MessageView::User("Summarize our exchange in 8 words or fewer."@),
        ),
        ..v
    }
}

/// Where a conversation stands after an answer.
pub open spec fn answered(v: TurnView, reply: Seq<char>) -> TurnView {
    let silent = |turn: Seq<char>|
        "expected assistant text for multi-turn "@ + turn + " on "@ + v.provider;
    match v.phase {
        TurnPhase::Turn1 => if blank(reply) {
            TurnView { phase: TurnPhase::Turn1Retry, ..v }
        } else {
            second_turn(v, reply)
        },
        TurnPhase::Turn1Retry => if blank(reply) {
            failed(v, silent("turn1"@))
        } else {
            second_turn(v, reply)
        },
        TurnPhase::Turn2 => if blank(reply) {
            failed(v, silent("turn2"@))
        } else if !text_has(reply, TOKEN@) {
            TurnView {
                phase: TurnPhase::Turn2Retry,
                history: v.history.push(MessageView::Assistant(reply)).push(
                    MessageView::User(
                        "Output exactly this token with no extra text: "@ + TOKEN@,
                    ),
                ),
                ..v
            }
        } else {
            third_turn(v, reply)
        },
        TurnPhase::Turn2Retry => if !text_has(reply, TOKEN@) {
            failed(
                v,
                "expected turn2 response to contain token `"@ + TOKEN@ + "` for "@ + v.provider
                    + " (got: "@ + reply + ")"@,
            )
        } else {
            third_turn(v, reply)
        },
        TurnPhase::Turn3 => if blank(reply) {
            TurnView { phase: TurnPhase::Turn3Retry, ..v }
        } else {
            TurnView { phase: TurnPhase::Done, ..v }
        },
        TurnPhase::Turn3Retry => if blank(reply) {
            failed(v, silent("turn3"@))
        } else {
            TurnView { phase: TurnPhase::Done, ..v }
        },
        TurnPhase::Done => v,
        TurnPhase::Failed => v,
    }
}

fn user(t: &str) -> (r: ChatMessage)
    ensures
        r@ == MessageView::User(t@),
{
    ChatMessage::User(t.to_owned())
}

fn ask_first() -> (r: String)
    ensures
        r@ == first_question(),
{
    join3("Remember this exact token for later: ", TOKEN, ". Reply with exactly `stored`.")
}

impl MultiTurn {
    /// A conversation at its start.
    pub fn new(provider: &str) -> (r: Self)
        ensures
            r@ == (TurnView {
                provider: provider@,
                phase: TurnPhase::Turn1,
                history: Seq::empty(),
                failure: Seq::empty(),
            }),
    {
        proof {
            reveal_strlit("");
        }
        let r = MultiTurn {
            provider: provider.to_owned(),
            phase: TurnPhase::Turn1,
            history: Vec::new(),
            failure: "".to_owned(),
        };
        assert(r@.history =~= Seq::empty());
        assert(r@.failure =~= Seq::empty());
        r
    }

    /// What is asked next.
    pub fn ask(&self) -> (r: Option<(&'static str, Vec<ChatMessage>)>)
        ensures
            match (r, question(self@)) {
                (Some(x), Some(q)) => x.0@ == q.0 && messages_view(x.1@) == q.1,
                (None, None) => true,
                _ => false,
            },
    {
        match self.phase {
            TurnPhase::Turn1 => {
                let text = ask_first();
                let mut one: Vec<ChatMessage> = Vec::new();
                add_message(&mut one, user(text.as_str()));
                assert(messages_view(one@) =~= seq![MessageView::User(first_question())]);
                Some(("multi-turn turn1", one))
            },
            TurnPhase::Turn1Retry => {
                let text = ask_first();
                let text = join2(text.as_str(), " Output plain text only.");
                let mut one: Vec<ChatMessage> = Vec::new();
                add_message(&mut one, user(text.as_str()));
                assert(messages_view(one@) =~= seq![
                    MessageView::User(first_question() + " Output plain text only."@),
                ]);
                Some(("multi-turn turn1 retry for text output", one))
            },
            TurnPhase::Turn2 => Some(("multi-turn turn2", copy_messages(&self.history))),
            TurnPhase::Turn2Retry => Some(
                ("multi-turn turn2 retry for token recall", copy_messages(&self.history)),
            ),
            TurnPhase::Turn3 => Some(("multi-turn turn3", copy_messages(&self.history))),
            TurnPhase::Turn3Retry => {
                let mut all = copy_messages(&self.history);
                add_message(
                    &mut all,
                    user("Please provide a plain-text summary in one short sentence."),
                );
                Some(("multi-turn turn3 retry for text output", all))
            },
            TurnPhase::Done => None,
            TurnPhase::Failed => None,
        }
    }

    fn fail_silent(&mut self, turn: &str)
        ensures
            final(self)@ == failed(
                old(self)@,
                "expected assistant text for multi-turn "@ + turn@ + " on "@ + old(self)@.provider,
            ),
    {
        let head = join3("expected assistant text for multi-turn ", turn, " on ");
        self.failure = join2(head.as_str(), self.provider.as_str());
        self.phase = TurnPhase::Failed;
    }

    fn to_second(&mut self, reply: &str)
        ensures
            final(self)@ == second_turn(old(self)@, reply@),
    {
        let text = ask_first();
        let mut h: Vec<ChatMessage> = Vec::new();
        add_message(&mut h, user(text.as_str()));
        add_message(&mut h, ChatMessage::Assistant(reply.to_owned()));
        add_message(
            &mut h,
            user("What exact token did I ask you to remember? Reply with token only."),
        );
        self.history = h;
        self.phase = TurnPhase::Turn2;
        assert(self@.history =~= second_turn(old(self)@, reply@).history);
    }

    fn to_third(&mut self, reply: &str)
        ensures
            final(self)@ == third_turn(old(self)@, reply@),
    {
        add_message(&mut self.history, ChatMessage::Assistant(reply.to_owned()));
        add_message(&mut self.history, user("Summarize our exchange in 8 words or fewer."));
        self.phase = TurnPhase::Turn3;
    }

    /// Takes an answer.
    pub fn answer(&mut self, reply: &str)
        ensures
            final(self)@ == answered(old(self)@, reply@),
    {
        match self.phase {
            TurnPhase::Turn1 => {
                if is_blank(reply) {
                    self.phase = TurnPhase::Turn1Retry;
                } else {
                    self.to_second(reply);
                }
            },
            TurnPhase::Turn1Retry => {
                if is_blank(reply) {
                    self.fail_silent("turn1");
                } else {
                    self.to_second(reply);
                }
            },
            TurnPhase::Turn2 => {
                if is_blank(reply) {
                    self.fail_silent("turn2");
                } else if !has_part(reply, TOKEN) {
                    let text = join2("Output exactly this token with no extra text: ", TOKEN);
                    add_message(&mut self.history, ChatMessage::Assistant(reply.to_owned()));
                    add_message(&mut self.history, user(text.as_str()));
                    self.phase = TurnPhase::Turn2Retry;
                } else {
                    self.to_third(reply);
                }
            },
            TurnPhase::Turn2Retry => {
                if !has_part(reply, TOKEN) {
                    let head = join5(
                        "expected turn2 response to contain token `",
                        TOKEN,
                        "` for ",
                        self.provider.as_str(),
                        " (got: ",
                    );
                    self.failure = join3(head.as_str(), reply, ")");
                    self.phase = TurnPhase::Failed;
                } else {
                    self.to_third(reply);
                }
            },
            TurnPhase::Turn3 => {
                if is_blank(reply) {
                    self.phase = TurnPhase::Turn3Retry;
                } else {
                    self.phase = TurnPhase::Done;
                }
            },
            TurnPhase::Turn3Retry => {
                if is_blank(reply) {
                    self.fail_silent("turn3");
                } else {
                    self.phase = TurnPhase::Done;
                }
            },
            TurnPhase::Done => {},
            TurnPhase::Failed => {},
        }
    }
}

/// How many more questions there can be.
pub open spec fn questions_left(p: TurnPhase) -> nat {
    match p {
        TurnPhase::Turn1 => 6,
        TurnPhase::Turn1Retry => 5,
        TurnPhase::Turn2 => 4,
        TurnPhase::Turn2Retry => 3,
        TurnPhase::Turn3 => 2,
        TurnPhase::Turn3Retry => 1,
        TurnPhase::Done => 0,
        TurnPhase::Failed => 0,
    }
}

/// Every answer brings a conversation closer to its end.
pub proof fn lemma_conversation_ends(v: TurnView, reply: Seq<char>)
    requires
        question(v) is Some,
    ensures
        questions_left(answered(v, reply).phase) < questions_left(v.phase),
{
}

/// The third turn is reached only with an answer that recalls the token.
pub proof fn lemma_token_is_recalled(v: TurnView, reply: Seq<char>)
    requires
        v.phase == TurnPhase::Turn2 || v.phase == TurnPhase::Turn2Retry,
        answered(v, reply).phase == TurnPhase::Turn3,
    ensures
        text_has(reply, TOKEN@),
{
}

} // verus!

//! The vocabulary the runtime is written in: what a conversation is made of.

pub mod continuity;

use vstd::prelude::*;

use crate::json::Json;
use crate::text::{decimal, decimal_text, lemma_numbered_injective, opt_view};

verus! {

/// How a tool call ended.
#[derive(Debug, Clone, Copy, PartialEq, Eq, Structural)]
pub enum ToolResultStatus {
    Success,
    Error,
}

/// One entry of a conversation.
#[derive(Debug, PartialEq, Eq)]
pub enum ContentItem {
    Message { role: String, content: String },
    ToolCall { tool_call_id: String, name: String, arguments: Json },
    ToolResult { tool_call_id: String, name: String, status: ToolResultStatus, content: String },
}

/// What is about to be sent to a model.
#[derive(Debug, PartialEq, Eq)]
pub struct LlmRequest {
    pub instructions: Vec<String>,
    pub contents: Vec<ContentItem>,
}

impl LlmRequest {
    /// Add one more system-level instruction after the present ones.
    pub fn push_instruction(&mut self, instruction: String)
        ensures
            final(self).instructions@ == old(self).instructions@.push(instruction),
            final(self).contents == old(self).contents,
    {
        self.instructions.push(instruction);
    }
}

/// One step of a run: what its author added to the conversation.
#[derive(Debug, PartialEq, Eq)]
pub struct Event {
    pub execution_id: String,
    pub author: String,
    pub content: Vec<ContentItem>,
}

/// A run in progress, and the conversation it belongs to if it belongs to one.
#[derive(Debug, PartialEq, Eq)]
pub struct ExecutionContext {
    pub execution_id: String,
    pub events: Vec<Event>,
    pub conversation_id: Option<String>,
    pub conversation_scope: Option<String>,
}

/// Which conversation a run belongs to: the conversation's scope and id where it has one,
/// else the run itself.
pub enum Continuity {
    Run(Seq<char>),
    Conversation(Seq<char>),
    Scoped(Seq<char>, Seq<char>),
}

/// The key that a conversation's memory is held under.
pub open spec fn continuity_text(of: Continuity) -> Seq<char> {
    match of {
        Continuity::Run(id) => seq!['r', ':'] + id,
        Continuity::Conversation(id) => seq!['c', ':'] + id,
        Continuity::Scoped(scope, id) => seq!['s', ':'] + (decimal(scope.len()) + seq![':'] + (scope
            + id)),
    }
}

/// Two runs share a key exactly when they belong to one conversation: no scope reads what
/// another remembers, and a run without a conversation shares with no other run.
pub proof fn continuity_keys_are_distinct(a: Continuity, b: Continuity)
    ensures
        (continuity_text(a) == continuity_text(b)) == (a == b),
{
    if continuity_text(a) == continuity_text(b) {
        let left = continuity_text(a);
        let right = continuity_text(b);
        assert(left[0] == right[0]);
        assert(left.skip(2) == right.skip(2));
        match (a, b) {
            (Continuity::Run(x), Continuity::Run(y)) => {
                assert(left.skip(2) =~= x);
                assert(right.skip(2) =~= y);
            },
            (Continuity::Conversation(x), Continuity::Conversation(y)) => {
                assert(left.skip(2) =~= x);
                assert(right.skip(2) =~= y);
            },
            (Continuity::Scoped(s, x), Continuity::Scoped(t, y)) => {
                assert(left.skip(2) =~= decimal(s.len()) + seq![':'] + (s + x));
                assert(right.skip(2) =~= decimal(t.len()) + seq![':'] + (t + y));
                lemma_numbered_injective(s.len(), t.len(), s + x, t + y);
                assert((s + x).take(s.len() as int) =~= s);
                assert((t + y).take(s.len() as int) =~= t);
                assert((s + x).skip(s.len() as int) =~= x);
                assert((t + y).skip(s.len() as int) =~= y);
            },
            _ => {},
        }
    }
}

impl ExecutionContext {
    /// Which conversation this run belongs to.
    pub open spec fn continuity(&self) -> Continuity {
        match (opt_view(self.conversation_scope), opt_view(self.conversation_id)) {
            (_, None) => Continuity::Run(self.execution_id@),
            (None, Some(id)) => Continuity::Conversation(id),
            (Some(scope), Some(id)) => Continuity::Scoped(scope, id),
        }
    }

    /// A run with an empty transcript that belongs to no conversation.
    pub fn new(execution_id: String) -> (context: Self)
        ensures
            context.execution_id == execution_id,
            context.events@.len() == 0,
            context.continuity() == Continuity::Run(execution_id@),
    {
        ExecutionContext {
            execution_id,
            events: Vec::new(),
            conversation_id: None,
            conversation_scope: None,
        }
    }

    /// Add one step to the transcript.
    pub fn add_event(&mut self, event: Event)
        ensures
            final(self).events@ == old(self).events@.push(event),
            final(self).continuity() == old(self).continuity(),
    {
        self.events.push(event);
    }

    /// The key that this conversation's memory is held under.
    pub fn continuity_key(&self) -> (key: String)
        ensures
            key@ == continuity_text(self.continuity()),
    {
        let mut key = String::new();
        match &self.conversation_id {
            None => {
                key.push('r');
                key.push(':');
                key.append(self.execution_id.as_str());
            },
            Some(id) => match &self.conversation_scope {
                None => {
                    key.push('c');
                    key.push(':');
                    key.append(id.as_str());
                },
                Some(scope) => {
                    let length = decimal_text(scope.as_str().unicode_len() as u64);
                    key.push('s');
                    key.push(':');
                    key.append(length.as_str());
                    key.push(':');
                    key.append(scope.as_str());
                    key.append(id.as_str());
                },
            },
        }
        assert(key@ =~= continuity_text(self.continuity()));
        key
    }
}

/// One tool call as it is about to run.
pub struct ToolCallView<'a> {
    pub tool_call_id: &'a str,
    pub name: &'a str,
    pub arguments: &'a Json,
    /// The arguments as the model wrote them, before they were parsed.
    pub raw_arguments: &'a str,
}

/// What becomes of a tool call.
#[derive(Debug, PartialEq, Eq)]
pub enum ToolCallDecision {
    /// Run the tool.
    Proceed,
    /// Do not run it: answer the call with this instead.
    ShortCircuit(ToolResultStatus, String),
    /// Leave the call open for an answer that comes later.
    Suspend,
}

impl ToolCallDecision {
    /// Refuse the call, answering with an error.
    pub fn deny(content: String) -> (decision: Self)
        ensures
            decision == ToolCallDecision::ShortCircuit(ToolResultStatus::Error, content),
    {
        ToolCallDecision::ShortCircuit(ToolResultStatus::Error, content)
    }

    /// Whether the tool runs.
    pub fn is_proceed(&self) -> (proceeds: bool)
        ensures
            proceeds == (self is Proceed),
    {
        match self {
            ToolCallDecision::Proceed => true,
            _ => false,
        }
    }
}

} // verus!

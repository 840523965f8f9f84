//! What every model request is assembled from: messages and the request skeleton.

use vstd::prelude::*;

use crate::json::Json;
use crate::text::{
    blank, is_blank, lemma_blank_iff_trimmed_empty, opt_str_view, trim, trimmed,
};

verus! {

/// Output token budget for normal conversations.
pub const DEFAULT_MAX_TOKENS: u32 = 2048;

/// A tool call as a model asks for it.
#[derive(Debug, PartialEq, Eq)]
pub enum ToolCallRequest {
    Function { id: String, name: String, arguments: String },
    Custom { id: String, name: String, input: String },
}

/// One message of a model request.
#[derive(Debug, PartialEq, Eq)]
#[allow(inconsistent_fields)]
pub enum ChatMessage {
    System(String),
    User(String),
    Assistant { content: Option<String>, tool_calls: Vec<ToolCallRequest> },
    Tool { tool_call_id: String, content: String },
}

/// A tool as it is advertised to a model.
#[derive(Debug, PartialEq, Eq)]
pub struct ToolDefinition {
    pub name: String,
    pub description: String,
    /// JSON Schema of the arguments.
    pub parameters: Json,
}

/// How a model's answer is constrained.
#[derive(Debug, PartialEq, Eq)]
pub enum ResponseFormat {
    JsonObject,
    JsonSchema { name: String, schema: Json, strict: bool },
}

/// Why a model stopped.
#[derive(Debug, Clone, Copy, PartialEq, Eq, Structural)]
pub enum FinishReason {
    Stop,
    Length,
    ToolCalls,
    ContentFilter,
    FunctionCall,
}

/// One answer of a model.
#[derive(Debug, PartialEq, Eq)]
pub struct Choice {
    pub content: Option<String>,
    pub tool_calls: Vec<ToolCallRequest>,
    pub finish_reason: Option<FinishReason>,
}

/// A model request, ready to be sent.
pub struct ChatRequest<'a> {
    pub model: &'a str,
    pub messages: &'a Vec<ChatMessage>,
    pub max_tokens: u32,
    /// The tools on offer; left out where there are none.
    pub tools: Option<&'a Vec<ToolDefinition>>,
    /// Whether the model is told to call no tool.
    pub tools_forbidden: bool,
    pub response_format: Option<&'a ResponseFormat>,
}

/// Why a request is not worth sending.
#[derive(Debug, Clone, Copy, PartialEq, Eq, Structural)]
pub enum InvalidParams {
    EmptyModel,
    EmptyPrompt,
}

impl InvalidParams {
    /// What is said of it.
    pub fn message(&self) -> (text: String)
        ensures
            text@ == match *self {
                InvalidParams::EmptyModel => "model must not be empty"@,
                InvalidParams::EmptyPrompt => "prompt must not be empty"@,
            },
    {
        match self {
            InvalidParams::EmptyModel => "model must not be empty".to_owned(),
            InvalidParams::EmptyPrompt => "prompt must not be empty".to_owned(),
        }
    }
}

/// A blank model or prompt makes a request that is bound to fail: it is refused up front, the
/// model first.
pub fn ensure_valid_params(model: &str, prompt: &str) -> (checked: Result<(), InvalidParams>)
    ensures
        checked == if blank(model@) {
            Err(InvalidParams::EmptyModel)
        } else if blank(prompt@) {
            Err(InvalidParams::EmptyPrompt)
        } else {
            Ok(())
        },
{
    if is_blank(model) {
        return Err(InvalidParams::EmptyModel);
    }
    if is_blank(prompt) {
        return Err(InvalidParams::EmptyPrompt);
    }
    Ok(())
}

/// The system prompt without the white space around it; a blank one counts as not given.
pub open spec fn given_system(system: Option<Seq<char>>) -> Option<Seq<char>> {
    match system {
        Some(text) if !blank(text) => Some(trimmed(text)),
        _ => None,
    }
}

/// Whether `message` is a system message saying `text`.
pub open spec fn is_system(message: ChatMessage, text: Seq<char>) -> bool {
    message matches ChatMessage::System(said) && said@ == text
}

/// Whether `message` is a user message saying `text`.
pub open spec fn is_user(message: ChatMessage, text: Seq<char>) -> bool {
    message matches ChatMessage::User(said) && said@ == text
}

/// Whether `messages` are the system prompt, where one is given, and then the user's prompt.
pub open spec fn opening_messages(
    messages: Seq<ChatMessage>,
    system: Option<Seq<char>>,
    prompt: Seq<char>,
) -> bool {
    match given_system(system) {
        Some(text) => messages.len() == 2 && is_system(messages[0], text) && is_user(
            messages[1],
            prompt,
        ),
        None => messages.len() == 1 && is_user(messages[0], prompt),
    }
}

/// Assemble the messages of a new conversation; a blank system prompt counts as not given.
pub fn build_messages(system: Option<&str>, prompt: &str) -> (messages: Vec<ChatMessage>)
    ensures
        opening_messages(messages@, opt_str_view(system), prompt@),
{
    let mut messages: Vec<ChatMessage> = Vec::new();
    match system {
        Some(text) => {
            if !is_blank(text) {
                messages.push(ChatMessage::System(trim(text).to_owned()));
            }
        },
        None => {},
    }
    messages.push(ChatMessage::User(prompt.to_owned()));
    messages
}

/// A request with its model, messages, budget and tools set. An empty list of tools is left
/// out, since an endpoint rejects one.
pub fn request_builder<'a>(
    model: &'a str,
    messages: &'a Vec<ChatMessage>,
    max_tokens: u32,
    tools: &'a Vec<ToolDefinition>,
) -> (request: ChatRequest<'a>)
    ensures
        request.model@ == model@,
        request.messages == messages,
        request.max_tokens == max_tokens,
        request.tools == if tools@.len() == 0 {
            None
        } else {
            Some(tools)
        },
        !request.tools_forbidden,
        request.response_format is None,
{
    let offered = if tools.len() == 0 {
        None
    } else {
        Some(tools)
    };
    ChatRequest {
        model,
        messages,
        max_tokens,
        tools: offered,
        tools_forbidden: false,
        response_format: None,
    }
}

/// A response that carries no choice.
#[derive(Debug, Clone, Copy, PartialEq, Eq, Structural)]
pub struct NoChoices;

impl NoChoices {
    /// What is said of it.
    pub fn message(&self) -> (text: String)
        ensures
            text@ == "No choices in response"@,
    {
        "No choices in response".to_owned()
    }
}

/// Take the first choice of a response.
pub fn first_choice(choices: Vec<Choice>) -> (first: Result<Choice, NoChoices>)
    ensures
        match first {
            Ok(choice) => choices@.len() > 0 && choice == choices@[0],
            Err(_) => choices@.len() == 0,
        },
{
    let mut choices = choices;
    if choices.len() == 0 {
        return Err(NoChoices);
    }
    Ok(choices.swap_remove(0))
}

/// A request opens with what the caller's system prompt says, where it says anything, and then the
/// whole of the user's prompt.
pub proof fn a_prompt_is_sent_whole(system: Option<&str>, prompt: &str, messages: Vec<ChatMessage>)
    requires
        call_ensures(build_messages, (system, prompt), messages),
    ensures
        messages@.len() > 0,
        messages@.last() matches ChatMessage::User(said) && said@ == prompt@,
        system matches Some(text) && trimmed(text@).len() > 0 ==> messages@.len() == 2 && (
        messages@[0] matches ChatMessage::System(said) && said@ == trimmed(system->0@)),
        system is None || trimmed(system->0@).len() == 0 ==> messages@.len() == 1,
{
    match system {
        Some(text) => lemma_blank_iff_trimmed_empty(text@),
        None => {},
    }
}

} // verus!

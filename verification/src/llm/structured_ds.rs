//! Structured output from endpoints that only guarantee valid JSON, in one fixed request.

use vstd::prelude::*;

use crate::json::Json;
use crate::llm::client::{is_system, is_user, ChatMessage, Choice, ResponseFormat};
use crate::llm::schema::{instruction_text, schema_instruction};
use crate::text::opt_str_view;

verus! {

/// Output budget.
pub const MAX_TOKENS: u32 = 2048;

/// The system prompt with the schema behind it; the prompt is taken as it is.
pub open spec fn system_text(system: Option<Seq<char>>, schema: Json) -> Seq<char> {
    match system {
        Some(text) => text + "\n\n"@ + instruction_text(schema),
        None => instruction_text(schema),
    }
}

/// A request for a JSON object.
#[derive(Debug, PartialEq, Eq)]
pub struct DsRequest {
    pub model: String,
    pub messages: Vec<ChatMessage>,
    pub response_format: ResponseFormat,
    pub max_tokens: u32,
}

/// The request for an object that conforms to `schema`: the system prompt with the schema, then
/// the user's prompt.
pub fn ds_request(model: &str, system: Option<&str>, prompt: &str, schema: &Json) -> (request:
    DsRequest)
    ensures
        request.model@ == model@,
        request.messages@.len() == 2,
        is_system(request.messages@[0], system_text(opt_str_view(system), *schema)),
        is_user(request.messages@[1], prompt@),
        request.response_format == ResponseFormat::JsonObject,
        request.max_tokens == MAX_TOKENS,
{
    let instruction = schema_instruction(schema);
    let text = match system {
        Some(given) => {
            let mut text = given.to_owned();
            text.append("\n\n");
            text.append(instruction.as_str());
            text
        },
        None => instruction,
    };
    let mut messages: Vec<ChatMessage> = Vec::new();
    messages.push(ChatMessage::System(text));
    messages.push(ChatMessage::User(prompt.to_owned()));
    DsRequest {
        model: model.to_owned(),
        messages,
        response_format: ResponseFormat::JsonObject,
        max_tokens: MAX_TOKENS,
    }
}

/// A reply whose first choice says nothing, or that has none.
#[derive(Debug, Clone, Copy, PartialEq, Eq, Structural)]
pub struct NoContent;

impl NoContent {
    /// What is said of it.
    pub fn message(&self) -> (text: String)
        ensures
            text@ == "No content in response"@,
    {
        "No content in response".to_owned()
    }
}

/// The text to read the object from: that of the first choice, as it is.
pub fn ds_answer(choices: Vec<Choice>) -> (text: Result<String, NoContent>)
    ensures
        match text {
            Ok(said) => choices@.len() > 0 && choices@[0].content == Some(said),
            Err(_) => choices@.len() == 0 || choices@[0].content is None,
        },
{
    let mut choices = choices;
    if choices.len() == 0 {
        return Err(NoContent);
    }
    match choices.swap_remove(0).content {
        Some(said) => Ok(said),
        None => Err(NoContent),
    }
}

/// The system prompt is kept whole before the schema, and the schema whole at its end.
pub proof fn the_schema_follows_the_system_prompt(system: Option<Seq<char>>, schema: Json)
    ensures
        ({
            let text = system_text(system, schema);
            let asked = instruction_text(schema);
            &&& text.skip(text.len() - asked.len()) == asked
            &&& system matches Some(said) ==> said.is_prefix_of(text)
            &&& system is None ==> text == asked
        }),
{
    let text = system_text(system, schema);
    let asked = instruction_text(schema);
    assert(text.skip(text.len() - asked.len()) =~= asked);
}

} // verus!

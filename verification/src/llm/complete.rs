//! Plain text completions.

use vstd::prelude::*;

use crate::llm::client::{
    build_messages, ensure_valid_params, first_choice, opening_messages, ChatMessage, Choice,
    InvalidParams,
};
use crate::text::{blank, is_blank, lemma_blank_iff_trimmed_empty, opt_str_view, trimmed};

verus! {

/// The messages of a plain completion; a blank model or prompt is refused.
pub fn completion_messages(model: &str, system: Option<&str>, prompt: &str) -> (messages: Result<
    Vec<ChatMessage>,
    InvalidParams,
>)
    ensures
        match messages {
            Ok(found) => !blank(model@) && !blank(prompt@) && opening_messages(
                found@,
                opt_str_view(system),
                prompt@,
            ),
            Err(why) => (blank(model@) || blank(prompt@)) && why == if blank(model@) {
                InvalidParams::EmptyModel
            } else {
                InvalidParams::EmptyPrompt
            },
        },
{
    match ensure_valid_params(model, prompt) {
        Ok(()) => Ok(build_messages(system, prompt)),
        Err(why) => Err(why),
    }
}

/// A response without a text to show.
#[derive(Debug, Clone, Copy, PartialEq, Eq, Structural)]
pub enum NoText {
    NoChoices,
    NoContent,
}

impl NoText {
    /// What is said of it.
    pub fn message(&self) -> (text: String)
        ensures
            text@ == match *self {
                NoText::NoChoices => "No choices in response"@,
                NoText::NoContent => "No content in response"@,
            },
    {
        match self {
            NoText::NoChoices => "No choices in response".to_owned(),
            NoText::NoContent => "No content in response".to_owned(),
        }
    }
}

/// The text of a completion: that of its first choice, unless it is blank.
pub fn completion_text(choices: Vec<Choice>) -> (text: Result<String, NoText>)
    ensures
        if choices@.len() == 0 {
            text == Err::<String, NoText>(NoText::NoChoices)
        } else {
            match choices@[0].content {
                Some(content) if !blank(content@) => text == Ok::<String, NoText>(content),
                _ => text == Err::<String, NoText>(NoText::NoContent),
            }
        },
{
    match first_choice(choices) {
        Ok(choice) => match choice.content {
            Some(content) => {
                if is_blank(content.as_str()) {
                    Err(NoText::NoContent)
                } else {
                    Ok(content)
                }
            },
            None => Err(NoText::NoContent),
        },
        Err(_) => Err(NoText::NoChoices),
    }
}

/// A completion's text is all that its first choice says, unless that is nothing but white space.
pub proof fn a_completion_is_its_first_choice(choices: Vec<Choice>, text: Result<String, NoText>)
    requires
        call_ensures(completion_text, (choices,), text),
    ensures
        text is Ok == (choices@.len() > 0 && (choices@[0].content matches Some(said) && trimmed(
            said@,
        ).len() > 0)),
        text matches Ok(said) ==> choices@[0].content == Some(said),
{
    if choices@.len() > 0 {
        match choices@[0].content {
            Some(said) => lemma_blank_iff_trimmed_empty(said@),
            None => {},
        }
    }
}

} // verus!

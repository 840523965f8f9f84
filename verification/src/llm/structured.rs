//! Structured output: how it is asked for, and what is made of the answer.
//!
//! Where the endpoint enforces a schema it is handed the schema; where it only guarantees valid
//! JSON, the schema goes into the system prompt.

use vstd::prelude::*;

use crate::config::{is_reasoning_model, names_reasoning_model};
use crate::json::Json;
use crate::llm::client::{
    build_messages, ensure_valid_params, opening_messages, ChatMessage, Choice, FinishReason,
    InvalidParams, ResponseFormat,
};
use crate::llm::schema::{
    instruction_text, merge_system, merged_system, native_schema_format, schema_instruction,
    an_instruction_follows_the_system_prompt, strip_code_fence, unfenced,
};
use crate::llm::tool_loop::Completion;
use crate::text::{
    blank, cut, decimal, decimal_text, is_blank, is_white, lemma_blank_iff_trimmed_empty, lowercase,
    lowered, occurs_at, opt_str_view, same_text, trim, trimmed, what_is_seen_is_not_white,
};
use crate::util::truncate_chars;

verus! {

/// Output budget where the endpoint enforces the schema.
pub const NATIVE_SCHEMA_MAX_TOKENS: u32 = 4096;

/// Output budget where it does not; it covers the chain of thought as well as the answer.
pub const JSON_OBJECT_MAX_TOKENS: u32 = 32768;

/// Characters of an answer kept in an error.
pub const RAW_CONTENT_PREVIEW_CHARS: usize = 512;

/// How structured output is asked for.
#[derive(Debug, Clone, Copy, PartialEq, Eq, Structural)]
pub enum StructuredMode {
    /// The endpoint enforces the schema.
    NativeSchema,
    /// The endpoint guarantees valid JSON only.
    JsonObject,
}

/// The mode that a text names.
pub open spec fn mode_named(value: Seq<char>) -> Option<StructuredMode> {
    let word = lowered(trimmed(value));
    if word == "native"@ || word == "native_schema"@ || word == "json_schema"@ {
        Some(StructuredMode::NativeSchema)
    } else if word == "json_object"@ || word == "prompt"@ {
        Some(StructuredMode::JsonObject)
    } else {
        None
    }
}

/// The mode that a model's name calls for.
pub open spec fn mode_for(model: Seq<char>) -> StructuredMode {
    if is_reasoning_model(model) {
        StructuredMode::JsonObject
    } else {
        StructuredMode::NativeSchema
    }
}

/// A mode that there is none of, in lower case.
#[derive(Debug, PartialEq, Eq)]
pub struct UnknownMode {
    pub value: String,
}

impl UnknownMode {
    /// What is said of it.
    pub fn message(&self) -> (text: String)
        ensures
            text@ == "unknown structured mode `"@ + self.value@
                + "`; expected `json_schema` or `json_object`"@,
    {
        let mut text = "unknown structured mode `".to_owned();
        text.append(self.value.as_str());
        text.append("`; expected `json_schema` or `json_object`");
        text
    }
}

impl StructuredMode {
    /// The mode that a text names.
    pub fn parse(value: &str) -> (mode: Result<Self, UnknownMode>)
        ensures
            match mode {
                Ok(named) => mode_named(value@) == Some(named),
                Err(unknown) => mode_named(value@) is None && unknown.value@ == lowered(
                    trimmed(value@),
                ),
            },
    {
        let word = lowercase(trim(value));
        if same_text(word.as_str(), "native") || same_text(word.as_str(), "native_schema")
            || same_text(word.as_str(), "json_schema") {
            Ok(StructuredMode::NativeSchema)
        } else if same_text(word.as_str(), "json_object") || same_text(word.as_str(), "prompt") {
            Ok(StructuredMode::JsonObject)
        } else {
            Err(UnknownMode { value: word })
        }
    }

    /// The mode for a model: as the configured value has it, or as the model's name calls for
    /// where that is not set or names none.
    pub fn for_model(configured: Option<&str>, model: &str) -> (mode: Self)
        ensures
            mode == match opt_str_view(configured) {
                Some(value) => match mode_named(value) {
                    Some(named) => named,
                    None => mode_for(model@),
                },
                None => mode_for(model@),
            },
    {
        match configured {
            Some(value) => match StructuredMode::parse(value) {
                Ok(named) => named,
                Err(_) => StructuredMode::infer(model),
            },
            None => StructuredMode::infer(model),
        }
    }

    /// The mode that a model's name calls for.
    pub fn infer(model: &str) -> (mode: Self)
        ensures
            mode == mode_for(model@),
    {
        if names_reasoning_model(model) {
            StructuredMode::JsonObject
        } else {
            StructuredMode::NativeSchema
        }
    }

    /// Output budget of the mode.
    pub open spec fn budget(self) -> u32 {
        match self {
            StructuredMode::NativeSchema => NATIVE_SCHEMA_MAX_TOKENS,
            StructuredMode::JsonObject => JSON_OBJECT_MAX_TOKENS,
        }
    }

    /// Output budget of the mode.
    pub fn max_tokens(self) -> (tokens: u32)
        ensures
            tokens == self.budget(),
    {
        match self {
            StructuredMode::NativeSchema => NATIVE_SCHEMA_MAX_TOKENS,
            StructuredMode::JsonObject => JSON_OBJECT_MAX_TOKENS,
        }
    }
}

impl std::str::FromStr for StructuredMode {
    type Err = UnknownMode;

    fn from_str(value: &str) -> (mode: Result<Self, UnknownMode>)
        ensures
            match mode {
                Ok(named) => mode_named(value@) == Some(named),
                Err(unknown) => mode_named(value@) is None && unknown.value@ == lowered(
                    trimmed(value@),
                ),
            },
    {
        StructuredMode::parse(value)
    }
}

/// An output that its budget cut short: a failure that another attempt would only repeat.
#[derive(Debug, Clone, Copy, PartialEq, Eq, Structural)]
pub struct TruncatedOutput {
    pub limit: u32,
}

/// What is said of an output that a budget of `limit` cut short.
pub open spec fn truncated_text(limit: u32) -> Seq<char> {
    "output truncated by max_tokens ("@ + decimal(limit as nat)
        + "): the reasoning chain consumed the whole budget, so the JSON body is empty or incomplete"@
}

impl TruncatedOutput {
    /// What is said of it.
    pub fn message(&self) -> (text: String)
        ensures
            text@ == truncated_text(self.limit),
    {
        let mut text = "output truncated by max_tokens (".to_owned();
        text.append(decimal_text(self.limit as u64).as_str());
        text.append(
            "): the reasoning chain consumed the whole budget, so the JSON body is empty or incomplete",
        );
        text
    }
}

/// Why an answer holds no structured output.
#[derive(Debug, Clone, Copy, PartialEq, Eq, Structural)]
pub enum StructuredFailure {
    Truncated(TruncatedOutput),
    /// Nothing was said; why the model stopped is kept.
    Empty(Option<FinishReason>),
}

/// How the reason why a model stopped is written.
pub open spec fn reason_text(reason: Option<FinishReason>) -> Seq<char> {
    match reason {
        None => "None"@,
        Some(FinishReason::Stop) => "Some(Stop)"@,
        Some(FinishReason::Length) => "Some(Length)"@,
        Some(FinishReason::ToolCalls) => "Some(ToolCalls)"@,
        Some(FinishReason::ContentFilter) => "Some(ContentFilter)"@,
        Some(FinishReason::FunctionCall) => "Some(FunctionCall)"@,
    }
}

impl StructuredFailure {
    /// What is said of it.
    pub fn message(&self) -> (text: String)
        ensures
            text@ == match *self {
                StructuredFailure::Truncated(output) => truncated_text(output.limit),
                StructuredFailure::Empty(reason) => "Empty content in response (finish_reason: "@
                    + reason_text(reason) + ")"@,
            },
    {
        match self {
            StructuredFailure::Truncated(output) => output.message(),
            StructuredFailure::Empty(reason) => {
                let mut text = "Empty content in response (finish_reason: ".to_owned();
                text.append(
                    match reason {
                        None => "None",
                        Some(FinishReason::Stop) => "Some(Stop)",
                        Some(FinishReason::Length) => "Some(Length)",
                        Some(FinishReason::ToolCalls) => "Some(ToolCalls)",
                        Some(FinishReason::ContentFilter) => "Some(ContentFilter)",
                        Some(FinishReason::FunctionCall) => "Some(FunctionCall)",
                    },
                );
                text.append(")");
                text
            },
        }
    }
}

/// The text of a structured answer, and the JSON inside it.
#[derive(Debug, PartialEq, Eq)]
pub struct StructuredText {
    pub content: String,
    pub json: String,
}

/// The first choice of a structured request, and how it was asked for.
#[derive(Debug, PartialEq, Eq)]
pub struct StructuredChoice {
    choice: Choice,
    mode: StructuredMode,
    budget_exhausted: bool,
}

impl StructuredChoice {
    /// The model's answer.
    pub closed spec fn answer(&self) -> Choice {
        self.choice
    }

    /// How it was asked for.
    pub closed spec fn asked_in(&self) -> StructuredMode {
        self.mode
    }

    /// Whether the tool rounds ran out.
    pub closed spec fn rounds_ran_out(&self) -> bool {
        self.budget_exhausted
    }

    /// What a completion comes to that was asked for in `mode`.
    pub fn new(completion: Completion, mode: StructuredMode) -> (structured: Self)
        ensures
            structured.answer() == completion.choice,
            structured.asked_in() == mode,
            structured.rounds_ran_out() == completion.budget_exhausted,
    {
        StructuredChoice {
            choice: completion.choice,
            mode,
            budget_exhausted: completion.budget_exhausted,
        }
    }

    /// Why the model stopped.
    pub fn finish_reason(&self) -> (reason: Option<FinishReason>)
        ensures
            reason == self.answer().finish_reason,
    {
        self.choice.finish_reason
    }

    /// How it was asked for.
    pub fn mode(&self) -> (mode: StructuredMode)
        ensures
            mode == self.asked_in(),
    {
        self.mode
    }

    /// Whether the tool rounds ran out before the model finished.
    pub fn budget_exhausted(&self) -> (exhausted: bool)
        ensures
            exhausted == self.rounds_ran_out(),
    {
        self.budget_exhausted
    }

    /// What the answer is read as: a truncated one is told from an empty one, whatever it
    /// holds.
    pub open spec fn parses_to(&self, parsed: Result<StructuredText, StructuredFailure>) -> bool {
        let choice = self.answer();
        if choice.finish_reason == Some(FinishReason::Length) {
            parsed == Err::<StructuredText, StructuredFailure>(
                StructuredFailure::Truncated(TruncatedOutput { limit: self.asked_in().budget() }),
            )
        } else {
            match choice.content {
                Some(content) if !blank(content@) => parsed matches Ok(text) && text.content
                    == content && text.json@ == unfenced(content@),
                _ => parsed == Err::<StructuredText, StructuredFailure>(
                    StructuredFailure::Empty(choice.finish_reason),
                ),
            }
        }
    }

    /// The JSON text of the answer. A truncated answer is told from an empty one, whatever it
    /// holds.
    pub fn parse(self) -> (parsed: Result<StructuredText, StructuredFailure>)
        ensures
            self.parses_to(parsed),
    {
        let reason = self.choice.finish_reason;
        match reason {
            Some(FinishReason::Length) => {
                return Err(
                    StructuredFailure::Truncated(
                        TruncatedOutput { limit: self.mode.max_tokens() },
                    ),
                );
            },
            _ => {},
        }
        match self.choice.content {
            Some(content) => {
                if is_blank(content.as_str()) {
                    Err(StructuredFailure::Empty(reason))
                } else {
                    let json = strip_code_fence(content.as_str()).to_owned();
                    Ok(StructuredText { content, json })
                }
            },
            None => Err(StructuredFailure::Empty(reason)),
        }
    }
}

/// What is said of an answer whose JSON does not parse.
pub fn unparsable_output(error: &str, content: &str) -> (text: String)
    ensures
        text@ == "Failed to parse structured output: "@ + error@ + "; raw content: "@ + cut(
            content@,
            RAW_CONTENT_PREVIEW_CHARS as nat,
        ),
{
    let mut text = "Failed to parse structured output: ".to_owned();
    text.append(error);
    text.append("; raw content: ");
    text.append(truncate_chars(content, RAW_CONTENT_PREVIEW_CHARS));
    text
}

/// A structured request, ready for the tool loop.
#[derive(Debug, PartialEq, Eq)]
pub struct StructuredRequest {
    pub mode: StructuredMode,
    pub messages: Vec<ChatMessage>,
    pub response_format: ResponseFormat,
    pub max_tokens: u32,
}

/// Prepare a structured request for `schema`: in the mode that the configuration and the model
/// call for, with the schema in the response format or in the system prompt.
pub fn structured_request(
    configured: Option<&str>,
    model: &str,
    system: Option<&str>,
    prompt: &str,
    schema_name: String,
    schema: Json,
) -> (request: Result<StructuredRequest, InvalidParams>)
    ensures
        match request {
            Err(why) => (blank(model@) || blank(prompt@)) && why == if blank(model@) {
                InvalidParams::EmptyModel
            } else {
                InvalidParams::EmptyPrompt
            },
            Ok(r) => {
                &&& !blank(model@) && !blank(prompt@)
                &&& r.mode == match opt_str_view(configured) {
                    Some(value) => match mode_named(value) {
                        Some(named) => named,
                        None => mode_for(model@),
                    },
                    None => mode_for(model@),
                }
                &&& r.max_tokens == r.mode.budget()
                &&& match r.mode {
                    StructuredMode::NativeSchema => r.response_format
                        == (ResponseFormat::JsonSchema { name: schema_name, schema, strict: true })
                        && opening_messages(r.messages@, opt_str_view(system), prompt@),
                    StructuredMode::JsonObject => r.response_format == ResponseFormat::JsonObject
                        && opening_messages(
                        r.messages@,
                        Some(merged_system(opt_str_view(system), instruction_text(schema))),
                        prompt@,
                    ),
                }
            },
        },
{
    match ensure_valid_params(model, prompt) {
        Ok(()) => {},
        Err(why) => return Err(why),
    }
    let mode = StructuredMode::for_model(configured, model);
    let max_tokens: u32 = mode.max_tokens();
    match mode {
        StructuredMode::NativeSchema => Ok(
            StructuredRequest {
                mode,
                messages: build_messages(system, prompt),
                response_format: native_schema_format(schema_name, schema),
                max_tokens,
            },
        ),
        StructuredMode::JsonObject => {
            let merged = merge_system(system, schema_instruction(&schema).as_str());
            Ok(
                StructuredRequest {
                    mode,
                    messages: build_messages(Some(merged.as_str()), prompt),
                    response_format: ResponseFormat::JsonObject,
                    max_tokens,
                },
            )
        },
    }
}

/// An answer is read exactly where the model was not cut short and said something; what is read is
/// all it said, the white space around it aside, unless a code fence opens it.
pub proof fn a_whole_answer_is_read(
    choice: StructuredChoice,
    parsed: Result<StructuredText, StructuredFailure>,
)
    requires
        choice.parses_to(parsed),
    ensures
        parsed is Ok == (choice.answer().finish_reason != Some(FinishReason::Length) && (
        choice.answer().content matches Some(content) && trimmed(content@).len() > 0)),
        parsed matches Ok(text) ==> choice.answer().content == Some(text.content) && (!occurs_at(
            trimmed(text.content@),
            "```"@,
            0,
        ) ==> text.json@ == trimmed(text.content@)),
        parsed matches Err(StructuredFailure::Truncated(why)) ==> choice.answer().finish_reason
            == Some(FinishReason::Length) && why.limit == choice.asked_in().budget(),
        parsed matches Err(StructuredFailure::Empty(reason)) ==> reason
            == choice.answer().finish_reason && reason != Some(FinishReason::Length),
{
    match choice.answer().content {
        Some(content) => lemma_blank_iff_trimmed_empty(content@),
        None => {},
    }
}

/// A configured mode is named in any case and with white space around it.
pub proof fn a_mode_is_named_in_any_case(value: Seq<char>, other: Seq<char>)
    requires
        lowered(trimmed(value)) == lowered(trimmed(other)),
    ensures
        mode_named(value) == mode_named(other),
        mode_named(value) == Some(StructuredMode::JsonObject) ==> seq![
            "json_object"@,
            "prompt"@,
        ].contains(lowered(trimmed(value))),
        mode_named(value) == Some(StructuredMode::NativeSchema) ==> seq![
            "native"@,
            "native_schema"@,
            "json_schema"@,
        ].contains(lowered(trimmed(value))),
{
    let prompted = seq!["json_object"@, "prompt"@];
    let native = seq!["native"@, "native_schema"@, "json_schema"@];
    assert(prompted[0] == "json_object"@ && prompted[1] == "prompt"@);
    assert(native[0] == "native"@ && native[1] == "native_schema"@ && native[2] == "json_schema"@);
}

/// A structured request asks the user's whole prompt last, and the schema goes with it: in the
/// response format where the endpoint enforces it, and else at the end of the system prompt.
pub proof fn a_structured_request_carries_its_schema(
    configured: Option<&str>,
    model: &str,
    system: Option<&str>,
    prompt: &str,
    schema_name: String,
    schema: Json,
    request: Result<StructuredRequest, InvalidParams>,
)
    requires
        call_ensures(
            structured_request,
            (configured, model, system, prompt, schema_name, schema),
            request,
        ),
    ensures
        request is Ok == (trimmed(model@).len() > 0 && trimmed(prompt@).len() > 0),
        request matches Ok(sent) ==> {
            &&& sent.messages@.len() > 0
            &&& sent.messages@.last() matches ChatMessage::User(said) && said@ == prompt@
            &&& match sent.mode {
                StructuredMode::NativeSchema => sent.response_format
                    == (ResponseFormat::JsonSchema { name: schema_name, schema, strict: true }),
                StructuredMode::JsonObject => sent.response_format == ResponseFormat::JsonObject
                    && (sent.messages@[0] matches ChatMessage::System(said) && said@
                    == trimmed(merged_system(opt_str_view(system), instruction_text(schema)))),
            }
        },
{
    lemma_blank_iff_trimmed_empty(model@);
    lemma_blank_iff_trimmed_empty(prompt@);
    let whole = merged_system(opt_str_view(system), instruction_text(schema));
    an_instruction_follows_the_system_prompt(opt_str_view(system), instruction_text(schema));
    lemma_blank_iff_trimmed_empty(whole);
    if blank(whole) {
        let instruction = instruction_text(schema);
        let at = whole.len() - instruction.len();
        reveal_strlit(
            "You must reply with a single valid JSON object that conforms to the following JSON Schema. Do not include any explanation, markdown code fences, or extra text.\n\nJSON Schema:\n",
        );
        assert(instruction[0] == 'Y');
        assert(whole.skip(at)[0] == whole[at as int]);
        what_is_seen_is_not_white('Y');
        assert(is_white(whole[at as int]));
    }
}

} // verus!

//! Requests to a model, and what is made of its answers.

use agent::gaia::models::{GaiaOutput, GaiaRow, HfResponse, HfRow, Solution};
use agent::gaia::dataset::{problems, rows_query, rows_refusal, unparsable_rows, InvalidQuery};
use agent::gaia::evaluator::{is_correct, to_eval_result};
use agent::gaia::solver::{solve_step, worth_retrying, AttemptFailure, SolveStep};
use agent::json::Json;
use agent::llm::client::{
    build_messages, ensure_valid_params, first_choice, request_builder, ChatMessage, Choice,
    FinishReason, InvalidParams, ResponseFormat, ToolCallRequest, ToolDefinition,
};
use agent::llm::complete::{completion_messages, completion_text, NoText};
use agent::llm::provider::permits;
use agent::llm::retry::{is_transient, try_again, Failure};
use agent::llm::schema::{
    final_answer_tool, merge_system, native_schema_format, schema_instruction, schema_name,
    strip_code_fence, FINAL_ANSWER_TOOL_NAME,
};
use agent::llm::stream::{StreamDelta, StreamEnd, StreamRound};
use agent::llm::structured::{
    structured_request, unparsable_output, StructuredChoice, StructuredFailure, StructuredMode,
    TruncatedOutput,
};
use agent::llm::structured_ds::{ds_answer, ds_request, NoContent};
use agent::llm::tool_calls::{
    FunctionFragment, IncompleteCall, ToolCallAccumulator, ToolCallFragment,
};
use agent::llm::tool_loop::{
    append_tool_results, disable_tools, execute, BudgetExhausted, Completion, Dispatch, LoopStep,
    ToolLoop,
};
use agent::tools::registry::{AnyTool, Builtin, ToolRegistry};
use agent::tools::{calculator, Tool};

const ACTION_PLAN: &str = "agent::models::action_plan::ActionPlan";
const ACTION_PLANS: &str = "alloc::vec::Vec<agent::models::action_plan::ActionPlan>";

fn builtin() -> ToolRegistry<u32> {
    ToolRegistry::builtin(&|_: Builtin| Json::Object(Vec::new())).unwrap()
}

fn answer(text: &str) -> Choice {
    Choice {
        content: Some(text.to_owned()),
        tool_calls: Vec::new(),
        finish_reason: Some(FinishReason::Stop),
    }
}

#[test]
fn ensure_valid_params_accepts_non_blank_model_and_prompt() {
    assert!(ensure_valid_params("gpt-test", "hi").is_ok());
}

#[test]
fn ensure_valid_params_rejects_blank_model() {
    assert!(ensure_valid_params("  ", "hi").is_err());
    assert_eq!(InvalidParams::EmptyModel.message(), "model must not be empty");
}

#[test]
fn ensure_valid_params_rejects_blank_prompt() {
    assert!(ensure_valid_params("gpt-test", "   ").is_err());
    assert_eq!(InvalidParams::EmptyPrompt.message(), "prompt must not be empty");
}

#[test]
fn build_messages_without_system_is_just_the_user_message() {
    let messages = build_messages(None, "hi");
    assert_eq!(messages.len(), 1);
    assert!(matches!(messages[0], ChatMessage::User(_)));
}

#[test]
fn build_messages_treats_blank_system_as_absent() {
    assert_eq!(build_messages(Some("   "), "hi").len(), 1);
}

#[test]
fn build_messages_with_system_prepends_it() {
    let messages = build_messages(Some("be nice"), "hi");
    assert_eq!(messages.len(), 2);
    assert!(matches!(messages[0], ChatMessage::System(_)));
    assert!(matches!(messages[1], ChatMessage::User(_)));
}

#[test]
fn request_builder_omits_empty_tools_rather_than_sending_an_empty_array() {
    let (messages, tools) = (Vec::new(), Vec::new());
    assert!(request_builder("gpt-test", &messages, 16, &tools).tools.is_none());
}

#[test]
fn request_builder_carries_the_given_tools() {
    let registry = builtin();
    let messages = Vec::new();
    let request = request_builder("gpt-test", &messages, 16, registry.definitions());
    assert_eq!(request.tools.unwrap().len(), registry.definitions().len());
}

#[test]
fn request_builder_sets_model_messages_and_max_tokens() {
    let messages = build_messages(None, "hi");
    let tools = Vec::new();
    let request = request_builder("gpt-test", &messages, 16, &tools);
    assert_eq!(request.model, "gpt-test");
    assert_eq!(request.messages.len(), 1);
    assert_eq!(request.max_tokens, 16);
}

#[test]
fn first_choice_returns_the_first_of_several() {
    let choice = first_choice(vec![answer("choice 0"), answer("choice 1")]).unwrap();
    assert_eq!(choice.content.as_deref(), Some("choice 0"));
}

#[test]
fn first_choice_errors_when_there_are_none() {
    let none = first_choice(Vec::new());
    assert!(none.is_err());
    assert_eq!(none.unwrap_err().message(), "No choices in response");
}

#[test]
fn zero_max_concurrency_is_clamped_to_one() {
    assert_eq!(permits(0), 1);
    assert_eq!(permits(7), 7);
}

#[test]
fn rate_limiting_and_server_errors_are_worth_retrying() {
    for status in [429, 408, 409, 500, 502, 503] {
        assert!(is_transient(&Failure::Api(status)), "{status} should retry");
    }
}

#[test]
fn deterministic_client_errors_are_not_retried() {
    for status in [400, 401, 403, 404, 422] {
        assert!(
            !is_transient(&Failure::Api(status)),
            "{status} repeats identically, so retrying only burns the budget"
        );
    }
}

#[test]
fn request_building_failures_are_not_retried() {
    assert!(!is_transient(&Failure::InvalidArgument));
}

#[test]
fn unrecognized_errors_keep_their_retries() {
    assert!(is_transient(&Failure::Other));
}

#[test]
fn schema_schema_name_strips_module_path() {
    assert_eq!(schema_name(ACTION_PLAN), "ActionPlan");
}

#[test]
fn schema_schema_name_strips_generics() {
    assert_eq!(schema_name(ACTION_PLANS), "Vec");
}

#[test]
fn structured_schema_name_strips_module_path() {
    assert_eq!(schema_name(ACTION_PLAN), "ActionPlan");
}

#[test]
fn structured_schema_name_strips_generics() {
    assert_eq!(schema_name(ACTION_PLANS), "Vec");
}

#[test]
fn final_answer_tool_is_named_and_describes_the_schema() {
    let tool = final_answer_tool(&schema_name(ACTION_PLAN), Json::Null);
    assert_eq!(tool.name, FINAL_ANSWER_TOOL_NAME);
    assert!(tool.description.contains("ActionPlan"), "got: {}", tool.description);
}

#[test]
fn merge_system_joins_or_falls_back() {
    assert_eq!(merge_system(Some("role"), "rule"), "role\n\nrule");
    assert_eq!(merge_system(Some("  "), "rule"), "rule");
    assert_eq!(merge_system(None, "rule"), "rule");
}

#[test]
fn merges_system_prompt() {
    assert_eq!(merge_system(Some("role"), "rule"), "role\n\nrule");
    assert_eq!(merge_system(Some("  "), "rule"), "rule");
    assert_eq!(merge_system(None, "rule"), "rule");
}

#[test]
fn strip_code_fence_unwraps_fenced_json() {
    assert_eq!(strip_code_fence("```json\n{\"a\":1}\n```"), "{\"a\":1}");
    assert_eq!(strip_code_fence("```\n{\"a\":1}\n```"), "{\"a\":1}");
    assert_eq!(strip_code_fence("  {\"a\":1}  "), "{\"a\":1}");
}

#[test]
fn strips_fenced_json() {
    assert_eq!(strip_code_fence("```json\n{\"a\":1}\n```"), "{\"a\":1}");
}

#[test]
fn strips_fence_without_language_tag() {
    assert_eq!(strip_code_fence("```\n{\"a\":1}\n```"), "{\"a\":1}");
}

#[test]
fn keeps_plain_json() {
    assert_eq!(strip_code_fence("  {\"a\":1}  "), "{\"a\":1}");
}

#[test]
fn infers_json_object_for_deepseek_variants() {
    for model in ["deepseek-v4-flash", "DeepSeek-V3", "deepseek-ai/DeepSeek-R1"] {
        assert_eq!(StructuredMode::infer(model), StructuredMode::JsonObject);
    }
}

#[test]
fn infers_native_schema_by_default() {
    assert_eq!(StructuredMode::infer("gpt-4o-mini"), StructuredMode::NativeSchema);
}

#[test]
fn parses_mode_aliases() {
    assert_eq!(
        "json_schema".parse::<StructuredMode>().unwrap(),
        StructuredMode::NativeSchema
    );
    assert_eq!(
        " JSON_OBJECT ".parse::<StructuredMode>().unwrap(),
        StructuredMode::JsonObject
    );
    assert!("nope".parse::<StructuredMode>().is_err());
    assert_eq!(
        StructuredMode::parse("Nope").unwrap_err().message(),
        "unknown structured mode `nope`; expected `json_schema` or `json_object`"
    );
}

#[test]
fn a_configured_mode_outranks_the_model() {
    assert_eq!(
        StructuredMode::for_model(Some("json_object"), "gpt-4o"),
        StructuredMode::JsonObject
    );
    assert_eq!(StructuredMode::for_model(Some("nope"), "gpt-4o"), StructuredMode::NativeSchema);
    assert_eq!(StructuredMode::NativeSchema.max_tokens(), 4096);
    assert_eq!(StructuredMode::JsonObject.max_tokens(), 32768);
}

fn ask(model: &str) -> agent::llm::structured::StructuredRequest {
    structured_request(
        None,
        model,
        Some("role"),
        "prompt",
        "Plan".to_owned(),
        Json::Object(Vec::new()),
    )
    .unwrap()
}

#[test]
fn a_schema_goes_where_the_endpoint_reads_it() {
    let native = ask("gpt-4o");
    assert_eq!(
        native.response_format,
        native_schema_format("Plan".to_owned(), Json::Object(Vec::new()))
    );
    assert_eq!(native.messages[0], ChatMessage::System("role".to_owned()));

    let prompted = ask("deepseek-r1");
    assert_eq!(prompted.response_format, ResponseFormat::JsonObject);
    assert_eq!(
        prompted.messages[0],
        ChatMessage::System(format!("role\n\n{}", schema_instruction(&Json::Object(Vec::new()))))
    );
    let refused =
        structured_request(None, " ", None, "prompt", "Plan".to_owned(), Json::Null);
    assert_eq!(refused, Err(InvalidParams::EmptyModel));
}

fn structured(content: Option<&str>, reason: FinishReason) -> StructuredChoice {
    let choice = Choice {
        content: content.map(str::to_owned),
        tool_calls: Vec::new(),
        finish_reason: Some(reason),
    };
    StructuredChoice::new(
        Completion { choice, budget_exhausted: true },
        StructuredMode::NativeSchema,
    )
}

#[test]
fn a_truncated_answer_is_told_from_an_empty_one() {
    let read = structured(Some("```json\n{}\n```"), FinishReason::Stop).parse().unwrap();
    assert_eq!(read.json, "{}");
    let truncated = structured(Some("{}"), FinishReason::Length).parse();
    assert_eq!(truncated, Err(StructuredFailure::Truncated(TruncatedOutput { limit: 4096 })));
    assert!(TruncatedOutput { limit: 4096 }.message().contains("max_tokens (4096)"));
    let empty = structured(Some("  "), FinishReason::Stop).parse();
    assert_eq!(empty, Err(StructuredFailure::Empty(Some(FinishReason::Stop))));
    assert_eq!(
        empty.unwrap_err().message(),
        "Empty content in response (finish_reason: Some(Stop))"
    );
    assert!(truncated.unwrap_err().message().starts_with("output truncated"));
    assert_eq!(structured(None, FinishReason::Stop).mode(), StructuredMode::NativeSchema);
    assert_eq!(
        unparsable_output("bad", &"x".repeat(600)),
        format!("Failed to parse structured output: bad; raw content: {}", "x".repeat(512))
    );
}

#[test]
fn a_filtered_problem_counts_as_unsolvable() {
    let SolveStep::Solved(solution) = solve_step(structured(None, FinishReason::ContentFilter))
    else {
        panic!("a refusal is an answer");
    };
    assert!(!solution.output.is_solvable && solution.budget_exhausted);
    assert_eq!(
        solution.output.unsolvable_reason,
        "Model refused to answer (content filter)"
    );
    assert!(matches!(
        solve_step(structured(Some("{}"), FinishReason::Stop)),
        SolveStep::Read { budget_exhausted: true, .. }
    ));
    assert!(matches!(
        solve_step(structured(Some("{}"), FinishReason::Length)),
        SolveStep::Failed(StructuredFailure::Truncated(_))
    ));
    assert!(worth_retrying(&AttemptFailure::Other));
    assert!(!worth_retrying(&AttemptFailure::Truncated));
    assert!(!worth_retrying(&AttemptFailure::BudgetExhausted));
}

fn fragment(
    index: u32,
    id: Option<&str>,
    name: Option<&str>,
    arguments: Option<&str>,
) -> ToolCallFragment {
    ToolCallFragment {
        index,
        id: id.map(str::to_owned),
        function: Some(FunctionFragment {
            name: name.map(str::to_owned),
            arguments: arguments.map(str::to_owned),
        }),
    }
}

fn parts(call: &ToolCallRequest) -> (&str, &str, &str) {
    match call {
        ToolCallRequest::Function { id, name, arguments } => (id, name, arguments),
        ToolCallRequest::Custom { .. } => panic!("expected a function call"),
    }
}

#[test]
fn joins_arguments_split_across_chunks() {
    let mut accumulator = ToolCallAccumulator::default();
    accumulator.push(&vec![fragment(0, Some("call_1"), Some("calculator"), Some(""))]);
    accumulator.push(&vec![fragment(0, None, None, Some("{\"operator\":"))]);
    accumulator.push(&vec![fragment(0, None, None, Some("\"add\"}"))]);

    let calls = accumulator.finish().unwrap();
    assert_eq!(calls.len(), 1);
    assert_eq!(parts(&calls[0]), ("call_1", "calculator", "{\"operator\":\"add\"}"));
}

#[test]
fn groups_parallel_calls_by_index_in_order() {
    let mut accumulator = ToolCallAccumulator::default();
    accumulator.push(&vec![fragment(1, Some("call_2"), Some("second"), Some("{\"b\":"))]);
    accumulator.push(&vec![fragment(0, Some("call_1"), Some("first"), Some("{\"a\":"))]);
    accumulator.push(&vec![fragment(0, None, None, Some("1}"))]);
    accumulator.push(&vec![fragment(1, None, None, Some("2}"))]);

    let calls = accumulator.finish().unwrap();
    assert_eq!(calls.len(), 2);
    assert_eq!(parts(&calls[0]), ("call_1", "first", "{\"a\":1}"));
    assert_eq!(parts(&calls[1]), ("call_2", "second", "{\"b\":2}"));
}

#[test]
fn blank_repeats_do_not_clobber_id_and_name() {
    let mut accumulator = ToolCallAccumulator::default();
    accumulator.push(&vec![fragment(0, Some("call_1"), Some("calculator"), None)]);
    accumulator.push(&vec![fragment(0, Some(""), Some(""), Some("{}"))]);

    let calls = accumulator.finish().unwrap();
    assert_eq!(parts(&calls[0]), ("call_1", "calculator", "{}"));
}

#[test]
fn defaults_missing_arguments_to_empty_object() {
    let mut accumulator = ToolCallAccumulator::default();
    accumulator.push(&vec![fragment(0, Some("call_1"), Some("now"), None)]);
    assert_eq!(parts(&accumulator.finish().unwrap()[0]).2, "{}");
}

#[test]
fn rejects_call_without_id() {
    let mut accumulator = ToolCallAccumulator::default();
    accumulator.push(&vec![fragment(0, None, Some("calculator"), Some("{}"))]);
    assert_eq!(accumulator.finish(), Err(IncompleteCall::MissingId(0)));
}

#[test]
fn rejects_call_without_name() {
    let mut accumulator = ToolCallAccumulator::default();
    accumulator.push(&vec![fragment(0, Some("call_1"), None, Some("{}"))]);
    assert_eq!(
        accumulator.finish(),
        Err(IncompleteCall::MissingName("call_1".to_owned()))
    );
}

#[test]
fn ignores_fragments_without_function_payload() {
    let mut accumulator = ToolCallAccumulator::default();
    assert!(accumulator.is_empty());
    accumulator.push(&vec![ToolCallFragment {
        index: 0,
        id: Some("call_1".to_owned()),
        function: None,
    }]);

    assert!(!accumulator.is_empty());
    assert!(accumulator.finish().is_err());
}

#[test]
fn disable_tools_is_noop_without_any_tools() {
    let (messages, tools) = (Vec::new(), Vec::new());
    let mut request = request_builder("gpt-test", &messages, 16, &tools);
    disable_tools(&mut request, &tools);
    assert!(!request.tools_forbidden);
}

#[test]
fn disable_tools_pins_choice_to_none_when_tools_are_present() {
    let registry = builtin();
    let messages = Vec::new();
    let mut request = request_builder("gpt-test", &messages, 16, registry.definitions());
    disable_tools(&mut request, registry.definitions());
    assert!(request.tools_forbidden);
    assert!(request.tools.is_some());
}

fn function_call(id: &str, name: &str, arguments: &str) -> ToolCallRequest {
    ToolCallRequest::Function {
        id: id.to_owned(),
        name: name.to_owned(),
        arguments: arguments.to_owned(),
    }
}

#[test]
fn append_tool_results_pairs_every_call_with_a_tool_message() {
    let mut messages = Vec::new();
    let calls = vec![function_call(
        "call_1",
        calculator::NAME,
        r#"{"operator":"add","first_number":1,"second_number":2}"#,
    )];
    append_tool_results(&mut messages, calls, None, vec!["3".to_owned()]);

    assert_eq!(messages.len(), 2, "assistant message + one tool message");
    assert!(matches!(messages[0], ChatMessage::Assistant { .. }));
    assert_eq!(
        messages[1],
        ChatMessage::Tool { tool_call_id: "call_1".to_owned(), content: "3".to_owned() }
    );
}

fn narrated(text: &str) -> Option<String> {
    let mut messages = Vec::new();
    let calls = vec![function_call("call_1", "nope", "{}")];
    append_tool_results(&mut messages, calls, Some(text.to_owned()), vec!["x".to_owned()]);
    match messages.swap_remove(0) {
        ChatMessage::Assistant { content, .. } => content,
        other => panic!("expected an assistant message, got {other:?}"),
    }
}

#[test]
fn append_tool_results_keeps_narration_alongside_the_tool_call() {
    assert_eq!(narrated("let me check"), Some("let me check".to_owned()));
}

#[test]
fn append_tool_results_drops_blank_narration() {
    assert!(narrated("   ").is_none());
}

#[test]
fn execute_dispatches_function_calls_through_the_registry() {
    let mut registry: ToolRegistry<u32> = ToolRegistry::empty();
    registry
        .add(AnyTool::Builtin {
            tool: Builtin::Calculator,
            parameters: calculator::Calculator.parameters(),
        })
        .unwrap();
    let call = function_call(
        "call_1",
        calculator::NAME,
        r#"{"operator":"add","first_number":2,"second_number":3}"#,
    );
    let Dispatch::Run { name, arguments } = execute(&call) else {
        panic!("a function call is run");
    };
    assert_eq!(registry.dispatch(&name).unwrap().name(), calculator::NAME);
    assert_eq!(arguments, r#"{"operator":"add","first_number":2,"second_number":3}"#);
}

#[test]
fn execute_reports_custom_tool_calls_as_unsupported() {
    let call = ToolCallRequest::Custom {
        id: "call_1".to_owned(),
        name: "shell".to_owned(),
        input: "ls".to_owned(),
    };
    let Dispatch::Reply(result) = execute(&call) else {
        panic!("a custom tool is not run");
    };
    assert!(result.contains("shell"), "got: {result}");
    assert!(result.contains("not supported"), "got: {result}");
}

fn calling() -> Choice {
    Choice {
        content: None,
        tool_calls: vec![function_call("call_1", "calculator", "{}")],
        finish_reason: Some(FinishReason::ToolCalls),
    }
}

#[test]
fn a_loop_finishes_once_its_rounds_are_spent() {
    let registry = builtin();
    let mut state = ToolLoop::new(2, registry.definitions());
    let messages = Vec::new();
    for _ in 0..2 {
        assert!(state.tools_allowed() && !state.budget_exhausted());
        assert!(matches!(state.on_choice(calling()), LoopStep::RunTools(_)));
    }
    let request = state.request("gpt-test", &messages, 16, registry.definitions(), None);
    assert!(request.tools_forbidden);
    let LoopStep::Finish(completion) = state.on_choice(calling()) else {
        panic!("no round is left");
    };
    assert!(completion.budget_exhausted);
    assert_eq!(state.failure_mark(), Some(BudgetExhausted));
    assert!(BudgetExhausted.message().contains("tool round budget"));
}

#[test]
fn an_answer_without_calls_is_final() {
    let tools: Vec<ToolDefinition> = Vec::new();
    let mut state = ToolLoop::new(0, &tools);
    let LoopStep::Finish(completion) = state.on_choice(answer("done")) else {
        panic!("there is nothing to run");
    };
    assert!(!completion.budget_exhausted, "no tool was taken away");
    assert_eq!(completion.choice.content.as_deref(), Some("done"));
}

fn delta(text: Option<&str>, fragments: Option<Vec<ToolCallFragment>>) -> Option<StreamDelta> {
    Some(StreamDelta { content: text.map(str::to_owned), tool_calls: fragments })
}

#[test]
fn a_stream_forwards_its_text_and_collects_its_calls() {
    let registry = builtin();
    let mut state = ToolLoop::new(1, registry.definitions());
    let mut round = StreamRound::new();
    assert_eq!(round.on_chunk(delta(Some("let me "), None)).as_deref(), Some("let me "));
    assert_eq!(round.on_chunk(delta(Some(""), None)), None);
    assert_eq!(round.on_chunk(None), None);
    let call = fragment(0, Some("call_1"), Some("calculator"), Some("{}"));
    assert_eq!(
        round.on_chunk(delta(Some("check"), Some(vec![call]))).as_deref(),
        Some("check")
    );
    let StreamEnd::RunTools { tool_calls, said } = round.finish(&mut state) else {
        panic!("tools were called");
    };
    assert_eq!(said, "let me check");
    assert_eq!(parts(&tool_calls[0]), ("call_1", "calculator", "{}"));

    let mut late = StreamRound::new();
    late.on_chunk(delta(None, Some(vec![fragment(0, Some("c"), Some("n"), None)])));
    assert_eq!(late.finish(&mut state), StreamEnd::Done, "no round is left");
    assert_eq!(StreamRound::new().finish(&mut state), StreamEnd::Done);

    let mut state = ToolLoop::new(1, registry.definitions());
    let mut broken = StreamRound::new();
    broken.on_chunk(delta(None, Some(vec![fragment(3, None, Some("n"), None)])));
    assert_eq!(
        broken.finish(&mut state),
        StreamEnd::Failed(IncompleteCall::MissingId(3))
    );
}

#[test]
fn a_plain_completion_is_its_first_text() {
    assert_eq!(completion_messages("m", None, "p").unwrap().len(), 1);
    assert_eq!(completion_messages("m", None, " "), Err(InvalidParams::EmptyPrompt));
    assert_eq!(completion_text(vec![answer("said"), answer("other")]), Ok("said".to_owned()));
    assert_eq!(completion_text(vec![answer("  ")]), Err(NoText::NoContent));
    assert_eq!(completion_text(Vec::new()), Err(NoText::NoChoices));
    assert_eq!(NoText::NoContent.message(), "No content in response");
    let request = ds_request("deepseek", Some("role"), "prompt", &Json::Object(Vec::new()));
    assert_eq!(
        request.messages[0],
        ChatMessage::System(format!("role\n\n{}", schema_instruction(&Json::Object(Vec::new()))))
    );
    assert_eq!(request.max_tokens, 2048);
    assert_eq!(ds_answer(vec![answer(" "), answer("late")]), Ok(" ".to_owned()));
    assert_eq!(ds_answer(Vec::new()), Err(NoContent));
    assert_eq!(NoContent.message(), "No content in response");
}

#[test]
fn ignores_case_and_surrounding_space() {
    assert!(is_correct("  Paris ", "paris"));
}

#[test]
fn rejects_blank_prediction() {
    assert!(!is_correct("   ", ""));
}

#[test]
fn rejects_different_answer() {
    assert!(!is_correct("Paris", "Lyon"));
}

fn problem() -> GaiaRow {
    GaiaRow {
        task_id: "t1".to_owned(),
        question: "capital of France?".to_owned(),
        level: "1".to_owned(),
        final_answer: "Paris".to_owned(),
    }
}

#[test]
fn a_solution_is_scored_and_a_failure_recorded() {
    let solution = Solution {
        output: GaiaOutput {
            is_solvable: true,
            unsolvable_reason: String::new(),
            final_answer: "paris".to_owned(),
        },
        budget_exhausted: false,
    };
    let scored = to_eval_result(problem(), "m", Ok(solution));
    assert!(scored.correct);
    assert_eq!(scored.prediction.as_deref(), Some("paris"));
    let failed = to_eval_result(problem(), "m", Err("boom".to_owned()));
    assert!(!failed.correct);
    assert_eq!(failed.error.as_deref(), Some("boom"));
    assert_eq!(failed.answer, "Paris");
}

#[test]
fn a_page_of_problems_is_asked_for_within_limits() {
    let token = || Some("t".to_owned());
    let query = rows_query("2023_level1", "validation", 0, 100, token()).unwrap();
    assert_eq!(query.token, "t");
    assert_eq!(rows_query("c", "s", 0, 0, token()), Err(InvalidQuery::Length(0)));
    let long = rows_query("c", "s", 0, 101, token()).unwrap_err();
    assert_eq!(long.message(), "length must be in 1..=100, got 101");
    assert_eq!(rows_query("c", "s", 0, 1, None), Err(InvalidQuery::MissingToken));

    assert_eq!(rows_refusal("c", "s", 200, "200 OK", ""), None);
    let gated = rows_refusal("c", "s", 404, "404 Not Found", "gone").unwrap();
    assert!(gated.contains("gated dataset") && gated.ends_with("Response: gone"));
    assert_eq!(
        rows_refusal("c", "s", 500, "500 Internal Server Error", "oops").unwrap(),
        "HF datasets-server request failed with 500 Internal Server Error. Response: oops"
    );
    assert_eq!(
        unparsable_rows("bad", "body"),
        "Failed to parse HF rows response: bad; body: body"
    );
    let page = HfResponse { rows: vec![HfRow { row: problem() }] };
    assert_eq!(problems(page), vec![problem()]);
}

#[test]
fn a_schema_name_holds_only_what_an_endpoint_accepts() {
    assert_eq!(schema_name("(u8, alloc::string::String)"), "String_");
    assert_eq!(schema_name("[my::Plan; 3]"), "Plan__3_");
    assert_eq!(schema_name("&str"), "_str");
    assert_eq!(schema_name("my_crate::Kebab-Case_9"), "Kebab-Case_9");
    for full in ["()", "dyn a::Trait + Send", "fn(u8) -> u8", "a::B<c::D, e::F>", "a::中"] {
        let name = schema_name(full);
        assert!(
            name.chars().all(|c| c.is_ascii_alphanumeric() || c == '_' || c == '-'),
            "{full} gave {name}"
        );
    }
}

#[test]
fn one_retry_budget_serves_every_call() {
    let attempts = |budget: usize| (0..10).take_while(|n| try_again(*n, budget, true)).count() + 1;
    assert_eq!(attempts(0), 1);
    assert_eq!(attempts(5), 6);
    assert!(!try_again(0, 5, false), "a failure that would only repeat is not tried again");
}

#[test]
fn the_first_incomplete_call_of_a_stream_is_the_one_reported() {
    let registry = builtin();
    let mut state = ToolLoop::new(1, registry.definitions());
    let mut round = StreamRound::new();
    round.on_chunk(delta(
        None,
        Some(vec![
            fragment(7, None, Some("n"), None),
            fragment(2, Some("call_2"), None, None),
            fragment(1, Some("call_1"), Some("n"), None),
        ]),
    ));
    assert_eq!(
        round.finish(&mut state),
        StreamEnd::Failed(IncompleteCall::MissingName("call_2".to_owned()))
    );
}

#[test]
fn a_schema_is_laid_out_for_reading() {
    let texts = [
        "{}",
        "[]",
        "[[],{}]",
        r#"{"a":1,"b":[true,null,"x\"\n"],"c":{"d":{},"e":[[2.5],"中"]}}"#,
        r#""plain""#,
        "-12",
    ];
    for text in texts {
        let value: serde_json::Value = serde_json::from_str(text).unwrap();
        let given = to_json(&value);
        assert_eq!(given.to_text(), value.to_string());
        assert_eq!(given.to_pretty(), serde_json::to_string_pretty(&value).unwrap());
    }
    let schema = Json::Object(vec![("type".to_owned(), Json::text("object"))]);
    assert!(schema_instruction(&schema).ends_with("JSON Schema:\n{\n  \"type\": \"object\"\n}"));
}

fn to_json(value: &serde_json::Value) -> Json {
    match value {
        serde_json::Value::Null => Json::Null,
        serde_json::Value::Bool(b) => Json::Bool(*b),
        serde_json::Value::Number(n) => Json::Number(n.to_string()),
        serde_json::Value::String(s) => Json::Text(s.clone()),
        serde_json::Value::Array(items) => Json::Array(items.iter().map(to_json).collect()),
        serde_json::Value::Object(fields) => {
            Json::Object(fields.iter().map(|(k, v)| (k.clone(), to_json(v))).collect())
        }
    }
}

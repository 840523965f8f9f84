//! The whole pipeline that brings a request within its budget.

use agent::agent::{ContentItem, Event, ExecutionContext, LlmRequest, ToolResultStatus};
use agent::callback::context_optimizer::compaction::Compaction;
use agent::callback::context_optimizer::tokens::{count_request, Ledger};
use agent::callback::context_optimizer::{ContextOptimizer, OptimizerStep, Outcome};
use agent::config;
use agent::json::Json;
use agent::llm::client::ChatMessage;

type Note = fn(&Json) -> String;

fn already_run(_arguments: &Json) -> String {
    "query already run".to_owned()
}

fn optimizer(max_tokens: usize) -> ContextOptimizer<Note> {
    ContextOptimizer::new(max_tokens)
}

fn new_context() -> ExecutionContext {
    ExecutionContext::new("run".to_owned())
}

fn user_msg(text: &str) -> ContentItem {
    ContentItem::Message { role: "user".to_owned(), content: text.to_owned() }
}

fn assistant_msg(text: &str) -> ContentItem {
    ContentItem::Message { role: "assistant".to_owned(), content: text.to_owned() }
}

fn object(name: &str, value: &str) -> Json {
    Json::Object(vec![(name.to_owned(), Json::text(value))])
}

fn read_file_pair(id: &str, path: &str, payload: &str) -> [ContentItem; 2] {
    [
        ContentItem::ToolCall {
            tool_call_id: id.to_owned(),
            name: "read_file".to_owned(),
            arguments: object("file_path", path),
        },
        ContentItem::ToolResult {
            tool_call_id: id.to_owned(),
            name: "read_file".to_owned(),
            status: ToolResultStatus::Success,
            content: payload.to_owned(),
        },
    ]
}

fn request_of(contents: Vec<ContentItem>) -> LlmRequest {
    LlmRequest { instructions: Vec::new(), contents }
}

/// A context whose transcript flattens to exactly `contents`.
fn context_of(contents: Vec<ContentItem>) -> ExecutionContext {
    let mut context = new_context();
    for item in contents {
        context.add_event(Event {
            execution_id: "run".to_owned(),
            author: "test".to_owned(),
            content: vec![item],
        });
    }
    context
}

/// A single long run: one task message, then many rounds of bulky tool traffic.
fn long_run(rounds: usize) -> Vec<ContentItem> {
    let mut contents = vec![user_msg("the original task")];
    for i in 0..rounds {
        contents.extend(read_file_pair(&format!("call_{i}"), "/tmp/x.rs", &"line ".repeat(300)));
        contents.push(assistant_msg("thinking"));
    }
    contents
}

/// A multi-turn chat: several user questions, each with some work behind it.
fn multi_turn(turns: usize) -> Vec<ContentItem> {
    let mut contents = Vec::new();
    for turn in 0..turns {
        contents.push(user_msg(&format!("question {turn}")));
        contents.extend(read_file_pair(&format!("t{turn}"), "/tmp/x.rs", &"line ".repeat(300)));
        contents.push(assistant_msg("answer"));
    }
    contents
}

/// A long run whose bulk is plain assistant messages, so that there is nothing to rewrite.
fn talk(rounds: usize) -> Vec<ContentItem> {
    let mut contents = vec![user_msg("the original task")];
    for i in 0..rounds {
        contents.push(assistant_msg(&format!("step {i} {}", "word ".repeat(120))));
    }
    contents
}

fn assert_paired(items: &[ContentItem]) {
    let mut seen = Vec::new();
    for item in items {
        match item {
            ContentItem::ToolCall { tool_call_id, .. } => seen.push(tool_call_id.as_str()),
            ContentItem::ToolResult { tool_call_id, .. } => assert!(
                seen.contains(&tool_call_id.as_str()),
                "tool result {tool_call_id} was orphaned"
            ),
            ContentItem::Message { .. } => {}
        }
    }
}

fn finish(step: OptimizerStep) -> Outcome {
    match step {
        OptimizerStep::Finished(outcome) => outcome,
        OptimizerStep::Ask(_) => panic!("no model should be asked"),
    }
}

#[test]
fn the_default_budget_follows_the_shared_config() {
    let optimizer = optimizer(config::max_history_tokens(None));
    assert_eq!(optimizer.max_tokens(), config::max_history_tokens(None));
}

#[test]
fn summarization_is_off_by_default() {
    let mut request = request_of(talk(30));
    let step = optimizer(1_000).call(&new_context(), &mut request);
    assert!(
        matches!(step, OptimizerStep::Finished(_)),
        "an extra model call must be opted into, never implicit"
    );
}

#[test]
fn a_request_within_budget_is_untouched() {
    let mut request = request_of(vec![user_msg("hi"), assistant_msg("hello")]);
    let outcome = finish(optimizer(100_000).call(&new_context(), &mut request));

    assert_eq!(outcome, Outcome::AlreadyFits);
    assert_eq!(request.contents.len(), 2);
    assert!(request.instructions.is_empty());
}

#[test]
fn a_single_long_run_is_brought_under_budget() {
    let mut request = request_of(long_run(30));
    assert!(count_request(&request) > 6_000);

    finish(optimizer(6_000).call(&new_context(), &mut request));

    assert!(count_request(&request) <= 6_000, "a single run must be protected too");
}

#[test]
fn a_multi_turn_conversation_is_brought_under_budget() {
    let mut request = request_of(multi_turn(40));
    assert!(count_request(&request) > 6_000);

    finish(optimizer(6_000).call(&new_context(), &mut request));

    assert!(count_request(&request) <= 6_000);
}

#[test]
fn the_task_survives_in_both_shapes() {
    for contents in [long_run(30), multi_turn(12)] {
        let mut request = request_of(contents);
        finish(optimizer(4_000).call(&new_context(), &mut request));

        let ContentItem::Message { role, .. } = &request.contents[0] else {
            panic!("the head should still be a message");
        };
        assert_eq!(role, "user", "the opening task must be pinned");
    }
}

#[test]
fn structural_validity_is_preserved() {
    let mut request = request_of(long_run(30));
    finish(optimizer(3_000).call(&new_context(), &mut request));
    assert_paired(&request.contents);
}

#[test]
fn compaction_alone_can_be_enough() {
    let mut request = request_of(long_run(6));
    let before = request.contents.len();

    finish(optimizer(2_000).call(&new_context(), &mut request));

    assert_eq!(
        request.contents.len(),
        before,
        "nothing should be dropped when a rewrite suffices"
    );
    assert!(count_request(&request) <= 2_000);
}

#[test]
fn a_rewrite_that_suffices_ends_the_pipeline() {
    let mut request = request_of(long_run(6));
    let outcome = finish(optimizer(1_200).call(&new_context(), &mut request));
    assert_eq!(outcome, Outcome::Compacted);
    assert_eq!(request.contents.len(), 19);
    assert!(count_request(&request) <= 1_200);
}

#[test]
fn eviction_alone_still_converges() {
    let mut request = request_of(long_run(30));
    finish(optimizer(5_000).without_compaction().call(&new_context(), &mut request));
    assert!(count_request(&request) <= 5_000);
}

#[test]
fn the_system_prompt_competes_with_the_conversation() {
    let mut request = request_of(long_run(20));
    request.push_instruction("word ".repeat(400));

    finish(optimizer(4_000).call(&new_context(), &mut request));

    assert!(count_request(&request) <= 4_000);
}

#[test]
fn keep_head_controls_whether_the_opening_message_survives() {
    let opening = |request: &LlmRequest| match &request.contents[0] {
        ContentItem::Message { content, .. } => Some(content.clone()),
        _ => None,
    };

    let mut pinned = request_of(multi_turn(40));
    finish(optimizer(3_000).without_compaction().call(&new_context(), &mut pinned));

    let mut unpinned = request_of(multi_turn(40));
    finish(
        optimizer(3_000)
            .without_compaction()
            .with_keep_head(0)
            .call(&new_context(), &mut unpinned),
    );

    assert_eq!(
        opening(&pinned).as_deref(),
        Some("question 0"),
        "keep_head = 1 must pin the opening message"
    );
    assert_ne!(
        opening(&unpinned).as_deref(),
        Some("question 0"),
        "keep_head = 0 must let the oldest turn fall away"
    );
}

#[test]
fn the_recent_floor_outranks_the_budget() {
    let mut request = request_of(long_run(30));

    let outcome = finish(
        optimizer(10)
            .without_compaction()
            .with_keep_recent_min(8)
            .call(&new_context(), &mut request),
    );

    assert!(matches!(outcome, Outcome::Evicted { over: true, .. }));
    assert!(
        request.contents.len() >= 8,
        "the floor on recent context must survive an impossible budget"
    );
    assert!(
        count_request(&request) > 10,
        "this is the documented case where the budget cannot be met"
    );
}

#[test]
fn a_custom_compaction_registry_is_honored() {
    let mut contents = vec![user_msg("the original task")];
    for i in 0..20 {
        contents.push(ContentItem::ToolCall {
            tool_call_id: format!("q{i}"),
            name: "run_query".to_owned(),
            arguments: object("sql", "select 1"),
        });
        contents.push(ContentItem::ToolResult {
            tool_call_id: format!("q{i}"),
            name: "run_query".to_owned(),
            status: ToolResultStatus::Success,
            content: "row ".repeat(300),
        });
    }
    let mut request = request_of(contents);
    let before = request.contents.len();

    finish(
        optimizer(3_000)
            .with_compaction(Compaction::empty(4).with_tool("run_query".to_owned(), already_run as Note))
            .call(&new_context(), &mut request),
    );

    assert_eq!(
        request.contents.len(),
        before,
        "a registered tool means the rewrite is enough on its own"
    );
    assert!(count_request(&request) <= 3_000);
}

#[test]
fn the_running_total_matches_a_count_from_scratch() {
    for budget in [1_500, 3_000, 6_000] {
        let mut request = request_of(long_run(30));
        finish(optimizer(budget).call(&new_context(), &mut request));

        let ledger = Ledger::new(&request);
        assert_eq!(
            ledger.total(),
            count_request(&request),
            "the pipeline's accounting must survive every stage"
        );
    }
}

#[test]
fn the_summarizer_is_shown_the_real_tool_output_not_a_compaction_note() {
    let contents = || {
        let mut contents = vec![user_msg("audit every module")];
        contents.extend(read_file_pair(
            "c0",
            "src/auth.rs",
            "the token is never validated — this is the finding",
        ));
        contents.push(assistant_msg("noted"));
        contents.push(assistant_msg("continuing"));
        contents
    };
    let context = context_of(contents());
    let mut request = request_of(contents());

    // Run the full pipeline, so compaction really does get to the results first.
    let mut optimizer = optimizer(1).with_summarization("gpt-test".to_owned(), 2);
    let OptimizerStep::Ask(pending) = optimizer.call(&context, &mut request) else {
        panic!("a recap should be asked for");
    };

    let ChatMessage::User(sent) = &pending.task().messages()[1] else {
        panic!("the material is sent as data");
    };
    assert!(
        sent.contains("the token is never validated"),
        "the recap must be built from the findings, got: {sent}"
    );
    assert!(
        !sent.contains("was already read"),
        "summarizing compaction's own placeholder defeats the stage"
    );
}

#[test]
fn all_three_stages_together_reach_the_budget() {
    let contents = || {
        let mut contents = vec![user_msg("the original task")];
        for i in 0..25 {
            contents.extend(read_file_pair(
                &format!("c{i}"),
                &format!("src/module_{i}.rs"),
                &"pub fn work() {}\n".repeat(60),
            ));
            contents.push(assistant_msg(&format!("step {i} {}", "word ".repeat(80))));
        }
        contents
    };
    let context = context_of(contents());
    let mut request = request_of(contents());
    assert!(count_request(&request) > 4_000);

    let mut optimizer = optimizer(4_000).with_summarization("gpt-test".to_owned(), 4);
    if let OptimizerStep::Ask(pending) = optimizer.call(&context, &mut request) {
        let recap = "a short recap of everything that came before [call 1]".to_owned();
        optimizer.resume(pending, Some(recap), &mut request);
    }

    assert!(
        count_request(&request) <= 4_000,
        "the pipeline as a whole has to converge"
    );
    assert_paired(&request.contents);
}

#[test]
fn a_failing_summarizer_falls_through_to_eviction() {
    for reply in [None, Some(String::new())] {
        let context = context_of(talk(30));
        let mut request = request_of(talk(30));

        let mut optimizer = optimizer(2_000).with_summarization("gpt-test".to_owned(), 2);
        let OptimizerStep::Ask(pending) = optimizer.call(&context, &mut request) else {
            panic!("a recap should be asked for");
        };
        let outcome = optimizer.resume(pending, reply, &mut request);

        assert!(matches!(outcome, Outcome::Evicted { over: false, .. }));
        assert!(
            count_request(&request) <= 2_000,
            "eviction is the stage that guarantees convergence when summarization cannot"
        );
    }
}

#[test]
fn a_stretch_that_was_summarized_is_not_sent_again() {
    let mut optimizer = optimizer(400).without_compaction().with_summarization("m".to_owned(), 2);
    let context = context_of(talk(10));
    let mut request = request_of(talk(10));
    let OptimizerStep::Ask(pending) = optimizer.call(&context, &mut request) else {
        panic!("a recap is needed");
    };
    optimizer.resume(pending, Some("recap so far".to_owned()), &mut request);

    let mut again = request_of(talk(10));
    let outcome = finish(optimizer.call(&context, &mut again));
    assert!(again.instructions.last().unwrap().ends_with("recap so far"), "{outcome:?}");

    let grown = context_of(talk(12));
    let mut later = request_of(talk(12));
    let OptimizerStep::Ask(pending) = optimizer.call(&grown, &mut later) else {
        panic!("two more items have to be summarized");
    };
    let ChatMessage::User(material) = &pending.task().messages()[1] else {
        panic!("the material comes as data");
    };
    assert!(material.contains("recap so far"));
    assert!(!material.contains("step 7 ") && material.contains("step 8 "), "{material}");
}

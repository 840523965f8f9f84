//! Rewriting spent tool results.

use agent::agent::{ContentItem, LlmRequest, ToolResultStatus};
use agent::callback::context_optimizer::compaction::{argument, preview, Compaction};
use agent::callback::context_optimizer::tokens::count_request;
use agent::json::Json;
use agent::tools::{calculator, file_delete, file_list, file_read, file_upzip, read_image, web_search};

type Notes = Compaction<fn(&Json) -> String>;

/// Describes a query by the text it ran.
fn query_note(arguments: &Json) -> String {
    format!("Query '{}' was already run.", argument(arguments, "sql"))
}

fn builtin(keep_recent: usize) -> Notes {
    Compaction::new(keep_recent)
}

fn object(name: &str, value: &str) -> Json {
    Json::Object(vec![(name.to_owned(), Json::text(value))])
}

fn call(id: &str, name: &str, arguments: Json) -> ContentItem {
    ContentItem::ToolCall { tool_call_id: id.to_owned(), name: name.to_owned(), arguments }
}

fn result(id: &str, name: &str, content: &str) -> ContentItem {
    ContentItem::ToolResult {
        tool_call_id: id.to_owned(),
        name: name.to_owned(),
        status: ToolResultStatus::Success,
        content: content.to_owned(),
    }
}

fn request_of(contents: Vec<ContentItem>) -> LlmRequest {
    LlmRequest { instructions: Vec::new(), contents }
}

fn result_contents(request: &LlmRequest) -> Vec<&str> {
    request
        .contents
        .iter()
        .filter_map(|item| match item {
            ContentItem::ToolResult { content, .. } => Some(content.as_str()),
            _ => None,
        })
        .collect()
}

/// One read per round.
fn reads(rounds: usize) -> Vec<ContentItem> {
    let mut contents = Vec::new();
    for i in 0..rounds {
        contents.push(call(
            &format!("call_{i}"),
            file_read::NAME,
            object("file_path", &format!("src/module_{i}.rs")),
        ));
        contents.push(result(&format!("call_{i}"), file_read::NAME, &"line ".repeat(300)));
    }
    contents
}

#[test]
fn a_spent_read_is_replaced_by_a_note_naming_the_file() {
    let mut request = request_of(reads(4));
    builtin(0).apply(&mut request);

    let first = result_contents(&request)[0];
    assert!(first.contains("src/module_0.rs"), "got: {first}");
    assert!(
        first.contains(file_read::NAME),
        "the note must say how to get the real output back, got: {first}"
    );
}

#[test]
fn a_spent_search_is_replaced_by_a_note_naming_the_query() {
    let mut request = request_of(vec![
        call("s0", web_search::NAME, object("query", "rust async book")),
        result("s0", web_search::NAME, &"hit ".repeat(300)),
    ]);
    builtin(0).apply(&mut request);

    let first = result_contents(&request)[0];
    assert!(first.contains("rust async book"), "got: {first}");
}

#[test]
fn a_spent_listing_is_replaced_by_a_note_naming_the_directory() {
    let mut request = request_of(vec![
        call("l0", file_list::NAME, object("path", "src/agent")),
        result("l0", file_list::NAME, &"entry\n".repeat(300)),
    ]);
    builtin(0).apply(&mut request);

    let first = result_contents(&request)[0];
    assert!(first.contains("src/agent"), "got: {first}");
    assert!(
        first.contains(file_list::NAME),
        "the note must say how to get the real output back, got: {first}"
    );
}

#[test]
fn a_listing_without_an_explicit_path_names_the_default_directory() {
    let mut request = request_of(vec![
        call("l0", file_list::NAME, Json::Object(Vec::new())),
        result("l0", file_list::NAME, &"entry\n".repeat(300)),
    ]);
    builtin(0).apply(&mut request);

    let first = result_contents(&request)[0];
    assert!(first.contains(&format!("'{}'", file_list::DEFAULT_PATH)), "got: {first}");
    assert!(!first.contains("unknown"), "got: {first}");
}

#[test]
fn compaction_shrinks_the_request_without_dropping_anything() {
    let mut request = request_of(reads(6));
    let before_items = request.contents.len();
    let before_tokens = count_request(&request);

    builtin(2).apply(&mut request);

    assert_eq!(
        request.contents.len(),
        before_items,
        "rewriting in place must not add or remove items"
    );
    assert!(count_request(&request) < before_tokens);
}

#[test]
fn the_recent_tail_is_left_whole() {
    let mut request = request_of(reads(4));
    builtin(2).apply(&mut request);

    let results = result_contents(&request);
    let last = results.last().expect("a result should exist");
    assert!(
        last.starts_with("line "),
        "the newest result must survive verbatim, got: {last}"
    );
}

#[test]
fn an_unknown_tool_is_left_alone() {
    let mut request = request_of(vec![
        call("d0", "delete_file", object("file_path", "/tmp/x")),
        result("d0", "delete_file", "deleted /tmp/x"),
        result("orphan", "some_other_tool", "payload"),
    ]);
    builtin(0).apply(&mut request);

    assert_eq!(result_contents(&request), ["deleted /tmp/x", "payload"]);
}

#[test]
fn the_default_registry_excludes_the_unsafe_and_the_expensive() {
    for name in [file_delete::NAME, file_upzip::NAME, read_image::NAME, calculator::NAME] {
        let mut request = request_of(vec![
            call("c0", name, Json::Object(Vec::new())),
            result("c0", name, &"payload ".repeat(300)),
        ]);
        assert!(
            builtin(0).apply(&mut request).is_empty(),
            "`{name}` must not be compacted by default"
        );
    }
}

#[test]
fn applying_twice_is_idempotent() {
    let mut once = request_of(reads(4));
    builtin(1).apply(&mut once);
    let mut twice = request_of(reads(4));
    builtin(1).apply(&mut twice);
    builtin(1).apply(&mut twice);

    assert_eq!(result_contents(&once), result_contents(&twice));
}

#[test]
fn apply_reports_which_items_it_rewrote() {
    let mut request = request_of(reads(4));
    let rewritten = builtin(2).apply(&mut request);
    assert_eq!(rewritten, vec![1, 3, 5]);

    assert!(
        builtin(2).apply(&mut request).is_empty(),
        "an idempotent pass must not report phantom changes"
    );
}

#[test]
fn a_registered_custom_tool_is_compacted() {
    let mut request = request_of(vec![
        call("q0", "run_query", object("sql", "select 1")),
        result("q0", "run_query", &"row ".repeat(300)),
    ]);

    Compaction::empty(0).with_tool("run_query".to_owned(), query_note).apply(&mut request);

    assert_eq!(result_contents(&request), ["Query 'select 1' was already run."]);
}

#[test]
fn an_empty_registry_compacts_nothing() {
    let mut request = request_of(reads(2));
    let before =
        result_contents(&request).into_iter().map(str::to_owned).collect::<Vec<_>>();

    let nothing: Notes = Compaction::empty(0);
    assert!(nothing.apply(&mut request).is_empty());
    assert_eq!(result_contents(&request), before);
}

#[test]
fn a_result_without_its_call_falls_back_to_unknown() {
    let mut request = request_of(vec![
        result("ghost", file_read::NAME, &"line ".repeat(300)),
        result("ghost2", file_read::NAME, "tail"),
    ]);
    builtin(1).apply(&mut request);

    assert!(result_contents(&request)[0].contains("unknown"));
}

#[test]
fn an_empty_request_is_handled() {
    let mut request = request_of(Vec::new());
    assert!(builtin(4).apply(&mut request).is_empty());
    assert!(request.contents.is_empty());
}

#[test]
fn a_keep_recent_larger_than_the_conversation_protects_everything() {
    let mut request = request_of(reads(2));
    let before =
        result_contents(&request).into_iter().map(str::to_owned).collect::<Vec<_>>();

    builtin(999).apply(&mut request);

    assert_eq!(result_contents(&request), before);
}

#[test]
fn an_enormous_argument_is_capped_rather_than_echoed_whole() {
    let huge = "q".repeat(50_000);
    let mut request = request_of(vec![
        call("s0", web_search::NAME, object("query", &huge)),
        result("s0", web_search::NAME, &"hit ".repeat(300)),
    ]);
    let before = count_request(&request);

    builtin(0).apply(&mut request);

    let note = result_contents(&request)[0];
    assert!(note.chars().count() < 400, "the note must stay a note");
    assert!(note.contains('…'), "a cut must be visible, got: {note}");
    assert!(
        count_request(&request) < before,
        "compaction that grows the request is worse than not running at all"
    );
}

#[test]
fn a_multi_byte_argument_is_cut_on_a_character_boundary() {
    let mut request = request_of(vec![
        call("s0", web_search::NAME, object("query", &"中".repeat(50_000))),
        result("s0", web_search::NAME, &"hit ".repeat(300)),
    ]);

    builtin(0).apply(&mut request);

    assert!(result_contents(&request)[0].contains('…'));
}

#[test]
fn the_cap_applies_to_a_custom_describer_too() {
    let mut request = request_of(vec![
        call("q0", "run_query", object("sql", &"x".repeat(10_000))),
        result("q0", "run_query", &"row ".repeat(300)),
    ]);

    Compaction::empty(0).with_tool("run_query".to_owned(), query_note).apply(&mut request);

    assert!(result_contents(&request)[0].chars().count() < 400);
}

#[test]
fn a_short_argument_is_shown_whole() {
    assert_eq!(preview("short"), "short");
    assert_eq!(preview(&"x".repeat(201)), format!("{}…", "x".repeat(200)));
    assert_eq!(argument(&Json::Null, "path"), "unknown");
    let listed = builtin(7);
    assert_eq!(listed.keep_recent(), 7);
}

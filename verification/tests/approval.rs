//! The console prompt before a dangerous tool.

use agent::agent::{ToolCallView, ToolResultStatus};
use agent::callback::approval::ApprovalCallback;
use agent::json::Json;

fn callback() -> ApprovalCallback {
    ApprovalCallback::new(vec!["delete_file".to_owned()])
}

fn call<'a>(name: &'a str, arguments: &'a Json) -> ToolCallView<'a> {
    ToolCallView { tool_call_id: "call-1", name, arguments, raw_arguments: "{\"path\": " }
}

#[test]
fn an_unlisted_tool_runs_unasked() {
    let args = Json::Null;
    assert_eq!(callback().begin(&call("read_file", &args)), None);
    assert_eq!(callback().conclude(&call("read_file", &args), None), None);
}

#[test]
fn the_prompt_shows_what_the_model_wrote() {
    let args = Json::Null;
    let prompt = callback().begin(&call("delete_file", &args)).unwrap();
    assert!(prompt.contains("delete_file"));
    assert!(prompt.contains("{\"path\": "));
}

#[test]
fn only_a_yes_lets_a_listed_tool_run() {
    let args = Json::Null;
    let call = call("delete_file", &args);
    for answer in ["y", "Y", " y\n"] {
        assert_eq!(callback().conclude(&call, Some(answer)), None);
    }
    for answer in [None, Some(""), Some("n"), Some("yes"), Some("y y")] {
        assert_eq!(
            callback().conclude(&call, answer),
            Some((
                ToolResultStatus::Error,
                "User denied execution of delete_file".to_owned()
            ))
        );
    }
}

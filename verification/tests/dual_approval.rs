//! Who is asked about a tool call, and what their answer does.

use std::cell::Cell;
use std::cmp::Ordering;
use std::rc::Rc;
use std::time::Duration;

use agent::agent::{ExecutionContext, ToolCallDecision, ToolCallView, ToolResultStatus};
use agent::callback::dual_approval::{
    acknowledgement, compare_by_age, delivered, has_decided, parse_approval_answer, terminal_prompt,
    unreadable_arguments,
    ApprovalMeta, ApprovalOutcome, ApprovalRegistry, ApprovalRule, ApprovalStep,
    DualApprovalCallback, Undelivered, UnreadableArguments, WhenUnanswered,
};
use agent::json::Json;
use tokio::sync::oneshot;

type Gate = Box<dyn Fn(&ToolCallView<'_>) -> bool>;
type Format = Box<dyn Fn(&ToolCallView<'_>) -> String>;
type Callback = DualApprovalCallback<Gate, Format>;

fn to_json(value: &serde_json::Value) -> Json {
    match value {
        serde_json::Value::Null => Json::Null,
        serde_json::Value::Bool(b) => Json::Bool(*b),
        serde_json::Value::Number(n) => Json::Number(n.to_string()),
        serde_json::Value::String(s) => Json::Text(s.clone()),
        serde_json::Value::Array(items) => Json::Array(items.iter().map(to_json).collect()),
        serde_json::Value::Object(fields) => {
            Json::Object(fields.iter().map(|(k, v)| (k.clone(), to_json(v))).collect())
        }
    }
}

fn path(value: &str) -> Json {
    Json::Object(vec![("path".to_owned(), Json::text(value))])
}

fn view<'a>(name: &'a str, arguments: &'a Json) -> ToolCallView<'a> {
    raw_view(name, arguments, "{}")
}

fn raw_view<'a>(name: &'a str, arguments: &'a Json, raw_arguments: &'a str) -> ToolCallView<'a> {
    ToolCallView { tool_call_id: "call-1", name, arguments, raw_arguments }
}

fn run() -> ExecutionContext {
    ExecutionContext::new("run".to_owned())
}

fn gating(tools: &[&str]) -> Callback {
    DualApprovalCallback::new(
        tools.iter().map(|tool| (*tool).to_owned()).collect(),
        Duration::from_secs(30),
    )
}

fn approval() -> Callback {
    gating(&["delete_file"])
}

fn suspending() -> Callback {
    approval().when_unanswered(WhenUnanswered::Suspend)
}

/// Put a call to the callback, with `answer` as what comes of a prompt if one is raised.
/// Says whether one was.
fn put(
    callback: &mut Callback,
    context: &ExecutionContext,
    call: &ToolCallView<'_>,
    answer: Option<ApprovalOutcome>,
) -> (bool, ToolCallDecision) {
    match callback.begin(context, call) {
        ApprovalStep::Decided(decision) => (false, decision),
        ApprovalStep::Ask => (true, callback.conclude(context, call, answer)),
    }
}

/// Whether a call is put to a human at all.
fn gated(callback: &mut Callback, call: &ToolCallView<'_>) -> bool {
    let (prompted, decision) =
        put(callback, &run(), call, Some(ApprovalOutcome::once(false)));
    assert_eq!(prompted, !decision.is_proceed());
    prompted
}

fn answer_once(
    callback: &mut Callback,
    context: &ExecutionContext,
    call: &ToolCallView<'_>,
    outcome: ApprovalOutcome,
) -> bool {
    let (prompted, decision) = put(callback, context, call, Some(outcome));
    assert!(prompted, "a prompt should have been raised");
    decision.is_proceed()
}

fn call_without_a_front_end(
    callback: &mut Callback,
    context: &ExecutionContext,
    call: &ToolCallView<'_>,
) -> ToolCallDecision {
    put(callback, context, call, None).1
}

fn denial_content(decision: ToolCallDecision) -> String {
    match decision {
        ToolCallDecision::ShortCircuit(ToolResultStatus::Error, content) => content,
        other => panic!("expected a refusal, got {other:?}"),
    }
}

fn denial_text(
    callback: &mut Callback,
    context: &ExecutionContext,
    call: &ToolCallView<'_>,
    outcome: ApprovalOutcome,
) -> String {
    denial_content(put(callback, context, call, Some(outcome)).1)
}

fn conversation(scope: &str, id: &str) -> ExecutionContext {
    let mut context = run();
    context.conversation_id = Some(id.to_owned());
    context.conversation_scope = Some(scope.to_owned());
    context
}

fn because(outcome: ApprovalOutcome, reason: &str) -> ApprovalOutcome {
    outcome.with_reason(reason.to_owned())
}

#[test]
fn lets_a_tool_outside_the_dangerous_list_through_untouched() {
    let args = path("notes.txt");
    let (prompted, decision) = put(&mut approval(), &run(), &view("read_file", &args), None);
    assert!(!prompted && decision.is_proceed());
}

#[test]
fn matches_dangerous_tool_names_exactly_not_as_a_substring() {
    let args = Json::Object(Vec::new());
    let (_, decision) = put(&mut gating(&["delete"]), &run(), &view("delete_file", &args), None);
    assert!(decision.is_proceed());
}

fn outside_tmp(call: &ToolCallView<'_>) -> bool {
    !call.arguments.get_str("path").is_some_and(|path| path.starts_with("/tmp/"))
}

#[test]
fn a_predicate_gates_only_the_calls_it_selects() {
    let gate: Gate = Box::new(outside_tmp);
    let mut approval =
        gating(&[]).with_rule("delete_file".to_owned(), ApprovalRule::when(gate));

    let inside_tmp = path("/tmp/scratch");
    assert!(
        !gated(&mut approval, &view("delete_file", &inside_tmp)),
        "a path the predicate accepts must not be gated"
    );
    let outside_tmp = path("/etc/passwd");
    assert!(
        gated(&mut approval, &view("delete_file", &outside_tmp)),
        "a path the predicate rejects must be gated"
    );
}

#[test]
fn with_rule_replaces_an_always_rule_from_new() {
    let gate: Gate = Box::new(|_| false);
    let mut approval =
        approval().with_rule("delete_file".to_owned(), ApprovalRule::when(gate));
    let args = path("notes.txt");
    assert!(
        !gated(&mut approval, &view("delete_file", &args)),
        "the later rule is the one in force"
    );
}

#[test]
fn a_rule_applies_only_to_its_own_tool() {
    let gate: Gate = Box::new(|_| true);
    let mut approval =
        gating(&[]).with_rule("delete_file".to_owned(), ApprovalRule::when(gate));
    let args = path("notes.txt");
    assert!(!gated(&mut approval, &view("read_file", &args)));
}

fn counting(calls: &Rc<Cell<usize>>) -> Callback {
    let counter = Rc::clone(calls);
    let gate: Gate = Box::new(move |_| {
        counter.set(counter.get() + 1);
        false
    });
    gating(&[]).with_rule("delete_file".to_owned(), ApprovalRule::when(gate))
}

#[test]
fn unreadable_arguments_are_gated_without_consulting_the_predicate() {
    let cases = [
        ("nothing at all", ""),
        ("whitespace only", "   "),
        ("malformed json", "{\"path\": "),
        ("a bare null", "null"),
        ("an array", "[1, 2]"),
        ("a scalar", "42"),
        ("nan", "{\"n\": NaN}"),
        ("infinity", "{\"n\": Infinity}"),
        ("negative infinity", "{\"n\": -Infinity}"),
    ];

    for (label, raw) in cases {
        let calls = Rc::new(Cell::new(0));
        let mut approval = counting(&calls);
        let arguments = match serde_json::from_str::<serde_json::Value>(raw) {
            Ok(value) => to_json(&value),
            Err(_) => Json::Null,
        };

        assert!(
            gated(&mut approval, &raw_view("delete_file", &arguments, raw)),
            "{label}: an unreadable payload must be gated"
        );
        assert_eq!(calls.get(), 0, "{label}: the predicate must not be consulted at all");
    }
}

#[test]
fn readable_arguments_reach_the_predicate() {
    let calls = Rc::new(Cell::new(0));
    let mut approval = counting(&calls);
    let args = path("notes.txt");
    assert!(!gated(
        &mut approval,
        &raw_view("delete_file", &args, r#"{"path":"notes.txt"}"#)
    ));
    assert_eq!(calls.get(), 1);
}

#[test]
fn an_always_rule_gates_regardless_of_the_payload() {
    let args = Json::Null;
    assert!(gated(&mut approval(), &raw_view("delete_file", &args, "")));
}

#[test]
fn unreadable_arguments_classifies_each_shape() {
    let null = Json::Null;
    let object = path("notes.txt");
    let array =
        Json::Array(vec![Json::Number("1".to_owned()), Json::Number("2".to_owned())]);

    assert_eq!(
        unreadable_arguments(&raw_view("t", &null, "")),
        Some(UnreadableArguments::Empty)
    );
    assert_eq!(
        unreadable_arguments(&raw_view("t", &null, "  \n ")),
        Some(UnreadableArguments::Empty),
        "whitespace is as empty as nothing"
    );
    assert_eq!(
        unreadable_arguments(&raw_view("t", &null, "{\"path\": ")),
        Some(UnreadableArguments::Unparsable)
    );
    assert_eq!(
        unreadable_arguments(&raw_view("t", &null, "null")),
        Some(UnreadableArguments::NotAnObject),
        "a genuine `null` parsed fine; it is just not an object"
    );
    assert_eq!(
        unreadable_arguments(&raw_view("t", &array, "[1, 2]")),
        Some(UnreadableArguments::NotAnObject)
    );
    assert_eq!(
        unreadable_arguments(&raw_view("t", &object, r#"{"path":"notes.txt"}"#)),
        None,
        "a plain object is exactly what a predicate wants"
    );
}

#[test]
fn a_genuine_null_is_distinguished_from_a_parse_failure() {
    let null = Json::Null;
    assert_eq!(
        unreadable_arguments(&raw_view("t", &null, "null")),
        Some(UnreadableArguments::NotAnObject)
    );
    assert_eq!(
        unreadable_arguments(&raw_view("t", &null, "{oops")),
        Some(UnreadableArguments::Unparsable)
    );
}

/// Raise a prompt on a registry, let `respond` act on it, and conclude with what arrived.
fn through_a_registry(respond: impl Fn(&mut ApprovalRegistry)) -> ToolCallDecision {
    let mut approval = approval();
    let mut registry = ApprovalRegistry::new();
    let args = path("notes.txt");
    let call = view("delete_file", &args);
    assert_eq!(approval.begin(&run(), &call), ApprovalStep::Ask);
    let (tx, mut rx) = oneshot::channel();
    let meta = ApprovalMeta::for_call(&call, 0);
    assert_eq!(meta.tool, "delete_file");
    registry.register(meta, tx);
    respond(&mut registry);
    approval.conclude(&run(), &call, rx.try_recv().ok())
}

#[test]
fn session_channel_approves_when_a_front_end_says_yes() {
    let decision = through_a_registry(|registry| {
        assert!(registry.resolve("call-1", ApprovalOutcome::once(true)));
    });
    assert!(
        matches!(decision, ToolCallDecision::Proceed),
        "approved calls are not short-circuited"
    );
}

#[test]
fn session_channel_denies_when_a_front_end_says_no() {
    let decision = through_a_registry(|registry| {
        assert!(registry.resolve("call-1", ApprovalOutcome::once(false)));
    });
    assert!(matches!(decision, ToolCallDecision::ShortCircuit(ToolResultStatus::Error, _)));
}

#[test]
fn session_channel_denies_when_nothing_is_listening() {
    let args = Json::Object(Vec::new());
    let decision =
        call_without_a_front_end(&mut approval(), &run(), &view("delete_file", &args));
    assert!(matches!(decision, ToolCallDecision::ShortCircuit(ToolResultStatus::Error, _)));
}

#[test]
fn session_channel_denies_when_the_decision_is_dropped_unused() {
    let decision = through_a_registry(|registry| registry.discard(&vec!["call-1".to_owned()]));
    assert!(matches!(decision, ToolCallDecision::ShortCircuit(ToolResultStatus::Error, _)));
}

#[test]
fn session_channel_denies_once_the_timeout_expires() {
    let mut approval = approval().with_timeout(Duration::from_millis(30));
    assert_eq!(approval.timeout(), Duration::from_millis(30));
    let args = Json::Object(Vec::new());
    let decision = call_without_a_front_end(&mut approval, &run(), &view("delete_file", &args));
    assert!(
        matches!(decision, ToolCallDecision::ShortCircuit(ToolResultStatus::Error, _)),
        "an unanswered approval must deny rather than hang"
    );
}

#[test]
fn another_view_can_resolve_while_the_raising_view_is_still_asking() {
    let decision = through_a_registry(|registry| {
        let id = registry.any_pending().expect("the prompt is on record");
        assert!(
            registry.resolve(&id, ApprovalOutcome::once(false)),
            "the other view decides"
        );
        assert!(
            !registry.resolve(&id, ApprovalOutcome::once(true)),
            "a late answer of the raising view changes nothing"
        );
    });
    assert!(
        matches!(decision, ToolCallDecision::ShortCircuit(ToolResultStatus::Error, _)),
        "a rejection from another view must deny the call"
    );
}

#[test]
fn a_sticky_approval_applies_without_asking_again() {
    let mut approval = approval();
    let context = conversation("local", "s1");
    let args = path("notes.txt");
    let call = view("delete_file", &args);

    assert!(answer_once(&mut approval, &context, &call, ApprovalOutcome::sticky(true)));
    assert!(
        call_without_a_front_end(&mut approval, &context, &call).is_proceed(),
        "a remembered approval must apply without raising a prompt"
    );
}

#[test]
fn a_sticky_rejection_applies_without_asking_again() {
    let mut approval = approval();
    let context = conversation("local", "s1");
    let args = path("notes.txt");
    let call = view("delete_file", &args);

    assert!(!answer_once(&mut approval, &context, &call, ApprovalOutcome::sticky(false)));
    let (prompted, decision) = put(&mut approval, &context, &call, None);
    assert!(
        !prompted
            && matches!(decision, ToolCallDecision::ShortCircuit(ToolResultStatus::Error, _)),
        "a remembered rejection must deny without asking"
    );
}

#[test]
fn a_one_off_answer_is_not_remembered() {
    let mut approval = approval();
    let context = conversation("local", "s1");
    let args = path("notes.txt");
    let call = view("delete_file", &args);

    assert!(answer_once(&mut approval, &context, &call, ApprovalOutcome::once(true)));
    assert!(
        !call_without_a_front_end(&mut approval, &context, &call).is_proceed(),
        "a one-off approval must not carry over to the next call"
    );
}

#[test]
fn a_sticky_answer_covers_only_its_own_tool() {
    let mut approval = gating(&["delete_file", "shell_exec"]);
    let context = conversation("local", "s1");
    let args = path("notes.txt");

    assert!(answer_once(
        &mut approval,
        &context,
        &view("delete_file", &args),
        ApprovalOutcome::sticky(true)
    ));
    assert!(
        !call_without_a_front_end(&mut approval, &context, &view("shell_exec", &args))
            .is_proceed(),
        "the other tool was never decided and must still be gated"
    );
}

#[test]
fn a_sticky_answer_does_not_leak_across_conversations() {
    let mut approval = approval();
    let args = path("notes.txt");
    let call = view("delete_file", &args);

    assert!(answer_once(
        &mut approval,
        &conversation("local", "s1"),
        &call,
        ApprovalOutcome::sticky(true)
    ));
    for (scope, id, why) in [
        ("local", "s2", "a different session in the same scope"),
        ("web", "s1", "the same session id in a different scope"),
    ] {
        assert!(
            !call_without_a_front_end(&mut approval, &conversation(scope, id), &call)
                .is_proceed(),
            "{why} must not inherit the remembered answer"
        );
    }
}

#[test]
fn remembering_a_second_tool_keeps_the_first() {
    let mut approval = gating(&["delete_file", "shell_exec"]);
    let context = conversation("local", "s1");
    let args = path("notes.txt");

    for tool in ["delete_file", "shell_exec"] {
        assert!(answer_once(
            &mut approval,
            &context,
            &view(tool, &args),
            ApprovalOutcome::sticky(true)
        ));
    }
    for tool in ["delete_file", "shell_exec"] {
        assert!(
            call_without_a_front_end(&mut approval, &context, &view(tool, &args)).is_proceed(),
            "{tool}'s remembered answer should have survived the other's"
        );
    }
}

#[test]
fn forgetting_a_conversation_drops_its_remembered_answers() {
    let mut approval = approval();
    let context = conversation("local", "s1");
    let args = path("notes.txt");
    let call = view("delete_file", &args);

    assert!(answer_once(&mut approval, &context, &call, ApprovalOutcome::sticky(true)));
    approval.forget_sticky(context.continuity_key());
    assert!(
        !call_without_a_front_end(&mut approval, &context, &call).is_proceed(),
        "after forgetting, the tool must be gated again"
    );
}

#[test]
fn a_timeout_is_never_remembered() {
    let mut approval = approval().with_timeout(Duration::from_millis(30));
    let context = conversation("local", "s1");
    let args = path("notes.txt");
    let call = view("delete_file", &args);

    let timed_out = call_without_a_front_end(&mut approval, &context, &call);
    assert!(matches!(timed_out, ToolCallDecision::ShortCircuit(ToolResultStatus::Error, _)));
    let (prompted, _) = put(&mut approval, &context, &call, None);
    assert!(prompted, "a timeout must not be remembered as a decision");
}

#[test]
fn approval_answers_are_parsed_from_their_accepted_spellings() {
    for line in ["y", "Y", " yes ", "/approve"] {
        assert_eq!(parse_approval_answer(line), Some(ApprovalOutcome::once(true)));
    }
    for line in ["n", "no", "/deny"] {
        assert_eq!(parse_approval_answer(line), Some(ApprovalOutcome::once(false)));
    }
    for line in ["a", "always", "/always"] {
        assert_eq!(parse_approval_answer(line), Some(ApprovalOutcome::sticky(true)));
    }
    for line in ["d", "never", "/never"] {
        assert_eq!(parse_approval_answer(line), Some(ApprovalOutcome::sticky(false)));
    }
}

#[test]
fn an_unrecognized_line_is_not_an_answer() {
    for line in ["", "  ", "maybe", "what is 2+2?", "approve", "yep"] {
        assert_eq!(
            parse_approval_answer(line),
            None,
            "{line:?} must not be read as a decision"
        );
    }
}

#[test]
fn a_refusal_without_a_reason_records_the_generic_message() {
    let args = path("notes.txt");
    let text = denial_text(
        &mut approval(),
        &conversation("local", "s1"),
        &view("delete_file", &args),
        ApprovalOutcome::once(false),
    );
    assert_eq!(text, "User denied execution of delete_file");
}

#[test]
fn a_reason_given_at_the_prompt_is_what_gets_recorded() {
    let args = path("notes.txt");
    let text = denial_text(
        &mut approval(),
        &conversation("local", "s1"),
        &view("delete_file", &args),
        because(ApprovalOutcome::once(false), "scratch files live under /tmp"),
    );
    assert_eq!(
        text, "User denied execution of delete_file: scratch files live under /tmp",
        "the reason is attributed to the user, not left to look like tool output"
    );
}

fn formatting(format: Format) -> Callback {
    approval().with_rejection_formatter(format)
}

#[test]
fn the_run_wide_formatter_covers_refusals_with_no_reason() {
    let mut approval = formatting(Box::new(|call: &ToolCallView<'_>| {
        format!("{} is disabled in this workspace", call.name)
    }));
    let args = path("notes.txt");
    let text = denial_text(
        &mut approval,
        &conversation("local", "s1"),
        &view("delete_file", &args),
        ApprovalOutcome::once(false),
    );
    assert_eq!(
        text,
        "User denied execution of delete_file: delete_file is disabled in this workspace"
    );
}

#[test]
fn a_per_call_reason_outranks_the_formatter() {
    let mut approval = formatting(Box::new(|_| "run-wide default".to_owned()));
    let args = path("notes.txt");
    let text = denial_text(
        &mut approval,
        &conversation("local", "s1"),
        &view("delete_file", &args),
        because(ApprovalOutcome::once(false), "this one specifically"),
    );
    assert_eq!(text, "User denied execution of delete_file: this one specifically");
}

#[test]
fn a_blank_reason_falls_through_to_the_formatter() {
    let mut approval = formatting(Box::new(|_| "run-wide default".to_owned()));
    let args = path("notes.txt");
    for blank in ["", "   ", "\n\t "] {
        let text = denial_text(
            &mut approval,
            &conversation("local", "s1"),
            &view("delete_file", &args),
            because(ApprovalOutcome::once(false), blank),
        );
        assert_eq!(
            text, "User denied execution of delete_file: run-wide default",
            "{blank:?} should not be recorded"
        );
    }
}

#[test]
fn the_formatter_covers_a_refusal_nobody_answered() {
    let mut approval = formatting(Box::new(|_| "nobody was there to ask".to_owned()));
    let args = path("notes.txt");
    let result = call_without_a_front_end(
        &mut approval,
        &conversation("local", "s1"),
        &view("delete_file", &args),
    );
    assert_eq!(
        denial_content(result),
        "User denied execution of delete_file: nobody was there to ask"
    );
}

#[test]
fn a_remembered_refusal_keeps_its_reason() {
    let mut approval = approval();
    let context = conversation("local", "s1");
    let args = path("notes.txt");
    let call = view("delete_file", &args);

    let first = denial_text(
        &mut approval,
        &context,
        &call,
        because(ApprovalOutcome::sticky(false), "production data, never delete"),
    );
    assert_eq!(first, "User denied execution of delete_file: production data, never delete");
    assert_eq!(
        denial_content(call_without_a_front_end(&mut approval, &context, &call)),
        "User denied execution of delete_file: production data, never delete",
        "the remembered reason must be reported again"
    );
}

#[test]
fn an_approval_ignores_any_reason_attached_to_it() {
    let args = path("notes.txt");
    let allowed = answer_once(
        &mut approval(),
        &conversation("local", "s1"),
        &view("delete_file", &args),
        because(ApprovalOutcome::once(true), "ignored"),
    );
    assert!(allowed, "an approved call runs; there is no result to replace");
}

#[test]
fn every_refusal_attributes_its_reason_to_the_user() {
    let args = path("notes.txt");
    let cases = [
        (approval(), ApprovalOutcome::once(false), "no reason"),
        (
            approval(),
            because(ApprovalOutcome::once(false), "typed reason"),
            "a typed reason",
        ),
        (
            formatting(Box::new(|_| "policy text".to_owned())),
            ApprovalOutcome::once(false),
            "the run-wide formatter",
        ),
    ];
    for (mut approval, outcome, label) in cases {
        let text = denial_text(
            &mut approval,
            &conversation("local", "s1"),
            &view("delete_file", &args),
            outcome,
        );
        assert!(
            text.starts_with("User denied execution of delete_file"),
            "{label}: the refusal must be attributable to the user, got {text:?}"
        );
    }
}

#[test]
fn an_answer_can_carry_a_trailing_reason() {
    assert_eq!(
        parse_approval_answer("n: scratch files live under /tmp"),
        Some(because(ApprovalOutcome::once(false), "scratch files live under /tmp"))
    );
    assert_eq!(
        parse_approval_answer("d：生产数据"),
        Some(because(ApprovalOutcome::sticky(false), "生产数据"))
    );
    assert_eq!(parse_approval_answer("n:   "), Some(ApprovalOutcome::once(false)));
    assert_eq!(
        parse_approval_answer("  no : because  "),
        Some(because(ApprovalOutcome::once(false), "because"))
    );
}

#[test]
fn a_reason_does_not_make_an_unknown_verdict_valid() {
    assert_eq!(parse_approval_answer("maybe: whatever"), None);
}

#[test]
fn an_unanswered_prompt_is_refused_by_default() {
    let args = path("notes.txt");
    let decision = call_without_a_front_end(
        &mut approval(),
        &conversation("local", "s1"),
        &view("delete_file", &args),
    );
    assert!(matches!(decision, ToolCallDecision::ShortCircuit(ToolResultStatus::Error, _)));
    assert_eq!(WhenUnanswered::default(), WhenUnanswered::Refuse);
}

#[test]
fn an_unanswered_prompt_can_suspend_instead() {
    let args = path("notes.txt");
    let decision = call_without_a_front_end(
        &mut suspending(),
        &conversation("local", "s1"),
        &view("delete_file", &args),
    );
    assert!(
        matches!(decision, ToolCallDecision::Suspend),
        "with nobody to ask, the question should be kept rather than answered"
    );
}

#[test]
fn a_timeout_suspends_under_that_policy() {
    let mut approval = suspending().with_timeout(Duration::from_millis(30));
    let args = path("notes.txt");
    let decision = call_without_a_front_end(
        &mut approval,
        &conversation("local", "s1"),
        &view("delete_file", &args),
    );
    assert!(matches!(decision, ToolCallDecision::Suspend));
}

#[test]
fn an_explicit_refusal_is_not_turned_into_a_suspension() {
    let args = path("notes.txt");
    let (_, decision) = put(
        &mut suspending(),
        &conversation("local", "s1"),
        &view("delete_file", &args),
        Some(ApprovalOutcome::once(false)),
    );
    assert!(matches!(decision, ToolCallDecision::ShortCircuit(ToolResultStatus::Error, _)));
}

#[test]
fn a_suspension_is_never_remembered() {
    let mut approval = suspending();
    let context = conversation("local", "s1");
    let args = path("notes.txt");
    for _ in 0..2 {
        assert!(
            matches!(
                call_without_a_front_end(&mut approval, &context, &view("delete_file", &args)),
                ToolCallDecision::Suspend
            ),
            "each attempt must ask again rather than reuse the last suspension"
        );
    }
}

#[test]
fn a_remembered_answer_still_applies_under_the_suspend_policy() {
    let mut approval = suspending();
    let context = conversation("local", "s1");
    let args = path("notes.txt");
    let call = view("delete_file", &args);

    assert!(answer_once(&mut approval, &context, &call, ApprovalOutcome::sticky(true)));
    assert!(
        call_without_a_front_end(&mut approval, &context, &call).is_proceed(),
        "the remembered approval should apply without a prompt to leave unanswered"
    );
}

fn meta(id: &str, requested_at: i64) -> ApprovalMeta {
    ApprovalMeta {
        id: id.to_owned(),
        tool: "delete_file".to_owned(),
        raw_arguments: "{}".to_owned(),
        requested_at,
    }
}

fn register(registry: &mut ApprovalRegistry, id: &str, requested_at: i64) {
    let (tx, _rx) = oneshot::channel();
    registry.register(meta(id, requested_at), tx);
}

#[test]
fn registry_resolves_a_registered_approval_once() {
    let mut registry = ApprovalRegistry::new();
    let (tx, _rx) = oneshot::channel();
    registry.register(meta("call-1", 0), tx);
    assert!(registry.is_pending("call-1"));

    assert!(
        registry.resolve("call-1", ApprovalOutcome::once(true)),
        "the first answer decides"
    );
    assert!(
        !registry.resolve("call-1", ApprovalOutcome::once(false)),
        "a second answer must be a no-op"
    );
    assert!(registry.is_empty());
}

#[test]
fn registry_reports_an_unknown_approval() {
    let mut registry = ApprovalRegistry::new();
    assert!(!registry.resolve("nope", ApprovalOutcome::once(true)));
}

#[test]
fn registry_delivers_the_decision_to_the_waiting_side() {
    let mut registry = ApprovalRegistry::new();
    let (tx, mut rx) = oneshot::channel();
    registry.register(meta("call-1", 0), tx);

    registry.resolve("call-1", ApprovalOutcome::sticky(true));
    assert_eq!(
        rx.try_recv().unwrap(),
        ApprovalOutcome::sticky(true),
        "the decision must arrive exactly as sent, sticky flag included"
    );
}

#[test]
fn registry_exposes_a_pending_id_for_another_front_end_to_answer() {
    let mut registry = ApprovalRegistry::new();
    assert!(registry.any_pending().is_none());
    register(&mut registry, "call-1", 0);
    assert_eq!(registry.any_pending().as_deref(), Some("call-1"));
}

#[test]
fn registry_snapshot_describes_every_pending_approval() {
    let mut registry = ApprovalRegistry::new();
    assert!(
        registry.pending_snapshot().is_empty(),
        "nothing pending, nothing to describe"
    );
    register(&mut registry, "call-1", 0);

    let snapshot = registry.pending_snapshot();
    assert_eq!(snapshot.len(), 1);
    assert_eq!(snapshot[0].id, "call-1");
    assert_eq!(snapshot[0].tool, "delete_file");
    assert_eq!(
        snapshot[0].raw_arguments, "{}",
        "the raw payload has to survive, since that is what a human is shown"
    );
}

#[test]
fn registry_snapshot_drops_a_resolved_approval() {
    let mut registry = ApprovalRegistry::new();
    register(&mut registry, "call-1", 0);
    registry.resolve("call-1", ApprovalOutcome::once(true));
    assert!(registry.pending_snapshot().is_empty());
}

#[test]
fn registry_orders_pending_approvals_oldest_first() {
    let mut registry = ApprovalRegistry::new();
    for (id, requested_at) in [("newer", 200), ("oldest", 100), ("newest", 300)] {
        register(&mut registry, id, requested_at);
    }
    let ids: Vec<String> =
        registry.pending_snapshot().into_iter().map(|item| item.id).collect();
    assert_eq!(ids, vec!["oldest", "newer", "newest"]);
    assert_eq!(registry.any_pending().as_deref(), Some("oldest"));
}

#[test]
fn registry_breaks_ties_on_id_so_the_order_is_total() {
    let mut registry = ApprovalRegistry::new();
    for id in ["call-b", "call-a"] {
        register(&mut registry, id, 0);
    }
    let ids: Vec<String> =
        registry.pending_snapshot().into_iter().map(|item| item.id).collect();
    assert_eq!(ids, vec!["call-a", "call-b"]);
    assert_eq!(
        registry.any_pending().as_deref(),
        Some("call-a"),
        "both readers must pick the same one"
    );
}

#[test]
fn registry_discards_abandoned_entries() {
    let mut registry = ApprovalRegistry::new();
    for id in ["call-1", "call-2"] {
        register(&mut registry, id, 0);
    }
    registry.discard(&vec!["call-1".to_owned(), "call-2".to_owned()]);
    assert!(registry.is_empty(), "a finished turn must not leave entries behind");
}

#[test]
fn an_answer_that_comes_too_late_is_handed_back() {
    let mut registry = ApprovalRegistry::default();
    let (tx, rx) = oneshot::channel();
    registry.register(meta("call-1", 0), tx);
    drop(rx);
    assert_eq!(
        registry.answer("call-1", ApprovalOutcome::sticky(true)),
        Err(Undelivered::GaveUp(ApprovalOutcome::sticky(true)))
    );
    assert_eq!(
        registry.answer("call-1", ApprovalOutcome::once(true)),
        Err(Undelivered::NotPending)
    );
    let gone = delivered(Err(ApprovalOutcome::once(false)));
    assert_eq!(gone, Err(Undelivered::GaveUp(ApprovalOutcome::once(false))));
    assert!(!has_decided(&gone) && !has_decided(&Err(Undelivered::NotPending)));
    assert!(has_decided(&delivered(Ok(()))));
}

#[test]
fn prompts_are_compared_by_age_and_then_by_id() {
    assert_eq!(compare_by_age(&meta("b", 1), &meta("a", 2)), Ordering::Less);
    assert_eq!(compare_by_age(&meta("b", 2), &meta("a", 2)), Ordering::Greater);
    assert_eq!(compare_by_age(&meta("a", 2), &meta("a", 2)), Ordering::Equal);
}

#[test]
fn the_console_shows_the_raw_arguments_and_the_verdict() {
    let args = Json::Null;
    let shown = terminal_prompt(&raw_view("delete_file", &args, "{oops"));
    assert!(shown.contains("delete_file") && shown.contains("{oops"));
    assert!(acknowledgement(&ApprovalOutcome::once(true)).contains("已批准"));
    assert_ne!(
        acknowledgement(&ApprovalOutcome::once(false)),
        acknowledgement(&ApprovalOutcome::sticky(false))
    );
}

#[test]
fn a_claimed_answer_is_handed_over_as_it_was_given() {
    let mut registry = ApprovalRegistry::new();
    let (tx, mut rx) = oneshot::channel();
    registry.register(meta("call-1", 0), tx);
    register(&mut registry, "call-2", 1);

    let refusal = || because(ApprovalOutcome::once(false), "no");
    let delivery = registry.claim("call-1", refusal()).expect("it waits");
    assert_eq!(delivery.id, "call-1");
    assert_eq!(delivery.outcome, refusal());
    delivery.to.send(delivery.outcome).unwrap();
    assert_eq!(rx.try_recv().unwrap(), refusal());

    assert!(registry.claim("call-1", ApprovalOutcome::once(true)).is_none());
    assert!(registry.is_pending("call-2"));
}

#[test]
fn a_standing_answer_holds_over_many_calls_and_no_further() {
    let mut approval = gating(&["delete_file", "shell_exec"]);
    let here = conversation("local", "here");
    let args = path("notes.txt");
    let delete = view("delete_file", &args);
    let shell = view("shell_exec", &args);
    let no = because(ApprovalOutcome::sticky(false), "never");
    assert!(!answer_once(&mut approval, &here, &delete, no));

    for i in 0..31 {
        let other = conversation("local", &format!("other-{i}"));
        assert!(put(&mut approval, &other, &delete, Some(ApprovalOutcome::once(true))).0);
        approval.forget_sticky(other.continuity_key());
        assert!(put(&mut approval, &here, &shell, None).0, "another tool is still asked about");
    }
    let (prompted, decision) = put(&mut approval, &here, &delete, None);
    assert!(!prompted, "the answer still stands");
    assert_eq!(denial_content(decision), "User denied execution of delete_file: never");
}

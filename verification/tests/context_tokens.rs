//! Token costs of a conversation, and the boundary that keeps tool pairs together.

use agent::agent::{ContentItem, LlmRequest, ToolResultStatus};
use agent::callback::context_optimizer::safety::find_safe_start;
use agent::callback::context_optimizer::tokens::{
    can_encode, can_encode_item, checked_contents_bound, checked_count_request, checked_item_bound, checked_request_bound,
    contents_cost_upper_bound, count_contents, count_fixed, count_request, item_cost,
    item_cost_upper_bound, item_costs, items_countable, json_len, request_cost_upper_bound, Ledger,
    MAX_BLANK_RUN, PER_MESSAGE_OVERHEAD,
};
use agent::json::Json;

fn msg(text: &str) -> ContentItem {
    ContentItem::Message { role: "user".to_owned(), content: text.to_owned() }
}

fn call(id: &str) -> ContentItem {
    ContentItem::ToolCall {
        tool_call_id: id.to_owned(),
        name: "calculator".to_owned(),
        arguments: Json::Object(Vec::new()),
    }
}

fn result(id: &str) -> ContentItem {
    ContentItem::ToolResult {
        tool_call_id: id.to_owned(),
        name: "calculator".to_owned(),
        status: ToolResultStatus::Success,
        content: "ok".to_owned(),
    }
}

fn field(name: &str, value: Json) -> (String, Json) {
    (name.to_owned(), value)
}

#[test]
fn start_of_zero_is_already_safe() {
    let contents = vec![call("a"), result("a")];
    assert_eq!(find_safe_start(&contents, 0), 0);
}

#[test]
fn a_start_with_no_orphans_is_left_alone() {
    let contents = vec![msg("hi"), call("a"), result("a")];
    assert_eq!(find_safe_start(&contents, 1), 1, "call and result both kept");
}

#[test]
fn pulls_the_boundary_back_to_include_the_missing_call() {
    let contents = vec![msg("hi"), call("a"), result("a")];
    assert_eq!(find_safe_start(&contents, 2), 1);
}

#[test]
fn walks_back_across_several_orphans() {
    let contents = vec![call("a"), call("b"), msg("x"), result("b"), result("a")];
    assert_eq!(find_safe_start(&contents, 4), 0);
}

#[test]
fn a_result_whose_call_is_absent_does_not_force_a_full_rewind() {
    let contents = vec![msg("hi"), msg("there"), result("ghost")];
    assert_eq!(
        find_safe_start(&contents, 2),
        2,
        "no call exists to reunite it with, so the boundary stays put"
    );
}

#[test]
fn start_past_the_end_is_clamped() {
    let contents = vec![msg("hi")];
    assert_eq!(find_safe_start(&contents, 99), 1);
}

#[test]
fn a_repeated_call_id_resolves_to_its_earliest_position() {
    let contents = vec![call("a"), msg("x"), call("a"), result("a")];
    assert_eq!(find_safe_start(&contents, 3), 0);
}

#[test]
fn a_safe_start_is_stable() {
    let contents = vec![call("a"), call("b"), msg("x"), result("b"), result("a")];
    for start in 0..=contents.len() {
        let safe = find_safe_start(&contents, start);
        assert!(safe <= start);
        assert_eq!(find_safe_start(&contents, safe), safe);
    }
}

#[test]
fn an_empty_conversation_costs_nothing() {
    assert_eq!(count_contents(&[]), 0);
}

#[test]
fn longer_text_costs_more() {
    assert!(count_contents(&[msg("hello world")]) > count_contents(&[msg("hi")]));
}

#[test]
fn text_is_counted_in_tokens_not_in_bytes() {
    assert_eq!(item_cost(&msg("hello world")), PER_MESSAGE_OVERHEAD + 2);
    assert_eq!(item_cost_upper_bound(&msg("hello world")), PER_MESSAGE_OVERHEAD + 11);
    assert_eq!(item_costs(&[msg("hello world"), msg("")]), vec![PER_MESSAGE_OVERHEAD + 2, 4]);
}

#[test]
fn the_upper_bound_never_underestimates() {
    for text in ["hi", "hello world", "a much longer sentence here", "中文内容", ""] {
        let item = msg(text);
        assert!(
            item_cost_upper_bound(&item) >= item_cost(&item),
            "the upper bound must never underestimate the real cost for {text:?}"
        );
    }
}

#[test]
fn the_request_upper_bound_covers_instructions() {
    let request = LlmRequest {
        instructions: vec!["a fairly long system prompt".to_owned(), "中文指令".to_owned()],
        contents: vec![msg("hi"), msg("中文内容")],
    };
    assert!(request_cost_upper_bound(&request) >= count_request(&request));
}

#[test]
fn framing_overhead_is_counted_per_item() {
    let one = count_contents(&[msg("hi")]);
    let two = count_contents(&[msg("hi"), msg("hi")]);
    assert!(two >= one * 2, "each item must carry its own framing overhead");
}

#[test]
fn instructions_are_part_of_the_cost() {
    let mut request = LlmRequest { instructions: Vec::new(), contents: vec![msg("hi")] };
    let without = count_request(&request);

    request.push_instruction("be brief".to_owned());
    assert!(count_request(&request) > without);
}

#[test]
fn fixed_and_conversation_costs_sum_to_the_whole_request() {
    let request = LlmRequest {
        instructions: vec!["sys".to_owned(), "extra".to_owned()],
        contents: vec![msg("hi"), msg("there")],
    };
    assert_eq!(
        count_request(&request),
        count_fixed(&request) + count_contents(&request.contents)
    );
}

#[test]
fn json_len_matches_the_serialized_length() {
    let values = vec![
        Json::Object(Vec::new()),
        Json::Object(vec![field("file_path", Json::text("/tmp/x.rs"))]),
        Json::Object(vec![field("query", Json::text("中文 with \"quotes\" and \\ escapes"))]),
        Json::Object(vec![field(
            "nested",
            Json::Object(vec![field(
                "a",
                Json::Array(vec![
                    Json::Number("1".to_owned()),
                    Json::Number("2.5".to_owned()),
                    Json::Bool(true),
                    Json::Null,
                ]),
            )]),
        )]),
        Json::text("bare string"),
        Json::Number("12345".to_owned()),
    ];
    for value in values {
        assert_eq!(json_len(&value), value.to_text().len());
        let parsed: serde_json::Value = serde_json::from_str(&value.to_text()).unwrap();
        assert_eq!(json_len(&value), parsed.to_string().len(), "mismatch for {parsed}");
    }
}

#[test]
fn the_upper_bound_never_underestimates_a_tool_call() {
    let item = ContentItem::ToolCall {
        tool_call_id: "c0".to_owned(),
        name: "read_file".to_owned(),
        arguments: Json::Object(vec![
            field("file_path", Json::text("src/中文.rs")),
            field("limit", Json::Number("200".to_owned())),
        ]),
    };
    assert!(item_cost_upper_bound(&item) >= item_cost(&item));
}

#[test]
fn bounds_are_checked_before_anything_is_counted() {
    let contents = [msg("hi"), call("a"), result("a")];
    assert!(items_countable(&contents));
    assert_eq!(checked_contents_bound(&contents), Some(contents_cost_upper_bound(&contents)));
    assert_eq!(checked_item_bound(&contents[1]), Some(item_cost_upper_bound(&contents[1])));
    let request = ledger_request();
    assert_eq!(checked_request_bound(&request), Some(request_cost_upper_bound(&request)));
    assert_eq!(checked_count_request(&request), Some(count_request(&request)));
}

fn ledger_request() -> LlmRequest {
    LlmRequest {
        instructions: vec!["sys".to_owned()],
        contents: vec![msg("hello world"), msg("second item"), msg("third item")],
    }
}

#[test]
fn a_ledger_agrees_with_counting_from_scratch() {
    let request = ledger_request();
    let mut ledger = Ledger::new(&request);

    assert_eq!(ledger.total(), count_request(&request));
    assert_eq!(ledger.fixed(), count_fixed(&request));
    assert_eq!(ledger.contents_mut().len(), request.contents.len());
}

#[test]
fn refresh_tracks_an_in_place_rewrite() {
    let mut request = ledger_request();
    let mut ledger = Ledger::new(&request);

    request.contents[1] = msg("a considerably longer replacement for the second item");
    ledger.refresh(&request.contents, &[1]);

    assert_eq!(ledger.total(), count_request(&request));
}

#[test]
fn refresh_ignores_an_out_of_range_index() {
    let request = ledger_request();
    let mut ledger = Ledger::new(&request);
    let before = ledger.total();

    ledger.refresh(&request.contents, &[99]);

    assert_eq!(ledger.total(), before, "a stale index must not panic");
}

#[test]
fn dropping_a_range_keeps_the_ledger_in_step() {
    let mut request = ledger_request();
    let mut ledger = Ledger::new(&request);

    request.contents.drain(1..2);
    ledger.contents_mut().drain(1..2);

    assert_eq!(ledger.total(), count_request(&request));
}

#[test]
fn rebuild_recovers_from_arbitrary_edits() {
    let mut request = ledger_request();
    let mut ledger = Ledger::new(&request);

    request.push_instruction("a summary of earlier progress".to_owned());
    request.contents.drain(0..2);
    ledger.rebuild(&request);

    assert_eq!(ledger.total(), count_request(&request));
    assert!(ledger.exceeds(ledger.total() - 1));
    assert!(!ledger.exceeds(ledger.total()));
}

#[test]
fn the_longest_run_of_white_space_is_still_counted() {
    let longest = format!("{}x", " ".repeat(MAX_BLANK_RUN));
    assert!(can_encode(&longest));
    assert!(item_cost(&msg(&longest)) > PER_MESSAGE_OVERHEAD);
}

#[test]
fn a_longer_run_of_white_space_is_not_handed_to_the_tokenizer() {
    let run = " ".repeat(MAX_BLANK_RUN + 1);
    assert!(!can_encode(&format!("{run}x")));
    assert!(!can_encode_item(&msg(&format!("{run}x"))));
    assert!(can_encode(&run), "nothing stands behind it");
    assert!(can_encode(&format!("{run}\nx")), "the line ends before the text goes on");
    assert!(!items_countable(&[msg(&format!("{run}x"))]));
}

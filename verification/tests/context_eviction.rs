//! Dropping the middle of a conversation.

use agent::agent::{ContentItem, ToolResultStatus};
use agent::callback::context_optimizer::eviction::{
    checked_evict_middle, evict_middle, evict_middle_with_costs, is_user_message,
    last_user_message, next_user_message, safe_head_end, tail_start_within,
};
use agent::callback::context_optimizer::tokens::{count_contents, item_costs};
use agent::json::Json;

fn user_msg(text: &str) -> ContentItem {
    ContentItem::Message { role: "user".to_owned(), content: text.to_owned() }
}

fn assistant_msg(text: &str) -> ContentItem {
    ContentItem::Message { role: "assistant".to_owned(), content: text.to_owned() }
}

fn tool_pair(id: &str, payload: &str) -> [ContentItem; 2] {
    [
        ContentItem::ToolCall {
            tool_call_id: id.to_owned(),
            name: "web_search".to_owned(),
            arguments: Json::Object(Vec::new()),
        },
        ContentItem::ToolResult {
            tool_call_id: id.to_owned(),
            name: "web_search".to_owned(),
            status: ToolResultStatus::Success,
            content: payload.to_owned(),
        },
    ]
}

/// One task message followed by bulky tool traffic: the shape of a single long run.
fn long_run(rounds: usize) -> Vec<ContentItem> {
    let mut contents = vec![user_msg("the original task")];
    for i in 0..rounds {
        contents.extend(tool_pair(&format!("call_{i}"), &"result ".repeat(300)));
    }
    contents
}

/// Several questions, each with tool work behind it: the shape of a chat session.
fn multi_turn(turns: usize) -> Vec<ContentItem> {
    let mut contents = Vec::new();
    for turn in 0..turns {
        contents.push(user_msg(&format!("question {turn}")));
        contents.extend(tool_pair(&format!("t{turn}"), &"result ".repeat(300)));
        contents.push(assistant_msg("answer"));
    }
    contents
}

fn assert_paired(items: &[ContentItem]) {
    let mut seen = Vec::new();
    for item in items {
        match item {
            ContentItem::ToolCall { tool_call_id, .. } => seen.push(tool_call_id.as_str()),
            ContentItem::ToolResult { tool_call_id, .. } => assert!(
                seen.contains(&tool_call_id.as_str()),
                "tool result {tool_call_id} was orphaned from its call"
            ),
            ContentItem::Message { .. } => {}
        }
    }
}

fn assert_structurally_valid(items: &[ContentItem]) {
    assert_paired(items);
    if let Some(first) = items.first() {
        assert!(
            is_user_message(first),
            "the conversation must open on a user message, found: {first:?}"
        );
    }
}

#[test]
fn an_empty_conversation_is_left_alone() {
    let mut contents = Vec::new();
    assert_eq!(evict_middle(&mut contents, 10, 1, 2), 0);
}

#[test]
fn a_conversation_within_budget_is_left_alone() {
    let mut contents = vec![user_msg("hi"), assistant_msg("hello")];
    assert_eq!(evict_middle(&mut contents, 10_000, 1, 2), 0);
    assert_eq!(contents.len(), 2);
}

#[test]
fn the_pinned_head_survives_eviction() {
    let mut contents = long_run(30);
    evict_middle(&mut contents, 2_000, 1, 4);

    let ContentItem::Message { content, .. } = &contents[0] else {
        panic!("the head should still be the opening message");
    };
    assert_eq!(content, "the original task");
}

#[test]
fn eviction_brings_the_conversation_under_budget() {
    let mut contents = long_run(30);
    evict_middle(&mut contents, 2_000, 1, 2);
    assert!(
        count_contents(&contents) <= 2_000,
        "eviction must actually converge on the budget"
    );
}

#[test]
fn the_most_recent_context_is_what_survives() {
    let mut contents = long_run(30);
    evict_middle(&mut contents, 2_000, 1, 2);

    let last_result = contents
        .iter()
        .rev()
        .find_map(|item| match item {
            ContentItem::ToolResult { tool_call_id, .. } => Some(tool_call_id.as_str()),
            _ => None,
        })
        .expect("some tool result should survive");
    assert_eq!(last_result, "call_29", "the newest round must be kept");
}

#[test]
fn a_tool_result_is_never_left_without_its_call() {
    let mut contents = long_run(30);
    evict_middle(&mut contents, 1_500, 1, 1);
    assert_structurally_valid(&contents);
}

#[test]
fn keep_recent_min_wins_over_the_budget() {
    let mut contents = long_run(30);
    evict_middle(&mut contents, 1, 1, 6);
    assert!(contents.len() >= 6, "the floor on recent context must be respected");
}

#[test]
fn a_head_that_would_split_a_tool_pair_is_shortened() {
    let mut contents = vec![user_msg("task")];
    contents.extend(tool_pair("call_0", &"result ".repeat(400)));
    contents.extend(tool_pair("call_1", &"result ".repeat(400)));
    contents.push(assistant_msg("done"));
    assert_eq!(safe_head_end(&contents, 3), 1);

    evict_middle(&mut contents, 500, 3, 1);
    assert_structurally_valid(&contents);
}

#[test]
fn with_nothing_pinned_the_result_still_opens_on_a_user_message() {
    for budget in [500, 1_500, 2_500, 4_000] {
        let mut contents = multi_turn(20);
        evict_middle(&mut contents, budget, 0, 1);
        assert_structurally_valid(&contents);
    }
}

#[test]
fn opening_on_a_user_message_does_not_blow_the_budget() {
    let mut contents = multi_turn(20);
    evict_middle(&mut contents, 2_000, 0, 1);

    assert!(is_user_message(&contents[0]));
    assert!(
        count_contents(&contents) <= 2_000,
        "advancing to a user message drops more, so the budget must still hold"
    );
}

#[test]
fn a_single_run_pins_its_task_even_with_keep_head_zero() {
    let mut contents = long_run(30);
    evict_middle(&mut contents, 2_000, 0, 1);

    assert_structurally_valid(&contents);
    let ContentItem::Message { content, .. } = &contents[0] else {
        panic!("expected the task to have been pinned");
    };
    assert_eq!(content, "the original task");
    assert!(
        count_contents(&contents) <= 2_000,
        "pinning one message must not cost the budget"
    );
}

#[test]
fn pinning_a_large_task_re_walks_the_tail() {
    let mut contents = vec![user_msg(&"task ".repeat(300))];
    for i in 0..30 {
        contents.push(assistant_msg(&format!("step {i} {}", "word ".repeat(100))));
    }

    evict_middle(&mut contents, 2_000, 0, 1);

    assert_structurally_valid(&contents);
    assert!(
        count_contents(&contents) <= 2_000,
        "the pinned head must be charged to the budget, not added on top of it"
    );
}

#[test]
fn a_transcript_without_any_user_message_is_handled() {
    let mut contents = Vec::new();
    for i in 0..20 {
        contents.extend(tool_pair(&format!("call_{i}"), &"result ".repeat(300)));
    }
    evict_middle(&mut contents, 1_000, 0, 1);
    assert_paired(&contents);
}

#[test]
fn nothing_is_dropped_when_head_and_tail_already_meet() {
    let mut contents = vec![user_msg(&"x".repeat(40_000)), assistant_msg("short")];
    assert_eq!(evict_middle(&mut contents, 1, 1, 1), 0);
    assert_eq!(contents.len(), 2);
}

#[test]
fn supplied_costs_stay_in_step_with_the_conversation() {
    let mut contents = long_run(30);
    let mut costs = item_costs(&contents);

    let dropped = evict_middle_with_costs(&mut contents, &mut costs, 2_000, 1, 2);

    assert!(dropped > 0);
    assert_eq!(costs.len(), contents.len());
    assert_eq!(
        costs.iter().sum::<usize>(),
        count_contents(&contents),
        "the reused costs must still describe what is left"
    );
}

#[test]
fn reusing_costs_matches_tokenizing_again() {
    let mut fresh = long_run(30);
    evict_middle(&mut fresh, 2_000, 1, 2);

    let mut reused = long_run(30);
    let mut costs = item_costs(&reused);
    evict_middle_with_costs(&mut reused, &mut costs, 2_000, 1, 2);

    assert_eq!(reused.len(), fresh.len());
}

#[test]
fn a_countable_conversation_is_evicted_the_same_way() {
    let mut plain = long_run(10);
    let mut checked = long_run(10);
    let dropped = evict_middle(&mut plain, 1_000, 1, 2);
    assert_eq!(checked_evict_middle(&mut checked, 1_000, 1, 2), Some(dropped));
    assert_eq!(plain, checked);
}

#[test]
fn the_tail_takes_what_the_budget_leaves() {
    let contents = [user_msg("a"), assistant_msg("b"), assistant_msg("c"), user_msg("d")];
    assert_eq!(tail_start_within(&[10, 10, 10, 10], 0, 20, 1), 2);
    assert_eq!(tail_start_within(&[10, 10, 10, 10], 1, 20, 1), 3);
    assert_eq!(tail_start_within(&[10, 10, 10, 10], 0, 0, 3), 1);
    assert_eq!(next_user_message(&contents, 1), Some(3));
    assert_eq!(next_user_message(&contents, 4), None);
}

#[test]
fn the_recent_floor_outranks_moving_forward_to_a_user_message() {
    let turns = || vec![user_msg("q0"), assistant_msg("a0"), assistant_msg("a1"), user_msg("q1")];
    let mut contents = turns();
    let mut costs = vec![10, 10, 10, 10];
    assert_eq!(evict_middle_with_costs(&mut contents, &mut costs, 15, 0, 3), 0);
    assert_eq!(contents, turns());
    assert_eq!(costs, [10, 10, 10, 10]);

    // With one item enough, the last question is where the rest opens.
    assert_eq!(evict_middle_with_costs(&mut contents, &mut costs, 25, 0, 1), 3);
    assert_eq!(contents, [user_msg("q1")]);

    // No opening message to pin: the last question behind the tail is where the rest opens.
    let mut contents = vec![assistant_msg("a"), user_msg("b"), assistant_msg("c"), user_msg("d")];
    let mut costs = vec![10, 10, 10, 10];
    assert_eq!(evict_middle_with_costs(&mut contents, &mut costs, 15, 0, 2), 1);
    assert_eq!(contents, [user_msg("b"), assistant_msg("c"), user_msg("d")]);
    assert_eq!(costs, [10, 10, 10]);

    // None behind either: the one ahead outranks the floor.
    let mut contents = vec![assistant_msg("a"), assistant_msg("b"), assistant_msg("c"), user_msg("d")];
    let mut costs = vec![10, 10, 10, 10];
    assert_eq!(evict_middle_with_costs(&mut contents, &mut costs, 5, 0, 2), 3);
    assert_eq!(contents, [user_msg("d")]);

    // No user message at all: the split stays where the floor puts it.
    let mut contents = vec![assistant_msg("a"), assistant_msg("b"), assistant_msg("c")];
    let mut costs = vec![10, 10, 10];
    assert_eq!(evict_middle_with_costs(&mut contents, &mut costs, 5, 0, 2), 1);
    assert_eq!(contents, [assistant_msg("b"), assistant_msg("c")]);
}

#[test]
fn going_back_for_a_user_message_splits_no_tool_call() {
    let mut contents = vec![assistant_msg("a"), user_msg("b")];
    let [call, result] = tool_pair("c", "r");
    contents.push(call);
    contents.push(user_msg("aside"));
    contents.push(result);
    contents.push(assistant_msg("z"));
    assert_eq!(last_user_message(&contents, 6), Some(1), "a result straddles the later one");
    assert_eq!(last_user_message(&contents, 1), None);
    let mut costs = vec![10; 6];
    assert_eq!(evict_middle_with_costs(&mut contents, &mut costs, 10, 0, 1), 1);
    assert_structurally_valid(&contents);
}

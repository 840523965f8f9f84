//! Keeping a truncated conversation structurally valid.
//!
//! Whatever drops items from a conversation must never keep a tool result without the
//! tool call that produced it: most providers reject such a request outright.

use vstd::prelude::*;

use crate::agent::ContentItem;
use crate::text::same_text;

verus! {

/// Whether `result` is a tool result that answers the tool call `call`.
pub open spec fn answers(result: ContentItem, call: ContentItem) -> bool {
    match (result, call) {
        (
            ContentItem::ToolResult { tool_call_id: answered, .. },
            ContentItem::ToolCall { tool_call_id: asked, .. },
        ) => answered@ == asked@,
        _ => false,
    }
}

/// Whether keeping `contents[start..]` keeps, with every tool result, every call it answers.
pub open spec fn pairing_kept(contents: Seq<ContentItem>, start: int) -> bool {
    forall|r: int, c: int|
        start <= r < contents.len() && 0 <= c < contents.len() && #[trigger] answers(
            contents[r],
            contents[c],
        ) ==> start <= c
}

/// The greatest position at or before `start` from which pairing is kept.
pub open spec fn safe_start(contents: Seq<ContentItem>, start: int) -> int
    decreases start,
{
    if start <= 0 {
        0
    } else if pairing_kept(contents, start) {
        start
    } else {
        safe_start(contents, start - 1)
    }
}

/// A safe start keeps pairing, is at or before the start asked for, and nothing between the
/// two keeps pairing.
pub proof fn safe_start_is_greatest(contents: Seq<ContentItem>, start: int)
    requires
        0 <= start,
    ensures
        0 <= safe_start(contents, start) <= start,
        pairing_kept(contents, safe_start(contents, start)),
        forall|s: int|
            safe_start(contents, start) < s <= start ==> !#[trigger] pairing_kept(contents, s),
    decreases start,
{
    if start > 0 && !pairing_kept(contents, start) {
        safe_start_is_greatest(contents, start - 1);
    }
}

/// A safe start is itself safe: asking again changes nothing.
pub proof fn safe_start_is_stable(contents: Seq<ContentItem>, start: int)
    requires
        0 <= start,
    ensures
        safe_start(contents, safe_start(contents, start)) == safe_start(contents, start),
{
    safe_start_is_greatest(contents, start);
}

/// The earliest call that the result at `result` answers.
fn earliest_call(contents: &[ContentItem], result: usize) -> (found: Option<usize>)
    requires
        result < contents@.len(),
    ensures
        match found {
            Some(c) => c < contents@.len() && answers(contents@[result as int], contents@[c as int])
                && forall|k: int|
                0 <= k < c ==> !#[trigger] answers(contents@[result as int], contents@[k]),
            None => forall|k: int|
                0 <= k < contents@.len() ==> !#[trigger] answers(
                    contents@[result as int],
                    contents@[k],
                ),
        },
{
    match &contents[result] {
        ContentItem::ToolResult { tool_call_id: answered, .. } => {
            let mut i: usize = 0;
            while i < contents.len()
                invariant
                    i <= contents@.len(),
                    result < contents@.len(),
                    contents@[result as int] matches ContentItem::ToolResult { tool_call_id, .. }
                        && tool_call_id == *answered,
                    forall|k: int|
                        0 <= k < i ==> !#[trigger] answers(contents@[result as int], contents@[k]),
                decreases contents@.len() - i,
            {
                match &contents[i] {
                    ContentItem::ToolCall { tool_call_id: asked, .. } => {
                        if same_text(answered.as_str(), asked.as_str()) {
                            return Some(i);
                        }
                    },
                    _ => {},
                }
                i += 1;
            }
            None
        },
        _ => None,
    }
}

/// Move `start` earlier until nothing in `contents[start..]` is a tool result separated from
/// its call.
///
/// A result whose call is nowhere in the conversation pulls nothing back: there is no call
/// to reunite it with. A start past the end counts as the end. Where a call id repeats, every
/// occurrence is kept.
pub fn find_safe_start(contents: &[ContentItem], start: usize) -> (safe: usize)
    ensures
        safe == safe_start(contents@, if start <= contents@.len() {
            start as int
        } else {
            contents@.len() as int
        }),
{
    let start: usize = if start < contents.len() {
        start
    } else {
        contents.len()
    };
    let mut safe: usize = start;
    let mut index: usize = contents.len();
    while index > safe
        invariant
            safe <= start,
            safe <= index <= contents@.len(),
            forall|s: int| safe < s <= start ==> !#[trigger] pairing_kept(contents@, s),
            forall|r: int, c: int|
                index <= r < contents@.len() && 0 <= c < contents.len() && #[trigger] answers(
                    contents@[r],
                    contents@[c],
                ) ==> safe <= c,
        decreases index,
    {
        index -= 1;
        match earliest_call(contents, index) {
            Some(call_at) => {
                if call_at < safe {
                    proof {
                        assert forall|s: int| call_at < s <= start implies !#[trigger] pairing_kept(
                            contents@,
                            s,
                        ) by {
                            if s <= safe {
                                assert(answers(contents@[index as int], contents@[call_at as int]));
                            }
                        }
                    }
                    safe = call_at;
                }
            },
            None => {},
        }
    }
    proof {
        assert(pairing_kept(contents@, safe as int));
        lemma_greatest_is_safe_start(contents@, start as int, safe as int);
    }
    safe
}

proof fn lemma_greatest_is_safe_start(contents: Seq<ContentItem>, start: int, safe: int)
    requires
        0 <= safe <= start,
        pairing_kept(contents, safe),
        forall|s: int| safe < s <= start ==> !#[trigger] pairing_kept(contents, s),
    ensures
        safe_start(contents, start) == safe,
    decreases start,
{
    if start > safe {
        lemma_greatest_is_safe_start(contents, start - 1, safe);
    }
}

/// A result answers every call that has its id, and nothing else is an answer.
pub proof fn a_result_answers_the_calls_with_its_id(result: ContentItem, call: ContentItem)
    ensures
        answers(result, call) == (result is ToolResult && call is ToolCall
            && result->ToolResult_tool_call_id@ == call->ToolCall_tool_call_id@),
{
}

} // verus!

//! Hard eviction: the stage of the context optimizer that always brings a request down.
//!
//! The shape it preserves:
//!
//! ```text
//! [ head ]  the task: pinned, never dropped
//! [ ~~~~ ]  the middle: evicted from here
//! [ tail ]  as much recent context as the budget allows
//! ```

use vstd::prelude::*;

use crate::agent::ContentItem;
use crate::callback::context_optimizer::safety::{
    answers, find_safe_start, pairing_kept, safe_start, safe_start_is_greatest,
};
use crate::callback::context_optimizer::tokens::{
    checked_contents_bound, contents_bound, cost_of, costs_match, costs_of, each_fits, item_costs,
    items_countable, lemma_total_append, lemma_total_fits, total, wide_total,
};
use crate::text::same_text;

verus! {

/// Whether an item is a message from the user.
pub open spec fn user_message(item: ContentItem) -> bool {
    item matches ContentItem::Message { role, .. } && role@ == "user"@
}

/// End of the pinned head: the longest run of at most `limit` opening items that holds no
/// tool call.
pub open spec fn head_run(contents: Seq<ContentItem>, limit: int) -> int
    decreases limit,
{
    if limit <= 0 {
        0
    } else if head_run(contents, limit - 1) == limit - 1 && !(contents[limit - 1] is ToolCall) {
        limit
    } else {
        head_run(contents, limit - 1)
    }
}

/// End of the pinned head when `keep_head` items are asked for.
pub open spec fn head_end(contents: Seq<ContentItem>, keep_head: int) -> int {
    head_run(contents, if keep_head <= contents.len() {
        keep_head
    } else {
        contents.len() as int
    })
}

/// What is left for the tail once the head is paid for.
pub open spec fn tail_budget(costs: Seq<usize>, head: int, available: int) -> int {
    if total(costs.take(head)) >= available {
        0
    } else {
        available - total(costs.take(head))
    }
}

/// Whether the tail may reach back to item `from`: it is among the last `keep_recent_min`, or
/// everything from it on fits the tail's budget.
pub open spec fn affordable(costs: Seq<usize>, from: int, budget: int, keep_recent_min: int) -> bool {
    costs.len() - from <= keep_recent_min || total(costs.skip(from)) <= budget
}

/// The earliest position that is reached from `from` by affordable steps back, stopping at
/// the head.
pub open spec fn reach_back(
    costs: Seq<usize>,
    head: int,
    budget: int,
    keep_recent_min: int,
    from: int,
) -> int
    decreases from - head,
{
    if from > head && affordable(costs, from - 1, budget, keep_recent_min) {
        reach_back(costs, head, budget, keep_recent_min, from - 1)
    } else {
        from
    }
}

/// Where the tail starts that the budget allows.
pub open spec fn tail_start(
    costs: Seq<usize>,
    head: int,
    available: int,
    keep_recent_min: int,
) -> int {
    reach_back(
        costs,
        head,
        tail_budget(costs, head, available),
        keep_recent_min,
        costs.len() as int,
    )
}

/// Where the tail starts once no kept tool result is separated from its call.
pub open spec fn safe_tail(
    contents: Seq<ContentItem>,
    costs: Seq<usize>,
    head: int,
    available: int,
    keep_recent_min: int,
) -> int {
    let safe = safe_start(contents, tail_start(costs, head, available, keep_recent_min));
    if safe >= head {
        safe
    } else {
        head
    }
}

/// First position at or after `from` that holds a user message.
pub open spec fn next_user(contents: Seq<ContentItem>, from: int) -> Option<int>
    decreases contents.len() - from,
{
    if from >= contents.len() {
        None
    } else if user_message(contents[from]) {
        Some(from)
    } else {
        next_user(contents, from + 1)
    }
}

/// Last position before `before` that holds a user message where no tool result loses its call.
pub open spec fn last_user(contents: Seq<ContentItem>, before: int) -> Option<int>
    decreases before,
{
    if before <= 0 {
        None
    } else if user_message(contents[before - 1]) && pairing_kept(contents, before - 1) {
        Some(before - 1)
    } else {
        last_user(contents, before - 1)
    }
}

/// Whether the kept part may move forward to open on the item at `at`: no tool result loses its
/// call, and at least `keep_recent_min` items are left.
pub open spec fn opens_at(contents: Seq<ContentItem>, at: int, keep_recent_min: int) -> bool {
    pairing_kept(contents, at) && contents.len() - at >= keep_recent_min
}

/// The range of items to drop, from its start up to its end.
///
/// With nothing pinned the kept part has to open on a user message: the next one ahead where
/// pairing and the floor on recent items allow it, else the conversation's own opening, which is
/// pinned after all, else the last one behind. Where there is none behind either, the one ahead
/// outranks the floor.
pub open spec fn evicted(
    contents: Seq<ContentItem>,
    costs: Seq<usize>,
    available: int,
    keep_head: int,
    keep_recent_min: int,
) -> (int, int) {
    let head = head_end(contents, keep_head);
    let tail = safe_tail(contents, costs, head, available, keep_recent_min);
    if total(costs) <= available {
        (0, 0)
    } else if head == 0 && tail < contents.len() && !user_message(contents[tail]) {
        match next_user(contents, tail) {
            Some(at) if opens_at(contents, at, keep_recent_min) => (0, at),
            ahead => if user_message(contents[0]) {
                (1, safe_tail(contents, costs, 1, available, keep_recent_min))
            } else {
                match (last_user(contents, tail), ahead) {
                    (Some(behind), _) => (0, behind),
                    (None, Some(at)) if pairing_kept(contents, at) => (0, at),
                    _ => (0, tail),
                }
            },
        }
    } else {
        (head, tail)
    }
}

/// `items` without those from `range.0` up to `range.1`.
pub open spec fn without<T>(items: Seq<T>, range: (int, int)) -> Seq<T> {
    items.take(range.0) + items.skip(range.1)
}

proof fn lemma_head_run(contents: Seq<ContentItem>, limit: int, head: int)
    requires
        0 <= head <= limit <= contents.len(),
        forall|k: int| 0 <= k < head ==> !(#[trigger] contents[k] is ToolCall),
        head < limit ==> contents[head] is ToolCall,
    ensures
        head_run(contents, limit) == head,
    decreases limit,
{
    if limit > 0 {
        if head == limit {
            lemma_head_run(contents, limit - 1, limit - 1);
        } else {
            lemma_head_run(contents, limit - 1, head);
        }
    }
}

proof fn lemma_head_run_holds_no_call(contents: Seq<ContentItem>, limit: int)
    requires
        limit <= contents.len(),
    ensures
        0 <= head_run(contents, limit),
        limit >= 0 ==> head_run(contents, limit) <= limit,
        forall|k: int|
            0 <= k < head_run(contents, limit) ==> !(#[trigger] contents[k] is ToolCall),
    decreases limit,
{
    if limit > 0 {
        lemma_head_run_holds_no_call(contents, limit - 1);
    }
}

proof fn lemma_skip_total(costs: Seq<usize>, i: int)
    requires
        0 <= i < costs.len(),
    ensures
        total(costs.skip(i)) == costs[i] as nat + total(costs.skip(i + 1)),
{
    assert(costs.skip(i) =~= seq![costs[i]] + costs.skip(i + 1));
    lemma_total_append(seq![costs[i]], costs.skip(i + 1));
    reveal_with_fuel(total, 2);
}

proof fn lemma_reach_back_bounds(
    costs: Seq<usize>,
    head: int,
    budget: int,
    keep_recent_min: int,
    from: int,
)
    requires
        0 <= head <= from <= costs.len(),
    ensures
        head <= reach_back(costs, head, budget, keep_recent_min, from) <= from,
        forall|k: int|
            reach_back(costs, head, budget, keep_recent_min, from) <= k < from
                ==> #[trigger] affordable(costs, k, budget, keep_recent_min),
        reach_back(costs, head, budget, keep_recent_min, from) > head ==> !affordable(
            costs,
            reach_back(costs, head, budget, keep_recent_min, from) - 1,
            budget,
            keep_recent_min,
        ),
    decreases from - head,
{
    if from > head && affordable(costs, from - 1, budget, keep_recent_min) {
        lemma_reach_back_bounds(costs, head, budget, keep_recent_min, from - 1);
    }
}

pub proof fn lemma_next_user(contents: Seq<ContentItem>, from: int)
    requires
        0 <= from <= contents.len(),
    ensures
        match next_user(contents, from) {
            Some(at) => from <= at < contents.len() && user_message(contents[at]),
            None => forall|k: int|
                from <= k < contents.len() ==> !#[trigger] user_message(contents[k]),
        },
    decreases contents.len() - from,
{
    if from < contents.len() && !user_message(contents[from]) {
        lemma_next_user(contents, from + 1);
    }
}

proof fn lemma_last_user(contents: Seq<ContentItem>, before: int)
    requires
        0 <= before <= contents.len(),
    ensures
        match last_user(contents, before) {
            Some(at) => 0 <= at < before && user_message(contents[at]) && pairing_kept(
                contents,
                at,
            ),
            None => forall|k: int|
                0 <= k < before && user_message(#[trigger] contents[k]) ==> !pairing_kept(
                    contents,
                    k,
                ),
        },
    decreases before,
{
    if before > 0 && !(user_message(contents[before - 1]) && pairing_kept(contents, before - 1)) {
        lemma_last_user(contents, before - 1);
    }
}

/// End of the pinned head: `keep_head` items, but never extending into a tool call.
pub fn safe_head_end(contents: &[ContentItem], keep_head: usize) -> (head: usize)
    ensures
        head == head_end(contents@, keep_head as int),
{
    let limit: usize = if keep_head < contents.len() {
        keep_head
    } else {
        contents.len()
    };
    let mut head: usize = 0;
    while head < limit
        invariant
            head <= limit <= contents@.len(),
            limit == if keep_head <= contents@.len() {
                keep_head as int
            } else {
                contents@.len() as int
            },
            forall|k: int| 0 <= k < head ==> !(#[trigger] contents@[k] is ToolCall),
        decreases limit - head,
    {
        match &contents[head] {
            ContentItem::ToolCall { .. } => {
                proof {
                    lemma_head_run(contents@, limit as int, head as int);
                }
                return head;
            },
            _ => {},
        }
        head += 1;
    }
    proof {
        lemma_head_run(contents@, limit as int, head as int);
    }
    head
}

/// Whether an item is a message from the user.
pub fn is_user_message(item: &ContentItem) -> (is: bool)
    ensures
        is == user_message(*item),
{
    match item {
        ContentItem::Message { role, .. } => same_text(role.as_str(), "user"),
        _ => false,
    }
}

/// First position at or after `start` that holds a user message.
pub fn next_user_message(contents: &[ContentItem], start: usize) -> (found: Option<usize>)
    ensures
        match found {
            Some(at) => next_user(contents@, start as int) == Some(at as int),
            None => next_user(contents@, start as int) is None,
        },
{
    let mut at: usize = start;
    while at < contents.len()
        invariant
            next_user(contents@, start as int) == next_user(contents@, at as int),
        decreases contents@.len() - at,
    {
        if is_user_message(&contents[at]) {
            return Some(at);
        }
        at += 1;
    }
    None
}

/// Last position before `before` that holds a user message where no tool result loses its call.
pub fn last_user_message(contents: &[ContentItem], before: usize) -> (found: Option<usize>)
    requires
        before <= contents@.len(),
    ensures
        match found {
            Some(at) => last_user(contents@, before as int) == Some(at as int) && at < before,
            None => last_user(contents@, before as int) is None,
        },
{
    let mut at: usize = before;
    while at > 0
        invariant
            at <= before <= contents@.len(),
            last_user(contents@, before as int) == last_user(contents@, at as int),
        decreases at,
    {
        at -= 1;
        if is_user_message(&contents[at]) {
            proof {
                safe_start_is_greatest(contents@, at as int);
            }
            if find_safe_start(contents, at) == at {
                return Some(at);
            }
        }
    }
    None
}

/// Walk backwards from the end, taking items while they fit in what the budget leaves once
/// the pinned head is paid for, and taking the last `keep_recent_min` regardless.
pub fn tail_start_within(
    costs: &[usize],
    head_end: usize,
    available: usize,
    keep_recent_min: usize,
) -> (tail: usize)
    requires
        head_end <= costs@.len(),
    ensures
        tail == tail_start(costs@, head_end as int, available as int, keep_recent_min as int),
        head_end <= tail <= costs@.len(),
{
    let (head, _) = costs.split_at(head_end);
    assert(head@ =~= costs@.take(head_end as int));
    let head_cost: u128 = wide_total(head);
    let budget: u128 = if head_cost >= available as u128 {
        0
    } else {
        available as u128 - head_cost
    };
    let mut tail: usize = costs.len();
    let mut tail_cost: u128 = 0;
    let ghost budget_spec = tail_budget(costs@, head_end as int, available as int);
    assert(costs@.skip(tail as int) =~= seq![]);
    while tail > head_end
        invariant
            head_end <= tail <= costs@.len(),
            budget == budget_spec,
            budget_spec == tail_budget(costs@, head_end as int, available as int),
            tail_cost == total(costs@.skip(tail as int)),
            reach_back(
                costs@,
                head_end as int,
                budget_spec,
                keep_recent_min as int,
                costs@.len() as int,
            ) == reach_back(
                costs@,
                head_end as int,
                budget_spec,
                keep_recent_min as int,
                tail as int,
            ),
        decreases tail,
    {
        let index: usize = tail - 1;
        let taken_if_kept: usize = costs.len() - index;
        let must_keep = taken_if_kept <= keep_recent_min;
        proof {
            lemma_skip_total(costs@, index as int);
            lemma_total_fits(costs@.skip(index as int));
        }
        let with_it: u128 = tail_cost + costs[index] as u128;
        if !must_keep && with_it > budget {
            return tail;
        }
        tail_cost = with_it;
        tail = index;
    }
    tail
}

/// Drop the items from `from` up to `to`.
pub(crate) fn drop_range<T>(items: &mut Vec<T>, from: usize, to: usize)
    requires
        from <= to <= old(items)@.len(),
    ensures
        final(items)@ == without(old(items)@, (from as int, to as int)),
{
    let mut rest = items.split_off(to);
    items.truncate(from);
    items.append(&mut rest);
    assert(items@ =~= without(old(items)@, (from as int, to as int)));
}

/// Drop items from the middle until `contents` fits in `available` tokens, with the items'
/// costs already known.
///
/// Keeps the first `keep_head` items and as many trailing items as the budget allows, never
/// fewer than `keep_recent_min` and opening on a user message: both outrank the budget, and where
/// they cannot both hold the latter does. Returns how many items were dropped. `costs[i]` is the cost of
/// `contents[i]`: the two must be of one length, and what is dropped from one is dropped from
/// the other.
pub fn evict_middle_with_costs(
    contents: &mut Vec<ContentItem>,
    costs: &mut Vec<usize>,
    available: usize,
    keep_head: usize,
    keep_recent_min: usize,
) -> (dropped: usize)
    requires
        old(costs)@.len() == old(contents)@.len(),
    ensures
        ({
            let range = evicted(
                old(contents)@,
                old(costs)@,
                available as int,
                keep_head as int,
                keep_recent_min as int,
            );
            &&& 0 <= range.0 <= range.1 <= old(contents)@.len()
            &&& dropped == range.1 - range.0
            &&& final(contents)@ == without(old(contents)@, range)
            &&& final(costs)@ == without(old(costs)@, range)
        }),
{
    let ghost items = contents@;
    let ghost prices = costs@;
    let ghost range = evicted(
        items,
        prices,
        available as int,
        keep_head as int,
        keep_recent_min as int,
    );
    proof {
        assert(without(items, (0int, 0int)) =~= items);
        assert(without(prices, (0int, 0int)) =~= prices);
    }
    if wide_total(costs) <= available as u128 {
        return 0;
    }
    let mut head: usize = safe_head_end(contents, keep_head);
    proof {
        let limit = if keep_head <= items.len() {
            keep_head as int
        } else {
            items.len() as int
        };
        lemma_head_run_holds_no_call(items, limit);
    }
    let mut tail: usize = safe_tail_within(contents, costs, head, available, keep_recent_min);
    if head == 0 && tail < contents.len() && !is_user_message(&contents[tail]) {
        let ahead: Option<usize> = match next_user_message(contents, tail) {
            Some(at) => {
                proof {
                    lemma_next_user(items, tail as int);
                    safe_start_is_greatest(items, at as int);
                }
                if find_safe_start(contents, at) == at {
                    Some(at)
                } else {
                    None
                }
            },
            None => None,
        };
        let within_floor: Option<usize> = match ahead {
            Some(at) => {
                if contents.len() - at >= keep_recent_min {
                    Some(at)
                } else {
                    None
                }
            },
            None => None,
        };
        match within_floor {
            Some(at) => {
                tail = at;
            },
            None => {
                if is_user_message(&contents[0]) {
                    head = 1;
                    tail = safe_tail_within(contents, costs, head, available, keep_recent_min);
                } else {
                    match (last_user_message(contents, tail), ahead) {
                        (Some(behind), _) => {
                            tail = behind;
                        },
                        (None, Some(at)) => {
                            tail = at;
                        },
                        (None, None) => {},
                    }
                }
            },
        }
    }
    assert(range == (head as int, tail as int));
    drop_range(contents, head, tail);
    drop_range(costs, head, tail);
    tail - head
}

/// Where the surviving tail starts, pulled back so that no tool result loses its call.
fn safe_tail_within(
    contents: &[ContentItem],
    costs: &[usize],
    head: usize,
    available: usize,
    keep_recent_min: usize,
) -> (tail: usize)
    requires
        head <= contents@.len() == costs@.len(),
    ensures
        tail == safe_tail(
            contents@,
            costs@,
            head as int,
            available as int,
            keep_recent_min as int,
        ),
        head <= tail <= contents@.len(),
{
    let reached: usize = tail_start_within(costs, head, available, keep_recent_min);
    let safe: usize = find_safe_start(contents, reached);
    proof {
        safe_start_is_greatest(contents@, reached as int);
    }
    if safe >= head {
        safe
    } else {
        head
    }
}

/// Drop items from the middle until `contents` fits in `available` tokens.
///
/// For a caller that holds no costs of its own. Text that fits by its bytes alone is left
/// as it is without tokenizing.
pub fn evict_middle(
    contents: &mut Vec<ContentItem>,
    available: usize,
    keep_head: usize,
    keep_recent_min: usize,
) -> (dropped: usize)
    requires
        contents_bound(old(contents)@) <= available || each_fits(old(contents)@),
    ensures
        ({
            let range = if contents_bound(old(contents)@) <= available {
                (0, 0)
            } else {
                evicted(
                    old(contents)@,
                    costs_of(old(contents)@),
                    available as int,
                    keep_head as int,
                    keep_recent_min as int,
                )
            };
            &&& 0 <= range.0 <= range.1 <= old(contents)@.len()
            &&& dropped == range.1 - range.0
            &&& final(contents)@ == without(old(contents)@, range)
        }),
{
    assert(without(contents@, (0int, 0int)) =~= contents@);
    match checked_contents_bound(contents) {
        Some(bound) => {
            if bound <= available {
                return 0;
            }
        },
        None => {},
    }
    let mut costs = item_costs(contents);
    assert(costs@ =~= costs_of(contents@));
    evict_middle_with_costs(contents, &mut costs, available, keep_head, keep_recent_min)
}

/// [`evict_middle`], where what the items cost can be counted as far as that is needed; nothing
/// is dropped otherwise.
pub fn checked_evict_middle(
    contents: &mut Vec<ContentItem>,
    available: usize,
    keep_head: usize,
    keep_recent_min: usize,
) -> (dropped: Option<usize>)
    ensures
        dropped is Some == (contents_bound(old(contents)@) <= available || each_fits(
            old(contents)@,
        )),
        dropped is None ==> final(contents)@ == old(contents)@,
        dropped matches Some(n) ==> ({
            let range = if contents_bound(old(contents)@) <= available {
                (0, 0)
            } else {
                evicted(
                    old(contents)@,
                    costs_of(old(contents)@),
                    available as int,
                    keep_head as int,
                    keep_recent_min as int,
                )
            };
            &&& 0 <= range.0 <= range.1 <= old(contents)@.len()
            &&& n == range.1 - range.0
            &&& final(contents)@ == without(old(contents)@, range)
        }),
{
    let within = match checked_contents_bound(contents) {
        Some(bound) => bound <= available,
        None => false,
    };
    if within || items_countable(contents) {
        Some(evict_middle(contents, available, keep_head, keep_recent_min))
    } else {
        None
    }
}

/// Whether an item outside `range`, so one that is kept.
pub open spec fn outside(index: int, range: (int, int)) -> bool {
    index < range.0 || index >= range.1
}

/// Whether every tool call stands before the results that answer it.
pub open spec fn calls_come_first(contents: Seq<ContentItem>) -> bool {
    forall|r: int, c: int|
        0 <= r < contents.len() && 0 <= c < contents.len() && #[trigger] answers(
            contents[r],
            contents[c],
        ) ==> c < r
}

proof fn lemma_safe_tail(
    contents: Seq<ContentItem>,
    costs: Seq<usize>,
    head: int,
    available: int,
    keep_recent_min: int,
)
    requires
        costs.len() == contents.len(),
        0 <= head <= contents.len(),
    ensures
        ({
            let reached = tail_start(costs, head, available, keep_recent_min);
            let tail = safe_tail(contents, costs, head, available, keep_recent_min);
            &&& head <= reached <= costs.len()
            &&& head <= tail <= reached
            &&& tail > head ==> pairing_kept(contents, tail)
            &&& pairing_kept(contents, reached) ==> tail == reached
        }),
{
    let budget = tail_budget(costs, head, available);
    lemma_reach_back_bounds(costs, head, budget, keep_recent_min, costs.len() as int);
    safe_start_is_greatest(contents, tail_start(costs, head, available, keep_recent_min));
}

proof fn lemma_head_end(contents: Seq<ContentItem>, keep_head: int)
    requires
        0 <= keep_head,
    ensures
        0 <= head_end(contents, keep_head) <= contents.len(),
        head_end(contents, keep_head) <= keep_head,
        forall|k: int|
            0 <= k < head_end(contents, keep_head) ==> !(#[trigger] contents[k] is ToolCall),
{
    lemma_head_run_holds_no_call(contents, if keep_head <= contents.len() {
        keep_head
    } else {
        contents.len() as int
    });
}

proof fn lemma_head_run_takes_an_opening(contents: Seq<ContentItem>, limit: int, index: int)
    requires
        0 <= index < limit <= contents.len(),
        forall|k: int| 0 <= k <= index ==> !(#[trigger] contents[k] is ToolCall),
    ensures
        head_run(contents, limit) > index,
    decreases limit,
{
    if limit - 1 > index {
        lemma_head_run_takes_an_opening(contents, limit - 1, index);
    } else if index > 0 {
        lemma_head_run_takes_an_opening(contents, index, index - 1);
        lemma_head_run_holds_no_call(contents, index);
    } else {
        assert(head_run(contents, 0) == 0);
    }
}

/// The range that is dropped lies inside the conversation, and what is kept behind it is
/// paired.
proof fn lemma_evicted(
    contents: Seq<ContentItem>,
    costs: Seq<usize>,
    available: int,
    keep_head: int,
    keep_recent_min: int,
)
    requires
        costs.len() == contents.len(),
        0 <= keep_head,
        0 <= available,
    ensures
        ({
            let range = evicted(contents, costs, available, keep_head, keep_recent_min);
            &&& 0 <= range.0 <= range.1 <= contents.len()
            &&& range.1 > range.0 ==> pairing_kept(contents, range.1)
            &&& forall|k: int| 0 <= k < range.0 ==> !(#[trigger] contents[k] is ToolCall)
        }),
{
    lemma_head_end(contents, keep_head);
    let head = head_end(contents, keep_head);
    lemma_safe_tail(contents, costs, head, available, keep_recent_min);
    let tail = safe_tail(contents, costs, head, available, keep_recent_min);
    lemma_next_user(contents, tail);
    lemma_last_user(contents, tail);
    if contents.len() > 0 {
        lemma_safe_tail(contents, costs, 1, available, keep_recent_min);
    } else {
        assert(costs =~= seq![]);
        assert(total(costs) == 0);
    }
}

/// Eviction never separates a tool result from a call it answers, in any conversation whose
/// calls stand before their results.
pub proof fn eviction_keeps_results_with_their_calls(
    contents: Seq<ContentItem>,
    costs: Seq<usize>,
    available: int,
    keep_head: int,
    keep_recent_min: int,
)
    requires
        costs.len() == contents.len(),
        0 <= keep_head,
        0 <= available,
        calls_come_first(contents),
    ensures
        ({
            let range = evicted(contents, costs, available, keep_head, keep_recent_min);
            forall|r: int, c: int|
                0 <= r < contents.len() && 0 <= c < contents.len() && #[trigger] answers(
                    contents[r],
                    contents[c],
                ) && outside(r, range) ==> outside(c, range)
        }),
{
    lemma_evicted(contents, costs, available, keep_head, keep_recent_min);
}

/// The opening items that hold no tool call, up to `keep_head` of them, always survive.
pub proof fn eviction_keeps_the_head(
    contents: Seq<ContentItem>,
    costs: Seq<usize>,
    available: int,
    keep_head: int,
    keep_recent_min: int,
    index: int,
)
    requires
        costs.len() == contents.len(),
        0 <= available,
        0 <= index < keep_head,
        index < contents.len(),
        forall|k: int| 0 <= k <= index ==> !(#[trigger] contents[k] is ToolCall),
    ensures
        outside(index, evicted(contents, costs, available, keep_head, keep_recent_min)),
{
    lemma_head_end(contents, keep_head);
    lemma_head_run_takes_an_opening(contents, if keep_head <= contents.len() {
        keep_head
    } else {
        contents.len() as int
    }, index);
}

/// Whether eviction can make the kept part open on a user message: the conversation opens on one,
/// or nothing is pinned before one that stands in the tail or behind it, at a place where no tool
/// result loses its call.
pub open spec fn can_open_on_a_user_message(
    contents: Seq<ContentItem>,
    costs: Seq<usize>,
    available: int,
    keep_head: int,
    keep_recent_min: int,
) -> bool {
    let tail = safe_tail(contents, costs, 0, available, keep_recent_min);
    ||| contents.len() > 0 && user_message(contents[0])
    ||| head_end(contents, keep_head) == 0 && total(costs) > available && {
        ||| next_user(contents, tail) matches Some(at) && pairing_kept(contents, at)
        ||| last_user(contents, tail) is Some
    }
}

/// What is left of a conversation opens on a user message, wherever one can be found for it to
/// open on and anything is left: neither the budget nor the floor on recent items outranks that.
pub proof fn eviction_opens_on_a_user_message(
    contents: Seq<ContentItem>,
    costs: Seq<usize>,
    available: int,
    keep_head: int,
    keep_recent_min: int,
)
    requires
        costs.len() == contents.len(),
        0 <= keep_head,
        0 <= available,
        can_open_on_a_user_message(contents, costs, available, keep_head, keep_recent_min),
    ensures
        ({
            let kept = without(
                contents,
                evicted(contents, costs, available, keep_head, keep_recent_min),
            );
            kept.len() > 0 ==> user_message(kept[0])
        }),
{
    lemma_evicted(contents, costs, available, keep_head, keep_recent_min);
    lemma_head_end(contents, keep_head);
    let head = head_end(contents, keep_head);
    lemma_safe_tail(contents, costs, head, available, keep_recent_min);
    let tail = safe_tail(contents, costs, head, available, keep_recent_min);
    lemma_next_user(contents, tail);
    lemma_last_user(contents, tail);
}

/// A conversation that already fits is left as it is.
pub proof fn eviction_leaves_a_fitting_conversation_alone(
    contents: Seq<ContentItem>,
    costs: Seq<usize>,
    available: int,
    keep_head: int,
    keep_recent_min: int,
)
    requires
        total(costs) <= available,
    ensures
        without(contents, evicted(contents, costs, available, keep_head, keep_recent_min))
            == contents,
{
    assert(without(contents, (0, 0)) =~= contents);
}

proof fn lemma_reach_back_takes_the_floor(
    costs: Seq<usize>,
    head: int,
    budget: int,
    keep_recent_min: int,
    from: int,
)
    requires
        0 <= head <= from <= costs.len(),
    ensures
        ({
            let reached = reach_back(costs, head, budget, keep_recent_min, from);
            reached == head || costs.len() - reached >= keep_recent_min
        }),
    decreases from - head,
{
    if from > head && affordable(costs, from - 1, budget, keep_recent_min) {
        lemma_reach_back_takes_the_floor(costs, head, budget, keep_recent_min, from - 1);
    }
}

/// Whether a user message is found only ahead, within the last `keep_recent_min` items: the kept
/// part cannot both open on it and hold all of these.
pub open spec fn opens_within_the_floor(
    contents: Seq<ContentItem>,
    costs: Seq<usize>,
    available: int,
    keep_head: int,
    keep_recent_min: int,
) -> bool {
    let tail = safe_tail(contents, costs, 0, available, keep_recent_min);
    &&& head_end(contents, keep_head) == 0
    &&& total(costs) > available
    &&& tail < contents.len()
    &&& !user_message(contents[tail])
    &&& !user_message(contents[0])
    &&& last_user(contents, tail) is None
    &&& next_user(contents, tail) matches Some(at) && pairing_kept(contents, at)
        && contents.len() - at < keep_recent_min
}

/// The last `keep_recent_min` items always survive, unless the only user message to open on
/// stands among them.
pub proof fn eviction_keeps_recent_items(
    contents: Seq<ContentItem>,
    costs: Seq<usize>,
    available: int,
    keep_head: int,
    keep_recent_min: int,
)
    requires
        costs.len() == contents.len(),
        0 <= keep_head,
        0 <= available,
        !opens_within_the_floor(contents, costs, available, keep_head, keep_recent_min),
    ensures
        ({
            let range = evicted(contents, costs, available, keep_head, keep_recent_min);
            forall|i: int|
                0 <= i < contents.len() && contents.len() - i <= keep_recent_min ==> outside(
                    i,
                    range,
                )
        }),
{
    lemma_head_end(contents, keep_head);
    let head = head_end(contents, keep_head);
    lemma_safe_tail(contents, costs, head, available, keep_recent_min);
    lemma_last_user(contents, safe_tail(contents, costs, head, available, keep_recent_min));
    lemma_reach_back_takes_the_floor(
        costs,
        head,
        tail_budget(costs, head, available),
        keep_recent_min,
        costs.len() as int,
    );
    if contents.len() > 0 {
        lemma_safe_tail(contents, costs, 1, available, keep_recent_min);
        lemma_reach_back_takes_the_floor(
            costs,
            1,
            tail_budget(costs, 1, available),
            keep_recent_min,
            costs.len() as int,
        );
    }
}

proof fn lemma_skip_total_monotone(costs: Seq<usize>, i: int, j: int)
    requires
        0 <= i <= j <= costs.len(),
    ensures
        total(costs.skip(j)) <= total(costs.skip(i)),
    decreases j - i,
{
    if i < j {
        lemma_skip_total(costs, i);
        lemma_skip_total_monotone(costs, i + 1, j);
    }
}

/// Whether eviction has to go back behind the tail for a user message to open on.
pub open spec fn goes_back(
    contents: Seq<ContentItem>,
    costs: Seq<usize>,
    available: int,
    keep_head: int,
    keep_recent_min: int,
) -> bool {
    let tail = safe_tail(contents, costs, 0, available, keep_recent_min);
    &&& head_end(contents, keep_head) == 0
    &&& tail < contents.len()
    &&& !user_message(contents[tail])
    &&& !user_message(contents[0])
    &&& last_user(contents, tail) is Some
    &&& !(next_user(contents, tail) matches Some(at) && opens_at(contents, at, keep_recent_min))
}

/// What eviction keeps costs no more than is available, whenever the pinned head and the last
/// `keep_recent_min` items alone do not, the boundary the budget allows splits no tool call from
/// its result, and no item behind it is needed to open on a user message.
pub proof fn eviction_meets_the_budget(
    contents: Seq<ContentItem>,
    costs: Seq<usize>,
    available: int,
    keep_head: int,
    keep_recent_min: int,
)
    requires
        costs.len() == contents.len(),
        0 <= keep_head,
        0 <= available,
        0 <= keep_recent_min <= costs.len(),
        ({
            let head = evicted(contents, costs, available, keep_head, keep_recent_min).0;
            &&& total(costs.take(head)) + total(costs.skip(costs.len() - keep_recent_min))
                <= available
            &&& pairing_kept(contents, tail_start(costs, head, available, keep_recent_min))
        }),
        !goes_back(contents, costs, available, keep_head, keep_recent_min),
    ensures
        total(without(costs, evicted(contents, costs, available, keep_head, keep_recent_min)))
            <= available,
{
    let range = evicted(contents, costs, available, keep_head, keep_recent_min);
    lemma_evicted(contents, costs, available, keep_head, keep_recent_min);
    let head = range.0;
    let budget = tail_budget(costs, head, available);
    let reached = tail_start(costs, head, available, keep_recent_min);
    lemma_head_end(contents, keep_head);
    lemma_safe_tail(contents, costs, head, available, keep_recent_min);
    lemma_safe_tail(contents, costs, 0, available, keep_recent_min);
    lemma_next_user(contents, safe_tail(contents, costs, 0, available, keep_recent_min));
    lemma_reach_back_bounds(costs, head, budget, keep_recent_min, costs.len() as int);
    if total(costs) <= available {
        assert(without(costs, (0int, 0int)) =~= costs);
    } else {
        assert(range.1 >= reached);
        lemma_skip_total_monotone(costs, reached, range.1);
        if reached < costs.len() {
            assert(affordable(costs, reached, budget, keep_recent_min));
            if costs.len() - reached <= keep_recent_min {
                lemma_skip_total_monotone(costs, costs.len() - keep_recent_min, reached);
            }
        } else {
            assert(costs.skip(reached) =~= seq![]);
        }
        lemma_total_append(costs.take(head), costs.skip(range.1));
    }
}

/// Eviction drops no more than it must: keeping one item more than it keeps behind the pinned head
/// would cost more than is available. The one exception is a cut that was moved forward to open
/// on a user message: then the items from where the budget alone would have cut, up to that
/// message, hold no other.
pub proof fn eviction_drops_no_more_than_it_must(
    contents: Seq<ContentItem>,
    costs: Seq<usize>,
    available: int,
    keep_head: int,
    keep_recent_min: int,
)
    requires
        costs.len() == contents.len(),
        0 <= keep_head,
        0 <= available,
        ({
            let range = evicted(contents, costs, available, keep_head, keep_recent_min);
            range.0 < range.1
        }),
    ensures
        ({
            let (head, tail) = evicted(contents, costs, available, keep_head, keep_recent_min);
            ||| total(costs.take(head)) + total(costs.skip(tail - 1)) > available
            ||| head == 0 && tail < contents.len() && user_message(contents[tail]) && exists|cut: int|
                {
                    &&& 0 <= cut < tail
                    &&& #[trigger] is_clear_of_users(contents, cut, tail)
                    &&& cut > 0 ==> total(costs.skip(cut - 1)) > available
                }
        }),
{
    let range = evicted(contents, costs, available, keep_head, keep_recent_min);
    lemma_evicted(contents, costs, available, keep_head, keep_recent_min);
    lemma_head_end(contents, keep_head);
    let pinned = head_end(contents, keep_head);
    let tail = safe_tail(contents, costs, pinned, available, keep_recent_min);
    lemma_cut_is_needed(contents, costs, pinned, available, keep_recent_min);
    if contents.len() > 0 {
        lemma_cut_is_needed(contents, costs, 1, available, keep_recent_min);
    }
    lemma_safe_tail(contents, costs, pinned, available, keep_recent_min);
    lemma_next_user(contents, tail);
    lemma_last_user(contents, tail);
    assert(costs.take(0) =~= seq![]);
    if pinned == 0 && tail < contents.len() && !user_message(contents[tail]) {
        lemma_clear_of_users(contents, tail);
        if range.0 == 0 && range.1 <= tail {
            lemma_skip_total_monotone(costs, range.1 - 1, tail - 1);
        }
    }
}

/// Whether no item from `from` up to `to` is a user message.
pub open spec fn is_clear_of_users(contents: Seq<ContentItem>, from: int, to: int) -> bool {
    forall|i: int| from <= i < to ==> !user_message(#[trigger] contents[i])
}

proof fn lemma_clear_of_users(contents: Seq<ContentItem>, from: int)
    requires
        0 <= from <= contents.len(),
    ensures
        next_user(contents, from) matches Some(at) ==> is_clear_of_users(contents, from, at),
    decreases contents.len() - from,
{
    if from < contents.len() && !user_message(contents[from]) {
        lemma_clear_of_users(contents, from + 1);
    }
}

proof fn lemma_cut_is_needed(
    contents: Seq<ContentItem>,
    costs: Seq<usize>,
    head: int,
    available: int,
    keep_recent_min: int,
)
    requires
        costs.len() == contents.len(),
        0 <= head <= costs.len(),
        0 <= available,
    ensures
        ({
            let tail = safe_tail(contents, costs, head, available, keep_recent_min);
            tail > head ==> total(costs.take(head)) + total(costs.skip(tail - 1)) > available
        }),
{
    let budget = tail_budget(costs, head, available);
    let reached = tail_start(costs, head, available, keep_recent_min);
    let tail = safe_tail(contents, costs, head, available, keep_recent_min);
    lemma_safe_tail(contents, costs, head, available, keep_recent_min);
    lemma_reach_back_bounds(costs, head, budget, keep_recent_min, costs.len() as int);
    if tail > head {
        assert(!affordable(costs, reached - 1, budget, keep_recent_min));
        lemma_skip_total_monotone(costs, tail - 1, reached - 1);
    }
}

/// Dropping one range from a conversation and from its costs keeps the two in step.
pub proof fn dropping_a_range_keeps_costs_in_step(
    contents: Seq<ContentItem>,
    costs: Seq<usize>,
    range: (int, int),
)
    requires
        costs_match(costs, contents),
        0 <= range.0 <= range.1 <= contents.len(),
    ensures
        costs_match(without(costs, range), without(contents, range)),
{
    let left = without(costs, range);
    let right = without(contents, range);
    assert forall|i: int| 0 <= i < right.len() implies #[trigger] left[i] == cost_of(right[i]) by {
        if i < range.0 {
            assert(costs[i] == cost_of(contents[i]));
        } else {
            let k = i - range.0 + range.1;
            assert(costs[k] == cost_of(contents[k]));
        }
    }
}

} // verus!

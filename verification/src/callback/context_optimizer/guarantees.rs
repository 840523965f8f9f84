//! What holds of the optimizer as a whole, whichever of its stages did the work.

use vstd::prelude::*;

use crate::agent::continuity::value_for;
use crate::agent::{continuity_text, ContentItem, ExecutionContext, LlmRequest};
use crate::callback::context_optimizer::compaction::noted;
use crate::callback::context_optimizer::eviction::{
    calls_come_first, evicted, eviction_drops_no_more_than_it_must,
    eviction_keeps_results_with_their_calls, eviction_keeps_the_head, is_clear_of_users, next_user,
    outside, user_message, without,
};
use crate::callback::context_optimizer::safety::{answers, safe_start_is_greatest};
use crate::callback::context_optimizer::summarization::{
    a_recap_is_remembered, a_recap_keeps_results_with_their_calls, lemma_recent_is_a_count, plan,
    recap_range, recapped, usable, Plan, SummaryTask,
};
use crate::callback::context_optimizer::tokens::{
    contents_cost, cost_of, costs_of, fixed_cost, matching_costs_sum_to_the_conversation,
    request_bound, request_cost, request_encodable, total,
};
use crate::callback::context_optimizer::{ContextOptimizer, OptimizerStep, Outcome};
use crate::json::Json;

verus! {

/// Whether every tool result stands behind a call that it answers, as providers ask for.
pub open spec fn well_paired(contents: Seq<ContentItem>) -> bool {
    &&& calls_come_first(contents)
    &&& forall|r: int|
        0 <= r < contents.len() && (#[trigger] contents[r]) is ToolResult ==> is_answered(
            contents,
            r,
        )
}

/// Whether a call stands in the conversation that the item at `r` answers.
pub open spec fn is_answered(contents: Seq<ContentItem>, r: int) -> bool {
    exists|c: int| 0 <= c < contents.len() && #[trigger] answers(contents[r], contents[c])
}

/// Where the item at `k` stood before a range was dropped.
spec fn origin(range: (int, int), k: int) -> int {
    if k < range.0 {
        k
    } else {
        k + (range.1 - range.0)
    }
}

/// Where the item at `k` stands once a range that does not hold it was dropped.
spec fn image(range: (int, int), k: int) -> int {
    if k < range.0 {
        k
    } else {
        k - (range.1 - range.0)
    }
}

proof fn lemma_dropping_keeps_pairs(contents: Seq<ContentItem>, range: (int, int))
    requires
        well_paired(contents),
        0 <= range.0 <= range.1 <= contents.len(),
        forall|r: int, c: int|
            0 <= r < contents.len() && 0 <= c < contents.len() && #[trigger] answers(
                contents[r],
                contents[c],
            ) && outside(r, range) ==> outside(c, range),
    ensures
        well_paired(without(contents, range)),
{
    let kept = without(contents, range);
    assert forall|k: int| 0 <= k < kept.len() implies #[trigger] kept[k] == contents[origin(
        range,
        k,
    )] by {}
    assert forall|r: int, c: int|
        0 <= r < kept.len() && 0 <= c < kept.len() && #[trigger] answers(
            kept[r],
            kept[c],
        ) implies c < r by {
        let (was_r, was_c) = (origin(range, r), origin(range, c));
        assert(answers(contents[was_r], contents[was_c]));
    }
    assert forall|r: int| 0 <= r < kept.len() && (#[trigger] kept[r]) is ToolResult implies is_answered(
        kept,
        r,
    ) by {
        let was = origin(range, r);
        assert(is_answered(contents, was));
        let c = choose|c: int|
            0 <= c < contents.len() && #[trigger] answers(contents[was], contents[c]);
        assert(outside(was, range));
        assert(outside(c, range));
        let now = image(range, c);
        assert(kept[now] == contents[c]);
        assert(answers(kept[r], kept[now]));
    }
}

proof fn lemma_compaction_keeps_pairs<D: Fn(&Json) -> String>(
    optimizer: ContextOptimizer<D>,
    before: LlmRequest,
    after: LlmRequest,
)
    requires
        optimizer.compacts(before, after),
        well_paired(before.contents@),
    ensures
        well_paired(after.contents@),
{
    let (old_items, new_items) = (before.contents@, after.contents@);
    match optimizer.compactor() {
        None => {},
        Some(stage) => {
            assert forall|i: int| 0 <= i < old_items.len() implies (#[trigger] new_items[i]
                == old_items[i] || (old_items[i] is ToolResult && new_items[i] is ToolResult
                && new_items[i]->ToolResult_tool_call_id == old_items[i]->ToolResult_tool_call_id)) by {
                assert(noted(stage.due_at(old_items, i), old_items[i], new_items[i]));
            }
            assert forall|r: int, c: int|
                0 <= r < new_items.len() && 0 <= c < new_items.len() && #[trigger] answers(
                    new_items[r],
                    new_items[c],
                ) implies c < r by {
                assert(new_items[r] == new_items[r] && new_items[c] == new_items[c]);
                assert(answers(old_items[r], old_items[c]));
            }
            assert forall|r: int|
                0 <= r < new_items.len() && (#[trigger] new_items[r]) is ToolResult implies is_answered(
                new_items,
                r,
            ) by {
                assert(is_answered(old_items, r));
                let c = choose|c: int|
                    0 <= c < old_items.len() && #[trigger] answers(old_items[r], old_items[c]);
                assert(new_items[c] == old_items[c]);
                assert(answers(new_items[r], new_items[c]));
            }
        },
    }
}

proof fn lemma_recap_keeps_pairs(
    before: LlmRequest,
    after: LlmRequest,
    keep_recent: int,
    from: int,
    to: int,
    summary: Seq<char>,
)
    requires
        well_paired(before.contents@),
        0 <= keep_recent,
        recap_range(before.contents@, keep_recent) == Some((from, to)),
        0 <= from <= to <= before.contents@.len(),
        recapped(before, after, from, to, summary),
    ensures
        well_paired(after.contents@),
{
    a_recap_keeps_results_with_their_calls(before.contents@, keep_recent, from, to);
    lemma_dropping_keeps_pairs(before.contents@, (from, to));
}

proof fn lemma_eviction_keeps_pairs<D: Fn(&Json) -> String>(
    optimizer: ContextOptimizer<D>,
    before: LlmRequest,
    after: LlmRequest,
    outcome: Outcome,
)
    requires
        well_paired(before.contents@),
        optimizer.evicts(before, after, outcome),
    ensures
        well_paired(after.contents@),
{
    let contents = before.contents@;
    let costs = costs_of(contents);
    let range = evicted(
        contents,
        costs,
        optimizer.available(before),
        optimizer.head(),
        optimizer.recent_floor(),
    );
    eviction_keeps_results_with_their_calls(
        contents,
        costs,
        optimizer.available(before),
        optimizer.head(),
        optimizer.recent_floor(),
    );
    lemma_dropping_keeps_pairs(contents, range);
}

proof fn lemma_next_user_is_in_range(contents: Seq<ContentItem>, start: int)
    requires
        0 <= start,
    ensures
        next_user(contents, start) matches Some(at) ==> start <= at < contents.len(),
    decreases contents.len() - start,
{
    if start < contents.len() && !user_message(contents[start]) {
        lemma_next_user_is_in_range(contents, start + 1);
    }
}

proof fn lemma_recap_range_is_in_range(contents: Seq<ContentItem>, keep_recent: int)
    requires
        0 <= keep_recent,
    ensures
        recap_range(contents, keep_recent) matches Some((from, to)) ==> 0 < from < to
            <= contents.len() - keep_recent,
{
    lemma_next_user_is_in_range(contents, 0);
    if contents.len() > keep_recent {
        safe_start_is_greatest(contents, contents.len() - keep_recent);
    }
}

/// Whatever the optimizer does to a request without asking a model, no tool result is left
/// without the call it answers. Where a model is to be asked, it is about a stretch that can be
/// replaced without separating any.
pub proof fn no_result_loses_its_call<D: Fn(&Json) -> String>(
    optimizer: ContextOptimizer<D>,
    context: &ExecutionContext,
    before: LlmRequest,
    compacted: LlmRequest,
    after: LlmRequest,
    step: OptimizerStep,
)
    requires
        well_paired(before.contents@),
        optimizer.compacts(before, compacted),
        optimizer.continues(context, compacted, after, step),
    ensures
        well_paired(after.contents@),
        step matches OptimizerStep::Ask(pending) ==> (optimizer.summarizer() matches Some(stage)
            && recap_range(after.contents@, stage.recent()) == Some(pending.asked().range())),
{
    lemma_compaction_keeps_pairs(optimizer, before, compacted);
    if request_cost(compacted) > optimizer.budget() {
        match optimizer.summarizer() {
            None => {
                lemma_eviction_keeps_pairs(optimizer, compacted, after, step->Finished_0);
            },
            Some(stage) => {
                let key = continuity_text(context.continuity());
                let progress = usable(value_for(stage.remembered(), key), compacted.contents@);
                lemma_recent_is_a_count(stage);
                lemma_recap_range_is_in_range(compacted.contents@, stage.recent());
                match plan(recap_range(compacted.contents@, stage.recent()), progress) {
                    Plan::Decline => {
                        lemma_settling_keeps_pairs(optimizer, compacted, after, step->Finished_0);
                    },
                    Plan::Reuse(from, to) => {
                        let recap = choose|recap: LlmRequest| #[trigger]
                            recapped(compacted, recap, from, to, progress.summary)
                                && optimizer.settles(recap, after, step->Finished_0);
                        lemma_recap_keeps_pairs(
                            compacted,
                            recap,
                            stage.recent(),
                            from,
                            to,
                            progress.summary,
                        );
                        lemma_settling_keeps_pairs(optimizer, recap, after, step->Finished_0);
                    },
                    Plan::Ask(_, _, _) => {},
                }
            },
        }
    }
}

proof fn lemma_settling_keeps_pairs<D: Fn(&Json) -> String>(
    optimizer: ContextOptimizer<D>,
    before: LlmRequest,
    after: LlmRequest,
    outcome: Outcome,
)
    requires
        well_paired(before.contents@),
        optimizer.settles(before, after, outcome),
    ensures
        well_paired(after.contents@),
{
    if request_bound(before) <= usize::MAX && request_encodable(before) && request_cost(before)
        > optimizer.budget() {
        lemma_eviction_keeps_pairs(optimizer, before, after, outcome);
    }
}

/// Once a model has been asked, whatever it answered and whether it answered at all, no tool
/// result is left without the call it answers.
pub proof fn no_result_loses_its_call_to_a_recap<D: Fn(&Json) -> String>(
    optimizer: ContextOptimizer<D>,
    before: LlmRequest,
    recap: Option<(LlmRequest, Seq<char>)>,
    keep_recent: int,
    from: int,
    to: int,
    after: LlmRequest,
    outcome: Outcome,
)
    requires
        well_paired(before.contents@),
        0 <= keep_recent,
        recap_range(before.contents@, keep_recent) == Some((from, to)),
        match recap {
            Some((request, summary)) => recapped(before, request, from, to, summary)
                && optimizer.settles(request, after, outcome),
            None => optimizer.evicts(before, after, outcome),
        },
    ensures
        well_paired(after.contents@),
{
    lemma_recap_range_is_in_range(before.contents@, keep_recent);
    match recap {
        Some((request, summary)) => {
            lemma_recap_keeps_pairs(before, request, keep_recent, from, to, summary);
            lemma_settling_keeps_pairs(optimizer, request, after, outcome);
        },
        None => lemma_eviction_keeps_pairs(optimizer, before, after, outcome),
    }
}

/// Whether a conversation opens on `task`.
pub open spec fn opens_on(contents: Seq<ContentItem>, task: ContentItem) -> bool {
    contents.len() > 0 && contents[0] == task
}

proof fn lemma_eviction_keeps_the_task<D: Fn(&Json) -> String>(
    optimizer: ContextOptimizer<D>,
    before: LlmRequest,
    after: LlmRequest,
    outcome: Outcome,
    task: ContentItem,
)
    requires
        task is Message,
        opens_on(before.contents@, task),
        optimizer.head() > 0,
        optimizer.evicts(before, after, outcome),
    ensures
        opens_on(after.contents@, task),
{
    let contents = before.contents@;
    let range = evicted(
        contents,
        costs_of(contents),
        optimizer.available(before),
        optimizer.head(),
        optimizer.recent_floor(),
    );
    eviction_keeps_the_head(
        contents,
        costs_of(contents),
        optimizer.available(before),
        optimizer.head(),
        optimizer.recent_floor(),
        0,
    );
    assert(outside(0, range));
}

proof fn lemma_settling_keeps_the_task<D: Fn(&Json) -> String>(
    optimizer: ContextOptimizer<D>,
    before: LlmRequest,
    after: LlmRequest,
    outcome: Outcome,
    task: ContentItem,
)
    requires
        task is Message,
        opens_on(before.contents@, task),
        optimizer.head() > 0,
        optimizer.settles(before, after, outcome),
    ensures
        opens_on(after.contents@, task),
{
    if request_bound(before) <= usize::MAX && request_encodable(before) && request_cost(before)
        > optimizer.budget() {
        lemma_eviction_keeps_the_task(optimizer, before, after, outcome, task);
    }
}

/// The opening message survives whatever the optimizer does without asking a model, as long as
/// the head is pinned.
pub proof fn the_task_survives<D: Fn(&Json) -> String>(
    optimizer: ContextOptimizer<D>,
    context: &ExecutionContext,
    before: LlmRequest,
    compacted: LlmRequest,
    after: LlmRequest,
    step: OptimizerStep,
    task: ContentItem,
)
    requires
        task is Message,
        opens_on(before.contents@, task),
        optimizer.head() > 0,
        optimizer.compacts(before, compacted),
        optimizer.continues(context, compacted, after, step),
    ensures
        opens_on(after.contents@, task),
{
    match optimizer.compactor() {
        Some(stage) => {
            assert(noted(
                stage.due_at(before.contents@, 0),
                before.contents@[0],
                compacted.contents@[0],
            ));
        },
        None => {},
    }
    if request_cost(compacted) > optimizer.budget() {
        match optimizer.summarizer() {
            None => {
                lemma_eviction_keeps_the_task(optimizer, compacted, after, step->Finished_0, task);
            },
            Some(stage) => {
                let key = continuity_text(context.continuity());
                let progress = usable(value_for(stage.remembered(), key), compacted.contents@);
                lemma_recent_is_a_count(stage);
                lemma_recap_range_is_in_range(compacted.contents@, stage.recent());
                match plan(recap_range(compacted.contents@, stage.recent()), progress) {
                    Plan::Decline => {
                        lemma_settling_keeps_the_task(
                            optimizer,
                            compacted,
                            after,
                            step->Finished_0,
                            task,
                        );
                    },
                    Plan::Reuse(from, to) => {
                        let recap = choose|recap: LlmRequest| #[trigger]
                            recapped(compacted, recap, from, to, progress.summary)
                                && optimizer.settles(recap, after, step->Finished_0);
                        assert(opens_on(recap.contents@, task));
                        lemma_settling_keeps_the_task(
                            optimizer,
                            recap,
                            after,
                            step->Finished_0,
                            task,
                        );
                    },
                    Plan::Ask(_, _, _) => {},
                }
            },
        }
    }
}

/// The opening message survives a recap too, whatever a model answered and whether it answered
/// at all, as long as the head is pinned.
pub proof fn the_task_survives_a_recap<D: Fn(&Json) -> String>(
    optimizer: ContextOptimizer<D>,
    before: LlmRequest,
    recap: Option<(LlmRequest, Seq<char>)>,
    keep_recent: int,
    from: int,
    to: int,
    after: LlmRequest,
    outcome: Outcome,
    task: ContentItem,
)
    requires
        task is Message,
        opens_on(before.contents@, task),
        optimizer.head() > 0,
        0 <= keep_recent,
        recap_range(before.contents@, keep_recent) == Some((from, to)),
        match recap {
            Some((request, summary)) => recapped(before, request, from, to, summary)
                && optimizer.settles(request, after, outcome),
            None => optimizer.evicts(before, after, outcome),
        },
    ensures
        opens_on(after.contents@, task),
{
    lemma_recap_range_is_in_range(before.contents@, keep_recent);
    match recap {
        Some((request, _)) => {
            assert(opens_on(request.contents@, task));
            lemma_settling_keeps_the_task(optimizer, request, after, outcome, task);
        },
        None => lemma_eviction_keeps_the_task(optimizer, before, after, outcome, task),
    }
}

/// A request that the optimizer reports as brought within budget is within budget: only one
/// that it reports as over, or could not count, is not.
pub proof fn what_is_reported_within_budget_is<D: Fn(&Json) -> String>(
    optimizer: ContextOptimizer<D>,
    context: &ExecutionContext,
    compacted: LlmRequest,
    after: LlmRequest,
    outcome: Outcome,
)
    requires
        optimizer.continues(context, compacted, after, OptimizerStep::Finished(outcome)),
    ensures
        match outcome {
            Outcome::Evicted { over, .. } => over == (request_cost(after) > optimizer.budget()),
            Outcome::Uncountable => true,
            _ => request_cost(after) <= optimizer.budget(),
        },
{
}

/// A request that can be counted and costs no more than the budget is left as it is, and is reported
/// so; one that costs more never is.
pub proof fn a_request_within_budget_is_left_alone<D: Fn(&Json) -> String>(
    optimizer: ContextOptimizer<D>,
    context: &ExecutionContext,
    before: LlmRequest,
    after: LlmRequest,
    step: OptimizerStep,
    next: ContextOptimizer<D>,
)
    requires
        optimizer.treats(context, before, after, step, next),
        request_bound(before) <= usize::MAX,
        request_encodable(before),
        request_cost(before) <= request_bound(before),
    ensures
        request_cost(before) <= optimizer.budget() ==> after == before && step
            == OptimizerStep::Finished(Outcome::AlreadyFits) && next.summarizer()
            == optimizer.summarizer(),
        request_cost(before) > optimizer.budget() ==> step != OptimizerStep::Finished(
            Outcome::AlreadyFits,
        ),
{
    if request_cost(before) > optimizer.budget() {
        let compacted = choose|compacted: LlmRequest| #[trigger]
            optimizer.compacts(before, compacted) && optimizer.continues(
                context,
                compacted,
                after,
                step,
            ) && optimizer.remembers(context, compacted, next);
        assert(optimizer.continues(context, compacted, after, step));
    }
}

/// The instructions are never touched, but for a recap that follows them.
pub proof fn the_instructions_stay<D: Fn(&Json) -> String>(
    optimizer: ContextOptimizer<D>,
    context: &ExecutionContext,
    before: LlmRequest,
    after: LlmRequest,
    step: OptimizerStep,
    next: ContextOptimizer<D>,
    i: int,
)
    requires
        optimizer.treats(context, before, after, step, next),
        0 <= i < before.instructions@.len(),
    ensures
        before.instructions@.len() <= after.instructions@.len() <= before.instructions@.len() + 1,
        after.instructions@[i] == before.instructions@[i],
{
    if after != before {
        let compacted = choose|compacted: LlmRequest| #[trigger]
            optimizer.compacts(before, compacted) && optimizer.continues(
                context,
                compacted,
                after,
                step,
            ) && optimizer.remembers(context, compacted, next);
        assert(compacted.instructions == before.instructions);
        if request_cost(compacted) > optimizer.budget() {
            match optimizer.summarizer() {
                None => {},
                Some(stage) => {
                    let key = continuity_text(context.continuity());
                    let progress = usable(value_for(stage.remembered(), key), compacted.contents@);
                    match plan(recap_range(compacted.contents@, stage.recent()), progress) {
                        Plan::Decline => {},
                        Plan::Reuse(from, to) => {
                            let outcome = step->Finished_0;
                            let recap = choose|recap: LlmRequest| #[trigger]
                                recapped(compacted, recap, from, to, progress.summary)
                                    && optimizer.settles(recap, after, outcome);
                            assert(after.instructions == recap.instructions);
                            assert(recap.instructions@.drop_last()[i] == recap.instructions@[i]);
                        },
                        Plan::Ask(_, _, _) => {},
                    }
                },
            }
        }
    }
}

/// Whether `after` is `before` without the items from `head` up to `tail`, and with one item more
/// behind `head` the whole request would cost more than `budget`; or the cut was moved forward over
/// items that are no user messages, from where that holds, to open on one.
pub open spec fn had_to_go(
    before: LlmRequest,
    after: LlmRequest,
    head: int,
    tail: int,
    budget: int,
) -> bool {
    let contents = before.contents@;
    let fixed = fixed_cost(before.instructions@);
    &&& 0 <= head < tail <= contents.len()
    &&& after.contents@ == contents.take(head) + contents.skip(tail)
    &&& {
        ||| fixed + contents_cost(contents.take(head)) + contents_cost(contents.skip(tail - 1))
            > budget
        ||| head == 0 && tail < contents.len() && user_message(contents[tail]) && exists|cut: int|
            {
                &&& 0 <= cut < tail
                &&& #[trigger] is_clear_of_users(contents, cut, tail)
                &&& cut > 0 ==> fixed + contents_cost(contents.skip(cut - 1)) > budget
            }
    }
}

/// What is dropped had to go: with one item more behind the pinned head, the whole request, its
/// instructions counted, would cost more than the budget, unless the cut was moved forward over
/// items that are no user messages to open on one.
pub proof fn no_item_is_dropped_that_would_fit<D: Fn(&Json) -> String>(
    optimizer: ContextOptimizer<D>,
    before: LlmRequest,
    after: LlmRequest,
    outcome: Outcome,
)
    requires
        optimizer.evicts(before, after, outcome),
        forall|i: int|
            0 <= i < before.contents@.len() ==> cost_of(#[trigger] before.contents@[i])
                <= usize::MAX,
        after.contents@.len() < before.contents@.len(),
    ensures
        exists|head: int, tail: int| #[trigger]
            had_to_go(before, after, head, tail, optimizer.budget()),
{
    let contents = before.contents@;
    let costs = costs_of(contents);
    let fixed = fixed_cost(before.instructions@);
    let available = optimizer.available(before);
    optimizer.lemma_settings_are_counts();
    let (head, tail) = evicted(
        contents,
        costs,
        available,
        optimizer.head(),
        optimizer.recent_floor(),
    );
    assert(after.contents@ == without(contents, (head, tail)));
    eviction_drops_no_more_than_it_must(
        contents,
        costs,
        available,
        optimizer.head(),
        optimizer.recent_floor(),
    );
    assert(costs.take(head) =~= costs_of(contents.take(head)));
    lemma_costs_sum(contents.take(head));
    assert(costs.skip(tail - 1) =~= costs_of(contents.skip(tail - 1)));
    lemma_costs_sum(contents.skip(tail - 1));
    if !(total(costs.take(head)) + total(costs.skip(tail - 1)) > available) {
        let cut = choose|cut: int|
            {
                &&& 0 <= cut < tail
                &&& #[trigger] is_clear_of_users(contents, cut, tail)
                &&& cut > 0 ==> total(costs.skip(cut - 1)) > available
            };
        if cut > 0 {
            assert(costs.skip(cut - 1) =~= costs_of(contents.skip(cut - 1)));
            lemma_costs_sum(contents.skip(cut - 1));
        }
    }
    assert(had_to_go(before, after, head, tail, optimizer.budget()));
}

proof fn lemma_costs_sum(contents: Seq<ContentItem>)
    requires
        forall|i: int| 0 <= i < contents.len() ==> cost_of(#[trigger] contents[i]) <= usize::MAX,
    ensures
        total(costs_of(contents)) == contents_cost(contents),
{
    let costs = costs_of(contents);
    assert forall|i: int| 0 <= i < contents.len() implies #[trigger] costs[i] == cost_of(
        contents[i],
    ) by {
        assert(cost_of(contents[i]) <= usize::MAX);
    }
    matching_costs_sum_to_the_conversation(costs, contents);
}

/// A recap that came is remembered for its conversation, as far as it reaches; one that did not
/// come changes nothing that is remembered.
pub proof fn a_recap_that_came_is_remembered<D: Fn(&Json) -> String>(
    optimizer: ContextOptimizer<D>,
    asked: SummaryTask,
    contents: Seq<ContentItem>,
    summary: Option<Seq<char>>,
    next: ContextOptimizer<D>,
)
    requires
        optimizer.wf(),
        optimizer.learns(asked, contents, summary, next),
    ensures
        optimizer.summarizer() is Some && next.summarizer() is Some,
        summary is Some ==> (value_for(
            next.summarizer()->0.remembered(),
            asked.conversation(),
        ) matches Some(state) && state@.upto >= asked.range().1),
        summary is None ==> next.summarizer()->0.remembered()
            == optimizer.summarizer()->0.remembered(),
{
    match (optimizer.summarizer(), next.summarizer(), summary) {
        (Some(stage), Some(after), Some(said)) => a_recap_is_remembered(
            stage.remembered(),
            after.remembered(),
            asked.conversation(),
            contents,
            asked.range().1,
            said,
        ),
        _ => {},
    }
}

} // verus!

//! Keeping a request within its token budget.
//!
//! A request over budget goes through up to three stages, cheapest first: spent tool results
//! are rewritten as notes, the spent middle is replaced with a recap, and whatever is still
//! too much is dropped from the middle.

pub mod compaction;
pub mod eviction;
pub mod guarantees;
pub mod safety;
pub mod summarization;
pub mod tokens;

use vstd::prelude::*;

use crate::agent::continuity::value_for;
use crate::agent::{continuity_text, ContentItem, ExecutionContext, LlmRequest};
use crate::callback::context_optimizer::compaction::Compaction;
use crate::callback::context_optimizer::eviction::{
    dropping_a_range_keeps_costs_in_step, evict_middle_with_costs, evicted, without,
};
use crate::callback::context_optimizer::summarization::{
    covered, excerpt_text, looked_up, material_text, plan, recap_range, recapped, usable, Plan, Summarization,
    SummaryStep, SummaryTask, SUMMARY_PREAMBLE,
};
use crate::callback::context_optimizer::tokens::{
    can_encode_request, checked_request_bound, cost_of, costs_of,
    countable_conversation_has_countable_items, fixed_cost, ledger_total_is_the_request_cost,
    lists, request_bound, request_cost, request_encodable, Ledger,
};
use crate::json::Json;

verus! {

/// Leading items never dropped by default: the opening message is the task.
pub const DEFAULT_KEEP_HEAD: usize = 1;

/// Trailing items kept by default even when the budget says otherwise.
pub const DEFAULT_KEEP_RECENT_MIN: usize = 4;

/// Trailing items that compaction does not rewrite by default.
pub const DEFAULT_COMPACTION_KEEP_RECENT: usize = 4;

/// What became of a request.
#[derive(Debug, Clone, Copy, PartialEq, Eq, Structural)]
pub enum Outcome {
    /// It was within budget already and is unchanged.
    AlreadyFits,
    /// Rewriting spent tool results brought it within budget.
    Compacted,
    /// It is within budget after the summarization stage.
    Summarized,
    /// Items were dropped, or none could be. Where `over` is set the structural floors took
    /// precedence over the budget.
    Evicted { dropped: usize, over: bool },
    /// What it costs cannot be counted, for its size or for white space that the tokenizer
    /// cannot take; nothing further was done.
    Uncountable,
}

/// What remains to be done about a request.
#[derive(Debug)]
pub enum OptimizerStep {
    Finished(Outcome),
    /// A model has to be asked for a recap.
    Ask(PendingRecap),
}

/// A recap that a model is to be asked for, and the costs of the request meanwhile.
#[derive(Debug)]
pub struct PendingRecap {
    task: SummaryTask,
    ledger: Ledger,
}

impl PendingRecap {
    /// The recap that is to be asked for.
    pub closed spec fn asked(&self) -> SummaryTask {
        self.task
    }

    /// Whether this is about `request` as it stands.
    pub closed spec fn is_about(&self, request: LlmRequest) -> bool {
        &&& self.task.is_about(request.contents@)
        &&& self.ledger.describes(request)
    }

    /// What to ask for.
    pub fn task(&self) -> (task: &SummaryTask)
        ensures
            *task == self.asked(),
    {
        &self.task
    }
}

/// Brings requests within a token budget.
pub struct ContextOptimizer<D> {
    max_tokens: usize,
    keep_head: usize,
    keep_recent_min: usize,
    compaction: Option<Compaction<D>>,
    summarization: Option<Summarization>,
}

impl<D: Fn(&Json) -> String> ContextOptimizer<D> {
    /// Budget for the whole request, instructions included.
    pub closed spec fn budget(&self) -> int {
        self.max_tokens as int
    }

    /// How many leading items are never dropped.
    pub closed spec fn head(&self) -> int {
        self.keep_head as int
    }

    /// How many trailing items survive whatever the budget says.
    pub closed spec fn recent_floor(&self) -> int {
        self.keep_recent_min as int
    }

    /// The compaction stage, where there is one.
    pub closed spec fn compactor(&self) -> Option<Compaction<D>> {
        self.compaction
    }

    /// The summarization stage, where there is one.
    pub closed spec fn summarizer(&self) -> Option<Summarization> {
        self.summarization
    }

    /// The stages are in order, where they are there.
    pub open spec fn wf(&self) -> bool {
        &&& self.compactor() matches Some(stage) ==> stage.wf()
        &&& self.summarizer() matches Some(stage) ==> stage.wf()
    }

    /// Nothing but what the summarization stage remembers may have changed.
    pub open spec fn same_settings(&self, other: Self) -> bool {
        &&& self.budget() == other.budget()
        &&& self.head() == other.head()
        &&& self.recent_floor() == other.recent_floor()
        &&& self.compactor() == other.compactor()
        &&& match (self.summarizer(), other.summarizer()) {
            (Some(now), Some(then)) => now.same_settings(then),
            (None, None) => true,
            _ => false,
        }
    }

    /// `after` is what the compaction stage makes of `before`.
    pub open spec fn compacts(&self, before: LlmRequest, after: LlmRequest) -> bool {
        &&& after.instructions == before.instructions
        &&& match self.compactor() {
            Some(stage) => stage.compacts(before.contents@, after.contents@),
            None => after == before,
        }
    }

    /// What is left for the conversation once the instructions are paid for.
    pub open spec fn available(&self, request: LlmRequest) -> int {
        if fixed_cost(request.instructions@) >= self.budget() {
            0
        } else {
            self.budget() - fixed_cost(request.instructions@)
        }
    }

    /// `after` is `before` with its middle dropped as far as the budget asks for it.
    pub open spec fn evicts(&self, before: LlmRequest, after: LlmRequest, outcome: Outcome) -> bool {
        let range = evicted(
            before.contents@,
            costs_of(before.contents@),
            self.available(before),
            self.head(),
            self.recent_floor(),
        );
        &&& 0 <= range.0 <= range.1 <= before.contents@.len()
        &&& after.instructions == before.instructions
        &&& after.contents@ == without(before.contents@, range)
        &&& outcome == (Outcome::Evicted {
            dropped: (range.1 - range.0) as usize,
            over: request_cost(after) > self.budget(),
        })
    }

    /// `after` is what the last stage makes of `before`, which the summarization stage left.
    pub open spec fn settles(&self, before: LlmRequest, after: LlmRequest, outcome: Outcome) -> bool {
        if request_bound(before) > usize::MAX || !request_encodable(before) {
            after == before && outcome == Outcome::Uncountable
        } else if request_cost(before) <= self.budget() {
            after == before && outcome == Outcome::Summarized
        } else {
            self.evicts(before, after, outcome)
        }
    }

    /// None of the settings is a negative number.
    pub(crate) proof fn lemma_settings_are_counts(&self)
        ensures
            self.budget() >= 0,
            self.head() >= 0,
            self.recent_floor() >= 0,
    {
    }

    /// An optimizer with the default floors and compaction, and without summarization.
    pub fn new(max_tokens: usize) -> (optimizer: Self)
        ensures
            optimizer.wf(),
            optimizer.budget() == max_tokens,
            optimizer.head() == DEFAULT_KEEP_HEAD,
            optimizer.recent_floor() == DEFAULT_KEEP_RECENT_MIN,
            optimizer.compactor() matches Some(stage) && stage.recent()
                == DEFAULT_COMPACTION_KEEP_RECENT && stage.is_builtin(),
            optimizer.summarizer() is None,
    {
        ContextOptimizer {
            max_tokens,
            keep_head: DEFAULT_KEEP_HEAD,
            keep_recent_min: DEFAULT_KEEP_RECENT_MIN,
            compaction: Some(Compaction::new(DEFAULT_COMPACTION_KEEP_RECENT)),
            summarization: None,
        }
    }

    /// Enable the summarization stage, which asks `model` for a recap whenever compaction
    /// leaves the request over budget.
    #[must_use]
    pub fn with_summarization(self, model: String, keep_recent: usize) -> (optimizer: Self)
        ensures
            optimizer.budget() == self.budget(),
            optimizer.head() == self.head(),
            optimizer.recent_floor() == self.recent_floor(),
            optimizer.compactor() == self.compactor(),
            optimizer.summarizer() matches Some(stage) && stage.wf() && stage.recent()
                == keep_recent && stage.model_name() == model@ && stage.remembered().len() == 0,
    {
        let mut optimizer = self;
        optimizer.summarization = Some(Summarization::new(model, keep_recent));
        optimizer
    }

    /// Pin `keep_head` leading items.
    #[must_use]
    pub fn with_keep_head(self, keep_head: usize) -> (optimizer: Self)
        ensures
            optimizer.head() == keep_head,
            optimizer.budget() == self.budget(),
            optimizer.recent_floor() == self.recent_floor(),
            optimizer.compactor() == self.compactor(),
            optimizer.summarizer() == self.summarizer(),
    {
        let mut optimizer = self;
        optimizer.keep_head = keep_head;
        optimizer
    }

    /// Keep at least `keep_recent_min` trailing items.
    #[must_use]
    pub fn with_keep_recent_min(self, keep_recent_min: usize) -> (optimizer: Self)
        ensures
            optimizer.recent_floor() == keep_recent_min,
            optimizer.budget() == self.budget(),
            optimizer.head() == self.head(),
            optimizer.compactor() == self.compactor(),
            optimizer.summarizer() == self.summarizer(),
    {
        let mut optimizer = self;
        optimizer.keep_recent_min = keep_recent_min;
        optimizer
    }

    /// Replace the compaction stage.
    #[must_use]
    pub fn with_compaction(self, compaction: Compaction<D>) -> (optimizer: Self)
        ensures
            optimizer.compactor() == Some(compaction),
            optimizer.budget() == self.budget(),
            optimizer.head() == self.head(),
            optimizer.recent_floor() == self.recent_floor(),
            optimizer.summarizer() == self.summarizer(),
    {
        let mut optimizer = self;
        optimizer.compaction = Some(compaction);
        optimizer
    }

    /// Leave the compaction stage out.
    #[must_use]
    pub fn without_compaction(self) -> (optimizer: Self)
        ensures
            optimizer.compactor() is None,
            optimizer.budget() == self.budget(),
            optimizer.head() == self.head(),
            optimizer.recent_floor() == self.recent_floor(),
            optimizer.summarizer() == self.summarizer(),
    {
        let mut optimizer = self;
        optimizer.compaction = None;
        optimizer
    }

    /// Budget for the whole request, instructions included.
    pub fn max_tokens(&self) -> (max: usize)
        ensures
            max == self.budget(),
    {
        self.max_tokens
    }

    /// Drop from the middle of `request` what the budget does not allow for.
    fn evict(&self, request: &mut LlmRequest, ledger: Ledger) -> (outcome: Outcome)
        requires
            ledger.describes(*old(request)),
        ensures
            self.evicts(*old(request), *final(request), outcome),
    {
        let mut ledger = ledger;
        let fixed: usize = ledger.fixed();
        let available: usize = if fixed >= self.max_tokens {
            0
        } else {
            self.max_tokens - fixed
        };
        let ghost before = *request;
        let ghost costs = ledger.costs();
        let ghost range = evicted(
            before.contents@,
            costs,
            available as int,
            self.head(),
            self.recent_floor(),
        );
        assert(costs =~= costs_of(before.contents@)) by {
            assert forall|i: int| 0 <= i < costs.len() implies costs[i] == costs_of(
                before.contents@,
            )[i] by {
                assert(costs[i] == cost_of(before.contents@[i]));
            }
        }
        let dropped: usize = evict_middle_with_costs(
            &mut request.contents,
            ledger.contents_mut(),
            available,
            self.keep_head,
            self.keep_recent_min,
        );
        proof {
            dropping_a_range_keeps_costs_in_step(before.contents@, costs, range);
            ledger_total_is_the_request_cost(ledger, *request);
        }
        let over = ledger.exceeds(self.max_tokens);
        Outcome::Evicted { dropped, over }
    }

    /// Measure `request` again after the summarization stage has changed it, and drop what is
    /// still too much.
    fn settle(&self, request: &mut LlmRequest) -> (outcome: Outcome)
        ensures
            self.settles(*old(request), *final(request), outcome),
    {
        if checked_request_bound(request).is_none() || !can_encode_request(request) {
            return Outcome::Uncountable;
        }
        proof {
            countable_conversation_has_countable_items(request.contents@);
        }
        let ledger = Ledger::new(request);
        proof {
            ledger_total_is_the_request_cost(ledger, *request);
        }
        if !ledger.exceeds(self.max_tokens) {
            return Outcome::Summarized;
        }
        self.evict(request, ledger)
    }

    /// Measure `request` and rewrite its spent tool results, where it is over budget.
    fn compact(&self, request: &mut LlmRequest) -> (measured: Result<Ledger, Outcome>)
        requires
            self.wf(),
        ensures
            ({
                let before = *old(request);
                if request_bound(before) <= self.budget() {
                    *final(request) == before && measured == Err::<Ledger, Outcome>(
                        Outcome::AlreadyFits,
                    )
                } else if request_bound(before) > usize::MAX || !request_encodable(before) {
                    *final(request) == before && measured == Err::<Ledger, Outcome>(
                        Outcome::Uncountable,
                    )
                } else if request_cost(before) <= self.budget() {
                    *final(request) == before && measured == Err::<Ledger, Outcome>(
                        Outcome::AlreadyFits,
                    )
                } else {
                    &&& self.compacts(before, *final(request))
                    &&& match measured {
                        Err(outcome) => outcome == Outcome::Compacted && request_cost(
                            *final(request),
                        ) <= self.budget(),
                        Ok(ledger) => ledger.describes(*final(request)) && request_cost(
                            *final(request),
                        ) > self.budget(),
                    }
                }
            }),
    {
        let bound: usize = match checked_request_bound(request) {
            Some(bound) => bound,
            None => return Err(Outcome::Uncountable),
        };
        if bound <= self.max_tokens {
            return Err(Outcome::AlreadyFits);
        }
        if !can_encode_request(request) {
            return Err(Outcome::Uncountable);
        }
        proof {
            countable_conversation_has_countable_items(request.contents@);
        }
        let mut ledger = Ledger::new(request);
        proof {
            ledger_total_is_the_request_cost(ledger, *request);
        }
        if !ledger.exceeds(self.max_tokens) {
            return Err(Outcome::AlreadyFits);
        }
        match &self.compaction {
            Some(stage) => {
                let ghost before = *request;
                let ghost costs = ledger.costs();
                let rewritten = stage.apply(request);
                ledger.refresh(&request.contents, &rewritten);
                proof {
                    assert forall|i: int| 0 <= i < request.contents@.len() implies #[trigger] ledger.costs()[i]
                        == cost_of(request.contents@[i]) by {
                        assert(costs[i] == cost_of(before.contents@[i]));
                        assert(lists(rewritten@, i) == (request.contents@[i]
                            != before.contents@[i]));
                    }
                    ledger_total_is_the_request_cost(ledger, *request);
                }
                if !ledger.exceeds(self.max_tokens) {
                    return Err(Outcome::Compacted);
                }
                Ok(ledger)
            },
            None => Ok(ledger),
        }
    }

    /// Bring `request` within budget as far as that needs no model; where a recap is needed,
    /// say what to ask for and go on with [`Self::resume`].
    pub fn call(&mut self, context: &ExecutionContext, request: &mut LlmRequest) -> (step:
        OptimizerStep)
        requires
            old(self).wf(),
        ensures
            final(self).wf(),
            final(self).same_settings(*old(self)),
            old(self).treats(context, *old(request), *final(request), step, *final(self)),
    {
        let ghost this = *self;
        let ledger = match self.compact(request) {
            Ok(ledger) => ledger,
            Err(outcome) => {
                assert(outcome == Outcome::Compacted ==> this.continues(
                    context,
                    *request,
                    *request,
                    OptimizerStep::Finished(outcome),
                ));
                return OptimizerStep::Finished(outcome);
            },
        };
        let ghost compacted = *request;
        match self.summarization.take() {
            Some(stage) => {
                let mut stage = stage;
                let step = stage.begin(context, request);
                self.summarization = Some(stage);
                match step {
                    SummaryStep::Ask(task) => {
                        let pending = PendingRecap { task, ledger };
                        let step = OptimizerStep::Ask(pending);
                        assert(this.continues(context, compacted, *request, step));
                        step
                    },
                    _ => {
                        let ghost recap = *request;
                        let outcome = self.settle(request);
                        let step = OptimizerStep::Finished(outcome);
                        assert(this.settles(recap, *request, outcome));
                        assert(this.continues(context, compacted, *request, step));
                        step
                    },
                }
            },
            None => {
                let outcome = self.evict(request, ledger);
                let step = OptimizerStep::Finished(outcome);
                assert(this.continues(context, compacted, *request, step));
                step
            },
        }
    }

    /// What becomes of a request: one that fits, or that cannot be counted, is left as it is, and
    /// any other goes through the stages.
    pub open spec fn treats(
        &self,
        context: &ExecutionContext,
        before: LlmRequest,
        after: LlmRequest,
        step: OptimizerStep,
        next: Self,
    ) -> bool {
        if request_bound(before) <= self.budget() {
            &&& after == before
            &&& next.summarizer() == self.summarizer()
            &&& step == OptimizerStep::Finished(Outcome::AlreadyFits)
        } else if request_bound(before) > usize::MAX || !request_encodable(before) {
            &&& after == before
            &&& next.summarizer() == self.summarizer()
            &&& step == OptimizerStep::Finished(Outcome::Uncountable)
        } else if request_cost(before) <= self.budget() {
            &&& after == before
            &&& next.summarizer() == self.summarizer()
            &&& step == OptimizerStep::Finished(Outcome::AlreadyFits)
        } else {
            exists|compacted: LlmRequest| #[trigger]
                self.compacts(before, compacted) && self.continues(context, compacted, after, step)
                    && self.remembers(context, compacted, next)
        }
    }

    /// What follows once `compacted` is what the compaction stage left.
    pub open spec fn continues(
        &self,
        context: &ExecutionContext,
        compacted: LlmRequest,
        after: LlmRequest,
        step: OptimizerStep,
    ) -> bool {
        if request_cost(compacted) <= self.budget() {
            after == compacted && step == OptimizerStep::Finished(Outcome::Compacted)
        } else {
            match self.summarizer() {
                None => step matches OptimizerStep::Finished(outcome) && self.evicts(
                    compacted,
                    after,
                    outcome,
                ),
                Some(stage) => {
                    let key = continuity_text(context.continuity());
                    let progress = usable(
                        value_for(stage.remembered(), key),
                        compacted.contents@,
                    );
                    match plan(recap_range(compacted.contents@, stage.recent()), progress) {
                        Plan::Decline => step matches OptimizerStep::Finished(outcome)
                            && self.settles(compacted, after, outcome),
                        Plan::Reuse(from, to) => step matches OptimizerStep::Finished(outcome)
                            && exists|recap: LlmRequest| #[trigger]
                            recapped(compacted, recap, from, to, progress.summary) && self.settles(
                                recap,
                                after,
                                outcome,
                            ),
                        Plan::Ask(new_from, from, to) => {
                            &&& after == compacted
                            &&& step matches OptimizerStep::Ask(pending) && pending.is_about(after)
                                && pending.asked().asks_for(
                                key,
                                (from, to),
                                compacted.contents@,
                                material_text(
                                    progress.summary,
                                    excerpt_text(
                                        context.events@,
                                        compacted.contents@,
                                        new_from,
                                        to,
                                    ),
                                ),
                            )
                        },
                    }
                },
            }
        }
    }

    /// What the summarization stage of `next` remembers once `compacted` is what the compaction
    /// stage left: nothing new, unless the recap that is remembered was put in place.
    pub open spec fn remembers(
        &self,
        context: &ExecutionContext,
        compacted: LlmRequest,
        next: Self,
    ) -> bool {
        match (self.summarizer(), next.summarizer()) {
            (None, None) => true,
            (Some(stage), Some(after)) => {
                let key = continuity_text(context.continuity());
                let contents = compacted.contents@;
                let range = recap_range(contents, stage.recent());
                let progress = usable(value_for(stage.remembered(), key), contents);
                let read = looked_up(stage.remembered(), key, range);
                if request_cost(compacted) <= self.budget() {
                    after.remembered() == stage.remembered()
                } else {
                    match plan(range, progress) {
                        Plan::Reuse(_, to) => covered(
                            read,
                            after.remembered(),
                            key,
                            contents,
                            to,
                            progress.summary,
                        ),
                        _ => after.remembered() == read,
                    }
                }
            },
            _ => false,
        }
    }

    /// Whether the summarization stage of `next` remembers what this one did, and the recap of
    /// `contents` that was `asked` for where it came as `summary`.
    pub open spec fn learns(
        &self,
        asked: SummaryTask,
        contents: Seq<ContentItem>,
        summary: Option<Seq<char>>,
        next: Self,
    ) -> bool {
        match (self.summarizer(), next.summarizer(), summary) {
            (Some(stage), Some(after), Some(said)) => covered(
                stage.remembered(),
                after.remembered(),
                asked.conversation(),
                contents,
                asked.range().1,
                said,
            ),
            (Some(stage), Some(after), None) => after.remembered() == stage.remembered(),
            _ => false,
        }
    }

    /// Go on once a model has answered with a recap. An answer that did not come, or a blank
    /// one, leaves the request as compaction left it, for the last stage to bring down.
    pub fn resume(
        &mut self,
        pending: PendingRecap,
        reply: Option<String>,
        request: &mut LlmRequest,
    ) -> (outcome: Outcome)
        requires
            old(self).wf(),
            old(self).summarizer() is Some,
            pending.is_about(*old(request)),
        ensures
            final(self).wf(),
            final(self).same_settings(*old(self)),
            match reply {
                Some(summary) if !crate::text::blank(summary@) => {
                    &&& exists|recap: LlmRequest| #[trigger]
                        recapped(
                            *old(request),
                            recap,
                            pending.asked().range().0,
                            pending.asked().range().1,
                            summary@,
                        ) && old(self).settles(recap, *final(request), outcome)
                    &&& final(request).instructions@.last()@.skip(SUMMARY_PREAMBLE@.len() as int + 1)
                        == summary@
                    &&& old(self).learns(
                        pending.asked(),
                        old(request).contents@,
                        Some(summary@),
                        *final(self),
                    )
                },
                _ => {
                    &&& old(self).evicts(*old(request), *final(request), outcome)
                    &&& old(self).learns(
                        pending.asked(),
                        old(request).contents@,
                        None,
                        *final(self),
                    )
                },
            },
    {
        let ghost this = *self;
        match (reply, self.summarization.take()) {
            (Some(summary), Some(stage)) => {
                let mut stage = stage;
                let ghost said = summary@;
                let ghost range = pending.asked().range();
                let done = stage.complete(pending.task, summary, request);
                self.summarization = Some(stage);
                if done.is_ok() {
                    let ghost recap = *request;
                    let outcome = self.settle(request);
                    assert(recapped(*old(request), recap, range.0, range.1, said));
                    assert(this.settles(recap, *request, outcome));
                    return outcome;
                }
                self.evict(request, pending.ledger)
            },
            (_, stage) => {
                self.summarization = stage;
                self.evict(request, pending.ledger)
            },
        }
    }
}

} // verus!

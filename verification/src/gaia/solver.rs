//! From a model's answer to a solution.

use vstd::prelude::*;

use crate::gaia::models::{GaiaOutput, Solution};
use crate::llm::client::FinishReason;
use crate::llm::structured::{
    a_whole_answer_is_read, StructuredChoice, StructuredFailure, StructuredText,
};
use crate::text::trimmed;

verus! {

/// Why an attempt failed, as far as it matters for another one.
#[derive(Debug, Clone, Copy, PartialEq, Eq, Structural)]
pub enum AttemptFailure {
    /// The output budget cut the answer short.
    Truncated,
    /// It failed after the tool rounds were spent.
    BudgetExhausted,
    Other,
}

/// Whether another attempt is worth it: one that would only repeat the failure, at the same
/// cost, is not.
pub fn worth_retrying(failure: &AttemptFailure) -> (retry: bool)
    ensures
        retry == (*failure == AttemptFailure::Other),
{
    match failure {
        AttemptFailure::Truncated => false,
        AttemptFailure::BudgetExhausted => false,
        AttemptFailure::Other => true,
    }
}

/// What a model's answer comes to.
#[derive(Debug, PartialEq, Eq)]
pub enum SolveStep {
    /// The problem counts as answered.
    Solved(Solution),
    /// The answer's text has to be read as an output.
    Read { text: StructuredText, budget_exhausted: bool },
    Failed(StructuredFailure),
}

/// What a model's answer comes to. Where a content filter stopped the model there is nothing to
/// read: the problem counts as unsolvable.
pub fn solve_step(choice: StructuredChoice) -> (step: SolveStep)
    ensures
        if choice.answer().finish_reason == Some(FinishReason::ContentFilter) {
            step matches SolveStep::Solved(solution) && !solution.output.is_solvable
                && solution.output.unsolvable_reason@ == "Model refused to answer (content filter)"@
                && solution.output.final_answer@.len() == 0 && solution.budget_exhausted
                == choice.rounds_ran_out()
        } else {
            match step {
                SolveStep::Solved(_) => false,
                SolveStep::Read { text, budget_exhausted } => choice.parses_to(Ok(text))
                    && budget_exhausted == choice.rounds_ran_out(),
                SolveStep::Failed(why) => choice.parses_to(Err(why)),
            }
        },
{
    let budget_exhausted = choice.budget_exhausted();
    match choice.finish_reason() {
        Some(FinishReason::ContentFilter) => SolveStep::Solved(
            Solution {
                output: GaiaOutput {
                    is_solvable: false,
                    unsolvable_reason: "Model refused to answer (content filter)".to_owned(),
                    final_answer: String::new(),
                },
                budget_exhausted,
            },
        ),
        _ => match choice.parse() {
            Ok(text) => SolveStep::Read { text, budget_exhausted },
            Err(why) => SolveStep::Failed(why),
        },
    }
}

/// A problem counts as answered without reading anything only where a filter stopped the model, and
/// then as unsolvable; anything else the model said whole is read, and what was cut short or left
/// empty is a failure.
pub proof fn an_answer_is_read_unless_it_was_filtered(choice: StructuredChoice, step: SolveStep)
    requires
        call_ensures(solve_step, (choice,), step),
    ensures
        ({
            let filtered = choice.answer().finish_reason == Some(FinishReason::ContentFilter);
            let cut_short = choice.answer().finish_reason == Some(FinishReason::Length);
            match step {
                SolveStep::Solved(solution) => filtered && !solution.output.is_solvable
                    && solution.output.final_answer@.len() == 0 && solution.budget_exhausted
                    == choice.rounds_ran_out(),
                SolveStep::Read { text, budget_exhausted } => !filtered && !cut_short
                    && choice.answer().content == Some(text.content) && budget_exhausted
                    == choice.rounds_ran_out(),
                SolveStep::Failed(_) => !filtered && (cut_short
                    || choice.answer().content is None || trimmed(
                    choice.answer().content->0@,
                ).len() == 0),
            }
        }),
{
    match step {
        SolveStep::Read { text, .. } => a_whole_answer_is_read(choice, Ok(text)),
        SolveStep::Failed(why) => a_whole_answer_is_read(choice, Err(why)),
        _ => {},
    }
}

} // verus!

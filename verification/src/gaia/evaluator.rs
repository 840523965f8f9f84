//! Scoring one answer.

use vstd::prelude::*;

use crate::gaia::models::{GaiaEvalResult, GaiaRow, Solution};
use crate::text::{
    blank, is_blank, lemma_blank_iff_trimmed_empty, lower_case_changes_only_capitals, lowercase,
    lowered, same_text, trim, trimmed,
};

verus! {

/// What a model is told before each question.
pub const GAIA_PROMPT: &'static str = "You are a general AI assistant. I will ask you a question.\nFirst, determine if you can solve this problem with your current capabilities and set \"is_solvable\" accordingly.\nIf you can solve it, set \"is_solvable\" to true and provide your answer in \"final_answer\".\nIf you cannot solve it, set \"is_solvable\" to false and explain why in \"unsolvable_reason\".\nYour final answer should be a number OR as few words as possible OR a comma-separated list of numbers and/or strings.\nIf you are asked for a number, don't use a comma to write your number neither use units such as $ or percent sign unless specified otherwise.\nIf you are asked for a string, don't use articles, neither abbreviations (e.g., for cities), and write the digits in plain text unless specified otherwise.\nIf you are asked for a comma-separated list, apply the above rules depending on whether the element is a number or a string.";

/// Whether a prediction is the answer: the white space around them and the case of ASCII
/// letters aside. A blank prediction is never right.
pub open spec fn matches_answer(prediction: Seq<char>, answer: Seq<char>) -> bool {
    !blank(prediction) && lowered(trimmed(prediction)) == lowered(trimmed(answer))
}

/// Whether a prediction is the answer.
pub fn is_correct(prediction: &str, answer: &str) -> (correct: bool)
    ensures
        correct == matches_answer(prediction@, answer@),
{
    if is_blank(prediction) {
        return false;
    }
    let said = lowercase(trim(prediction));
    let expected = lowercase(trim(answer));
    same_text(said.as_str(), expected.as_str())
}

/// A prediction is right exactly where, once the white space around both is taken away, it has as
/// many characters as the answer, at least one, and agrees with it at each place up to the case
/// of ASCII letters.
pub proof fn a_right_prediction_agrees_letter_by_letter(prediction: Seq<char>, answer: Seq<char>)
    ensures
        matches_answer(prediction, answer) == {
            let said = trimmed(prediction);
            let expected = trimmed(answer);
            &&& said.len() > 0
            &&& said.len() == expected.len()
            &&& forall|i: int|
                0 <= i < said.len() ==> same_letter(#[trigger] said[i], expected[i])
        },
{
    let said = trimmed(prediction);
    let expected = trimmed(answer);
    lemma_blank_iff_trimmed_empty(prediction);
    lower_case_changes_only_capitals(said);
    lower_case_changes_only_capitals(expected);
    if matches_answer(prediction, answer) {
        assert forall|i: int| 0 <= i < said.len() implies same_letter(
            #[trigger] said[i],
            expected[i],
        ) by {
            assert(lowered(said)[i] == lowered(expected)[i]);
        }
    }
    if said.len() > 0 && said.len() == expected.len() && forall|i: int|
        0 <= i < said.len() ==> same_letter(#[trigger] said[i], expected[i]) {
        assert forall|i: int| 0 <= i < said.len() implies lowered(said)[i] == lowered(
            expected,
        )[i] by {
            assert(same_letter(said[i], expected[i]));
        }
        assert(lowered(said) =~= lowered(expected));
    }
}

/// Whether two characters are one, or a capital and its small letter in either order.
pub open spec fn same_letter(a: char, b: char) -> bool {
    ||| a == b
    ||| 'A' <= a <= 'Z' && b as int == a as int + 32
    ||| 'A' <= b <= 'Z' && a as int == b as int + 32
}

/// Scoring does not tell which of two texts is the prediction, as long as neither is blank.
pub proof fn scoring_is_symmetric(prediction: Seq<char>, answer: Seq<char>)
    ensures
        matches_answer(prediction, answer) == matches_answer(answer, prediction),
        !blank(prediction) ==> matches_answer(prediction, prediction),
        blank(prediction) ==> !matches_answer(prediction, answer),
{
    lemma_blank_iff_trimmed_empty(prediction);
    lemma_blank_iff_trimmed_empty(answer);
    lower_case_changes_only_capitals(trimmed(prediction));
    lower_case_changes_only_capitals(trimmed(answer));
}

/// Record how a problem went: its solution, or the text of the error that kept it from being
/// solved.
pub fn to_eval_result(problem: GaiaRow, model: &str, result: Result<Solution, String>) -> (eval:
    GaiaEvalResult)
    ensures
        eval.task_id == problem.task_id,
        eval.model@ == model@,
        eval.answer == problem.final_answer,
        match result {
            Ok(solution) => {
                &&& eval.correct == matches_answer(
                    solution.output.final_answer@,
                    problem.final_answer@,
                )
                &&& eval.is_solvable == Some(solution.output.is_solvable)
                &&& eval.prediction == Some(solution.output.final_answer)
                &&& eval.unsolvable_reason == Some(solution.output.unsolvable_reason)
                &&& eval.budget_exhausted == Some(solution.budget_exhausted)
                &&& eval.error is None
            },
            Err(error) => {
                &&& !eval.correct
                &&& eval.is_solvable is None
                &&& eval.prediction is None
                &&& eval.unsolvable_reason is None
                &&& eval.budget_exhausted is None
                &&& eval.error == Some(error)
            },
        },
{
    match result {
        Ok(solution) => {
            let correct = is_correct(
                solution.output.final_answer.as_str(),
                problem.final_answer.as_str(),
            );
            GaiaEvalResult {
                task_id: problem.task_id,
                model: model.to_owned(),
                correct,
                is_solvable: Some(solution.output.is_solvable),
                prediction: Some(solution.output.final_answer),
                answer: problem.final_answer,
                unsolvable_reason: Some(solution.output.unsolvable_reason),
                budget_exhausted: Some(solution.budget_exhausted),
                error: None,
            }
        },
        Err(error) => GaiaEvalResult {
            task_id: problem.task_id,
            model: model.to_owned(),
            correct: false,
            is_solvable: None,
            prediction: None,
            answer: problem.final_answer,
            unsolvable_reason: None,
            budget_exhausted: None,
            error: Some(error),
        },
    }
}

/// A solution is recorded as it was given: what was predicted, what was expected and whether the
/// budget ran out are kept whole, it counts as right only where the two agree, and an error is
/// never right.
pub proof fn a_problem_is_recorded_as_it_went(
    problem: GaiaRow,
    model: &str,
    result: Result<Solution, String>,
    eval: GaiaEvalResult,
)
    requires
        call_ensures(to_eval_result, (problem, model, result), eval),
    ensures
        eval.task_id == problem.task_id && eval.model@ == model@ && eval.answer
            == problem.final_answer,
        eval.correct ==> (result matches Ok(solution) && trimmed(
            solution.output.final_answer@,
        ).len() > 0 && trimmed(solution.output.final_answer@).len() == trimmed(
            problem.final_answer@,
        ).len()),
        result matches Ok(solution) ==> eval.prediction == Some(solution.output.final_answer)
            && eval.is_solvable == Some(solution.output.is_solvable) && eval.budget_exhausted
            == Some(solution.budget_exhausted) && eval.error is None,
        result matches Err(error) ==> eval.error == Some(error) && eval.prediction is None
            && !eval.correct,
{
    match result {
        Ok(solution) => a_right_prediction_agrees_letter_by_letter(
            solution.output.final_answer@,
            problem.final_answer@,
        ),
        Err(_) => {},
    }
}

/// What is scored as right agrees with the answer letter by letter, and nothing else is.
pub proof fn only_agreement_is_scored(prediction: &str, answer: &str, correct: bool)
    requires
        call_ensures(is_correct, (prediction, answer), correct),
    ensures
        correct == ({
            let said = trimmed(prediction@);
            let expected = trimmed(answer@);
            &&& said.len() > 0
            &&& said.len() == expected.len()
            &&& forall|i: int|
                0 <= i < said.len() ==> same_letter(#[trigger] said[i], expected[i])
        }),
{
    a_right_prediction_agrees_letter_by_letter(prediction@, answer@);
}

} // verus!

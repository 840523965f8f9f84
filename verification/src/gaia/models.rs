//! What the benchmark is made of.

use vstd::prelude::*;

verus! {

/// A page of the dataset.
#[derive(Debug, PartialEq, Eq)]
pub struct HfResponse {
    pub rows: Vec<HfRow>,
}

/// One row of a page.
#[derive(Debug, PartialEq, Eq)]
pub struct HfRow {
    pub row: GaiaRow,
}

/// One problem.
#[derive(Debug, PartialEq, Eq)]
pub struct GaiaRow {
    pub task_id: String,
    pub question: String,
    pub level: String,
    pub final_answer: String,
}

/// What a model answers: this is the schema it is given.
#[derive(Debug, PartialEq, Eq)]
pub struct GaiaOutput {
    pub is_solvable: bool,
    pub unsolvable_reason: String,
    pub final_answer: String,
}

/// A solved problem, and how its answer came about.
#[derive(Debug, PartialEq, Eq)]
pub struct Solution {
    pub output: GaiaOutput,
    /// Whether the tool rounds ran out before the model finished.
    pub budget_exhausted: bool,
}

/// How one problem went.
#[derive(Debug, PartialEq, Eq)]
pub struct GaiaEvalResult {
    pub task_id: String,
    pub model: String,
    pub correct: bool,
    pub is_solvable: Option<bool>,
    pub prediction: Option<String>,
    pub answer: String,
    pub unsolvable_reason: Option<String>,
    /// Nothing where solving failed outright.
    pub budget_exhausted: Option<bool>,
    pub error: Option<String>,
}

} // verus!

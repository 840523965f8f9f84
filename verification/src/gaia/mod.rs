//! Scoring a model on the GAIA benchmark.

pub mod dataset;
pub mod evaluator;
pub mod models;
pub mod solver;

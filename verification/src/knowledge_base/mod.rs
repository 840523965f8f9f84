//! Finding the passages of a text that are about a question.

pub mod chunk;
pub mod embed;
pub mod search;

//! An agent runtime's decisions, with their contracts proved.

pub mod agent;
pub mod callback;
pub mod config;
pub mod gaia;
pub mod json;
pub mod knowledge_base;
pub mod llm;
pub mod pairs;
pub mod path;
pub mod platform;
pub mod text;
pub mod tools;
pub mod util;

//! Decisions taken around each model call and each tool call.

pub mod approval;
pub mod context_optimizer;
pub mod dual_approval;
pub mod mcp_guard;
pub mod path_guard;
pub mod search_compressor;

//! The tools a model can call, and the registry that dispatches to them.

pub mod calculator;
pub mod file_delete;
pub mod file_list;
pub mod file_read;
pub mod file_upzip;
pub mod mcp;
pub mod read_image;
pub mod registry;
pub mod tool;
pub mod web_search;

pub use registry::ToolRegistry;
pub use tool::Tool;

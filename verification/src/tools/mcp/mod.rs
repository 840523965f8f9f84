//! Tools offered by other programs over the Model Context Protocol.

pub mod client;
pub mod config;

//! Talking to a model: what is sent, and what is made of what comes back.

pub mod client;
pub mod complete;
pub mod provider;
pub mod retry;
pub mod schema;
pub mod stream;
pub mod structured;
pub mod structured_ds;
pub mod tool_calls;
pub mod tool_loop;

//! The tool that asks a vision model about an image: only the model's answer, never the image,
//! enters the conversation.

pub mod execute;

use vstd::prelude::*;

verus! {

/// Tool name, used both in the definition and in dispatch.
pub const NAME: &'static str = "read_image";

/// What a model is told of the tool.
pub const DESCRIPTION: &'static str = "Analyze an image file with a vision model to answer a question about what it shows.";

/// Arguments as a model gives them.
#[derive(Debug, PartialEq, Eq)]
pub struct ReadImageArgs {
    /// Path to a local image file.
    pub file_path: String,
    /// What to ask the vision model.
    pub query: String,
    /// Which vision model to ask.
    pub model: String,
}

} // verus!

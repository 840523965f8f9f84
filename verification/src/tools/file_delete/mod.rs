//! The tool that deletes a file or a whole directory.

pub mod execute;

use vstd::prelude::*;

verus! {

/// Tool name, used both in the definition and in dispatch.
pub const NAME: &'static str = "delete_file";

/// What a model is told of the tool.
pub const DESCRIPTION: &'static str = "Deletes a file. This action cannot be undone.";

/// Arguments as a model gives them.
#[derive(Debug, PartialEq, Eq)]
pub struct DeleteFileArgs {
    /// Absolute or relative path to remove.
    pub file_path: String,
}

} // verus!

//! The tool that extracts an archive.

pub mod execute;

use vstd::prelude::*;

verus! {

/// Tool name, used both in the definition and in dispatch.
pub const NAME: &'static str = "unzip_file";

/// What a model is told of the tool.
pub const DESCRIPTION: &'static str = "Extract a zip archive so its contents can be explored with list_files and read_file.";

/// Arguments as a model gives them.
#[derive(Debug, PartialEq, Eq)]
pub struct UnzipFileArgs {
    pub zip_path: String,
    /// Directory to extract to; the archive's own path without its extension where the model
    /// names none.
    pub extract_to: Option<String>,
}

} // verus!

//! The tool that lists a directory, one level at a time.

pub mod execute;

use vstd::prelude::*;

verus! {

/// Tool name, used both in the definition and in dispatch.
pub const NAME: &'static str = "list_files";

/// What a model is told of the tool.
pub const DESCRIPTION: &'static str = "List files and directories at a given path, directories listed first.";

/// Directory listed when the model names none.
pub const DEFAULT_PATH: &'static str = ".";

/// Arguments as a model gives them.
#[derive(Debug, PartialEq, Eq)]
pub struct ListFilesArgs {
    /// Directory to list.
    pub path: String,
}

impl ListFilesArgs {
    /// The directory a model names, or the current one.
    pub fn new(path: Option<String>) -> (args: Self)
        ensures
            args.path@ == match path {
                Some(named) => named@,
                None => DEFAULT_PATH@,
            },
    {
        match path {
            Some(named) => ListFilesArgs { path: named },
            None => ListFilesArgs { path: DEFAULT_PATH.to_owned() },
        }
    }
}

} // verus!

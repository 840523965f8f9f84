//! The tool that reads a file: text with line numbers, or a table.

pub mod execute;

use vstd::prelude::*;

verus! {

/// Tool name, used both in the definition and in dispatch.
pub const NAME: &'static str = "read_file";

/// What a model is told of the tool.
pub const DESCRIPTION: &'static str = "Read a text file (returned with line numbers, optionally a range) or a CSV file (returned as a markdown table).";

/// Arguments as a model gives them.
#[derive(Debug, PartialEq, Eq)]
pub struct ReadFileArgs {
    pub file_path: String,
    /// First line to read, counted from one. Not used for a table.
    pub start_line: usize,
    /// Last line to read, counted from one; a negative number stands for the end of the file.
    pub end_line: i64,
}

/// The first line read when the model names none.
pub fn default_start() -> (line: usize)
    ensures
        line == 1,
{
    1
}

/// The last line read when the model names none: the end of the file.
pub fn default_end() -> (line: i64)
    ensures
        line == -1,
{
    -1
}

impl ReadFileArgs {
    /// The file a model names, and the lines of it, where it names them.
    pub fn new(file_path: String, start_line: Option<usize>, end_line: Option<i64>) -> (args: Self)
        ensures
            args.file_path == file_path,
            args.start_line == match start_line {
                Some(line) => line,
                None => 1,
            },
            args.end_line == match end_line {
                Some(line) => line as int,
                None => -1int,
            },
    {
        let start_line: usize = match start_line {
            Some(line) => line,
            None => default_start(),
        };
        let end_line: i64 = match end_line {
            Some(line) => line,
            None => default_end(),
        };
        ReadFileArgs { file_path, start_line, end_line }
    }
}

} // verus!

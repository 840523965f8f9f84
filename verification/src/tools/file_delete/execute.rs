//! What is removed, and what is said of it. Removing it is the caller's part.

use vstd::prelude::*;

use crate::tools::file_delete::DeleteFileArgs;

verus! {

/// What stands at a path.
#[derive(Debug, Clone, Copy, PartialEq, Eq, Structural)]
pub enum Found {
    Nothing,
    File,
    Directory,
}

/// How a path is to be removed.
#[derive(Debug, Clone, Copy, PartialEq, Eq, Structural)]
pub enum Removal {
    /// The one file.
    File,
    /// The directory and all it holds.
    Tree,
}

/// What is said of arguments that could not be decoded.
pub const INVALID_ARGUMENTS: &'static str = "invalid file delete arguments";

/// How to remove what stands at the path, or what is said where nothing does.
pub fn run(args: &DeleteFileArgs, found: Found) -> (removal: Result<Removal, String>)
    ensures
        match removal {
            Ok(Removal::File) => found == Found::File,
            Ok(Removal::Tree) => found == Found::Directory,
            Err(text) => found == Found::Nothing && text@ == "Path not found: "@ + args.file_path@,
        },
{
    match found {
        Found::Nothing => {
            let mut text = "Path not found: ".to_owned();
            text.append(args.file_path.as_str());
            Err(text)
        },
        Found::File => Ok(Removal::File),
        Found::Directory => Ok(Removal::Tree),
    }
}

/// What is said once the path is gone.
pub fn removed(args: &DeleteFileArgs) -> (text: String)
    ensures
        text@ == "Path: "@ + args.file_path@ + "\n"@,
{
    let mut text = "Path: ".to_owned();
    text.append(args.file_path.as_str());
    text.append("\n");
    text
}

/// Only what stands at the path is removed, in the way that fits it; where nothing does, that is
/// said, with the path.
pub proof fn only_what_stands_there_is_removed(
    args: &DeleteFileArgs,
    found: Found,
    removal: Result<Removal, String>,
)
    requires
        call_ensures(run, (args, found), removal),
    ensures
        removal is Err == (found == Found::Nothing),
        removal == Ok::<Removal, String>(Removal::Tree) <==> found == Found::Directory,
        removal matches Err(text) ==> text@.skip(text@.len() - args.file_path@.len())
            == args.file_path@,
{
    match removal {
        Err(text) => {
            assert(text@.skip(text@.len() - args.file_path@.len()) =~= args.file_path@);
        },
        Ok(_) => {},
    }
}

} // verus!

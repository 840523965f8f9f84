//! What differs from one kind of system to another.

use vstd::prelude::*;

verus! {

/// The kind of system a program runs on.
#[derive(Debug, Clone, Copy, PartialEq, Eq, Structural)]
pub enum Platform {
    Unix,
    Windows,
}

impl Platform {
    /// The environment variable that holds the user's home directory.
    pub fn home_variable(self) -> (name: &'static str)
        ensures
            name@ == match self {
                Platform::Unix => "HOME"@,
                Platform::Windows => "USERPROFILE"@,
            },
    {
        match self {
            Platform::Unix => "HOME",
            Platform::Windows => "USERPROFILE",
        }
    }
}

} // verus!

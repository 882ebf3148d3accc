//! Deciding what a path names before it is listed.
use vstd::prelude::*;

verus! {

/// What a path that exists names.
#[derive(Debug, Clone, Copy, PartialEq, Eq, Structural)]
pub enum Target {
    File,
    Directory,
}

/// The failures that end a listing.
#[derive(Debug, Clone, Copy, PartialEq, Eq, Structural)]
pub enum ListError {
    /// Whether the path exists could not be determined.
    PathCheckFailed,
    /// The path does not exist.
    PathNotFound,
}

impl ListError {
    /// The message shown for this failure.
    pub fn message(&self) -> (r: String)
        ensures
            *self == ListError::PathCheckFailed ==> r@ == "searching directory"@,
            *self == ListError::PathNotFound ==> r@ == "Path does not exist"@,
    {
        match self {
            ListError::PathCheckFailed => String::from_str("searching directory"),
            ListError::PathNotFound => String::from_str("Path does not exist"),
        }
    }
}

/// Decides what to list from the outcome of the existence check (`None`
/// where it could not be made) and whether the path is a regular file.
pub fn resolve_target(exists: Option<bool>, is_file: bool) -> (r: Result<Target, ListError>)
    ensures
        exists is None <==> r == Err::<Target, ListError>(ListError::PathCheckFailed),
        exists == Some(false) <==> r == Err::<Target, ListError>(ListError::PathNotFound),
        exists == Some(true) && is_file <==> r == Ok::<Target, ListError>(Target::File),
        exists == Some(true) && !is_file <==> r == Ok::<Target, ListError>(Target::Directory),
{
    match exists {
        None => Err(ListError::PathCheckFailed),
        Some(false) => Err(ListError::PathNotFound),
        Some(true) => {
            if is_file {
                Ok(Target::File)
            } else {
                Ok(Target::Directory)
            }
        },
    }
}

} // verus!

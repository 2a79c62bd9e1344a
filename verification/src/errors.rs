//! Error values surfaced to callers of the fragment operations.

use vstd::prelude::*;

verus! {

/// An input stream held a line that is not a valid fragment record, or could
/// not be read as a fragment file at all.  Carries the offending file's path.
#[derive(Debug)]
pub struct InvalidFragmentFileError {
    pub filename: String,
}

impl InvalidFragmentFileError {
    pub fn new(filename: &str) -> (r: InvalidFragmentFileError)
        ensures
            r.filename@ == filename@,
    {
        InvalidFragmentFileError { filename: filename.to_owned() }
    }
}

/// A caller-visible failure with a ready-made message, such as a sortedness
/// violation naming the offending input file.
#[derive(Debug)]
pub struct ValueError {
    pub message: String,
}

impl ValueError {
    pub fn new(message: String) -> (r: ValueError)
        ensures
            r.message == message,
    {
        ValueError { message }
    }
}

} // verus!

//! Errors of the loading layer.

use vstd::prelude::*;

verus! {

/// What can go wrong when the input files are read.
#[derive(Clone, Copy, Debug, PartialEq, Eq, Structural)]
pub enum Errors {
    FailedToReadPPIFile,
    FailedToParseLabel,
    FailedToReadLableFile,
}

impl Errors {
    /// A short description of the error.
    pub fn message(&self) -> (r: &'static str)
        ensures
            *self is FailedToReadPPIFile ==> r@ == "Failed to open PPI file"@,
            *self is FailedToParseLabel ==> r@ == "Failed to parse string"@,
            *self is FailedToReadLableFile ==> r@ == "Failed to read label file"@,
    {
        match self {
            Errors::FailedToReadPPIFile => "Failed to open PPI file",
            Errors::FailedToParseLabel => "Failed to parse string",
            Errors::FailedToReadLableFile => "Failed to read label file",
        }
    }
}

} // verus!

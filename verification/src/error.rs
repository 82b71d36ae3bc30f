//! The errors of the library.
use vstd::prelude::*;

verus! {

/// At which step listing the files of a directory failed.
#[derive(Debug, Clone, Copy, PartialEq, Eq, Structural)]
pub enum FilesListErrorType {
    ReadDir,
    ExtractEntry,
    EvaluateFileType,
}

/// What can go wrong when a document is formatted.
#[derive(Debug)]
pub enum Error {
    /// The input is not the same as its formatted version; holds the
    /// difference.
    Check(String),
    /// The input could not be parsed.
    ParseError(crate::parser::Error),
    /// The tree of the document could not be made; holds the reason.
    FailedToCreateTurtleStructure(String),
}

/// The result of formatting.
pub type FmtResult<T> = Result<T, Error>;

} // verus!

//! Error types of the dictionary writers and of vocabulary training.

use vstd::prelude::*;
use crate::text::join2;

verus! {

/// Errors that can occur while building a dictionary image.
#[derive(Debug)]
pub enum BuildError {
    /// The caller passed data the format cannot represent.
    InvalidInput(String),
    /// A processing step could not be completed.
    Processing(String),
}

impl BuildError {
    /// The human-readable message: the kind, then the detail.
    pub fn message(&self) -> (r: String)
        ensures
            match self {
                BuildError::InvalidInput(s) => r@ == "Invalid input: "@ + s@,
                BuildError::Processing(s) => r@ == "Processing error: "@ + s@,
            },
    {
        match self {
            BuildError::InvalidInput(s) => join2("Invalid input: ", s.as_str()),
            BuildError::Processing(s) => join2("Processing error: ", s.as_str()),
        }
    }
}

/// Errors of embedding and vocabulary training.
#[derive(Debug)]
pub enum Word2VecError {
    /// Reading or writing failed.
    Io(String),
    /// A parameter is out of range.
    InvalidParameter(String),
    /// Training could not proceed.
    Training(String),
    /// The vocabulary is unusable.
    Vocabulary(String),
}

impl Word2VecError {
    /// The human-readable message: the kind, then the detail.
    pub fn message(&self) -> (r: String)
        ensures
            match self {
                Word2VecError::Io(s) => r@ == "IO error: "@ + s@,
                Word2VecError::InvalidParameter(s) => r@ == "Invalid parameter: "@ + s@,
                Word2VecError::Training(s) => r@ == "Training error: "@ + s@,
                Word2VecError::Vocabulary(s) => r@ == "Vocabulary error: "@ + s@,
            },
    {
        match self {
            Word2VecError::Io(s) => join2("IO error: ", s.as_str()),
            Word2VecError::InvalidParameter(s) => join2("Invalid parameter: ", s.as_str()),
            Word2VecError::Training(s) => join2("Training error: ", s.as_str()),
            Word2VecError::Vocabulary(s) => join2("Vocabulary error: ", s.as_str()),
        }
    }
}

} // verus!

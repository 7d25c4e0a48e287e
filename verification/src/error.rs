//! The error type of the library.
use vstd::prelude::*;

verus! {

#[verifier::external_type_specification]
#[verifier::external_body]
pub struct ExIoError(std::io::Error);

/// Why a diagram could not be produced.
#[derive(Debug)]
pub enum PumlError {
    /// Reading or writing failed.
    Io(std::io::Error),
    /// The source does not parse; `line` is 1-based.
    Parse { line: usize, message: String },
    UnknownDiagramType(String),
    Layout(String),
}

} // verus!

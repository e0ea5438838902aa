//! The error taxonomy shared by every store operation.

use vstd::prelude::*;

verus! {

/// The kind of a store error.
///
/// `NotFound`: the named entity (bucket, object, part) does not exist.
/// `Busy`: a conflicting long-running operation already holds its task slot.
/// `InvalidInput`: a caller-supplied value violates a constraint.
/// `Internal`: a failure inside the store itself.
#[derive(Clone, Copy, Debug, PartialEq, Eq, Structural)]
pub enum ErrorKind {
    NotFound,
    Busy,
    InvalidInput,
    Internal,
}

/// A store error: a kind plus a human-readable diagnostic.
#[derive(Clone, Debug)]
pub struct Error {
    pub kind: ErrorKind,
    pub message: String,
}

impl Error {
    /// Builds an error of the given kind carrying the given diagnostic.
    pub fn new(kind: ErrorKind, message: String) -> (r: Error)
        ensures
            r.kind == kind,
            r.message@ == message@,
    {
        Error { kind, message }
    }
}

} // verus!

//! Refusals that the web layer answers with an HTTP error status.

use vstd::prelude::*;

verus! {

/// The status with which a request is refused.
#[derive(Clone, Copy, Debug, PartialEq, Eq, Structural)]
pub enum ErrorKind {
    BadRequest,
    Unauthorized,
    Forbidden,
    NotFound,
    InternalServerError,
}

/// A refused request: the status and the text shown with it.
#[derive(Clone, Debug)]
pub struct HttpError {
    pub kind: ErrorKind,
    pub message: String,
}

impl HttpError {
    /// A refusal with this status and text.
    pub fn new(kind: ErrorKind, message: &str) -> (e: HttpError)
        ensures
            e.kind == kind,
            e.message@ == message@,
    {
        HttpError { kind, message: message.to_owned() }
    }
}

} // verus!

//! Errors of the warehouse store.

use vstd::prelude::*;
use vstd::string::StringExecFns;

verus! {

/// What went wrong.
#[derive(Clone, Copy, Debug, PartialEq, Eq, Structural)]
pub enum ErrorKind {
    /// A requested document or operation does not exist.
    NotFound,
    /// Stored bytes do not decode against the expected layout.
    Corrupt,
    /// The state does not meet what a write takes for granted.
    Conflict,
    /// A store is full, or a balance has left the range that is kept.
    Capacity,
    /// A file-system or backend failure.
    IO,
    /// The input breaks a rule of the data model.
    Invalid,
}

/// An error with its kind and a message for people.
#[derive(Debug)]
pub struct WHError {
    pub kind: ErrorKind,
    pub message: String,
}

/// The two texts, one after the other.
pub fn join_text(a: &str, b: &str) -> (r: String)
    ensures
        r@ == a@ + b@,
{
    let mut r: String = a.to_owned();
    r.append(b);
    r
}

impl WHError {
    /// An error whose message is `message` followed by `detail`.
    pub fn with_detail(kind: ErrorKind, message: &str, detail: &str) -> (e: WHError)
        ensures
            e.kind == kind,
            e.message@ == message@ + detail@,
    {
        WHError { kind, message: join_text(message, detail) }
    }

    pub fn new(kind: ErrorKind, message: &str) -> (e: WHError)
        ensures
            e.kind == kind,
            e.message@ == message@,
    {
        WHError { kind, message: message.to_owned() }
    }

    pub fn kind(&self) -> (k: ErrorKind)
        ensures
            k == self.kind,
    {
        self.kind
    }

    pub fn message(&self) -> (m: String)
        ensures
            m@ == self.message@,
    {
        self.message.clone()
    }
}

} // verus!

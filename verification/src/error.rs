//! Failures that end a request without a reply.
use vstd::prelude::*;
use vstd::string::StringExecFns;

verus! {

/// A failure of the storage engine or of an actor.
#[derive(Clone, Debug, PartialEq, Eq)]
pub enum Error {
    Storage(String),
    Actor(String),
}

impl Error {
    /// A storage failure with the given message.
    pub fn storage(message: &str) -> (error: Error)
        ensures
            error matches Error::Storage(text) && text@ == message@,
    {
        Error::Storage(message.to_string())
    }

    /// The failure in words: what failed, and its message.
    pub fn message(&self) -> (text: String)
        ensures
            text@ == match *self {
                Error::Storage(detail) => "storage: "@ + detail@,
                Error::Actor(detail) => "actor: "@ + detail@,
            },
    {
        match self {
            Error::Storage(detail) => "storage: ".to_string().concat(detail.as_str()),
            Error::Actor(detail) => "actor: ".to_string().concat(detail.as_str()),
        }
    }
}

} // verus!

//! The ways in which an operation of the engine fails.

use vstd::prelude::*;

verus! {

/// Why an operation could not be planned or carried out.
#[derive(Clone, Copy, Debug, PartialEq, Eq, Structural)]
pub enum EngineError {
    /// A source or destination that had to be there is absent.
    NotFound,
    /// The place that a directory should move to is occupied.
    AlreadyExists,
    /// Reading, writing or copying failed.
    IoError,
    /// The platform could not create a directory link.
    LinkCreationError,
    /// Stored or scanned data does not have the form it must have.
    SerializationError,
}

impl EngineError {
    /// The text shown for each error.
    pub open spec fn text(self) -> Seq<char> {
        match self {
            EngineError::NotFound => "not found"@,
            EngineError::AlreadyExists => "already exists"@,
            EngineError::IoError => "I/O error"@,
            EngineError::LinkCreationError => "link creation failed"@,
            EngineError::SerializationError => "malformed data"@,
        }
    }

    /// A short description for the user.
    pub fn message(&self) -> (out: String)
        ensures
            out@ == self.text(),
    {
        match self {
            EngineError::NotFound => String::from_str("not found"),
            EngineError::AlreadyExists => String::from_str("already exists"),
            EngineError::IoError => String::from_str("I/O error"),
            EngineError::LinkCreationError => String::from_str("link creation failed"),
            EngineError::SerializationError => String::from_str("malformed data"),
        }
    }
}

} // verus!

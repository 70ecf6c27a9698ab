//! The error taxonomy of the library.

use vstd::prelude::*;

verus! {

/// An error returned by the store or by round construction.
///
/// `NotFound` is a point query on a row that was never stored.
/// `PersistenceFailure` is a non-conflict storage error; here that is
/// exactly a write whose foreign keys do not all exist yet, the one way a
/// write to the modelled store can fail.
/// `InvalidInput` is a malformed round parameter, a caller-correctable
/// error distinct from internal failures.
#[derive(Clone, Copy, Debug, PartialEq, Eq, Structural)]
pub enum DatabaseError {
    NotFound,
    PersistenceFailure,
    InvalidInput,
}

impl DatabaseError {
    /// A human-readable description, in place of a `Display` impl.
    pub fn describe(&self) -> String {
        match self {
            DatabaseError::NotFound => "row not found".to_string(),
            DatabaseError::PersistenceFailure => "persistence failure".to_string(),
            DatabaseError::InvalidInput => "invalid input".to_string(),
        }
    }
}

} // verus!

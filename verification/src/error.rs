//! The failures a store operation can report.

use vstd::prelude::*;

use crate::json::spec_dec;

verus! {

/// Why a store operation failed.
///
/// `NotFound` carries the id that matched no task. `IoError` and
/// `SerdeError` carry a description of a failed file access or of contents
/// that were not a well-formed task list. `InvalidInput` reports
/// caller-supplied data rejected before it reached the store.
#[derive(Debug)]
pub enum TaskError {
    NotFound(u32),
    IoError(String),
    SerdeError(String),
    InvalidInput(String),
}

/// The message text for a missing id.
pub open spec fn spec_not_found_message(id: u32) -> Seq<char> {
    "Task with id "@ + spec_dec(id as nat) + " not found"@
}

impl TaskError {
    /// A human-readable description of the failure.
    pub fn message(&self) -> (r: String)
        ensures
            *self matches TaskError::NotFound(id) ==> r@ == spec_not_found_message(id),
            *self matches TaskError::IoError(m) ==> r@ == "IO error: "@ + m@,
            *self matches TaskError::SerdeError(m) ==> r@ == "Serialization error: "@ + m@,
            *self matches TaskError::InvalidInput(m) ==> r@ == "Invalid input: "@ + m@,
    {
        match self {
            TaskError::NotFound(id) => {
                let mut out = String::from_str("Task with id ");
                crate::json::push_dec(&mut out, *id);
                out.append(" not found");
                out
            },
            TaskError::IoError(m) => {
                let mut out = String::from_str("IO error: ");
                out.append(m.as_str());
                out
            },
            TaskError::SerdeError(m) => {
                let mut out = String::from_str("Serialization error: ");
                out.append(m.as_str());
                out
            },
            TaskError::InvalidInput(m) => {
                let mut out = String::from_str("Invalid input: ");
                out.append(m.as_str());
                out
            },
        }
    }
}

} // verus!

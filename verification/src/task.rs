//! The task record: identity, display text, timestamps, completion flag.

use vstd::prelude::*;

verus! {

/// A single to-do item.
///
/// `id` is assigned by the caller (the store hands out `count + 1`).
/// `created_at` and `updated_at` hold the timestamp text as it appears in the
/// persisted file; `updated_at` equals `created_at` until an edit occurs.
#[derive(Debug)]
pub struct Task {
    /// A unique identifier for the task.
    pub id: u32,
    /// A brief description of the task.
    pub description: String,
    /// The timestamp when the task was created.
    pub created_at: String,
    /// The timestamp when the task was last updated.
    pub updated_at: String,
    /// Indicates whether the task has been completed.
    pub completed: bool,
}

/// The mathematical value of a [`Task`]: its text fields as character
/// sequences.
pub struct TaskView {
    pub id: u32,
    pub description: Seq<char>,
    pub created_at: Seq<char>,
    pub updated_at: Seq<char>,
    pub completed: bool,
}

impl View for Task {
    type V = TaskView;

    open spec fn view(&self) -> TaskView {
        TaskView {
            id: self.id,
            description: self.description@,
            created_at: self.created_at@,
            updated_at: self.updated_at@,
            completed: self.completed,
        }
    }
}

impl DeepView for Task {
    type V = TaskView;

    open spec fn deep_view(&self) -> TaskView {
        self.view()
    }
}

/// Relies on `chrono::Local::now` and `chrono::DateTime::to_rfc3339`: the
/// current local time rendered as an RFC 3339 timestamp string. The value
/// depends on the clock, so nothing is promised of it.
#[verifier::external_body]
pub(crate) fn now_rfc3339() -> String {
    chrono::Local::now().to_rfc3339()
}

impl Clone for Task {
    /// An equal copy, field for field.
    fn clone(&self) -> (r: Self)
        ensures
            r == *self,
    {
        Task {
            id: self.id,
            description: self.description.clone(),
            created_at: self.created_at.clone(),
            updated_at: self.updated_at.clone(),
            completed: self.completed,
        }
    }
}

impl Task {
    /// Constructs a task with the given identity and text: not yet completed,
    /// and with both timestamps set to the same current time.
    pub fn new(id: u32, description: String) -> (r: Task)
        ensures
            r.id == id,
            r@.description == description@,
            r@.created_at == r@.updated_at,
            !r.completed,
    {
        let now = now_rfc3339();
        let now2 = now.clone();
        Task { id, description, created_at: now, updated_at: now2, completed: false }
    }
}

} // verus!

//! A task tracker library: tasks persisted as a JSON array in a single file.
//!
//! The library owns the task model, the JSON encoding of the task list, and
//! the store operations (add, list, complete, delete, edit) as pure
//! transformations of the file's contents. Reading and writing the file
//! itself is left to the caller.

pub mod cli;
mod error;
pub mod json;
pub mod laws;
mod store;
mod task;

pub use cli::Cli;
pub use cli::Commands;
pub use cli::description_is_blank;
pub use cli::next_id;
pub use cli::confirm_nuke;
pub use cli::is_space;
pub use error::TaskError;
pub use error::spec_not_found_message;
pub use store::JsonStore;
pub use store::add_task;
pub use store::list_tasks;
pub use store::complete_task;
pub use store::delete_task;
pub use store::edit_task;
pub use store::has_id;
pub use store::first_match;
pub use store::mark_completed;
pub use store::with_edit;
pub use store::is_open;
pub use store::open_tasks;
pub use store::desc_view;
pub use store::edited_contents;
pub use store::contents_view;
pub use store::spec_load;
pub use task::Task;
pub use task::TaskView;

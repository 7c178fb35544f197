//! A to-do list kept as lines of text, one task per line.
//!
//! A line holds the id of a task, its status and its description:
//! `3: Incomplete water the plants`. The list lives in one backing file.
//! This library holds what is decided about that file and touches no file
//! itself: the caller reads the file, hands its text in, and writes out
//! what it gets back.

pub mod decimal;
pub mod error;
pub mod laws;
pub mod lines;
pub mod path;
pub mod status;
pub mod store;
pub mod task;
pub mod text;

pub use error::TaskError;
pub use path::{list_path_in, todo_list_path};
pub use status::TaskStatus;
pub use status::TaskStatus::{Complete, Incomplete};
pub use store::{create_task, edit_task, get_next_id, read_tasks_to_map, remove_task, write_tasks};
pub use task::Task;

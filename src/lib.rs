//! An in-memory to-do list with a line-oriented text format for saving and
//! re-importing it, an HTML export, and a check of deadlines against the
//! calendar.

pub mod codec;
pub mod deadline;
pub mod render;
pub mod roundtrip;
pub mod task;
pub mod text;

pub use codec::{parse, parse_task_data, serialize};
pub use deadline::{is_valid_deadline, parse_deadline, CalendarDate};
pub use render::generate_task_list_html;
pub use task::{Task, TaskStore, TodoError};
pub use text::{decimal, parse_u32};

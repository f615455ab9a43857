//! A small todo-list library: a text codec for task-list files and the
//! mutation that appends a task with a fresh identifier.
//!
//! Two on-disk text formats are supported, as two independent codecs:
//! a flat format (`<id> <description>` per line) and a grouped format
//! (`= <name>` section headers with `<id> <state> <description>` lines).

pub mod chars;
pub mod error;
pub mod flat;
pub mod grouped;
pub mod task;

pub use error::DecodeError;
pub use flat::string_as_task_list;
pub use flat::task_list_as_string;
pub use grouped::Completion;
pub use grouped::GroupedTask;
pub use grouped::TaskList;
pub use grouped::string_as_task_lists;
pub use grouped::task_lists_as_string;
pub use task::Task;
pub use task::add_to_task_list;

//! A small task-list library: an in-memory sequence of tasks with
//! add / remove / toggle operations and a line-oriented byte codec
//! that mirrors the sequence to a flat file.

pub mod codec;
pub mod store;
pub mod task;

pub use codec::load_tasks;
pub use codec::parse_task_line;
pub use codec::render_tasks;
pub use codec::ParseTaskError;
pub use store::add_task;
pub use store::remove_task;
pub use store::toggle_task;
pub use task::Task;
pub use task::TaskView;

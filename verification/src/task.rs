//! The task record and its mathematical view.

use vstd::prelude::*;

verus! {

/// One to-do record: a numeric id, a title, and a completion flag.
///
/// The title is held as raw bytes; the on-disk format is byte-oriented
/// and a title may be any byte string that avoids the field and record
/// delimiters (`,` and the line break).
#[derive(Debug, PartialEq, Eq)]
pub struct Task {
    pub id: i64,
    pub title: Vec<u8>,
    pub completed: bool,
}

/// The mathematical view of a [`Task`]: an unbounded integer id and a
/// byte sequence for the title.
pub ghost struct TaskView {
    pub id: int,
    pub title: Seq<u8>,
    pub completed: bool,
}

impl View for Task {
    type V = TaskView;

    open spec fn view(&self) -> TaskView {
        TaskView { id: self.id as int, title: self.title@, completed: self.completed }
    }
}

/// The views of a sequence of tasks, element by element.
pub open spec fn views(s: Seq<Task>) -> Seq<TaskView> {
    s.map_values(|t: Task| t@)
}

} // verus!

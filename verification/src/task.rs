//! Tasks.
use vstd::prelude::*;

verus! {

#[derive(Debug, PartialEq, Eq)]
pub struct Task {
    pub id: i64,
    pub parent_id: Option<i64>,
    pub display_order: i64,
    pub title: String,
    pub status_id: i64,
    pub due: Option<String>,
    pub note: String,
    pub created_at: String,
    pub updated_at: String,
}

/// A task as plain values.
#[verifier::ext_equal]
pub struct TaskV {
    pub id: i64,
    pub parent_id: Option<i64>,
    pub display_order: i64,
    pub title: Seq<char>,
    pub status_id: i64,
    pub due: Option<Seq<char>>,
    pub note: Seq<char>,
    pub created_at: Seq<char>,
    pub updated_at: Seq<char>,
}

/// The view of an optional text.
pub open spec fn text_option(o: Option<String>) -> Option<Seq<char>> {
    match o {
        Some(s) => Some(s@),
        None => None,
    }
}

impl View for Task {
    type V = TaskV;

    open spec fn view(&self) -> TaskV {
        TaskV {
            id: self.id,
            parent_id: self.parent_id,
            display_order: self.display_order,
            title: self.title@,
            status_id: self.status_id,
            due: text_option(self.due),
            note: self.note@,
            created_at: self.created_at@,
            updated_at: self.updated_at@,
        }
    }
}

pub fn clone_text_option(o: &Option<String>) -> (r: Option<String>)
    ensures
        r == *o,
{
    match o {
        Some(s) => Some(s.clone()),
        None => None,
    }
}

impl Clone for Task {
    fn clone(&self) -> (r: Self)
        ensures
            r == *self,
    {
        Task {
            id: self.id,
            parent_id: self.parent_id,
            display_order: self.display_order,
            title: self.title.clone(),
            status_id: self.status_id,
            due: clone_text_option(&self.due),
            note: self.note.clone(),
            created_at: self.created_at.clone(),
            updated_at: self.updated_at.clone(),
        }
    }
}

/// The views of a list of tasks.
pub open spec fn tasks_view(v: Seq<Task>) -> Seq<TaskV> {
    v.map_values(|t: Task| t@)
}

/// Which neighbour a task swaps display order with when reordered.
#[derive(Debug, Clone, Copy, PartialEq, Eq, Structural)]
pub enum TaskMove {
    Up,
    Down,
}

} // verus!

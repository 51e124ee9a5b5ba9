//! What an operation on the task store can refuse.
use vstd::prelude::*;

use crate::text;
use crate::text::number;

verus! {

/// Why the store could not carry out a request.
#[derive(Debug, Clone, Copy, PartialEq, Eq, Structural)]
pub enum StoreError {
    /// A parent or status that does not exist was referenced.
    ForeignKey,
    /// The query returned no row.
    NoRow,
    /// An id or display order left the integer range.
    IntegerOverflow,
    /// The rows link tasks in a cycle.
    ParentCycle,
    /// Two rows carry the same id.
    DuplicateId,
}

impl StoreError {
    /// What went wrong, in SQLite's words where it has them.
    pub open spec fn text(self) -> Seq<char> {
        match self {
            StoreError::ForeignKey => "FOREIGN KEY constraint failed"@,
            StoreError::NoRow => "Query returned no rows"@,
            StoreError::IntegerOverflow => "an id or display order left the integer range"@,
            StoreError::ParentCycle => "the rows link tasks in a cycle"@,
            StoreError::DuplicateId => "two rows carry the same id"@,
        }
    }

    pub fn message(self) -> (r: String)
        ensures
            r@ == self.text(),
    {
        match self {
            StoreError::ForeignKey => "FOREIGN KEY constraint failed".to_owned(),
            StoreError::NoRow => "Query returned no rows".to_owned(),
            StoreError::IntegerOverflow => {
                "an id or display order left the integer range".to_owned()
            },
            StoreError::ParentCycle => "the rows link tasks in a cycle".to_owned(),
            StoreError::DuplicateId => "two rows carry the same id".to_owned(),
        }
    }
}

#[derive(Debug, PartialEq, Eq)]
pub enum Error {
    Sqlite(StoreError),
    /// The referenced task does not exist. Surfaced instead of silently
    /// updating zero rows so callers holding a stale id notice the bug.
    TaskNotFound(i64),
    /// Re-parenting a task under itself or one of its descendants would
    /// disconnect the subtree into a cycle unreachable from any root.
    CycleDetected { task: i64, new_parent: i64 },
    /// Due dates must be real calendar days written exactly as YYYY-MM-DD.
    /// The canonical form is enforced on write so stored dates compare
    /// correctly as plain strings (ordering, overdue checks).
    InvalidDate(String),
    /// The referenced status does not exist. Same rationale as TaskNotFound.
    StatusNotFound(i64),
    /// Deleting this status would orphan the tasks that reference it. The
    /// count lets the UI tell the user the size of the conflict.
    StatusInUse { count: i64 },
    /// Tasks always need a status to be created with, so at least one status
    /// row must survive.
    CannotDeleteLastStatus,
    /// Exactly one status must stay flagged as default; the user has to move
    /// the default elsewhere before deleting this row.
    CannotDeleteDefaultStatus,
    /// Undo scopes do not nest. Opening a second one would silently make the
    /// matching end fold edits from the wrong boundary, so it fails loudly
    /// at the call that broke the pairing.
    UndoScopeAlreadyActive,
    /// Closing an undo scope requires one to be open; same rationale as
    /// UndoScopeAlreadyActive.
    UndoScopeNotActive,
}

/// An error as plain values.
#[verifier::ext_equal]
pub enum ErrorV {
    Sqlite(StoreError),
    TaskNotFound(i64),
    CycleDetected { task: i64, new_parent: i64 },
    InvalidDate(Seq<char>),
    StatusNotFound(i64),
    StatusInUse { count: i64 },
    CannotDeleteLastStatus,
    CannotDeleteDefaultStatus,
    UndoScopeAlreadyActive,
    UndoScopeNotActive,
}

impl View for Error {
    type V = ErrorV;

    open spec fn view(&self) -> ErrorV {
        match *self {
            Error::Sqlite(e) => ErrorV::Sqlite(e),
            Error::TaskNotFound(id) => ErrorV::TaskNotFound(id),
            Error::CycleDetected { task, new_parent } => ErrorV::CycleDetected { task, new_parent },
            Error::InvalidDate(text) => ErrorV::InvalidDate(text@),
            Error::StatusNotFound(id) => ErrorV::StatusNotFound(id),
            Error::StatusInUse { count } => ErrorV::StatusInUse { count },
            Error::CannotDeleteLastStatus => ErrorV::CannotDeleteLastStatus,
            Error::CannotDeleteDefaultStatus => ErrorV::CannotDeleteDefaultStatus,
            Error::UndoScopeAlreadyActive => ErrorV::UndoScopeAlreadyActive,
            Error::UndoScopeNotActive => ErrorV::UndoScopeNotActive,
        }
    }
}

impl ErrorV {
    /// The message shown for an error.
    pub open spec fn message(self) -> Seq<char> {
        match self {
            ErrorV::Sqlite(_) => "sqlite error"@,
            ErrorV::TaskNotFound(id) => "task "@ + text::decimal(id as int) + " not found"@,
            ErrorV::CycleDetected { task, new_parent } => "cannot move task "@ + text::decimal(
                task as int,
            ) + " under "@ + text::decimal(new_parent as int)
                + ": it is the task itself or one of its descendants"@,
            ErrorV::InvalidDate(text) => "invalid date `"@ + text + "` (expected YYYY-MM-DD)"@,
            ErrorV::StatusNotFound(id) => "status "@ + text::decimal(id as int) + " not found"@,
            ErrorV::StatusInUse { count } => "status is used by "@ + text::decimal(count as int)
                + " task(s)"@,
            ErrorV::CannotDeleteLastStatus => "the last remaining status cannot be deleted"@,
            ErrorV::CannotDeleteDefaultStatus => "the default status cannot be deleted"@,
            ErrorV::UndoScopeAlreadyActive => "an undo scope is already active"@,
            ErrorV::UndoScopeNotActive => "no undo scope is active"@,
        }
    }
}

impl Error {
    pub fn message(&self) -> (r: String)
        ensures
            r@ == self@.message(),
    {
        match self {
            Error::Sqlite(_) => "sqlite error".to_owned(),
            Error::TaskNotFound(id) => {
                let mut s = "task ".to_owned();
                s.append(number(*id).as_str());
                s.append(" not found");
                s
            },
            Error::CycleDetected { task, new_parent } => {
                let mut s = "cannot move task ".to_owned();
                s.append(number(*task).as_str());
                s.append(" under ");
                s.append(number(*new_parent).as_str());
                s.append(": it is the task itself or one of its descendants");
                s
            },
            Error::InvalidDate(text) => {
                let mut s = "invalid date `".to_owned();
                s.append(text.as_str());
                s.append("` (expected YYYY-MM-DD)");
                s
            },
            Error::StatusNotFound(id) => {
                let mut s = "status ".to_owned();
                s.append(number(*id).as_str());
                s.append(" not found");
                s
            },
            Error::StatusInUse { count } => {
                let mut s = "status is used by ".to_owned();
                s.append(number(*count).as_str());
                s.append(" task(s)");
                s
            },
            Error::CannotDeleteLastStatus => "the last remaining status cannot be deleted".to_owned(),
            Error::CannotDeleteDefaultStatus => "the default status cannot be deleted".to_owned(),
            Error::UndoScopeAlreadyActive => "an undo scope is already active".to_owned(),
            Error::UndoScopeNotActive => "no undo scope is active".to_owned(),
        }
    }

    /// What lies behind the error, where there is more to say.
    pub fn cause(&self) -> (r: Option<String>)
        ensures
            match *self {
                Error::Sqlite(e) => r matches Some(s) && s@ == e.text(),
                _ => r is None,
            },
    {
        match self {
            Error::Sqlite(e) => Some(e.message()),
            _ => None,
        }
    }
}

} // verus!

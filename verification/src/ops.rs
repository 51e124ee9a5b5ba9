//! The store's operations as functions from a store to the next store and
//! the result handed back.
use vstd::prelude::*;

use crate::clock;
use crate::error::ErrorV;
use crate::plans;
use crate::status::{StatusKind, StatusMove, StatusV};
use crate::tables;
use crate::tables::{DbV, OutcomeV};
use crate::task::{TaskMove, TaskV};

verus! {

pub open spec fn create_task(
    d: DbV,
    parent: Option<i64>,
    title: Seq<char>,
    after: Option<i64>,
    status_id: i64,
    now: Seq<char>,
) -> (DbV, Result<TaskV, ErrorV>) {
    plans::acted(
        d,
        "create \""@ + title + "\""@,
        plans::create(d.tables, parent, title, after, status_id, now),
    )
}

pub open spec fn rename_task(d: DbV, id: i64, title: Seq<char>, now: Seq<char>) -> (
    DbV,
    Result<(), ErrorV>,
) {
    plans::acted(
        d,
        "rename \""@ + d.tables.tasks[id].title + "\" → \""@ + title + "\""@,
        plans::rename(d.tables, id, title, now),
    )
}

pub open spec fn set_status(d: DbV, id: i64, status_id: i64, now: Seq<char>) -> (
    DbV,
    Result<(), ErrorV>,
) {
    plans::acted(
        d,
        "set status of \""@ + d.tables.tasks[id].title + "\" to \""@
            + d.tables.statuses[status_id].label + "\""@,
        plans::set_status(d.tables, id, status_id, now),
    )
}

pub open spec fn set_due(d: DbV, id: i64, due: Option<Seq<char>>, now: Seq<char>) -> (
    DbV,
    Result<(), ErrorV>,
) {
    plans::acted(
        d,
        "set due \""@ + d.tables.tasks[id].title + "\""@,
        plans::set_due(d.tables, id, due, clock::is_due(due), now),
    )
}

pub open spec fn set_note(d: DbV, id: i64, note: Seq<char>, now: Seq<char>) -> (
    DbV,
    Result<(), ErrorV>,
) {
    plans::acted(
        d,
        "edit note \""@ + d.tables.tasks[id].title + "\""@,
        plans::set_note(d.tables, id, note, now),
    )
}

pub open spec fn move_task(d: DbV, id: i64, direction: TaskMove) -> (DbV, Result<(), ErrorV>) {
    plans::acted(
        d,
        "move \""@ + d.tables.tasks[id].title + "\""@,
        plans::move_task(d.tables, id, direction),
    )
}

pub open spec fn reparent(
    d: DbV,
    id: i64,
    new_parent: Option<i64>,
    after: Option<i64>,
    now: Seq<char>,
) -> (DbV, Result<(), ErrorV>) {
    plans::acted(
        d,
        "move \""@ + d.tables.tasks[id].title + "\""@,
        plans::reparent(d.tables, id, new_parent, after, now),
    )
}

pub open spec fn count_subtree(d: DbV, id: i64) -> Result<i64, ErrorV> {
    if d.tables.tasks.dom().contains(id) {
        Ok(plans::count(plans::subtree_ids(d.tables.tasks, id).len()))
    } else {
        Err(ErrorV::TaskNotFound(id))
    }
}

pub open spec fn delete_subtree(d: DbV, id: i64) -> (DbV, Result<i64, ErrorV>) {
    plans::acted(
        d,
        "delete \""@ + d.tables.tasks[id].title + "\""@,
        plans::delete(d.tables, id),
    )
}

pub open spec fn create_status(
    d: DbV,
    label: Seq<char>,
    kind: StatusKind,
    color: Seq<char>,
    key: char,
) -> (DbV, Result<StatusV, ErrorV>) {
    plans::acted(
        d,
        "create status \""@ + label + "\""@,
        plans::create_status(d.tables, label, kind, color, key),
    )
}

pub open spec fn update_status_label(d: DbV, id: i64, label: Seq<char>) -> (
    DbV,
    Result<(), ErrorV>,
) {
    plans::acted(
        d,
        "rename status \""@ + d.tables.statuses[id].label + "\" → \""@ + label + "\""@,
        plans::edited_status(d.tables, id, StatusV { label, ..d.tables.statuses[id] }),
    )
}

/// A status whose row is replaced in some other respect than its label.
pub open spec fn update_status(d: DbV, id: i64, row: StatusV) -> (DbV, Result<(), ErrorV>) {
    plans::acted(
        d,
        "update status \""@ + d.tables.statuses[id].label + "\""@,
        plans::edited_status(d.tables, id, row),
    )
}

pub open spec fn update_status_kind(d: DbV, id: i64, kind: StatusKind) -> (
    DbV,
    Result<(), ErrorV>,
) {
    update_status(d, id, StatusV { kind, ..d.tables.statuses[id] })
}

pub open spec fn update_status_color(d: DbV, id: i64, color: Seq<char>) -> (
    DbV,
    Result<(), ErrorV>,
) {
    update_status(d, id, StatusV { color, ..d.tables.statuses[id] })
}

pub open spec fn update_status_key(d: DbV, id: i64, key: char) -> (DbV, Result<(), ErrorV>) {
    update_status(d, id, StatusV { key, ..d.tables.statuses[id] })
}

pub open spec fn delete_status(d: DbV, id: i64) -> (DbV, Result<(), ErrorV>) {
    plans::acted(
        d,
        "delete status \""@ + d.tables.statuses[id].label + "\""@,
        plans::delete_status(d.tables, id),
    )
}

pub open spec fn move_status(d: DbV, id: i64, direction: StatusMove) -> (DbV, Result<(), ErrorV>) {
    plans::acted(
        d,
        "move status \""@ + d.tables.statuses[id].label + "\""@,
        plans::move_status(d.tables, id, direction),
    )
}

pub open spec fn set_default_status(d: DbV, id: i64) -> (DbV, Result<(), ErrorV>) {
    plans::acted(
        d,
        "set default status \""@ + d.tables.statuses[id].label + "\""@,
        plans::set_default(d.tables, id),
    )
}

pub open spec fn begin_undo_scope(d: DbV) -> (DbV, Result<(), ErrorV>) {
    if d.scope is Some {
        (d, Err(ErrorV::UndoScopeAlreadyActive))
    } else {
        (tables::scope_opened(d), Ok(()))
    }
}

pub open spec fn end_undo_scope(d: DbV, description: Seq<char>) -> (DbV, Result<(), ErrorV>) {
    if d.scope is None {
        (d, Err(ErrorV::UndoScopeNotActive))
    } else {
        (tables::scope_closed(d, description), Ok(()))
    }
}

pub open spec fn undo(d: DbV) -> (DbV, Option<OutcomeV>) {
    if tables::can_undo(d) {
        (tables::undone(d), Some(tables::replay_outcome(d.undo)))
    } else {
        (d, None)
    }
}

pub open spec fn redo(d: DbV) -> (DbV, Option<OutcomeV>) {
    if d.redo.len() > 0 {
        (tables::redone(d), Some(tables::replay_outcome(d.redo)))
    } else {
        (d, None)
    }
}

} // verus!

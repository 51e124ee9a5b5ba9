//! What each action on the store does: the row changes it makes, or why it
//! is refused.
use vstd::prelude::*;

use crate::error::{ErrorV, StoreError};
use crate::forest;
use crate::order;
use crate::query;
use crate::query::{QueryV, Sort};
use crate::status::{StatusKind, StatusMove, StatusV};
use crate::tables;
use crate::tables::{ChangeV, DbV, Tables};
use crate::task::{TaskMove, TaskV};

verus! {

/// The outcome of an action: its changes are committed under a description,
/// or nothing happens and the refusal is handed back.
pub open spec fn acted<T>(
    d: DbV,
    description: Seq<char>,
    plan: Result<(Seq<ChangeV>, T), ErrorV>,
) -> (DbV, Result<T, ErrorV>) {
    match plan {
        Ok((changes, value)) => (tables::committed(d, description, changes), Ok(value)),
        Err(e) => (d, Err(e)),
    }
}

/// A count as the store reports it.
pub open spec fn count(n: nat) -> i64 {
    if n <= i64::MAX {
        n as i64
    } else {
        i64::MAX
    }
}

/// The tasks with this parent, in sibling order.
pub open spec fn children(m: Map<i64, TaskV>, parent: Option<i64>) -> Seq<TaskV> {
    forest::group(tables::rows(m), parent).map_values(|i: int| tables::rows(m)[i])
}

/// The row changed in one way.
pub open spec fn edit(t: Tables, row: TaskV) -> ChangeV {
    ChangeV::Task { id: row.id, before: tables::lookup(t.tasks, row.id), after: Some(row) }
}

pub open spec fn edit_status(t: Tables, row: StatusV) -> ChangeV {
    ChangeV::Status { id: row.id, before: tables::lookup(t.statuses, row.id), after: Some(row) }
}

/// Whether a row of a sibling group moves when room is made or closed.
pub open spec fn shifts(row: TaskV, above: i64, except: Option<i64>) -> bool {
    row.display_order > above && Some(row.id) != except
}

/// Moves the rows above a display order by one, except one row.
pub open spec fn shift(rows: Seq<TaskV>, above: i64, by: int, except: Option<i64>) -> Seq<ChangeV>
    decreases rows.len(),
{
    if rows.len() == 0 {
        seq![]
    } else {
        let front = shift(rows.drop_last(), above, by, except);
        let row = rows.last();
        if shifts(row, above, except) {
            front.push(
                ChangeV::Task {
                    id: row.id,
                    before: Some(row),
                    after: Some(TaskV { display_order: (row.display_order + by) as i64, ..row }),
                },
            )
        } else {
            front
        }
    }
}

/// Some row that would move up is already at the last order.
pub open spec fn cannot_shift_up(rows: Seq<TaskV>, above: i64, except: Option<i64>) -> bool {
    exists|i: int|
        0 <= i < rows.len() && shifts(#[trigger] rows[i], above, except) && rows[i].display_order
            == i64::MAX
}

/// The display order that appends to a sibling group, leaving out one row.
pub open spec fn tail_order(rows: Seq<TaskV>, except: Option<i64>) -> int
    decreases rows.len(),
{
    if rows.len() == 0 {
        0
    } else if Some(rows.last().id) != except {
        rows.last().display_order + 1
    } else {
        tail_order(rows.drop_last(), except)
    }
}

/// Makes room in a sibling group: the changes, and the display order that
/// has become free. After a given order the rows above it move up; without
/// one the new place is the tail.
pub open spec fn make_room(
    rows: Seq<TaskV>,
    after: Option<i64>,
    except: Option<i64>,
) -> Option<(Seq<ChangeV>, i64)> {
    match after {
        Some(a) => if a == i64::MAX || cannot_shift_up(rows, a, except) {
            None
        } else {
            Some((shift(rows, a, 1, except), (a + 1) as i64))
        },
        None => if tail_order(rows, except) > i64::MAX {
            None
        } else {
            Some((seq![], tail_order(rows, except) as i64))
        },
    }
}

/// The next free id: one above the largest, 1 in an empty table.
pub open spec fn next_id(ids: Seq<i64>) -> int {
    if ids.len() == 0 {
        1
    } else {
        ids.last() + 1
    }
}

pub open spec fn next_task_id(m: Map<i64, TaskV>) -> int {
    next_id(tables::rows(m).map_values(|t: TaskV| t.id))
}

pub open spec fn next_status_id(m: Map<i64, StatusV>) -> int {
    next_id(tables::status_rows(m).map_values(|s: StatusV| s.id))
}

/// The references of a new or moved task exist.
pub open spec fn parent_exists(m: Map<i64, TaskV>, parent: Option<i64>) -> bool {
    parent is Some ==> m.dom().contains(parent->Some_0)
}

pub open spec fn create(
    t: Tables,
    parent: Option<i64>,
    title: Seq<char>,
    after: Option<i64>,
    status_id: i64,
    now: Seq<char>,
) -> Result<(Seq<ChangeV>, TaskV), ErrorV> {
    match make_room(children(t.tasks, parent), after, None) {
        None => Err(ErrorV::Sqlite(StoreError::IntegerOverflow)),
        Some((room, display_order)) => if !parent_exists(t.tasks, parent)
            || !t.statuses.dom().contains(status_id) {
            Err(ErrorV::Sqlite(StoreError::ForeignKey))
        } else if next_task_id(t.tasks) > i64::MAX {
            Err(ErrorV::Sqlite(StoreError::IntegerOverflow))
        } else {
            let row = TaskV {
                id: next_task_id(t.tasks) as i64,
                parent_id: parent,
                display_order,
                title,
                status_id,
                due: None,
                note: seq![],
                created_at: now,
                updated_at: now,
            };
            Ok((room.push(ChangeV::Task { id: row.id, before: None, after: Some(row) }), row))
        },
    }
}

/// Replaces one row; refused where the task is unknown.
pub open spec fn edited(t: Tables, id: i64, row: TaskV) -> Result<(Seq<ChangeV>, ()), ErrorV> {
    if t.tasks.dom().contains(id) {
        Ok((seq![edit(t, row)], ()))
    } else {
        Err(ErrorV::TaskNotFound(id))
    }
}

pub open spec fn rename(t: Tables, id: i64, title: Seq<char>, now: Seq<char>) -> Result<
    (Seq<ChangeV>, ()),
    ErrorV,
> {
    edited(t, id, TaskV { title, updated_at: now, ..t.tasks[id] })
}

pub open spec fn set_status(t: Tables, id: i64, status_id: i64, now: Seq<char>) -> Result<
    (Seq<ChangeV>, ()),
    ErrorV,
> {
    if t.tasks.dom().contains(id) && !t.statuses.dom().contains(status_id) {
        Err(ErrorV::Sqlite(StoreError::ForeignKey))
    } else {
        edited(t, id, TaskV { status_id, updated_at: now, ..t.tasks[id] })
    }
}

/// `valid` says whether `due` is a date as it has to be written.
pub open spec fn set_due(
    t: Tables,
    id: i64,
    due: Option<Seq<char>>,
    valid: bool,
    now: Seq<char>,
) -> Result<(Seq<ChangeV>, ()), ErrorV> {
    if due is Some && !valid {
        Err(ErrorV::InvalidDate(due->Some_0))
    } else {
        edited(t, id, TaskV { due, updated_at: now, ..t.tasks[id] })
    }
}

pub open spec fn set_note(t: Tables, id: i64, note: Seq<char>, now: Seq<char>) -> Result<
    (Seq<ChangeV>, ()),
    ErrorV,
> {
    edited(t, id, TaskV { note, updated_at: now, ..t.tasks[id] })
}

/// The index of a row with this id.
pub open spec fn index_of(rows: Seq<TaskV>, id: i64) -> int
    decreases rows.len(),
{
    if rows.len() == 0 {
        -1
    } else if rows.last().id == id {
        rows.len() - 1
    } else {
        index_of(rows.drop_last(), id)
    }
}

/// The ids of a subtree, its root first and every parent before its
/// descendants.
pub open spec fn subtree_ids(m: Map<i64, TaskV>, id: i64) -> Seq<i64> {
    let rows = tables::rows(m);
    forest::subtree(rows, index_of(rows, id)).map_values(|i: int| rows[i].id)
}

/// Closes the gap in the old sibling group, makes room in the new one, and
/// moves the task there.
pub open spec fn reparent(
    t: Tables,
    id: i64,
    new_parent: Option<i64>,
    after: Option<i64>,
    now: Seq<char>,
) -> Result<(Seq<ChangeV>, ()), ErrorV> {
    if !t.tasks.dom().contains(id) {
        Err(ErrorV::TaskNotFound(id))
    } else if new_parent is Some && subtree_ids(t.tasks, id).contains(new_parent->Some_0) {
        Err(ErrorV::CycleDetected { task: id, new_parent: new_parent->Some_0 })
    } else {
        let row = t.tasks[id];
        let closed = shift(children(t.tasks, row.parent_id), row.display_order, -1, None);
        let u = tables::run(t, closed);
        match make_room(children(u.tasks, new_parent), after, Some(id)) {
            None => Err(ErrorV::Sqlite(StoreError::IntegerOverflow)),
            Some((room, display_order)) => if !parent_exists(t.tasks, new_parent) {
                Err(ErrorV::Sqlite(StoreError::ForeignKey))
            } else {
                let moved = TaskV { parent_id: new_parent, display_order, updated_at: now, ..row };
                Ok(
                    (
                        (closed + room).push(
                            ChangeV::Task { id, before: Some(row), after: Some(moved) },
                        ),
                        (),
                    ),
                )
            },
        }
    }
}

/// Deletes rows one by one, the last of the ids first.
pub open spec fn delete_rows(m: Map<i64, TaskV>, ids: Seq<i64>) -> Seq<ChangeV> {
    Seq::new(
        ids.len(),
        |k: int|
            {
                let id = ids[ids.len() - 1 - k];
                ChangeV::Task { id, before: Some(m[id]), after: None }
            },
    )
}

/// Deletes a subtree, deepest rows first, so that no row ever loses its
/// parent before itself.
pub open spec fn delete(t: Tables, id: i64) -> Result<(Seq<ChangeV>, i64), ErrorV> {
    if !t.tasks.dom().contains(id) {
        Err(ErrorV::TaskNotFound(id))
    } else {
        let ids = subtree_ids(t.tasks, id);
        Ok((delete_rows(t.tasks, ids), count(ids.len())))
    }
}

/// The first row above this display order.
pub open spec fn next_row(rows: Seq<TaskV>, order: i64) -> Option<TaskV>
    decreases rows.len(),
{
    if rows.len() == 0 {
        None
    } else if rows[0].display_order > order {
        Some(rows[0])
    } else {
        next_row(rows.drop_first(), order)
    }
}

/// The last row below this display order.
pub open spec fn previous_row(rows: Seq<TaskV>, order: i64) -> Option<TaskV>
    decreases rows.len(),
{
    if rows.len() == 0 {
        None
    } else if rows.last().display_order < order {
        Some(rows.last())
    } else {
        previous_row(rows.drop_last(), order)
    }
}

/// Swaps the display order of a task and its neighbour in the sibling group;
/// at either end of the group nothing changes.
pub open spec fn move_task(t: Tables, id: i64, direction: TaskMove) -> Result<
    (Seq<ChangeV>, ()),
    ErrorV,
> {
    if !t.tasks.dom().contains(id) {
        Err(ErrorV::TaskNotFound(id))
    } else {
        let row = t.tasks[id];
        let rows = children(t.tasks, row.parent_id);
        let neighbour = match direction {
            TaskMove::Down => next_row(rows, row.display_order),
            TaskMove::Up => previous_row(rows, row.display_order),
        };
        match neighbour {
            None => Ok((seq![], ())),
            Some(n) => Ok(
                (
                    seq![
                        edit(t, TaskV { display_order: n.display_order, ..row }),
                        edit(t, TaskV { display_order: row.display_order, ..n }),
                    ],
                    (),
                ),
            ),
        }
    }
}

/// The statuses in display order.
pub open spec fn statuses(m: Map<i64, StatusV>) -> Seq<StatusV> {
    order::status_listing(tables::status_rows(m))
}

/// The display order that appends a status: one above the last.
pub open spec fn status_tail(listed: Seq<StatusV>) -> int {
    if listed.len() == 0 {
        0
    } else {
        listed.last().display_order + 1
    }
}

pub open spec fn create_status(
    t: Tables,
    label: Seq<char>,
    kind: StatusKind,
    color: Seq<char>,
    key: char,
) -> Result<(Seq<ChangeV>, StatusV), ErrorV> {
    if status_tail(statuses(t.statuses)) > i64::MAX || next_status_id(t.statuses) > i64::MAX {
        Err(ErrorV::Sqlite(StoreError::IntegerOverflow))
    } else {
        let row = StatusV {
            id: next_status_id(t.statuses) as i64,
            label,
            kind,
            color,
            key,
            display_order: status_tail(statuses(t.statuses)) as i64,
            is_default: false,
        };
        Ok((seq![ChangeV::Status { id: row.id, before: None, after: Some(row) }], row))
    }
}

/// Replaces one status row; refused where the status is unknown.
pub open spec fn edited_status(t: Tables, id: i64, row: StatusV) -> Result<
    (Seq<ChangeV>, ()),
    ErrorV,
> {
    if t.statuses.dom().contains(id) {
        Ok((seq![edit_status(t, row)], ()))
    } else {
        Err(ErrorV::StatusNotFound(id))
    }
}

/// How many of the rows carry the status.
pub open spec fn users(rows: Seq<TaskV>, status_id: i64) -> nat
    decreases rows.len(),
{
    if rows.len() == 0 {
        0
    } else {
        users(rows.drop_last(), status_id) + if rows.last().status_id == status_id {
            1nat
        } else {
            0nat
        }
    }
}

/// Deletes a status unless tasks still reference it, it is the last row, or
/// it is the default.
pub open spec fn delete_status(t: Tables, id: i64) -> Result<(Seq<ChangeV>, ()), ErrorV> {
    let in_use = users(tables::rows(t.tasks), id);
    if !t.statuses.dom().contains(id) {
        Err(ErrorV::StatusNotFound(id))
    } else if in_use > 0 {
        Err(ErrorV::StatusInUse { count: count(in_use) })
    } else if tables::status_rows(t.statuses).len() <= 1 {
        Err(ErrorV::CannotDeleteLastStatus)
    } else if t.statuses[id].is_default {
        Err(ErrorV::CannotDeleteDefaultStatus)
    } else {
        Ok((seq![ChangeV::Status { id, before: Some(t.statuses[id]), after: None }], ()))
    }
}

/// The first status above this display order.
pub open spec fn next_status(rows: Seq<StatusV>, order: i64) -> Option<StatusV>
    decreases rows.len(),
{
    if rows.len() == 0 {
        None
    } else if rows[0].display_order > order {
        Some(rows[0])
    } else {
        next_status(rows.drop_first(), order)
    }
}

/// The last status below this display order.
pub open spec fn previous_status(rows: Seq<StatusV>, order: i64) -> Option<StatusV>
    decreases rows.len(),
{
    if rows.len() == 0 {
        None
    } else if rows.last().display_order < order {
        Some(rows.last())
    } else {
        previous_status(rows.drop_last(), order)
    }
}

/// Swaps the display order of a status and its neighbour; at either end of
/// the list nothing changes.
pub open spec fn move_status(t: Tables, id: i64, direction: StatusMove) -> Result<
    (Seq<ChangeV>, ()),
    ErrorV,
> {
    if !t.statuses.dom().contains(id) {
        Err(ErrorV::StatusNotFound(id))
    } else {
        let row = t.statuses[id];
        let rows = statuses(t.statuses);
        let neighbour = match direction {
            StatusMove::Down => next_status(rows, row.display_order),
            StatusMove::Up => previous_status(rows, row.display_order),
        };
        match neighbour {
            None => Ok((seq![], ())),
            Some(n) => Ok(
                (
                    seq![
                        edit_status(t, StatusV { display_order: n.display_order, ..row }),
                        edit_status(t, StatusV { display_order: row.display_order, ..n }),
                    ],
                    (),
                ),
            ),
        }
    }
}

/// Flags one status as default and no other.
pub open spec fn set_default(t: Tables, id: i64) -> Result<(Seq<ChangeV>, ()), ErrorV> {
    if !t.statuses.dom().contains(id) {
        Err(ErrorV::StatusNotFound(id))
    } else {
        Ok((flag_default(tables::status_rows(t.statuses), id), ()))
    }
}

/// Every row with its default flag set as asked.
pub open spec fn flag_default(rows: Seq<StatusV>, id: i64) -> Seq<ChangeV> {
    rows.map_values(
        |row: StatusV|
            ChangeV::Status {
                id: row.id,
                before: Some(row),
                after: Some(StatusV { is_default: row.id == id, ..row }),
            },
    )
}

/// The first of the rows flagged as default.
pub open spec fn first_default(rows: Seq<StatusV>) -> Option<i64>
    decreases rows.len(),
{
    if rows.len() == 0 {
        None
    } else if rows[0].is_default {
        Some(rows[0].id)
    } else {
        first_default(rows.drop_first())
    }
}

pub open spec fn default_status(t: Tables) -> Result<i64, ErrorV> {
    match first_default(tables::status_rows(t.statuses)) {
        Some(id) => Ok(id),
        None => Err(ErrorV::Sqlite(StoreError::NoRow)),
    }
}

/// Whether a task is found by a request. A task whose status is unknown
/// never is.
pub open spec fn found(t: Tables, row: TaskV, q: QueryV, today: Seq<char>) -> bool {
    &&& t.statuses.dom().contains(row.status_id)
    &&& query::passes_text(row, q.text)
    &&& query::passes_filter(row, t.statuses[row.status_id].kind, q.filter, today)
}

/// The found among the given tasks, in their order.
pub open spec fn select(rows: Seq<TaskV>, t: Tables, q: QueryV, today: Seq<char>) -> Seq<TaskV>
    decreases rows.len(),
{
    if rows.len() == 0 {
        seq![]
    } else {
        let front = select(rows.drop_last(), t, q, today);
        if found(t, rows.last(), q, today) {
            front.push(rows.last())
        } else {
            front
        }
    }
}

/// Every task in the depth-first order of the whole tree.
pub open spec fn tree_listing(rows: Seq<TaskV>) -> Seq<TaskV> {
    forest::tree_order(rows).map_values(|i: int| rows[i])
}

/// Every task in the order a request asks for.
pub open spec fn sort_listing(rows: Seq<TaskV>, sort: Sort) -> Seq<TaskV> {
    match sort {
        Sort::TreeOrder => tree_listing(rows),
        Sort::Due => order::listing(rows, order::Order::Due),
        Sort::Updated => order::listing(rows, order::Order::Updated),
        Sort::Created => order::listing(rows, order::Order::Created),
        Sort::Title => order::listing(rows, order::Order::Title),
    }
}

pub open spec fn search(t: Tables, q: QueryV, today: Seq<char>) -> Seq<TaskV> {
    select(sort_listing(tables::rows(t.tasks), q.sort), t, q, today)
}

} // verus!

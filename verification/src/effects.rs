//! What each action on the store comes to, told from the rows before and
//! after it.
use vstd::prelude::*;

use crate::clock;
use crate::error::{ErrorV, StoreError};
use crate::ops;
use crate::plans;
use crate::tables;
use crate::tables::{ChangeV, DbV, Tables};
use crate::task::TaskV;

verus! {

/// The action was one step: undo names it and leads back to the rows before,
/// redo then leads forward again, and nothing older is left to redo.
pub open spec fn one_step(d: DbV, e: DbV, description: Seq<char>) -> bool {
    let (u, undone) = ops::undo(e);
    let (f, redone) = ops::redo(u);
    &&& ops::redo(e).1 is None
    &&& undone is Some
    &&& undone->Some_0.description == description
    &&& u.tables == d.tables
    &&& redone is Some
    &&& redone->Some_0.description == description
    &&& f.tables == e.tables
}

/// Every row but the given task's is as it was, and no row came or went.
pub open spec fn only_task(t: Tables, u: Tables, id: i64) -> bool {
    &&& u.statuses == t.statuses
    &&& forall|x: i64| #[trigger] u.tasks.dom().contains(x) <==> t.tasks.dom().contains(x)
    &&& forall|x: i64| #[trigger]
        u.tasks.dom().contains(x) && x != id ==> u.tasks[x] == t.tasks[x]
}

pub(crate) proof fn lemma_one_step(d: DbV, description: Seq<char>, changes: Seq<ChangeV>)
    requires
        tables::history_ok(d, false),
        tables::runs(d.tables, changes),
        changes.len() > 0,
    ensures
        one_step(d, tables::committed(d, description, changes), description),
{
    let e = tables::committed(d, description, changes);
    let u = tables::undone(e);
    tables::undo_restores_tables(d, description, changes);
    assert(e.undo.last().changes == changes);
    assert(u.redo.last().changes == tables::inverse_all(changes));
    tables::lemma_inverse_all_twice(changes);
}

/// Replacing one row replaces that row.
proof fn lemma_edit(d: DbV, description: Seq<char>, row: TaskV)
    requires
        tables::history_ok(d, false),
        d.tables.tasks.dom().contains(row.id),
    ensures
        ({
            let e = tables::committed(d, description, seq![plans::edit(d.tables, row)]);
            &&& only_task(d.tables, e.tables, row.id)
            &&& e.tables.tasks[row.id] == row
            &&& one_step(d, e, description)
        }),
{
    let c = plans::edit(d.tables, row);
    tables::lemma_run_one(d.tables, c);
    lemma_one_step(d, description, seq![c]);
}

/// Renaming gives a task the title asked for and leaves everything else of
/// it, and every other row, as it was. Only an unknown task is refused.
pub proof fn renaming_changes_the_title_alone(d: DbV, id: i64, title: Seq<char>, now: Seq<char>)
    requires
        tables::history_ok(d, false),
    ensures
        ({
            let (e, r) = ops::rename_task(d, id, title, now);
            let old_row = d.tables.tasks[id];
            let row = e.tables.tasks[id];
            if d.tables.tasks.dom().contains(id) {
                &&& r is Ok
                &&& only_task(d.tables, e.tables, id)
                &&& row.title == title
                &&& row.updated_at == now
                &&& row.id == id
                &&& row.note == old_row.note
                &&& row.due == old_row.due
                &&& row.status_id == old_row.status_id
                &&& row.parent_id == old_row.parent_id
                &&& row.display_order == old_row.display_order
                &&& row.created_at == old_row.created_at
                &&& one_step(
                    d,
                    e,
                    "rename \""@ + old_row.title + "\" → \""@ + title + "\""@,
                )
            } else {
                e == d && r == Err::<(), ErrorV>(ErrorV::TaskNotFound(id))
            }
        }),
{
    if d.tables.tasks.dom().contains(id) {
        let row = TaskV { title, updated_at: now, ..d.tables.tasks[id] };
        lemma_edit(
            d,
            "rename \""@ + d.tables.tasks[id].title + "\" → \""@ + title + "\""@,
            row,
        );
    }
}

/// Writing a note changes a task's note and leaves everything else of it,
/// and every other row, as it was. Only an unknown task is refused.
pub proof fn annotating_changes_the_note_alone(d: DbV, id: i64, note: Seq<char>, now: Seq<char>)
    requires
        tables::history_ok(d, false),
    ensures
        ({
            let (e, r) = ops::set_note(d, id, note, now);
            let old_row = d.tables.tasks[id];
            let row = e.tables.tasks[id];
            if d.tables.tasks.dom().contains(id) {
                &&& r is Ok
                &&& only_task(d.tables, e.tables, id)
                &&& row.note == note
                &&& row.updated_at == now
                &&& row.id == id
                &&& row.title == old_row.title
                &&& row.due == old_row.due
                &&& row.status_id == old_row.status_id
                &&& row.parent_id == old_row.parent_id
                &&& row.display_order == old_row.display_order
                &&& row.created_at == old_row.created_at
                &&& one_step(d, e, "edit note \""@ + old_row.title + "\""@)
            } else {
                e == d && r == Err::<(), ErrorV>(ErrorV::TaskNotFound(id))
            }
        }),
{
    if d.tables.tasks.dom().contains(id) {
        let row = TaskV { note, updated_at: now, ..d.tables.tasks[id] };
        lemma_edit(d, "edit note \""@ + d.tables.tasks[id].title + "\""@, row);
    }
}

/// Setting or clearing a due date changes that alone. A text that is no
/// calendar day is refused before anything else, then an unknown task.
pub proof fn scheduling_changes_the_due_date_alone(
    d: DbV,
    id: i64,
    due: Option<Seq<char>>,
    now: Seq<char>,
)
    requires
        tables::history_ok(d, false),
    ensures
        ({
            let (e, r) = ops::set_due(d, id, due, now);
            let old_row = d.tables.tasks[id];
            let row = e.tables.tasks[id];
            if due is Some && !clock::calendar_day(due->Some_0) {
                e == d && r == Err::<(), ErrorV>(ErrorV::InvalidDate(due->Some_0))
            } else if d.tables.tasks.dom().contains(id) {
                &&& r is Ok
                &&& only_task(d.tables, e.tables, id)
                &&& row.due == due
                &&& row.updated_at == now
                &&& row.id == id
                &&& row.title == old_row.title
                &&& row.note == old_row.note
                &&& row.status_id == old_row.status_id
                &&& row.parent_id == old_row.parent_id
                &&& row.display_order == old_row.display_order
                &&& row.created_at == old_row.created_at
                &&& one_step(d, e, "set due \""@ + old_row.title + "\""@)
            } else {
                e == d && r == Err::<(), ErrorV>(ErrorV::TaskNotFound(id))
            }
        }),
{
    if d.tables.tasks.dom().contains(id) {
        let row = TaskV { due, updated_at: now, ..d.tables.tasks[id] };
        lemma_edit(d, "set due \""@ + d.tables.tasks[id].title + "\""@, row);
    }
}

/// Setting a status changes that of the task alone. An unknown task is
/// refused, then an unknown status.
pub proof fn a_status_change_changes_the_status_alone(
    d: DbV,
    id: i64,
    status_id: i64,
    now: Seq<char>,
)
    requires
        tables::history_ok(d, false),
    ensures
        ({
            let (e, r) = ops::set_status(d, id, status_id, now);
            let old_row = d.tables.tasks[id];
            let row = e.tables.tasks[id];
            if !d.tables.tasks.dom().contains(id) {
                e == d && r == Err::<(), ErrorV>(ErrorV::TaskNotFound(id))
            } else if !d.tables.statuses.dom().contains(status_id) {
                e == d && r == Err::<(), ErrorV>(ErrorV::Sqlite(StoreError::ForeignKey))
            } else {
                &&& r is Ok
                &&& only_task(d.tables, e.tables, id)
                &&& row.status_id == status_id
                &&& row.updated_at == now
                &&& row.id == id
                &&& row.title == old_row.title
                &&& row.note == old_row.note
                &&& row.due == old_row.due
                &&& row.parent_id == old_row.parent_id
                &&& row.display_order == old_row.display_order
                &&& row.created_at == old_row.created_at
                &&& one_step(
                    d,
                    e,
                    "set status of \""@ + old_row.title + "\" to \""@
                        + d.tables.statuses[status_id].label + "\""@,
                )
            }
        }),
{
    if d.tables.tasks.dom().contains(id) {
        let row = TaskV { status_id, updated_at: now, ..d.tables.tasks[id] };
        lemma_edit(
            d,
            "set status of \""@ + d.tables.tasks[id].title + "\" to \""@
                + d.tables.statuses[status_id].label + "\""@,
            row,
        );
    }
}

/// The change is one of the given task's row.
pub open spec fn touches(c: ChangeV, x: i64) -> bool {
    c matches ChangeV::Task { id, before, after } && id == x
}

proof fn lemma_affected(cs: Seq<ChangeV>, x: i64)
    ensures
        tables::affected(cs).contains(x) <==> exists|k: int|
            0 <= k < cs.len() && touches(#[trigger] cs[k], x),
        forall|i: int, j: int|
            0 <= i < j < tables::affected(cs).len() ==> tables::affected(cs)[i] != tables::affected(
                cs,
            )[j],
    decreases cs.len(),
{
    if cs.len() > 0 {
        let rest = cs.drop_last();
        let front = tables::affected(rest);
        let all = tables::affected(cs);
        lemma_affected(rest, x);
        if exists|k: int| 0 <= k < rest.len() && touches(#[trigger] rest[k], x) {
            let k = choose|k: int| 0 <= k < rest.len() && touches(#[trigger] rest[k], x);
            assert(cs[k] == rest[k]);
            let i = choose|i: int| 0 <= i < front.len() && front[i] == x;
            assert(all[i] == x);
        }
        if exists|k: int| 0 <= k < cs.len() && touches(#[trigger] cs[k], x) {
            let k = choose|k: int| 0 <= k < cs.len() && touches(#[trigger] cs[k], x);
            if k < rest.len() {
                assert(rest[k] == cs[k]);
            } else if !front.contains(x) {
                assert(all[all.len() - 1] == x);
            } else {
                let i = choose|i: int| 0 <= i < front.len() && front[i] == x;
                assert(all[i] == x);
            }
        }
        if all.contains(x) {
            let i = choose|i: int| 0 <= i < all.len() && all[i] == x;
            if i < front.len() {
                assert(front[i] == x);
                let k = choose|k: int| 0 <= k < rest.len() && touches(#[trigger] rest[k], x);
                assert(touches(cs[k], x));
            } else {
                assert(touches(cs[cs.len() - 1], x));
            }
        }
    }
}

proof fn lemma_untouched(t: Tables, cs: Seq<ChangeV>, x: i64)
    requires
        forall|k: int| 0 <= k < cs.len() ==> !touches(#[trigger] cs[k], x),
    ensures
        ({
            let u = tables::run(t, cs);
            &&& u.tasks.dom().contains(x) <==> t.tasks.dom().contains(x)
            &&& t.tasks.dom().contains(x) ==> u.tasks[x] == t.tasks[x]
        }),
    decreases cs.len(),
{
    if cs.len() > 0 {
        let rest = cs.drop_last();
        assert(!touches(cs[cs.len() - 1], x));
        assert forall|k: int| 0 <= k < rest.len() implies !touches(#[trigger] rest[k], x) by {
            assert(rest[k] == cs[k]);
        }
        lemma_untouched(t, rest, x);
    }
}

/// Undo takes back the newest step and redo the one undone last, where there
/// is one, and in a scope only a step of its own can be undone. Either says
/// what it did in the words of the step, and names, each once, the tasks
/// that the step touched: a task it does not name is as it was before.
pub proof fn undo_names_what_it_takes_back(d: DbV, x: i64)
    ensures
        ({
            let (e, o) = ops::undo(d);
            let (f, p) = ops::redo(d);
            let free = d.scope is None || d.undo.len() > d.scope->Some_0.boundary;
            let kept = |t: Tables, u: Tables|
                (u.tasks.dom().contains(x) <==> t.tasks.dom().contains(x)) && (
                t.tasks.dom().contains(x) ==> u.tasks[x] == t.tasks[x]);
            &&& o is Some <==> d.undo.len() > 0 && free
            &&& o is None ==> e == d
            &&& o matches Some(o) ==> {
                &&& o.description == d.undo[d.undo.len() - 1].description
                &&& e.undo == d.undo.take(d.undo.len() - 1)
                &&& e.redo.len() == d.redo.len() + 1
                &&& o.affected_task_ids.contains(x) || kept(d.tables, e.tables)
                &&& o.affected_task_ids.contains(x) <==> exists|k: int|
                    0 <= k < d.undo.last().changes.len() && touches(
                        #[trigger] d.undo.last().changes[k],
                        x,
                    )
                &&& forall|i: int, j: int|
                    0 <= i < j < o.affected_task_ids.len() ==> o.affected_task_ids[i]
                        != o.affected_task_ids[j]
            }
            &&& p is Some <==> d.redo.len() > 0
            &&& p is None ==> f == d
            &&& p matches Some(p) ==> {
                &&& p.description == d.redo[d.redo.len() - 1].description
                &&& f.redo == d.redo.take(d.redo.len() - 1)
                &&& f.undo.len() == d.undo.len() + 1
                &&& p.affected_task_ids.contains(x) || kept(d.tables, f.tables)
            }
        }),
{
    lemma_replayed(d.tables, d.undo, x);
    lemma_replayed(d.tables, d.redo, x);
    assert(d.undo.len() > 0 ==> d.undo.drop_last() =~= d.undo.take(d.undo.len() - 1));
    assert(d.redo.len() > 0 ==> d.redo.drop_last() =~= d.redo.take(d.redo.len() - 1));
}

proof fn lemma_replayed(t: Tables, stack: Seq<tables::StepV>, x: i64)
    ensures
        ({
            let cs = tables::replay(stack);
            let ids = tables::affected(cs);
            let u = tables::run(t, cs);
            &&& ids.contains(x) || ((u.tasks.dom().contains(x) <==> t.tasks.dom().contains(x)) && (
            t.tasks.dom().contains(x) ==> u.tasks[x] == t.tasks[x]))
            &&& ids.contains(x) <==> exists|k: int|
                0 <= k < stack.last().changes.len() && touches(
                    #[trigger] stack.last().changes[k],
                    x,
                )
            &&& forall|i: int, j: int| 0 <= i < j < ids.len() ==> ids[i] != ids[j]
        }),
{
    let cs = tables::replay(stack);
    let old_cs = stack.last().changes;
    lemma_affected(cs, x);
    assert(cs.len() == old_cs.len());
    assert forall|k: int| 0 <= k < cs.len() implies (touches(#[trigger] cs[k], x) <==> touches(
        old_cs[cs.len() - 1 - k],
        x,
    )) by {}
    if exists|k: int| 0 <= k < cs.len() && touches(#[trigger] cs[k], x) {
        let k = choose|k: int| 0 <= k < cs.len() && touches(#[trigger] cs[k], x);
        assert(touches(old_cs[cs.len() - 1 - k], x));
    } else {
        lemma_untouched(t, cs, x);
    }
    if exists|k: int| 0 <= k < old_cs.len() && touches(#[trigger] old_cs[k], x) {
        let k = choose|k: int| 0 <= k < old_cs.len() && touches(#[trigger] old_cs[k], x);
        assert(touches(cs[cs.len() - 1 - k], x));
    }
}

/// The store after undoing several times.
pub open spec fn back(d: DbV, n: nat) -> DbV
    decreases n,
{
    if n == 0 {
        d
    } else {
        back(ops::undo(d).0, (n - 1) as nat)
    }
}

proof fn lemma_back(d: DbV, n: nat)
    requires
        d.scope is Some,
        d.undo.len() >= n + d.scope->Some_0.boundary,
    ensures
        back(d, n).tables == tables::rewound(d.tables, d.undo, d.undo.len() - n),
    decreases n,
{
    if n > 0 {
        lemma_back(tables::undone(d), (n - 1) as nat);
    }
}

/// A scope opens only where none is open, and closes only where one is.
/// Neither changes a row. Right after it opened there is nothing to undo or
/// redo. When it closes, what was done in it becomes one step with the given
/// words: undoing that leads as far back as undoing every step of the scope
/// would have, and the steps from before the scope stay. A scope in which
/// nothing is left leaves the history as it was.
pub proof fn a_scope_becomes_one_step(d: DbV, words: Seq<char>)
    requires
        tables::history_ok(d, false),
    ensures
        ({
            let (b, opened) = ops::begin_undo_scope(d);
            let (e, closed) = ops::end_undo_scope(d, words);
            &&& opened is Ok <==> d.scope is None
            &&& closed is Ok <==> d.scope is Some
            &&& b.tables == d.tables && e.tables == d.tables
            &&& opened is Err ==> b == d
            &&& closed is Err ==> e == d
            &&& opened is Ok ==> {
                &&& b.undo == d.undo
                &&& ops::undo(b).1 is None
                &&& ops::redo(b).1 is None
                &&& ops::end_undo_scope(b, words).0 == d
            }
            &&& d.scope matches Some(s) ==> {
                &&& e.scope is None
                &&& d.undo.len() == s.boundary ==> e.undo == d.undo && e.redo == s.saved_redo
                &&& d.undo.len() > s.boundary ==> {
                    &&& e.undo.len() == s.boundary + 1
                    &&& forall|k: int| 0 <= k < s.boundary ==> e.undo[k] == d.undo[k]
                    &&& ops::redo(e).1 is None
                    &&& ops::undo(e).1 is Some
                    &&& ops::undo(e).1->Some_0.description == words
                    &&& ops::undo(e).0.tables == back(d, (d.undo.len() - s.boundary) as nat).tables
                }
            }
        }),
{
    if d.scope is None {
        tables::an_empty_scope_leaves_no_trace(d, words);
    } else {
        let s = d.scope->Some_0;
        if d.undo.len() > s.boundary {
            tables::closing_a_scope_folds_its_steps(d, words, false);
            lemma_back(d, (d.undo.len() - s.boundary) as nat);
        }
    }
}

} // verus!

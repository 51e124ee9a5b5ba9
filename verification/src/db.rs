//! The task store with its undo history.
use vstd::prelude::*;

use crate::clock;
use crate::error::{Error, ErrorV, StoreError};
use crate::forest;
use crate::ops;
use crate::order;
use crate::order::Order;
use crate::plans;
use crate::query;
use crate::query::{Filter, Query, Sort};
use crate::status;
use crate::status::{Status, StatusKind, StatusMove, StatusV};
use crate::store;
use crate::store::{Change, Store, Tx};
use crate::tables;
use crate::tables::{ChangeV, DbV, OutcomeV, ScopeV, StepV, Tables};
use crate::task;
use crate::task::{Task, TaskMove, TaskV};
use crate::text;
use crate::text::{concat3, concat5};

verus! {

/// One undoable user action: the row changes it made, plus a human-readable
/// description shown when it is undone or redone. Closing an undo scope
/// folds the session's surviving steps into one.
pub struct UndoStep {
    description: String,
    changes: Vec<Change>,
}

impl View for UndoStep {
    type V = StepV;

    closed spec fn view(&self) -> StepV {
        StepV { description: self.description@, changes: store::changes_view(self.changes@) }
    }
}

/// What an undo or redo just did, so the UI can show the change: name it in
/// a message and bring the touched tasks into view.
#[derive(Debug, PartialEq, Eq)]
pub struct UndoOutcome {
    /// Description of the original action, e.g. `delete "design the API"`.
    pub description: String,
    /// Ids of the task rows the replay touched (deduplicated). Some may no
    /// longer exist — undoing a create removes the task again.
    pub affected_task_ids: Vec<i64>,
}

impl View for UndoOutcome {
    type V = OutcomeV;

    open spec fn view(&self) -> OutcomeV {
        OutcomeV { description: self.description@, affected_task_ids: self.affected_task_ids@ }
    }
}

/// An open undo sub-session (e.g. while a modal editor is showing). It only
/// scopes the history bookkeeping; the tables never see it.
pub struct UndoScope {
    /// Length of the undo stack when the scope opened; scoped undo never
    /// pops below this boundary.
    boundary: usize,
    /// The outer redo stack, stashed away so that redo inside the scope can
    /// only reach steps undone inside it.
    saved_redo: Vec<UndoStep>,
}

/// The store of tasks and statuses.
pub struct Db {
    store: Store,
    undo_stack: Vec<UndoStep>,
    redo_stack: Vec<UndoStep>,
    undo_scope: Option<UndoScope>,
    unsaved: Vec<Change>,
}

closed spec fn steps_view(v: Seq<UndoStep>) -> Seq<StepV> {
    v.map_values(|s: UndoStep| s@)
}

closed spec fn scope_view(o: Option<UndoScope>) -> Option<ScopeV> {
    match o {
        Some(s) => Some(
            ScopeV { boundary: s.boundary as nat, saved_redo: steps_view(s.saved_redo@) },
        ),
        None => None,
    }
}

impl View for Db {
    type V = DbV;

    closed spec fn view(&self) -> DbV {
        DbV {
            tables: self.store@,
            undo: steps_view(self.undo_stack@),
            redo: steps_view(self.redo_stack@),
            scope: scope_view(self.undo_scope),
            unsaved: store::changes_view(self.unsaved@),
        }
    }
}

/// The result of an operation, with its error as plain values.
pub open spec fn unit_result(r: Result<(), Error>) -> Result<(), ErrorV> {
    match r {
        Ok(()) => Ok(()),
        Err(e) => Err(e@),
    }
}

pub open spec fn task_result(r: Result<Task, Error>) -> Result<TaskV, ErrorV> {
    match r {
        Ok(t) => Ok(t@),
        Err(e) => Err(e@),
    }
}

pub open spec fn status_result(r: Result<Status, Error>) -> Result<StatusV, ErrorV> {
    match r {
        Ok(t) => Ok(t@),
        Err(e) => Err(e@),
    }
}

pub open spec fn count_result(r: Result<i64, Error>) -> Result<i64, ErrorV> {
    match r {
        Ok(n) => Ok(n),
        Err(e) => Err(e@),
    }
}

pub open spec fn str_option(o: Option<&str>) -> Option<Seq<char>> {
    match o {
        Some(s) => Some(s@),
        None => None,
    }
}

pub open spec fn outcome_option(o: Option<UndoOutcome>) -> Option<OutcomeV> {
    match o {
        Some(outcome) => Some(outcome@),
        None => None,
    }
}

/// A store with these tables and no history.
pub open spec fn fresh(t: Tables) -> DbV {
    DbV { tables: t, undo: seq![], redo: seq![], scope: None, unsaved: seq![] }
}

/// The table holds exactly these tasks.
pub open spec fn holds_tasks(m: Map<i64, TaskV>, ts: Seq<TaskV>) -> bool {
    &&& forall|i: int| 0 <= i < ts.len() ==> m.contains_pair((#[trigger] ts[i]).id, ts[i])
    &&& forall|id: i64| #[trigger]
        m.dom().contains(id) ==> exists|i: int| 0 <= i < ts.len() && (#[trigger] ts[i]).id == id
}

/// The table holds exactly these statuses.
pub open spec fn holds_statuses(m: Map<i64, StatusV>, ss: Seq<StatusV>) -> bool {
    &&& forall|i: int| 0 <= i < ss.len() ==> m.contains_pair((#[trigger] ss[i]).id, ss[i])
    &&& forall|id: i64| #[trigger]
        m.dom().contains(id) ==> exists|i: int| 0 <= i < ss.len() && (#[trigger] ss[i]).id == id
}

/// The tables hold exactly these rows.
pub open spec fn holds_rows(t: Tables, ts: Seq<TaskV>, ss: Seq<StatusV>) -> bool {
    holds_tasks(t.tasks, ts) && holds_statuses(t.statuses, ss)
}

/// The statuses of the table, each once, in display order.
pub open spec fn lists_statuses(m: Map<i64, StatusV>, ss: Seq<StatusV>) -> bool {
    ss == plans::statuses(m) && order::unique_status_ids(ss) && holds_statuses(m, ss)
}

/// A sorted listing of rows with distinct ids has distinct ids.
proof fn lemma_listed(rows: Seq<TaskV>, listed: Seq<TaskV>, o: Order)
    requires
        order::is_listing(listed, rows, o),
        order::unique_ids(rows),
    ensures
        order::unique_ids(listed),
{
    assert forall|i: int, j: int|
        0 <= i < listed.len() && 0 <= j < listed.len() && listed[i].id == listed[j].id implies i
        == j by {
        assert(rows.contains(listed[i]) && rows.contains(listed[j]));
        let a = choose|a: int| 0 <= a < rows.len() && rows[a] == listed[i];
        let b = choose|b: int| 0 <= b < rows.len() && rows[b] == listed[j];
        assert(a == b);
        if i < j {
            assert(order::task_order(o)(listed[i], listed[j]));
            order::lemma_task_before_asymmetric(o, listed[i], listed[j]);
        } else if j < i {
            assert(order::task_order(o)(listed[j], listed[i]));
            order::lemma_task_before_asymmetric(o, listed[j], listed[i]);
        }
    }
}

proof fn lemma_statuses_listed(rows: Seq<StatusV>, listed: Seq<StatusV>)
    requires
        order::is_status_listing(listed, rows),
        order::unique_status_ids(rows),
    ensures
        order::unique_status_ids(listed),
{
    assert forall|i: int, j: int|
        0 <= i < listed.len() && 0 <= j < listed.len() && listed[i].id == listed[j].id implies i
        == j by {
        assert(rows.contains(listed[i]) && rows.contains(listed[j]));
        let a = choose|a: int| 0 <= a < rows.len() && rows[a] == listed[i];
        let b = choose|b: int| 0 <= b < rows.len() && rows[b] == listed[j];
        assert(a == b);
        if i < j {
            assert(order::status_order()(listed[i], listed[j]));
        } else if j < i {
            assert(order::status_order()(listed[j], listed[i]));
        }
    }
}

pub open spec fn seed_row(
    id: i64,
    label: Seq<char>,
    kind: StatusKind,
    color: Seq<char>,
    key: char,
) -> StatusV {
    StatusV {
        id,
        label,
        kind,
        color,
        key,
        display_order: (id - 1) as i64,
        is_default: id == 1,
    }
}

/// The statuses a new store starts with; the first is the default.
pub open spec fn seed_view() -> Seq<StatusV> {
    seq![
        seed_row(1, "未着手"@, StatusKind::Open, "gray"@, 't'),
        seed_row(2, "着手可能"@, StatusKind::Open, "cyan"@, 'r'),
        seed_row(3, "進行中"@, StatusKind::Open, "yellow"@, 'd'),
        seed_row(4, "完了"@, StatusKind::Done, "green"@, 'x'),
        seed_row(5, "破棄"@, StatusKind::Cancelled, "dark_gray"@, 'c'),
    ]
}

fn seed(id: i64, label: &str, kind: StatusKind, color: &str, key: char) -> (r: Status)
    requires
        1 <= id,
    ensures
        r@ == seed_row(id, label@, kind, color@, key),
{
    Status {
        id,
        label: label.to_owned(),
        kind,
        color: color.to_owned(),
        key,
        display_order: id - 1,
        is_default: id == 1,
    }
}

/// The statuses a new store starts with.
pub fn seed_statuses() -> (r: Vec<Status>)
    ensures
        status::statuses_view(r@) == seed_view(),
{
    let mut r: Vec<Status> = Vec::new();
    r.push(seed(1, "未着手", StatusKind::Open, "gray", 't'));
    r.push(seed(2, "着手可能", StatusKind::Open, "cyan", 'r'));
    r.push(seed(3, "進行中", StatusKind::Open, "yellow", 'd'));
    r.push(seed(4, "完了", StatusKind::Done, "green", 'x'));
    r.push(seed(5, "破棄", StatusKind::Cancelled, "dark_gray", 'c'));
    assert(status::statuses_view(r@) =~= seed_view());
    r
}

/// The same tasks with the same parents and statuses.
pub open spec fn same_links(a: Map<i64, TaskV>, b: Map<i64, TaskV>) -> bool {
    &&& a.dom() == b.dom()
    &&& forall|id: i64| #[trigger]
        a.dom().contains(id) ==> a[id].parent_id == b[id].parent_id && a[id].status_id
            == b[id].status_id
}

/// Tables that link the same tasks in the same way are sound together.
proof fn lemma_same_links_sound(t: Tables, u: Tables, strict: bool)
    requires
        tables::sound(t, strict),
        tables::keyed(u),
        same_links(t.tasks, u.tasks),
        u.statuses == t.statuses,
    ensures
        tables::sound(u, strict),
{
    let h = choose|h: spec_fn(i64) -> nat| tables::falls(t.tasks, h);
    assert forall|id: i64| #[trigger]
        u.tasks.dom().contains(id) && u.tasks[id].parent_id is Some implies h(id) < h(
        u.tasks[id].parent_id->Some_0,
    ) && u.tasks.dom().contains(u.tasks[id].parent_id->Some_0) by {
        assert(t.tasks.dom().contains(id));
    }
    assert(tables::falls(u.tasks, h));
    if strict {
        assert forall|id: i64| #[trigger] u.tasks.dom().contains(id) implies u.statuses.dom().contains(
            u.tasks[id].status_id,
        ) by {
            assert(t.tasks.dom().contains(id));
        }
    }
}

/// Changing one task's row, but not its parent, keeps the tables sound.
proof fn lemma_edit_sound(t: Tables, row: TaskV, strict: bool)
    requires
        tables::sound(t, strict),
        t.tasks.dom().contains(row.id),
        t.tasks[row.id].parent_id == row.parent_id,
        row.status_id == t.tasks[row.id].status_id || t.statuses.dom().contains(row.status_id),
    ensures
        tables::sound(Tables { tasks: t.tasks.insert(row.id, row), statuses: t.statuses }, strict),
{
    let u = Tables { tasks: t.tasks.insert(row.id, row), statuses: t.statuses };
    let h = choose|h: spec_fn(i64) -> nat| tables::falls(t.tasks, h);
    assert forall|id: i64| #[trigger]
        u.tasks.dom().contains(id) && u.tasks[id].parent_id is Some implies h(id) < h(
        u.tasks[id].parent_id->Some_0,
    ) && u.tasks.dom().contains(u.tasks[id].parent_id->Some_0) by {
        assert(t.tasks.dom().contains(id));
    }
    assert(tables::falls(u.tasks, h));
    if strict {
        assert forall|id: i64| #[trigger] u.tasks.dom().contains(id) implies u.statuses.dom().contains(
            u.tasks[id].status_id,
        ) by {
            assert(t.tasks.dom().contains(id));
        }
    }
}

/// A new task under an existing parent keeps the tables sound.
proof fn lemma_insert_sound(t: Tables, row: TaskV, strict: bool)
    requires
        tables::sound(t, strict),
        !t.tasks.dom().contains(row.id),
        plans::parent_exists(t.tasks, row.parent_id),
        t.statuses.dom().contains(row.status_id),
    ensures
        tables::sound(Tables { tasks: t.tasks.insert(row.id, row), statuses: t.statuses }, strict),
{
    let u = Tables { tasks: t.tasks.insert(row.id, row), statuses: t.statuses };
    let h = choose|h: spec_fn(i64) -> nat| tables::falls(t.tasks, h);
    let g = |id: i64|
        if id == row.id {
            0nat
        } else {
            h(id) + 1
        };
    assert forall|id: i64| #[trigger]
        u.tasks.dom().contains(id) && u.tasks[id].parent_id is Some implies g(id) < g(
        u.tasks[id].parent_id->Some_0,
    ) && u.tasks.dom().contains(u.tasks[id].parent_id->Some_0) by {
        if id != row.id {
            assert(t.tasks.dom().contains(id));
        }
    }
    assert(tables::falls(u.tasks, g));
    if strict {
        assert forall|id: i64| #[trigger] u.tasks.dom().contains(id) implies u.statuses.dom().contains(
            u.tasks[id].status_id,
        ) by {
            if id != row.id {
                assert(t.tasks.dom().contains(id));
            }
        }
    }
}

/// What the children of a parent are in a well-formed store.
proof fn lemma_children(s: Store, parent: Option<i64>)
    requires
        s.wf(),
    ensures
        ({
            let cs = plans::children(s@.tasks, parent);
            &&& forall|k: int|
                0 <= k < cs.len() ==> s@.tasks.contains_pair((#[trigger] cs[k]).id, cs[k])
                    && cs[k].parent_id == parent
            &&& forall|j: int, k: int|
                0 <= j < k < cs.len() ==> (#[trigger] cs[j]).id != (#[trigger] cs[k]).id
            &&& forall|j: int, k: int|
                0 <= j < k < cs.len() ==> (#[trigger] cs[j]).display_order <= (
                #[trigger] cs[k]).display_order
        }),
{
    s.lemma_wf();
    let rows = tables::rows(s@.tasks);
    let g = forest::group(rows, parent);
    forest::lemma_group_exists(rows, parent);
    let cs = plans::children(s@.tasks, parent);
    assert forall|k: int| 0 <= k < cs.len() implies s@.tasks.contains_pair(
        (#[trigger] cs[k]).id,
        cs[k],
    ) && cs[k].parent_id == parent by {
        assert(0 <= g[k] < rows.len());
        assert(s@.tasks.contains_pair(rows[g[k]].id, rows[g[k]]));
    }
    assert forall|j: int, k: int| 0 <= j < k < cs.len() implies (#[trigger] cs[j]).id != (
    #[trigger] cs[k]).id && cs[j].display_order <= cs[k].display_order by {
        assert(forest::sibling_order(rows)(g[j], g[k]));
        assert(0 <= g[j] < rows.len() && 0 <= g[k] < rows.len());
    }
}

/// The tasks with this parent, in sibling order.
fn child_rows(s: &Store, parent: Option<i64>) -> (r: Vec<Task>)
    requires
        s.wf(),
    ensures
        task::tasks_view(r@) == plans::children(s@.tasks, parent),
{
    proof {
        s.lemma_wf();
    }
    let group = forest::group_of(&s.tasks, parent);
    let ghost rows = tables::rows(s@.tasks);
    let ghost g = forest::ints(group@);
    let mut r: Vec<Task> = Vec::new();
    let mut i: usize = 0;
    while i < group.len()
        invariant
            i <= group.len(),
            rows == task::tasks_view(s.tasks@),
            g == forest::ints(group@),
            forest::is_group(g, rows, parent),
            task::tasks_view(r@) == g.take(i as int).map_values(|i: int| rows[i]),
        decreases group.len() - i,
    {
        assert(0 <= g[i as int] < rows.len());
        let ghost before = task::tasks_view(r@);
        let row = s.tasks[group[i]].clone();
        r.push(row);
        assert(task::tasks_view(r@) =~= before.push(row@));
        assert(g.take(i + 1) =~= g.take(i as int).push(g[i as int]));
        i = i + 1;
        assert(task::tasks_view(r@) =~= g.take(i as int).map_values(|i: int| rows[i]));
    }
    assert(g.take(i as int) =~= g);
    r
}

fn row_shifts(row: &Task, above: i64, except: Option<i64>) -> (r: bool)
    ensures
        r == plans::shifts(row@, above, except),
{
    let excepted = match except {
        Some(id) => row.id == id,
        None => false,
    };
    row.display_order > above && !excepted
}

fn shift_overflows(rows: &Vec<Task>, above: i64, except: Option<i64>) -> (r: bool)
    ensures
        r == plans::cannot_shift_up(task::tasks_view(rows@), above, except),
{
    let ghost v = task::tasks_view(rows@);
    let mut i: usize = 0;
    while i < rows.len()
        invariant
            i <= rows.len(),
            v == task::tasks_view(rows@),
            forall|j: int|
                0 <= j < i ==> !(plans::shifts(#[trigger] v[j], above, except)
                    && v[j].display_order == i64::MAX),
        decreases rows.len() - i,
    {
        assert(v[i as int] == rows@[i as int]@);
        if row_shifts(&rows[i], above, except) && rows[i].display_order == i64::MAX {
            return true;
        }
        i = i + 1;
    }
    false
}

/// Moves the rows above a display order by one, except one row.
fn shift_rows(tx: &mut Tx, rows: &Vec<Task>, above: i64, up: bool, except: Option<i64>)
    requires
        old(tx).wf(),
        forall|k: int|
            0 <= k < rows@.len() ==> old(tx).store@.tasks.contains_pair(
                (#[trigger] rows@[k])@.id,
                rows@[k]@,
            ),
        forall|j: int, k: int|
            0 <= j < k < rows@.len() ==> (#[trigger] rows@[j])@.id != (#[trigger] rows@[k])@.id,
        up ==> !plans::cannot_shift_up(task::tasks_view(rows@), above, except),
    ensures
        final(tx).wf(),
        final(tx).start == old(tx).start,
        final(tx).store@.statuses == old(tx).store@.statuses,
        same_links(old(tx).store@.tasks, final(tx).store@.tasks),
        except is Some && old(tx).store@.tasks.dom().contains(except->Some_0)
            ==> final(tx).store@.tasks[except->Some_0] == old(tx).store@.tasks[except->Some_0],
        forall|id: i64| #[trigger]
            old(tx).store@.tasks.dom().contains(id) && old(tx).store@.tasks[id].display_order
                <= above ==> final(tx).store@.tasks[id] == old(tx).store@.tasks[id],
        store::changes_view(final(tx).log@) == store::changes_view(old(tx).log@) + plans::shift(
            task::tasks_view(rows@),
            above,
            if up {
                1
            } else {
                -1
            },
            except,
        ),
{
    let ghost v = task::tasks_view(rows@);
    let ghost m = tx.store@.tasks;
    let ghost by: int = if up {
        1
    } else {
        -1
    };
    let ghost log = store::changes_view(tx.log@);
    let mut i: usize = 0;
    assert(v.take(0) =~= seq![]);
    assert(log + plans::shift(v.take(0), above, by, except) =~= log);
    while i < rows.len()
        invariant
            i <= rows.len(),
            v == task::tasks_view(rows@),
            m == old(tx).store@.tasks,
            by == (if up {
                1int
            } else {
                -1int
            }),
            log == store::changes_view(old(tx).log@),
            forall|k: int|
                0 <= k < rows@.len() ==> m.contains_pair((#[trigger] rows@[k])@.id, rows@[k]@),
            forall|j: int, k: int|
                0 <= j < k < rows@.len() ==> (#[trigger] rows@[j])@.id != (#[trigger] rows@[k])@.id,
            up ==> !plans::cannot_shift_up(v, above, except),
            tx.wf(),
            tx.start == old(tx).start,
            tx.store@.statuses == old(tx).store@.statuses,
            same_links(m, tx.store@.tasks),
            forall|id: i64| #[trigger]
                m.dom().contains(id) && (Some(id) == except || m[id].display_order <= above)
                    ==> tx.store@.tasks[id] == m[id],
            forall|k: int|
                i <= k < rows@.len() ==> tx.store@.tasks[(#[trigger] rows@[k])@.id] == rows@[k]@,
            store::changes_view(tx.log@) == log + plans::shift(
                v.take(i as int),
                above,
                by,
                except,
            ),
        decreases rows.len() - i,
    {
        let ghost next = v.take(i + 1);
        proof {
            assert(v[i as int] == rows@[i as int]@);
            assert(next.drop_last() =~= v.take(i as int));
            assert(next.last() == v[i as int]);
            assert(m.contains_pair(rows@[i as int]@.id, rows@[i as int]@));
        }
        if row_shifts(&rows[i], above, except) {
            let mut row = rows[i].clone();
            if up {
                assert(row.display_order < i64::MAX);
                row.display_order = row.display_order + 1;
            } else {
                row.display_order = row.display_order - 1;
            }
            let ghost before = store::changes_view(tx.log@);
            let ghost held = tx.store@.tasks;
            tx.put_task(row.id, Some(row));
            proof {
                let change = ChangeV::Task {
                    id: v[i as int].id,
                    before: Some(v[i as int]),
                    after: Some(
                        TaskV {
                            display_order: (v[i as int].display_order + by) as i64,
                            ..v[i as int]
                        },
                    ),
                };
                assert(row@ =~= change->Task_after->Some_0);
                assert(store::changes_view(tx.log@) == before.push(change));
                assert(before.push(change) =~= log + plans::shift(next, above, by, except));
                assert(tx.store@.tasks =~= held.insert(row.id, row@));
                assert(tx.store@.tasks.dom() =~= m.dom());
            }
        }
        i = i + 1;
    }
    assert(v.take(i as int) =~= v);
}

/// A count that fits the report.
fn report_count(n: usize) -> (r: i64)
    ensures
        r == plans::count(n as nat),
{
    if n as u128 <= i64::MAX as u128 {
        n as i64
    } else {
        i64::MAX
    }
}

/// The display order that appends to a sibling group.
fn tail_place(rows: &Vec<Task>, except: Option<i64>) -> (r: Option<i64>)
    ensures
        match r {
            Some(order) => order == plans::tail_order(task::tasks_view(rows@), except),
            None => plans::tail_order(task::tasks_view(rows@), except) > i64::MAX,
        },
{
    let ghost cs = task::tasks_view(rows@);
    let mut i: usize = rows.len();
    assert(cs.take(i as int) =~= cs);
    while i > 0
        invariant
            i <= rows.len(),
            cs == task::tasks_view(rows@),
            plans::tail_order(cs, except) == plans::tail_order(cs.take(i as int), except),
        decreases i,
    {
        i = i - 1;
        assert(cs.take(i + 1).drop_last() =~= cs.take(i as int));
        assert(cs.take(i + 1).last() == rows@[i as int]@);
        let excepted = match except {
            Some(id) => rows[i].id == id,
            None => false,
        };
        if !excepted {
            if rows[i].display_order == i64::MAX {
                return None;
            }
            return Some(rows[i].display_order + 1);
        }
    }
    Some(0)
}

/// Makes room in a sibling group and gives the display order that is free.
fn make_room(tx: &mut Tx, parent: Option<i64>, after: Option<i64>, except: Option<i64>) -> (r:
    Option<i64>)
    requires
        old(tx).wf(),
    ensures
        final(tx).start == old(tx).start,
        match plans::make_room(plans::children(old(tx).store@.tasks, parent), after, except) {
            None => r is None,
            Some((room, order)) => r == Some(order) && final(tx).wf() && store::changes_view(
                final(tx).log@,
            ) == store::changes_view(old(tx).log@) + room && final(tx).store@.statuses == old(
                tx,
            ).store@.statuses && same_links(old(tx).store@.tasks, final(tx).store@.tasks) && (
            except is Some && old(tx).store@.tasks.dom().contains(except->Some_0)
                ==> final(tx).store@.tasks[except->Some_0] == old(
                tx,
            ).store@.tasks[except->Some_0]),
        },
{
    let rows = child_rows(&tx.store, parent);
    let ghost cs = plans::children(tx.store@.tasks, parent);
    proof {
        lemma_children(tx.store, parent);
        assert forall|k: int| 0 <= k < rows@.len() implies tx.store@.tasks.contains_pair(
            (#[trigger] rows@[k])@.id,
            rows@[k]@,
        ) by {
            assert(cs[k] == rows@[k]@);
        }
        assert forall|j: int, k: int| 0 <= j < k < rows@.len() implies (#[trigger] rows@[j])@.id
            != (#[trigger] rows@[k])@.id by {
            assert(cs[j] == rows@[j]@ && cs[k] == rows@[k]@);
            assert(cs[j].id != cs[k].id);
        }
    }
    match after {
        Some(a) => {
            if a == i64::MAX || shift_overflows(&rows, a, except) {
                return None;
            }
            shift_rows(tx, &rows, a, true, except);
            Some(a + 1)
        },
        None => {
            assert(store::changes_view(tx.log@) + Seq::<ChangeV>::empty() =~= store::changes_view(
                tx.log@,
            ));
            tail_place(&rows, except)
        },
    }
}

/// The id one above the largest; none where there is no such id.
fn fresh_task_id(s: &Store) -> (r: Option<i64>)
    requires
        s.wf(),
    ensures
        match r {
            Some(id) => id == plans::next_task_id(s@.tasks) && !s@.tasks.dom().contains(id),
            None => plans::next_task_id(s@.tasks) > i64::MAX,
        },
{
    proof {
        s.lemma_wf();
    }
    let ghost v = task::tasks_view(s.tasks@);
    let ghost ids = v.map_values(|t: TaskV| t.id);
    if s.tasks.len() == 0 {
        proof {
            if s@.tasks.dom().contains(1) {
                assert(v.contains(s@.tasks[1]));
            }
        }
        Some(1)
    } else {
        let last: i64 = s.tasks[s.tasks.len() - 1].id;
        assert(ids.last() == last);
        if last == i64::MAX {
            None
        } else {
            proof {
                let id = (last + 1) as i64;
                if s@.tasks.dom().contains(id) {
                    let k = choose|k: int| 0 <= k < v.len() && v[k] == s@.tasks[id];
                    assert(v[k].id == id);
                    if k < v.len() - 1 {
                        assert(order::task_order(Order::Id)(v[k], v[v.len() - 1]));
                    }
                }
            }
            Some(last + 1)
        }
    }
}

fn fresh_status_id(s: &Store) -> (r: Option<i64>)
    requires
        s.wf(),
    ensures
        match r {
            Some(id) => id == plans::next_status_id(s@.statuses) && !s@.statuses.dom().contains(id),
            None => plans::next_status_id(s@.statuses) > i64::MAX,
        },
{
    proof {
        s.lemma_wf();
    }
    let ghost v = status::statuses_view(s.statuses@);
    let ghost ids = v.map_values(|t: StatusV| t.id);
    if s.statuses.len() == 0 {
        proof {
            if s@.statuses.dom().contains(1) {
                assert(v.contains(s@.statuses[1]));
            }
        }
        Some(1)
    } else {
        let last: i64 = s.statuses[s.statuses.len() - 1].id;
        assert(ids.last() == last);
        if last == i64::MAX {
            None
        } else {
            proof {
                let id = (last + 1) as i64;
                if s@.statuses.dom().contains(id) {
                    let k = choose|k: int| 0 <= k < v.len() && v[k] == s@.statuses[id];
                    assert(v[k].id == id);
                    if k < v.len() - 1 {
                        assert(tables::id_order()(v[k], v[v.len() - 1]));
                    }
                }
            }
            Some(last + 1)
        }
    }
}

impl Db {
    /// The rows are in order and the history can be walked back and forth.
    pub closed spec fn wf(&self) -> bool {
        self.store.wf() && tables::history_ok(self@, false)
    }

    /// The history of a store can always be walked back and forth.
    pub proof fn history_is_whole(&self)
        requires
            self.wf(),
        ensures
            tables::history_ok(self@, false),
    {
    }

    /// All through the history every status that a task refers to exists and
    /// exactly one status is the default.
    pub open spec fn consistent(&self) -> bool {
        tables::history_ok(self@, true)
    }

    /// Ends an action: its changes become the state and, if there were any,
    /// one undo step.
    fn commit(&mut self, description: String, tx: Tx)
        requires
            old(self).wf(),
            tx.wf(),
            tx.start@ == old(self).store@,
            tables::sound(tx.store@, false),
        ensures
            final(self).wf(),
            final(self)@ == tables::committed(
                old(self)@,
                description@,
                store::changes_view(tx.log@),
            ),
            old(self).consistent() && tables::sound(tx.store@, true) ==> final(self).consistent(),
            tables::undoable(old(self)@, final(self)@),
    {
        let ghost changes = store::changes_view(tx.log@);
        let ghost d = self@;
        proof {
            tables::lemma_committed(d, description@, changes, false);
            if tables::history_ok(d, true) && tables::sound(tx.store@, true) {
                tables::lemma_committed(d, description@, changes, true);
            }
        }
        if tx.log.len() > 0 {
            let mut saved = store::clone_changes(&tx.log);
            let ghost unsaved = store::changes_view(self.unsaved@);
            self.unsaved.append(&mut saved);
            assert(store::changes_view(self.unsaved@) =~= unsaved + changes);
            self.store = tx.store;
            let ghost undo = steps_view(self.undo_stack@);
            let step = UndoStep { description, changes: tx.log };
            self.undo_stack.push(step);
            assert(steps_view(self.undo_stack@) =~= undo.push(step@));
            self.redo_stack = Vec::new();
            assert(steps_view(self.redo_stack@) =~= seq![]);
        }
    }

    /// Creates a task under `parent_id`, at the time given. When `after` is
    /// given, the new task is inserted right after that display_order;
    /// otherwise it is appended. `status_id` must reference an existing
    /// status, `parent_id` an existing task.
    pub fn create_task_at(
        &mut self,
        parent_id: Option<i64>,
        title: &str,
        after: Option<i64>,
        status_id: i64,
        now: &str,
    ) -> (r: Result<Task, Error>)
        requires
            old(self).wf(),
        ensures
            final(self).wf(),
            old(self).consistent() ==> final(self).consistent(),
            tables::undoable(old(self)@, final(self)@),
            final(self)@.tables.statuses == old(self)@.tables.statuses,
            (final(self)@, task_result(r)) == ops::create_task(
                old(self)@,
                parent_id,
                title@,
                after,
                status_id,
                now@,
            ),
    {
        let ghost t = self@.tables;
        let mut tx = Tx::begin(&self.store);
        let order = match make_room(&mut tx, parent_id, after, None) {
            Some(order) => order,
            None => {
                return Err(Error::Sqlite(StoreError::IntegerOverflow));
            },
        };
        let ghost room = store::changes_view(tx.log@);
        proof {
            let planned = plans::make_room(plans::children(t.tasks, parent_id), after, None);
            assert(room =~= planned->Some_0.0);
        }
        let parent_known = match parent_id {
            Some(p) => self.store.find_task(p).is_some(),
            None => true,
        };
        if !parent_known || self.store.find_status(status_id).is_none() {
            return Err(Error::Sqlite(StoreError::ForeignKey));
        }
        let id = match fresh_task_id(&self.store) {
            Some(id) => id,
            None => {
                return Err(Error::Sqlite(StoreError::IntegerOverflow));
            },
        };
        let row = Task {
            id,
            parent_id,
            display_order: order,
            title: title.to_owned(),
            status_id,
            due: None,
            note: String::new(),
            created_at: now.to_owned(),
            updated_at: now.to_owned(),
        };
        let created = row.clone();
        let ghost u = tx.store@;
        assert(row.note@ =~= seq![]);
        tx.put_task(id, Some(row));
        proof {
            tx.store.lemma_wf();
            assert forall|k: i64| #[trigger] u.tasks.dom().contains(k) implies u.tasks[k].id == k by {}
            lemma_tx_sound(*old(self), u, row@, tx.store@);
        }
        let description = concat3("create \"", title, "\"");
        self.commit(description, tx);
        Ok(created)
    }

    /// Creates a task as `create_task_at` does, at the current time.
    pub fn create_task(
        &mut self,
        parent_id: Option<i64>,
        title: &str,
        after: Option<i64>,
        status_id: i64,
    ) -> (r: Result<Task, Error>)
        requires
            old(self).wf(),
        ensures
            final(self).wf(),
            old(self).consistent() ==> final(self).consistent(),
            tables::undoable(old(self)@, final(self)@),
            final(self)@.tables.statuses == old(self)@.tables.statuses,
            exists|now: Seq<char>|
                (final(self)@, task_result(r)) == #[trigger] ops::create_task(
                    old(self)@,
                    parent_id,
                    title@,
                    after,
                    status_id,
                    now,
                ),
    {
        let now = clock::now();
        let r = self.create_task_at(parent_id, title, after, status_id, now.as_str());
        assert((self@, task_result(r)) == ops::create_task(
            old(self)@,
            parent_id,
            title@,
            after,
            status_id,
            now@,
        ));
        r
    }

    /// Replaces one task row as one action.
    fn replace_task(&mut self, description: String, row: Task)
        requires
            old(self).wf(),
            old(self)@.tables.tasks.dom().contains(row.id),
            old(self)@.tables.tasks[row.id].parent_id == row.parent_id,
            old(self)@.tables.tasks[row.id].status_id == row.status_id || old(
                self,
            )@.tables.statuses.dom().contains(row.status_id),
        ensures
            final(self).wf(),
            old(self).consistent() ==> final(self).consistent(),
            tables::undoable(old(self)@, final(self)@),
            final(self)@.tables.statuses == old(self)@.tables.statuses,
            final(self)@ == tables::committed(
                old(self)@,
                description@,
                seq![plans::edit(old(self)@.tables, row@)],
            ),
    {
        let ghost t = self@.tables;
        let mut tx = Tx::begin(&self.store);
        let id = row.id;
        tx.put_task(id, Some(row));
        proof {
            assert(store::changes_view(tx.log@) =~= seq![plans::edit(t, row@)]);
            assert(tx.store@ =~= Tables {
                tasks: t.tasks.insert(row.id, row@),
                statuses: t.statuses,
            });
            lemma_edit_sound(t, row@, false);
            if self.consistent() {
                lemma_edit_sound(t, row@, true);
            }
        }
        self.commit(description, tx);
    }

    pub fn rename_task_at(&mut self, id: i64, title: &str, now: &str) -> (r: Result<(), Error>)
        requires
            old(self).wf(),
        ensures
            final(self).wf(),
            old(self).consistent() ==> final(self).consistent(),
            tables::undoable(old(self)@, final(self)@),
            final(self)@.tables.statuses == old(self)@.tables.statuses,
            (final(self)@, unit_result(r)) == ops::rename_task(old(self)@, id, title@, now@),
    {
        match self.store.find_task(id) {
            Some(i) => {
                let mut row = self.store.tasks[i].clone();
                let description = concat5(
                    "rename \"",
                    row.title.as_str(),
                    "\" → \"",
                    title,
                    "\"",
                );
                row.title = title.to_owned();
                row.updated_at = now.to_owned();
                self.replace_task(description, row);
                Ok(())
            },
            None => Err(Error::TaskNotFound(id)),
        }
    }

    pub fn rename_task(&mut self, id: i64, title: &str) -> (r: Result<(), Error>)
        requires
            old(self).wf(),
        ensures
            final(self).wf(),
            old(self).consistent() ==> final(self).consistent(),
            tables::undoable(old(self)@, final(self)@),
            final(self)@.tables.statuses == old(self)@.tables.statuses,
            exists|now: Seq<char>|
                (final(self)@, unit_result(r)) == #[trigger] ops::rename_task(
                    old(self)@,
                    id,
                    title@,
                    now,
                ),
    {
        let now = clock::now();
        let r = self.rename_task_at(id, title, now.as_str());
        assert((self@, unit_result(r)) == ops::rename_task(old(self)@, id, title@, now@));
        r
    }

    /// Sets the task's status. `status_id` must reference an existing
    /// status.
    pub fn set_status_at(&mut self, id: i64, status_id: i64, now: &str) -> (r: Result<(), Error>)
        requires
            old(self).wf(),
        ensures
            final(self).wf(),
            old(self).consistent() ==> final(self).consistent(),
            tables::undoable(old(self)@, final(self)@),
            final(self)@.tables.statuses == old(self)@.tables.statuses,
            (final(self)@, unit_result(r)) == ops::set_status(old(self)@, id, status_id, now@),
    {
        match self.store.find_task(id) {
            Some(i) => match self.store.find_status(status_id) {
                Some(j) => {
                    let mut row = self.store.tasks[i].clone();
                    let description = concat5(
                        "set status of \"",
                        row.title.as_str(),
                        "\" to \"",
                        self.store.statuses[j].label.as_str(),
                        "\"",
                    );
                    row.status_id = status_id;
                    row.updated_at = now.to_owned();
                    self.replace_task(description, row);
                    Ok(())
                },
                None => Err(Error::Sqlite(StoreError::ForeignKey)),
            },
            None => Err(Error::TaskNotFound(id)),
        }
    }

    pub fn set_status(&mut self, id: i64, status_id: i64) -> (r: Result<(), Error>)
        requires
            old(self).wf(),
        ensures
            final(self).wf(),
            old(self).consistent() ==> final(self).consistent(),
            tables::undoable(old(self)@, final(self)@),
            final(self)@.tables.statuses == old(self)@.tables.statuses,
            exists|now: Seq<char>|
                (final(self)@, unit_result(r)) == #[trigger] ops::set_status(
                    old(self)@,
                    id,
                    status_id,
                    now,
                ),
    {
        let now = clock::now();
        let r = self.set_status_at(id, status_id, now.as_str());
        assert((self@, unit_result(r)) == ops::set_status(old(self)@, id, status_id, now@));
        r
    }

    /// Sets or clears the task's due date. `canonical` is the canonical
    /// spelling of `due`: only a date written in exactly that way, and without
    /// a sign, is taken, because only such dates keep text comparison of dates
    /// correct.
    pub fn set_due_at(
        &mut self,
        id: i64,
        due: Option<&str>,
        canonical: Option<String>,
        now: &str,
    ) -> (r: Result<(), Error>)
        requires
            old(self).wf(),
        ensures
            final(self).wf(),
            old(self).consistent() ==> final(self).consistent(),
            tables::undoable(old(self)@, final(self)@),
            final(self)@.tables.statuses == old(self)@.tables.statuses,
            (final(self)@, unit_result(r)) == plans::acted(
                old(self)@,
                "set due \""@ + old(self)@.tables.tasks[id].title + "\""@,
                plans::set_due(
                    old(self)@.tables,
                    id,
                    str_option(due),
                    clock::spelled(str_option(due), task::text_option(canonical)),
                    now@,
                ),
            ),
    {
        let stored: Option<String> = match due {
            Some(date) => {
                let valid = match &canonical {
                    Some(spelling) => !clock::has_sign(date) && text::same(spelling.as_str(), date),
                    None => false,
                };
                if !valid {
                    return Err(Error::InvalidDate(date.to_owned()));
                }
                Some(date.to_owned())
            },
            None => None,
        };
        match self.store.find_task(id) {
            Some(i) => {
                let mut row = self.store.tasks[i].clone();
                let description = concat3("set due \"", row.title.as_str(), "\"");
                row.due = stored;
                row.updated_at = now.to_owned();
                assert(row@.due == str_option(due));
                self.replace_task(description, row);
                Ok(())
            },
            None => Err(Error::TaskNotFound(id)),
        }
    }

    /// Sets or clears the task's due date. Dates must be real calendar days
    /// written exactly as `YYYY-MM-DD`; anything else is rejected with
    /// InvalidDate before the tables are touched.
    pub fn set_due(&mut self, id: i64, due: Option<&str>) -> (r: Result<(), Error>)
        requires
            old(self).wf(),
        ensures
            final(self).wf(),
            old(self).consistent() ==> final(self).consistent(),
            tables::undoable(old(self)@, final(self)@),
            final(self)@.tables.statuses == old(self)@.tables.statuses,
            exists|now: Seq<char>|
                (final(self)@, unit_result(r)) == #[trigger] ops::set_due(
                    old(self)@,
                    id,
                    str_option(due),
                    now,
                ),
            due matches Some(text) ==> (r matches Err(Error::InvalidDate(_))
                <==> !clock::calendar_day(text@)),
    {
        let canonical = clock::canonical_option(due);
        let now = clock::now();
        let r = self.set_due_at(id, due, canonical, now.as_str());
        assert((self@, unit_result(r)) == ops::set_due(
            old(self)@,
            id,
            str_option(due),
            now@,
        ));
        r
    }

    /// Replaces the task's whole note, e.g. after an external-editor session.
    pub fn set_note_at(&mut self, id: i64, note: &str, now: &str) -> (r: Result<(), Error>)
        requires
            old(self).wf(),
        ensures
            final(self).wf(),
            old(self).consistent() ==> final(self).consistent(),
            tables::undoable(old(self)@, final(self)@),
            final(self)@.tables.statuses == old(self)@.tables.statuses,
            (final(self)@, unit_result(r)) == ops::set_note(old(self)@, id, note@, now@),
    {
        match self.store.find_task(id) {
            Some(i) => {
                let mut row = self.store.tasks[i].clone();
                let description = concat3("edit note \"", row.title.as_str(), "\"");
                row.note = note.to_owned();
                row.updated_at = now.to_owned();
                self.replace_task(description, row);
                Ok(())
            },
            None => Err(Error::TaskNotFound(id)),
        }
    }

    pub fn set_note(&mut self, id: i64, text: &str) -> (r: Result<(), Error>)
        requires
            old(self).wf(),
        ensures
            final(self).wf(),
            old(self).consistent() ==> final(self).consistent(),
            tables::undoable(old(self)@, final(self)@),
            final(self)@.tables.statuses == old(self)@.tables.statuses,
            exists|now: Seq<char>|
                (final(self)@, unit_result(r)) == #[trigger] ops::set_note(
                    old(self)@,
                    id,
                    text@,
                    now,
                ),
    {
        let now = clock::now();
        let r = self.set_note_at(id, text, now.as_str());
        assert((self@, unit_result(r)) == ops::set_note(old(self)@, id, text@, now@));
        r
    }

    /// Swaps the task with its display-order neighbour within the same
    /// sibling group; a no-op at either end of the group.
    pub fn move_task(&mut self, id: i64, direction: TaskMove) -> (r: Result<(), Error>)
        requires
            old(self).wf(),
        ensures
            final(self).wf(),
            old(self).consistent() ==> final(self).consistent(),
            tables::undoable(old(self)@, final(self)@),
            final(self)@.tables.statuses == old(self)@.tables.statuses,
            (final(self)@, unit_result(r)) == ops::move_task(old(self)@, id, direction),
    {
        let ghost t = self@.tables;
        let i = match self.store.find_task(id) {
            Some(i) => i,
            None => {
                return Err(Error::TaskNotFound(id));
            },
        };
        let row = self.store.tasks[i].clone();
        let rows = child_rows(&self.store, row.parent_id);
        let ghost cs = plans::children(t.tasks, row.parent_id);
        proof {
            lemma_children(self.store, row.parent_id);
        }
        let neighbour = match direction {
            TaskMove::Down => next_of(&rows, row.display_order),
            TaskMove::Up => previous_of(&rows, row.display_order),
        };
        let mut tx = Tx::begin(&self.store);
        match neighbour {
            Some(n) => {
                let other = rows[n].clone();
                assert(cs[n as int] == other@);
                assert(t.tasks.contains_pair(other.id, other@));
                let mut first = row.clone();
                first.display_order = other.display_order;
                let mut second = other;
                second.display_order = row.display_order;
                tx.put_task(id, Some(first));
                let ghost u = tx.store@;
                let second_id = second.id;
                tx.put_task(second_id, Some(second));
                proof {
                    assert(store::changes_view(tx.log@) =~= seq![
                        plans::edit(t, first@),
                        plans::edit(t, second@),
                    ]);
                    lemma_edit_sound(t, first@, false);
                    assert(u =~= Tables {
                        tasks: t.tasks.insert(id, first@),
                        statuses: t.statuses,
                    });
                    lemma_edit_sound(u, second@, false);
                    assert(tx.store@ =~= Tables {
                        tasks: u.tasks.insert(second_id, second@),
                        statuses: t.statuses,
                    });
                    if self.consistent() {
                        lemma_edit_sound(t, first@, true);
                        lemma_edit_sound(u, second@, true);
                    }
                }
            },
            None => {},
        }
        let description = concat3("move \"", row.title.as_str(), "\"");
        self.commit(description, tx);
        Ok(())
    }

    /// Counts the tasks in the subtree rooted at `id`, the root included.
    pub fn count_subtree(&self, id: i64) -> (r: Result<i64, Error>)
        requires
            self.wf(),
        ensures
            count_result(r) == ops::count_subtree(self@, id),
    {
        match self.store.find_task(id) {
            Some(i) => {
                let ids = self.subtree_of(i);
                Ok(report_count(ids.len()))
            },
            None => Err(Error::TaskNotFound(id)),
        }
    }

    /// The ids of the subtree rooted at the task at index `i`.
    fn subtree_of(&self, i: usize) -> (r: Vec<i64>)
        requires
            self.wf(),
            i < self.store.tasks@.len(),
        ensures
            r@ == plans::subtree_ids(self@.tables.tasks, self.store.tasks@[i as int].id),
    {
        let ghost rows = task::tasks_view(self.store.tasks@);
        proof {
            self.store.lemma_wf();
            lemma_store_acyclic(self.store);
            lemma_index_of(rows, i as int);
        }
        let found = forest::collect_subtree(&self.store.tasks, i);
        let ghost g = forest::ints(found@);
        proof {
            let h = forest::heights(rows);
            forest::lemma_preorder_bounds(rows, h, i as int);
        }
        let mut r: Vec<i64> = Vec::new();
        let mut k: usize = 0;
        while k < found.len()
            invariant
                k <= found.len(),
                rows == task::tasks_view(self.store.tasks@),
                g == forest::ints(found@),
                forall|q: int| 0 <= q < g.len() ==> 0 <= #[trigger] g[q] < rows.len(),
                r@ == g.take(k as int).map_values(|i: int| rows[i].id),
            decreases found.len() - k,
        {
            assert(0 <= g[k as int] < rows.len());
            r.push(self.store.tasks[found[k]].id);
            assert(g.take(k + 1) =~= g.take(k as int).push(g[k as int]));
            k = k + 1;
            assert(r@ =~= g.take(k as int).map_values(|i: int| rows[i].id));
        }
        assert(g.take(k as int) =~= g);
        r
    }

    /// Moves the task under `new_parent` (None = root level), at the time
    /// given. Within the new sibling group it lands right after
    /// display_order `after`, or at the tail when `after` is None. The old
    /// sibling group is compacted.
    pub fn reparent_at(
        &mut self,
        id: i64,
        new_parent: Option<i64>,
        after: Option<i64>,
        now: &str,
    ) -> (r: Result<(), Error>)
        requires
            old(self).wf(),
        ensures
            final(self).wf(),
            old(self).consistent() ==> final(self).consistent(),
            tables::undoable(old(self)@, final(self)@),
            final(self)@.tables.statuses == old(self)@.tables.statuses,
            (final(self)@, unit_result(r)) == ops::reparent(old(self)@, id, new_parent, after, now@),
    {
        let ghost t = self@.tables;
        let i = match self.store.find_task(id) {
            Some(i) => i,
            None => {
                return Err(Error::TaskNotFound(id));
            },
        };
        let row = self.store.tasks[i].clone();
        let mut parent_known = true;
        if let Some(parent) = new_parent {
            let ids = self.subtree_of(i);
            if store::contains_id(&ids, parent) {
                return Err(Error::CycleDetected { task: id, new_parent: parent });
            }
            parent_known = self.store.find_task(parent).is_some();
        }
        let mut tx = Tx::begin(&self.store);
        let siblings = child_rows(&self.store, row.parent_id);
        let ghost cs = plans::children(t.tasks, row.parent_id);
        proof {
            lemma_children(self.store, row.parent_id);
            assert forall|k: int| 0 <= k < siblings@.len() implies tx.store@.tasks.contains_pair(
                (#[trigger] siblings@[k])@.id,
                siblings@[k]@,
            ) by {
                assert(cs[k] == siblings@[k]@);
            }
            assert forall|j: int, k: int| 0 <= j < k < siblings@.len() implies (
            #[trigger] siblings@[j])@.id != (#[trigger] siblings@[k])@.id by {
                assert(cs[j] == siblings@[j]@ && cs[k] == siblings@[k]@);
                assert(cs[j].id != cs[k].id);
            }
        }
        shift_rows(&mut tx, &siblings, row.display_order, false, None);
        let ghost closed = plans::shift(cs, row.display_order, -1, None);
        let ghost u = tx.store@;
        assert(store::changes_view(tx.log@) =~= closed);
        assert(u == tables::run(t, closed));
        assert(u.tasks[id] == t.tasks[id]);
        let order = match make_room(&mut tx, new_parent, after, Some(id)) {
            Some(order) => order,
            None => {
                return Err(Error::Sqlite(StoreError::IntegerOverflow));
            },
        };
        if !parent_known {
            return Err(Error::Sqlite(StoreError::ForeignKey));
        }
        let ghost v = tx.store@;
        assert(u.tasks.dom().contains(id));
        assert(v.tasks[id] == row@);
        let mut moved = row.clone();
        moved.parent_id = new_parent;
        moved.display_order = order;
        moved.updated_at = now.to_owned();
        tx.put_task(id, Some(moved));
        proof {
            let planned = plans::make_room(plans::children(u.tasks, new_parent), after, Some(id));
            assert(v.tasks.dom().contains(id));
            assert(store::changes_view(tx.log@) =~= (closed + planned->Some_0.0).push(
                ChangeV::Task { id, before: Some(row@), after: Some(moved@) },
            ));
            tx.store.lemma_wf();
            assert(tx.store@.tasks == v.tasks.insert(id, moved@));
            lemma_moved_sound(self.store, v, moved@, tx.store@, false);
            if self.consistent() {
                lemma_moved_sound(self.store, v, moved@, tx.store@, true);
            }
        }
        let description = concat3("move \"", row.title.as_str(), "\"");
        self.commit(description, tx);
        Ok(())
    }

    pub fn reparent(&mut self, id: i64, new_parent: Option<i64>, after: Option<i64>) -> (r: Result<
        (),
        Error,
    >)
        requires
            old(self).wf(),
        ensures
            final(self).wf(),
            old(self).consistent() ==> final(self).consistent(),
            tables::undoable(old(self)@, final(self)@),
            final(self)@.tables.statuses == old(self)@.tables.statuses,
            exists|now: Seq<char>|
                (final(self)@, unit_result(r)) == #[trigger] ops::reparent(
                    old(self)@,
                    id,
                    new_parent,
                    after,
                    now,
                ),
    {
        let now = clock::now();
        let r = self.reparent_at(id, new_parent, after, now.as_str());
        assert((self@, unit_result(r)) == ops::reparent(
            old(self)@,
            id,
            new_parent,
            after,
            now@,
        ));
        r
    }

    /// Deletes the subtree rooted at `id` and returns how many tasks were
    /// removed. Rows are deleted one by one, deepest first.
    pub fn delete_subtree(&mut self, id: i64) -> (r: Result<i64, Error>)
        requires
            old(self).wf(),
        ensures
            final(self).wf(),
            old(self).consistent() ==> final(self).consistent(),
            tables::undoable(old(self)@, final(self)@),
            final(self)@.tables.statuses == old(self)@.tables.statuses,
            (final(self)@, count_result(r)) == ops::delete_subtree(old(self)@, id),
            r is Ok ==> final(self)@.tables.tasks == old(self)@.tables.tasks.remove_keys(
                plans::subtree_ids(old(self)@.tables.tasks, id).to_set(),
            ),
    {
        let ghost t = self@.tables;
        let i = match self.store.find_task(id) {
            Some(i) => i,
            None => {
                return Err(Error::TaskNotFound(id));
            },
        };
        let description = concat3("delete \"", self.store.tasks[i].title.as_str(), "\"");
        let ids = self.subtree_of(i);
        let ghost planned = plans::delete_rows(t.tasks, ids@);
        proof {
            lemma_subtree_rows(self.store, i as int);
        }
        let mut tx = Tx::begin(&self.store);
        let mut k: usize = ids.len();
        assert(planned.take(0) =~= seq![]);
        while k > 0
            invariant
                k <= ids.len(),
                t == old(self)@.tables,
                planned == plans::delete_rows(t.tasks, ids@),
                ids@.no_duplicates(),
                forall|q: int| 0 <= q < ids@.len() ==> t.tasks.dom().contains(#[trigger] ids@[q]),
                tx.wf(),
                tx.start@ == t,
                tx.store@.statuses == t.statuses,
                store::changes_view(tx.log@) == planned.take(ids@.len() - k),
                forall|x: i64| #[trigger]
                    tx.store@.tasks.dom().contains(x) <==> t.tasks.dom().contains(x)
                        && !ids@.skip(k as int).contains(x),
                forall|x: i64| #[trigger]
                    tx.store@.tasks.dom().contains(x) ==> tx.store@.tasks[x] == t.tasks[x],
            decreases k,
        {
            let ghost log = store::changes_view(tx.log@);
            let ghost later = ids@.skip(k as int);
            let ghost held = tx.store@.tasks;
            k = k - 1;
            proof {
                assert(t.tasks.dom().contains(ids@[k as int]));
                if later.contains(ids@[k as int]) {
                    let q = choose|q: int| 0 <= q < later.len() && later[q] == ids@[k as int];
                    assert(ids@[k + 1 + q] == ids@[k as int]);
                }
                assert(held.dom().contains(ids@[k as int]));
            }
            tx.put_task(ids[k], None);
            proof {
                let n = ids@.len() - 1 - k;
                assert(ids@[ids@.len() - 1 - n] == ids@[k as int]);
                assert(planned.take(n + 1) =~= planned.take(n).push(planned[n]));
                let now = ids@.skip(k as int);
                assert(now =~= seq![ids@[k as int]] + later);
                assert forall|x: i64| now.contains(x) == (x == ids@[k as int] || later.contains(x)) by {
                    if later.contains(x) {
                        let q = choose|q: int| 0 <= q < later.len() && later[q] == x;
                        assert(now[q + 1] == x);
                    }
                    if x == ids@[k as int] {
                        assert(now[0] == x);
                    }
                    if now.contains(x) && x != ids@[k as int] {
                        let q = choose|q: int| 0 <= q < now.len() && now[q] == x;
                        assert(later[q - 1] == x);
                    }
                }
                assert(tx.store@.tasks == held.remove(ids@[k as int]));
            }
        }
        proof {
            assert(ids@.skip(0) =~= ids@);
            assert(planned.take(ids@.len() as int) =~= planned);
            lemma_pruned_sound(self.store, i as int, ids@, tx.store@, false);
            if self.consistent() {
                lemma_pruned_sound(self.store, i as int, ids@, tx.store@, true);
            }
            assert(tx.store@.tasks =~= t.tasks.remove_keys(ids@.to_set()));
        }
        let n = report_count(ids.len());
        self.commit(description, tx);
        proof {
            if ids@.len() == 0 {
                assert(t.tasks.remove_keys(ids@.to_set()) =~= t.tasks);
            }
        }
        Ok(n)
    }

    pub fn list_children(&self, parent_id: Option<i64>) -> (r: Result<Vec<Task>, Error>)
        requires
            self.wf(),
        ensures
            r is Ok,
            task::tasks_view(r->Ok_0@) == plans::children(self@.tables.tasks, parent_id),
    {
        Ok(child_rows(&self.store, parent_id))
    }

    /// Returns every task. Sibling groups are kept contiguous and in display
    /// order so callers can build tree views without further sorting.
    pub fn list_all(&self) -> (r: Result<Vec<Task>, Error>)
        requires
            self.wf(),
        ensures
            r is Ok,
            task::tasks_view(r->Ok_0@) == order::listing(
                tables::rows(self@.tables.tasks),
                Order::Group,
            ),
            order::unique_ids(task::tasks_view(r->Ok_0@)),
            forest::acyclic(task::tasks_view(r->Ok_0@)),
            forest::parents_listed(task::tasks_view(r->Ok_0@)),
            holds_tasks(self@.tables.tasks, task::tasks_view(r->Ok_0@)),
    {
        proof {
            self.store.lemma_wf();
        }
        let r = order::list_tasks(&self.store.tasks, Order::Group);
        proof {
            let rows = task::tasks_view(self.store.tasks@);
            let listed = task::tasks_view(r@);
            lemma_listed(rows, listed, Order::Group);
            assert(tables::chain(self@.tables, self@.undo, false));
            let h = choose|h: spec_fn(i64) -> nat| tables::falls(self@.tables.tasks, h);
            assert forall|i: int| 0 <= i < listed.len() && (
            #[trigger] listed[i]).parent_id is Some implies h(listed[i].id) < h(
                listed[i].parent_id->Some_0,
            ) by {
                assert(rows.contains(listed[i]));
                assert(self@.tables.tasks.dom().contains(listed[i].id));
            }
            assert(forest::descends(listed, h));
            assert forall|i: int| 0 <= i < listed.len() implies self@.tables.tasks.contains_pair(
                (#[trigger] listed[i]).id,
                listed[i],
            ) by {
                assert(rows.contains(listed[i]));
            }
            assert forall|id: i64| #[trigger] self@.tables.tasks.dom().contains(id) implies exists|
                i: int,
            |
                0 <= i < listed.len() && (#[trigger] listed[i]).id == id by {
                let row = self@.tables.tasks[id];
                assert(rows.contains(row));
                let k = choose|k: int| 0 <= k < rows.len() && rows[k] == row;
                assert(listed.contains(rows[k]));
                let i = choose|i: int| 0 <= i < listed.len() && listed[i] == rows[k];
                assert(listed[i].id == id);
            }
            assert forall|i: int|
                0 <= i < listed.len() && (#[trigger] listed[i]).parent_id is Some implies forest::listed(
                listed,
                listed[i].parent_id->Some_0,
            ) by {
                assert(self@.tables.tasks.dom().contains(listed[i].id));
                assert(self@.tables.tasks.dom().contains(listed[i].parent_id->Some_0));
            }
        }
        Ok(r)
    }

    /// Whether the task at index `i` is found by a request. `needle` is the
    /// search text in lower case.
    fn finds(
        &self,
        row: &Task,
        needle: &Option<Vec<char>>,
        query: &Query,
        today: &str,
    ) -> (r: bool)
        requires
            self.wf(),
            match (query.text, *needle) {
                (Some(text), Some(n)) => n@ == text::ascii_lower(text@),
                (None, None) => true,
                _ => false,
            },
        ensures
            r == plans::found(self@.tables, row@, query@, today@),
    {
        let kind = match self.store.find_status(row.status_id) {
            Some(j) => self.store.statuses[j].kind,
            None => {
                return false;
            },
        };
        let text_hit = match needle {
            Some(n) => holds(row.title.as_str(), n) || holds(row.note.as_str(), n),
            None => true,
        };
        text_hit && passes(row, kind, query.filter, today)
    }

    /// Runs one search/filter/sort request and returns the matching tasks as
    /// a flat list. Text matching is literal, over titles and notes, and
    /// ignores the case of ASCII letters. `today` (as `YYYY-MM-DD`) is
    /// passed in so overdue filtering stays a pure function of its inputs.
    pub fn search(&self, query: &Query, today: &str) -> (r: Result<Vec<Task>, Error>)
        requires
            self.wf(),
        ensures
            r is Ok,
            task::tasks_view(r->Ok_0@) == plans::search(self@.tables, query@, today@),
    {
        let needle = match &query.text {
            Some(text) => Some(text::lower_chars(&text::chars_of(text.as_str()))),
            None => None,
        };
        let listed = self.sorted_rows(query.sort);
        let ghost v = task::tasks_view(listed@);
        let mut r: Vec<Task> = Vec::new();
        let mut i: usize = 0;
        assert(v.take(0) =~= seq![]);
        assert(task::tasks_view(r@) =~= seq![]);
        while i < listed.len()
            invariant
                i <= listed.len(),
                self.wf(),
                v == task::tasks_view(listed@),
                match (query.text, needle) {
                    (Some(text), Some(n)) => n@ == text::ascii_lower(text@),
                    (None, None) => true,
                    _ => false,
                },
                task::tasks_view(r@) == plans::select(
                    v.take(i as int),
                    self@.tables,
                    query@,
                    today@,
                ),
            decreases listed.len() - i,
        {
            assert(v.take(i + 1).drop_last() =~= v.take(i as int));
            assert(v.take(i + 1).last() == listed@[i as int]@);
            let ghost before = task::tasks_view(r@);
            if self.finds(&listed[i], &needle, query, today) {
                let row = listed[i].clone();
                r.push(row);
                assert(task::tasks_view(r@) =~= before.push(row@));
            }
            i = i + 1;
        }
        assert(v.take(i as int) =~= v);
        Ok(r)
    }

    /// Every task in the order a request asks for.
    fn sorted_rows(&self, sort: Sort) -> (r: Vec<Task>)
        requires
            self.wf(),
        ensures
            task::tasks_view(r@) == plans::sort_listing(tables::rows(self@.tables.tasks), sort),
    {
        proof {
            self.store.lemma_wf();
            lemma_store_acyclic(self.store);
        }
        match sort {
            Sort::TreeOrder => {
                let walk = forest::collect_tree(&self.store.tasks);
                let ghost rows = task::tasks_view(self.store.tasks@);
                let ghost g = forest::ints(walk@);
                proof {
                    lemma_tree_bounds(rows);
                }
                let mut r: Vec<Task> = Vec::new();
                let mut i: usize = 0;
                while i < walk.len()
                    invariant
                        i <= walk.len(),
                        rows == task::tasks_view(self.store.tasks@),
                        g == forest::ints(walk@),
                        forall|k: int| 0 <= k < g.len() ==> 0 <= #[trigger] g[k] < rows.len(),
                        task::tasks_view(r@) == g.take(i as int).map_values(|i: int| rows[i]),
                    decreases walk.len() - i,
                {
                    assert(0 <= g[i as int] < rows.len());
                    let ghost before = task::tasks_view(r@);
                    let row = self.store.tasks[walk[i]].clone();
                    r.push(row);
                    assert(task::tasks_view(r@) =~= before.push(row@));
                    assert(g.take(i + 1) =~= g.take(i as int).push(g[i as int]));
                    i = i + 1;
                    assert(task::tasks_view(r@) =~= g.take(i as int).map_values(|i: int| rows[i]));
                }
                assert(g.take(i as int) =~= g);
                r
            },
            Sort::Due => order::list_tasks(&self.store.tasks, Order::Due),
            Sort::Updated => order::list_tasks(&self.store.tasks, Order::Updated),
            Sort::Created => order::list_tasks(&self.store.tasks, Order::Created),
            Sort::Title => order::list_tasks(&self.store.tasks, Order::Title),
        }
    }

    /// The statuses in display order.
    pub fn list_statuses(&self) -> (r: Result<Vec<Status>, Error>)
        requires
            self.wf(),
        ensures
            r is Ok,
            lists_statuses(self@.tables.statuses, status::statuses_view(r->Ok_0@)),
    {
        proof {
            self.store.lemma_wf();
        }
        let r = order::list_statuses(&self.store.statuses);
        proof {
            let m = self@.tables.statuses;
            let rows = status::statuses_view(self.store.statuses@);
            let listed = status::statuses_view(r@);
            lemma_statuses_listed(rows, listed);
            assert forall|i: int| 0 <= i < listed.len() implies m.contains_pair(
                (#[trigger] listed[i]).id,
                listed[i],
            ) by {
                assert(rows.contains(listed[i]));
            }
            assert forall|id: i64| #[trigger] m.dom().contains(id) implies exists|i: int|
                0 <= i < listed.len() && (#[trigger] listed[i]).id == id by {
                assert(rows.contains(m[id]));
                let k = choose|k: int| 0 <= k < rows.len() && rows[k] == m[id];
                assert(listed.contains(rows[k]));
                let i = choose|i: int| 0 <= i < listed.len() && listed[i] == rows[k];
                assert(listed[i].id == id);
            }
        }
        Ok(r)
    }

    /// Returns the id of the status applied to newly created tasks.
    pub fn default_status_id(&self) -> (r: Result<i64, Error>)
        requires
            self.wf(),
        ensures
            count_result(r) == plans::default_status(self@.tables),
            r matches Ok(id) ==> self@.tables.statuses.dom().contains(id),
    {
        proof {
            self.store.lemma_wf();
        }
        let ghost v = status::statuses_view(self.store.statuses@);
        let mut i: usize = 0;
        assert(v.skip(0) =~= v);
        while i < self.store.statuses.len()
            invariant
                i <= self.store.statuses.len(),
                v == status::statuses_view(self.store.statuses@),
                v == tables::status_rows(self@.tables.statuses),
                tables::is_status_rows(v, self@.tables.statuses),
                plans::first_default(v) == plans::first_default(v.skip(i as int)),
            decreases self.store.statuses.len() - i,
        {
            assert(v.skip(i as int)[0] == self.store.statuses@[i as int]@);
            if self.store.statuses[i].is_default {
                assert(self@.tables.statuses.contains_pair(v[i as int].id, v[i as int]));
                return Ok(self.store.statuses[i].id);
            }
            assert(v.skip(i as int).drop_first() =~= v.skip(i + 1));
            i = i + 1;
        }
        Err(Error::Sqlite(StoreError::NoRow))
    }

    /// Creates a status appended at the end of the display order. New
    /// statuses are never the default; that flag only moves explicitly.
    pub fn create_status(&mut self, label: &str, kind: StatusKind, color: &str, key: char) -> (r:
        Result<Status, Error>)
        requires
            old(self).wf(),
        ensures
            final(self).wf(),
            old(self).consistent() ==> final(self).consistent(),
            tables::undoable(old(self)@, final(self)@),
            final(self)@.tables.tasks == old(self)@.tables.tasks,
            (final(self)@, status_result(r)) == ops::create_status(
                old(self)@,
                label@,
                kind,
                color@,
                key,
            ),
    {
        let ghost t = self@.tables;
        proof {
            self.store.lemma_wf();
        }
        let listed = order::list_statuses(&self.store.statuses);
        let ghost v = status::statuses_view(listed@);
        let order: i64 = if listed.len() == 0 {
            0
        } else {
            let last: i64 = listed[listed.len() - 1].display_order;
            assert(v.last() == listed@.last()@);
            if last == i64::MAX {
                return Err(Error::Sqlite(StoreError::IntegerOverflow));
            }
            last + 1
        };
        let id = match fresh_status_id(&self.store) {
            Some(id) => id,
            None => {
                return Err(Error::Sqlite(StoreError::IntegerOverflow));
            },
        };
        let row = Status {
            id,
            label: label.to_owned(),
            kind,
            color: color.to_owned(),
            key,
            display_order: order,
            is_default: false,
        };
        let created = row.clone();
        let mut tx = Tx::begin(&self.store);
        tx.put_status(id, Some(row));
        proof {
            assert(store::changes_view(tx.log@) =~= seq![
                ChangeV::Status { id, before: None, after: Some(row@) },
            ]);
            tx.store.lemma_wf();
            lemma_statuses_sound(t, tx.store@, false);
            if self.consistent() {
                let d = choose|d: i64| tables::is_only_default(t.statuses, d);
                assert(tables::is_only_default(tx.store@.statuses, d));
                lemma_statuses_sound(t, tx.store@, true);
            }
        }
        let description = concat3("create status \"", label, "\"");
        self.commit(description, tx);
        Ok(created)
    }

    /// Replaces one status row as one action.
    fn replace_status(&mut self, description: String, row: Status)
        requires
            old(self).wf(),
            old(self)@.tables.statuses.dom().contains(row.id),
            old(self)@.tables.statuses[row.id].is_default == row.is_default,
        ensures
            final(self).wf(),
            old(self).consistent() ==> final(self).consistent(),
            tables::undoable(old(self)@, final(self)@),
            final(self)@.tables.tasks == old(self)@.tables.tasks,
            final(self)@.tables.statuses.dom() == old(self)@.tables.statuses.dom(),
            final(self)@ == tables::committed(
                old(self)@,
                description@,
                seq![plans::edit_status(old(self)@.tables, row@)],
            ),
    {
        let ghost t = self@.tables;
        let mut tx = Tx::begin(&self.store);
        let id = row.id;
        tx.put_status(id, Some(row));
        proof {
            assert(store::changes_view(tx.log@) =~= seq![plans::edit_status(t, row@)]);
            tx.store.lemma_wf();
            lemma_statuses_sound(t, tx.store@, false);
            if self.consistent() {
                let d = choose|d: i64| tables::is_only_default(t.statuses, d);
                assert forall|k: i64| #[trigger] tx.store@.statuses.dom().contains(k) implies tx.store@.statuses[k].is_default
                    == (k == d) by {
                    assert(t.statuses.dom().contains(k));
                }
                assert(tables::is_only_default(tx.store@.statuses, d));
                lemma_statuses_sound(t, tx.store@, true);
            }
        }
        self.commit(description, tx);
    }

    pub fn update_status_label(&mut self, id: i64, label: &str) -> (r: Result<(), Error>)
        requires
            old(self).wf(),
        ensures
            final(self).wf(),
            old(self).consistent() ==> final(self).consistent(),
            tables::undoable(old(self)@, final(self)@),
            final(self)@.tables.tasks == old(self)@.tables.tasks,
            final(self)@.tables.statuses.dom() == old(self)@.tables.statuses.dom(),
            (final(self)@, unit_result(r)) == ops::update_status_label(old(self)@, id, label@),
    {
        match self.store.find_status(id) {
            Some(i) => {
                let mut row = self.store.statuses[i].clone();
                let description = concat5(
                    "rename status \"",
                    row.label.as_str(),
                    "\" → \"",
                    label,
                    "\"",
                );
                row.label = label.to_owned();
                self.replace_status(description, row);
                Ok(())
            },
            None => Err(Error::StatusNotFound(id)),
        }
    }

    pub fn update_status_kind(&mut self, id: i64, kind: StatusKind) -> (r: Result<(), Error>)
        requires
            old(self).wf(),
        ensures
            final(self).wf(),
            old(self).consistent() ==> final(self).consistent(),
            tables::undoable(old(self)@, final(self)@),
            final(self)@.tables.tasks == old(self)@.tables.tasks,
            final(self)@.tables.statuses.dom() == old(self)@.tables.statuses.dom(),
            (final(self)@, unit_result(r)) == ops::update_status_kind(old(self)@, id, kind),
    {
        match self.store.find_status(id) {
            Some(i) => {
                let mut row = self.store.statuses[i].clone();
                let description = concat3("update status \"", row.label.as_str(), "\"");
                row.kind = kind;
                self.replace_status(description, row);
                Ok(())
            },
            None => Err(Error::StatusNotFound(id)),
        }
    }

    pub fn update_status_color(&mut self, id: i64, color: &str) -> (r: Result<(), Error>)
        requires
            old(self).wf(),
        ensures
            final(self).wf(),
            old(self).consistent() ==> final(self).consistent(),
            tables::undoable(old(self)@, final(self)@),
            final(self)@.tables.tasks == old(self)@.tables.tasks,
            final(self)@.tables.statuses.dom() == old(self)@.tables.statuses.dom(),
            (final(self)@, unit_result(r)) == ops::update_status_color(old(self)@, id, color@),
    {
        match self.store.find_status(id) {
            Some(i) => {
                let mut row = self.store.statuses[i].clone();
                let description = concat3("update status \"", row.label.as_str(), "\"");
                row.color = color.to_owned();
                self.replace_status(description, row);
                Ok(())
            },
            None => Err(Error::StatusNotFound(id)),
        }
    }

    pub fn update_status_key(&mut self, id: i64, key: char) -> (r: Result<(), Error>)
        requires
            old(self).wf(),
        ensures
            final(self).wf(),
            old(self).consistent() ==> final(self).consistent(),
            tables::undoable(old(self)@, final(self)@),
            final(self)@.tables.tasks == old(self)@.tables.tasks,
            final(self)@.tables.statuses.dom() == old(self)@.tables.statuses.dom(),
            (final(self)@, unit_result(r)) == ops::update_status_key(old(self)@, id, key),
    {
        match self.store.find_status(id) {
            Some(i) => {
                let mut row = self.store.statuses[i].clone();
                let description = concat3("update status \"", row.label.as_str(), "\"");
                row.key = key;
                self.replace_status(description, row);
                Ok(())
            },
            None => Err(Error::StatusNotFound(id)),
        }
    }

    /// How many tasks carry the status.
    fn users(&self, id: i64) -> (r: usize)
        requires
            self.wf(),
        ensures
            r == plans::users(tables::rows(self@.tables.tasks), id),
    {
        proof {
            self.store.lemma_wf();
        }
        let ghost v = task::tasks_view(self.store.tasks@);
        let mut n: usize = 0;
        let mut i: usize = 0;
        assert(v.take(0) =~= seq![]);
        while i < self.store.tasks.len()
            invariant
                i <= self.store.tasks.len(),
                n <= i,
                v == task::tasks_view(self.store.tasks@),
                n == plans::users(v.take(i as int), id),
            decreases self.store.tasks.len() - i,
        {
            assert(v.take(i + 1).drop_last() =~= v.take(i as int));
            assert(v.take(i + 1).last() == self.store.tasks@[i as int]@);
            if self.store.tasks[i].status_id == id {
                n = n + 1;
            }
            i = i + 1;
        }
        assert(v.take(i as int) =~= v);
        n
    }

    pub fn count_tasks_with_status(&self, id: i64) -> (r: Result<i64, Error>)
        requires
            self.wf(),
        ensures
            count_result(r) == Ok::<i64, ErrorV>(
                plans::count(plans::users(tables::rows(self@.tables.tasks), id)),
            ),
    {
        Ok(report_count(self.users(id)))
    }

    /// Deletes a status unless tasks still reference it, it is the last row,
    /// or it is the current default. Each refusal carries its reason so the
    /// UI can tell the user what to change first.
    pub fn delete_status(&mut self, id: i64) -> (r: Result<(), Error>)
        requires
            old(self).wf(),
        ensures
            final(self).wf(),
            old(self).consistent() ==> final(self).consistent(),
            tables::undoable(old(self)@, final(self)@),
            final(self)@.tables.tasks == old(self)@.tables.tasks,
            (final(self)@, unit_result(r)) == ops::delete_status(old(self)@, id),
    {
        let ghost t = self@.tables;
        proof {
            self.store.lemma_wf();
        }
        let i = match self.store.find_status(id) {
            Some(i) => i,
            None => {
                return Err(Error::StatusNotFound(id));
            },
        };
        let in_use = self.users(id);
        if in_use > 0 {
            return Err(Error::StatusInUse { count: report_count(in_use) });
        }
        if self.store.statuses.len() <= 1 {
            return Err(Error::CannotDeleteLastStatus);
        }
        if self.store.statuses[i].is_default {
            return Err(Error::CannotDeleteDefaultStatus);
        }
        let description = concat3(
            "delete status \"",
            self.store.statuses[i].label.as_str(),
            "\"",
        );
        let mut tx = Tx::begin(&self.store);
        tx.put_status(id, None);
        proof {
            assert(store::changes_view(tx.log@) =~= seq![
                ChangeV::Status { id, before: Some(t.statuses[id]), after: None },
            ]);
            tx.store.lemma_wf();
            lemma_statuses_sound(t, tx.store@, false);
            if self.consistent() {
                let d = choose|d: i64| tables::is_only_default(t.statuses, d);
                assert forall|k: i64| #[trigger] tx.store@.statuses.dom().contains(k) implies tx.store@.statuses[k].is_default
                    == (k == d) by {
                    assert(t.statuses.dom().contains(k));
                }
                assert(tables::is_only_default(tx.store@.statuses, d));
                assert forall|k: i64| #[trigger] t.tasks.dom().contains(k) implies tx.store@.statuses.dom().contains(
                    t.tasks[k].status_id,
                ) by {
                    lemma_unused(self.store, id, k);
                }
                lemma_statuses_sound(t, tx.store@, true);
            }
        }
        self.commit(description, tx);
        Ok(())
    }

    /// Swaps the status with its display-order neighbour; a no-op at either
    /// end of the list.
    pub fn move_status(&mut self, id: i64, direction: StatusMove) -> (r: Result<(), Error>)
        requires
            old(self).wf(),
        ensures
            final(self).wf(),
            old(self).consistent() ==> final(self).consistent(),
            tables::undoable(old(self)@, final(self)@),
            final(self)@.tables.tasks == old(self)@.tables.tasks,
            final(self)@.tables.statuses.dom() == old(self)@.tables.statuses.dom(),
            (final(self)@, unit_result(r)) == ops::move_status(old(self)@, id, direction),
    {
        let ghost t = self@.tables;
        proof {
            self.store.lemma_wf();
        }
        let i = match self.store.find_status(id) {
            Some(i) => i,
            None => {
                return Err(Error::StatusNotFound(id));
            },
        };
        let row = self.store.statuses[i].clone();
        let rows = order::list_statuses(&self.store.statuses);
        let ghost v = status::statuses_view(rows@);
        let ghost all = status::statuses_view(self.store.statuses@);
        let neighbour = match direction {
            StatusMove::Down => next_status_of(&rows, row.display_order),
            StatusMove::Up => previous_status_of(&rows, row.display_order),
        };
        let mut tx = Tx::begin(&self.store);
        match neighbour {
            Some(n) => {
                let other = rows[n].clone();
                proof {
                    assert(v[n as int] == other@);
                    assert(all.contains(v[n as int]));
                    let k = choose|k: int| 0 <= k < all.len() && all[k] == v[n as int];
                    assert(t.statuses.contains_pair(all[k].id, all[k]));
                }
                let mut first = row.clone();
                first.display_order = other.display_order;
                let mut second = other;
                second.display_order = row.display_order;
                tx.put_status(id, Some(first));
                let second_id = second.id;
                tx.put_status(second_id, Some(second));
                proof {
                    assert(store::changes_view(tx.log@) =~= seq![
                        plans::edit_status(t, first@),
                        plans::edit_status(t, second@),
                    ]);
                    tx.store.lemma_wf();
                    assert(tx.store@.statuses == t.statuses.insert(id, first@).insert(
                        second_id,
                        second@,
                    ));
                    lemma_statuses_sound(t, tx.store@, false);
                    if self.consistent() {
                        let d = choose|d: i64| tables::is_only_default(t.statuses, d);
                        assert forall|k: i64| #[trigger] tx.store@.statuses.dom().contains(
                            k,
                        ) implies tx.store@.statuses[k].is_default == (k == d) by {
                            assert(t.statuses.dom().contains(k));
                        }
                        assert(tables::is_only_default(tx.store@.statuses, d));
                        lemma_statuses_sound(t, tx.store@, true);
                    }
                }
            },
            None => {},
        }
        let description = concat3("move status \"", row.label.as_str(), "\"");
        self.commit(description, tx);
        Ok(())
    }

    /// Moves the default flag to `id`. The old flag is only dropped in the
    /// same action that sets the new one, so exactly one default row
    /// survives any outcome.
    pub fn set_default_status(&mut self, id: i64) -> (r: Result<(), Error>)
        requires
            old(self).wf(),
        ensures
            final(self).wf(),
            old(self).consistent() ==> final(self).consistent(),
            tables::undoable(old(self)@, final(self)@),
            final(self)@.tables.tasks == old(self)@.tables.tasks,
            final(self)@.tables.statuses.dom() == old(self)@.tables.statuses.dom(),
            (final(self)@, unit_result(r)) == ops::set_default_status(old(self)@, id),
            r is Ok ==> tables::is_only_default(final(self)@.tables.statuses, id),
    {
        let ghost t = self@.tables;
        proof {
            self.store.lemma_wf();
        }
        let i = match self.store.find_status(id) {
            Some(i) => i,
            None => {
                return Err(Error::StatusNotFound(id));
            },
        };
        let description = concat3(
            "set default status \"",
            self.store.statuses[i].label.as_str(),
            "\"",
        );
        let ghost v = status::statuses_view(self.store.statuses@);
        let ghost planned = plans::flag_default(v, id);
        let mut tx = Tx::begin(&self.store);
        let mut k: usize = 0;
        assert(planned.take(0) =~= seq![]);
        while k < self.store.statuses.len()
            invariant
                k <= self.store.statuses.len(),
                *self == *old(self),
                self.wf(),
                t == self@.tables,
                v == status::statuses_view(self.store.statuses@),
                planned == plans::flag_default(v, id),
                tx.wf(),
                tx.start@ == t,
                tx.store@.tasks == t.tasks,
                tx.store@.statuses.dom() == t.statuses.dom(),
                store::changes_view(tx.log@) == planned.take(k as int),
                forall|q: int|
                    0 <= q < k ==> tx.store@.statuses[(#[trigger] v[q]).id].is_default == (v[q].id
                        == id),
                forall|q: int|
                    k <= q < v.len() ==> tx.store@.statuses[(#[trigger] v[q]).id] == v[q],
            decreases self.store.statuses.len() - k,
        {
            let mut row = self.store.statuses[k].clone();
            proof {
                assert(v[k as int] == self.store.statuses@[k as int]@);
                assert(t.statuses.contains_pair(v[k as int].id, v[k as int]));
                assert(t.statuses.dom().contains(v[k as int].id));
                assert forall|q: int| 0 <= q < v.len() && q != k implies (#[trigger] v[q]).id != v[k as int].id by {
                    if q < k {
                        assert(tables::id_order()(v[q], v[k as int]));
                    } else {
                        assert(tables::id_order()(v[k as int], v[q]));
                    }
                }
            }
            row.is_default = row.id == id;
            let row_id = row.id;
            tx.put_status(row_id, Some(row));
            proof {
                assert(planned.take(k + 1) =~= planned.take(k as int).push(planned[k as int]));
                assert(row@ =~= planned[k as int]->Status_after->Some_0);
                assert(tx.store@.statuses.dom() =~= t.statuses.dom());
            }
            k = k + 1;
        }
        proof {
            assert(planned.take(k as int) =~= planned);
            assert(v.contains(t.statuses[id]));
            assert forall|x: i64| #[trigger] tx.store@.statuses.dom().contains(x) implies tx.store@.statuses[x].is_default
                == (x == id) by {
                assert(t.statuses.dom().contains(x));
                let q = choose|q: int| 0 <= q < v.len() && v[q] == t.statuses[x];
                assert(v[q].id == x);
            }
            tx.store.lemma_wf();
            assert(tables::is_only_default(tx.store@.statuses, id));
            lemma_statuses_sound(t, tx.store@, false);
            if self.consistent() {
                lemma_statuses_sound(t, tx.store@, true);
            }
            assert(planned.len() > 0);
        }
        self.commit(description, tx);
        Ok(())
    }

    /// Opens an undo sub-session: until the matching end_undo_scope, undo
    /// and redo only reach steps recorded inside the scope. Scopes do not
    /// nest.
    pub fn begin_undo_scope(&mut self) -> (r: Result<(), Error>)
        requires
            old(self).wf(),
        ensures
            final(self).wf(),
            old(self).consistent() ==> final(self).consistent(),
            (final(self)@, unit_result(r)) == ops::begin_undo_scope(old(self)@),
    {
        if self.undo_scope.is_some() {
            return Err(Error::UndoScopeAlreadyActive);
        }
        proof {
            tables::lemma_scope_opened(self@, false);
            if self.consistent() {
                tables::lemma_scope_opened(self@, true);
            }
        }
        let mut saved_redo: Vec<UndoStep> = Vec::new();
        std::mem::swap(&mut saved_redo, &mut self.redo_stack);
        self.undo_scope = Some(UndoScope { boundary: self.undo_stack.len(), saved_redo });
        assert(steps_view(self.redo_stack@) =~= seq![]);
        assert(self@ =~= tables::scope_opened(old(self)@));
        Ok(())
    }

    /// Closes the current undo scope. The edits that survived it (were not
    /// undone) are folded into a single outer undo step described by
    /// `description`; if none survived, the history is left as if the scope
    /// had never been opened.
    pub fn end_undo_scope(&mut self, description: &str) -> (r: Result<(), Error>)
        requires
            old(self).wf(),
        ensures
            final(self).wf(),
            old(self).consistent() ==> final(self).consistent(),
            (final(self)@, unit_result(r)) == ops::end_undo_scope(old(self)@, description@),
    {
        let ghost d = self@;
        proof {
            if d.scope is Some {
                tables::lemma_scope_closed(d, description@, false);
                if self.consistent() {
                    tables::lemma_scope_closed(d, description@, true);
                }
            }
        }
        let scope = match self.undo_scope.take() {
            Some(scope) => scope,
            None => {
                return Err(Error::UndoScopeNotActive);
            },
        };
        let ghost undo = self.undo_stack@;
        let surviving = self.undo_stack.split_off(scope.boundary);
        if surviving.len() == 0 {
            self.redo_stack = scope.saved_redo;
            assert(self.undo_stack@ =~= undo);
            assert(self@ =~= tables::scope_closed(d, description@));
        } else {
            let mut changes: Vec<Change> = Vec::new();
            let ghost steps = steps_view(surviving@);
            let mut i: usize = 0;
            assert(steps.take(0) =~= seq![]);
            assert(store::changes_view(changes@) =~= seq![]);
            while i < surviving.len()
                invariant
                    i <= surviving.len(),
                    steps == steps_view(surviving@),
                    store::changes_view(changes@) == tables::all_changes(steps.take(i as int)),
                decreases surviving.len() - i,
            {
                let ghost before = store::changes_view(changes@);
                let mut part = store::clone_changes(&surviving[i].changes);
                let ghost added = store::changes_view(part@);
                changes.append(&mut part);
                assert(store::changes_view(changes@) =~= before + added);
                assert(steps.take(i + 1).drop_last() =~= steps.take(i as int));
                assert(steps.take(i + 1).last() == surviving@[i as int]@);
                i = i + 1;
            }
            assert(steps.take(i as int) =~= steps);
            self.redo_stack = Vec::new();
            let step = UndoStep { description: description.to_owned(), changes };
            let ghost kept = steps_view(self.undo_stack@);
            self.undo_stack.push(step);
            proof {
                assert(steps_view(self.undo_stack@) =~= kept.push(step@));
                assert(kept =~= d.undo.take(scope.boundary as int));
                assert(steps =~= d.undo.skip(scope.boundary as int));
                assert(steps_view(self.redo_stack@) =~= seq![]);
                assert(self@ =~= tables::scope_closed(d, description@));
            }
        }
        Ok(())
    }

    /// Reverts the most recent action and moves it to the redo stack.
    /// Returns None when there is nothing to undo — inside an undo scope,
    /// that includes every step older than the scope.
    pub fn undo(&mut self) -> (r: Result<Option<UndoOutcome>, Error>)
        requires
            old(self).wf(),
        ensures
            final(self).wf(),
            old(self).consistent() ==> final(self).consistent(),
            r is Ok,
            (final(self)@, outcome_option(r->Ok_0)) == ops::undo(old(self)@),
    {
        let ghost d = self@;
        let floor: usize = match &self.undo_scope {
            Some(scope) => scope.boundary,
            None => 0,
        };
        if self.undo_stack.len() <= floor {
            return Ok(None);
        }
        proof {
            tables::lemma_undone(d, false);
            if self.consistent() {
                tables::lemma_undone(d, true);
            }
            assert(d.undo.last() == self.undo_stack@.last()@);
        }
        match self.undo_stack.pop() {
            Some(step) => {
                let (counter, outcome) = self.replay(step);
                let ghost redo = steps_view(self.redo_stack@);
                self.redo_stack.push(counter);
                proof {
                    assert(steps_view(self.redo_stack@) =~= redo.push(counter@));
                    assert(steps_view(self.undo_stack@) =~= d.undo.drop_last());
                    assert(self@ =~= tables::undone(d));
                }
                Ok(Some(outcome))
            },
            None => Ok(None),
        }
    }

    /// Re-applies the most recently undone action and moves it back to the
    /// undo stack. Returns None when there is nothing to redo.
    pub fn redo(&mut self) -> (r: Result<Option<UndoOutcome>, Error>)
        requires
            old(self).wf(),
        ensures
            final(self).wf(),
            old(self).consistent() ==> final(self).consistent(),
            r is Ok,
            (final(self)@, outcome_option(r->Ok_0)) == ops::redo(old(self)@),
    {
        let ghost d = self@;
        if self.redo_stack.len() == 0 {
            return Ok(None);
        }
        proof {
            tables::lemma_redone(d, false);
            if self.consistent() {
                tables::lemma_redone(d, true);
            }
            assert(d.redo.last() == self.redo_stack@.last()@);
        }
        match self.redo_stack.pop() {
            Some(step) => {
                let (counter, outcome) = self.replay(step);
                let ghost undo = steps_view(self.undo_stack@);
                self.undo_stack.push(counter);
                proof {
                    assert(steps_view(self.undo_stack@) =~= undo.push(counter@));
                    assert(steps_view(self.redo_stack@) =~= d.redo.drop_last());
                    assert(self@ =~= tables::redone(d));
                }
                Ok(Some(outcome))
            },
            None => Ok(None),
        }
    }

    /// Replays a step backwards, newest change first, so that a parent is
    /// back before its children. Gives the step that reverts the replay:
    /// that is what makes undo and redo symmetric.
    fn replay(&mut self, step: UndoStep) -> (r: (UndoStep, UndoOutcome))
        requires
            old(self).store.wf(),
            tables::runs(old(self).store@, tables::inverse_all(step@.changes)),
        ensures
            final(self).store.wf(),
            final(self).store@ == tables::run(
                old(self).store@,
                tables::inverse_all(step@.changes),
            ),
            final(self).undo_stack == old(self).undo_stack,
            final(self).redo_stack == old(self).redo_stack,
            final(self).undo_scope == old(self).undo_scope,
            store::changes_view(final(self).unsaved@) == store::changes_view(old(self).unsaved@)
                + tables::inverse_all(step@.changes),
            r.0@ == (StepV {
                description: step@.description,
                changes: tables::inverse_all(step@.changes),
            }),
            r.1@ == (OutcomeV {
                description: step@.description,
                affected_task_ids: tables::affected(tables::inverse_all(step@.changes)),
            }),
    {
        let changes = store::invert_all(&step.changes);
        self.store.apply_all(&changes);
        let ghost unsaved = store::changes_view(self.unsaved@);
        let mut saved = store::clone_changes(&changes);
        self.unsaved.append(&mut saved);
        assert(store::changes_view(self.unsaved@) =~= unsaved + store::changes_view(changes@));
        let affected_task_ids = store::affected_ids(&changes);
        let outcome = UndoOutcome { description: step.description.clone(), affected_task_ids };
        (UndoStep { description: step.description, changes }, outcome)
    }

    /// The descriptions of what could be undone, oldest first.
    pub fn undo_descriptions(&self) -> (r: Vec<String>)
        requires
            self.wf(),
        ensures
            text::texts(r@) == self@.undo.map_values(|s: StepV| s.description),
    {
        let ghost all = self@.undo.map_values(|s: StepV| s.description);
        let mut r: Vec<String> = Vec::new();
        let mut i: usize = 0;
        assert(text::texts(r@) =~= all.take(0));
        while i < self.undo_stack.len()
            invariant
                i <= self.undo_stack.len(),
                all == self@.undo.map_values(|s: StepV| s.description),
                text::texts(r@) == all.take(i as int),
            decreases self.undo_stack.len() - i,
        {
            let ghost before = text::texts(r@);
            let description = self.undo_stack[i].description.clone();
            assert(self@.undo[i as int] == self.undo_stack@[i as int]@);
            assert(description@ == all[i as int]);
            r.push(description);
            assert(text::texts(r@) =~= before.push(description@));
            i = i + 1;
            assert(text::texts(r@) =~= all.take(i as int));
        }
        assert(all.take(i as int) =~= all);
        r
    }

    /// Hands out the row changes made since the last call, in order, for
    /// saving them.
    pub fn take_unsaved(&mut self) -> (r: Vec<Change>)
        requires
            old(self).wf(),
        ensures
            final(self).wf(),
            old(self).consistent() ==> final(self).consistent(),
            store::changes_view(r@) == old(self)@.unsaved,
            final(self)@ == (DbV { unsaved: seq![], ..old(self)@ }),
    {
        let mut taken: Vec<Change> = Vec::new();
        std::mem::swap(&mut taken, &mut self.unsaved);
        assert(store::changes_view(self.unsaved@) =~= seq![]);
        taken
    }

    /// A store with empty history over these rows.
    fn over(store: Store) -> (r: Self)
        requires
            store.wf(),
            tables::sound(store@, false),
        ensures
            r.wf(),
            r@ == fresh(store@),
            tables::sound(store@, true) ==> r.consistent(),
    {
        let r = Db {
            store,
            undo_stack: Vec::new(),
            redo_stack: Vec::new(),
            undo_scope: None,
            unsaved: Vec::new(),
        };
        assert(r@ =~= fresh(store@));
        r
    }

    /// A store over saved rows, with empty history. Refused are rows that
    /// share an id, a parent that is not among the rows, and parent links
    /// that close a cycle. The keys and references of the schema rule out
    /// the first two; around a cycle no walk up the tree would end.
    pub fn from_rows(tasks: Vec<Task>, statuses: Vec<Status>) -> (r: Result<Self, Error>)
        ensures
            ({
                let ts = task::tasks_view(tasks@);
                let ss = status::statuses_view(statuses@);
                match r {
                    Ok(db) => {
                        &&& order::unique_ids(ts) && order::unique_status_ids(ss)
                        &&& forest::parents_listed(ts) && forest::acyclic(ts)
                        &&& db.wf()
                        &&& db@ == fresh(db@.tables)
                        &&& holds_rows(db@.tables, ts, ss)
                        &&& tables::consistent(db@.tables) ==> db.consistent()
                    },
                    Err(e) => e@ == ErrorV::Sqlite(
                        if !order::unique_ids(ts) || !order::unique_status_ids(ss) {
                            StoreError::DuplicateId
                        } else if !forest::parents_listed(ts) {
                            StoreError::ForeignKey
                        } else {
                            StoreError::ParentCycle
                        },
                    ) && !(order::unique_ids(ts) && order::unique_status_ids(ss)
                        && forest::parents_listed(ts) && forest::acyclic(ts)),
                }
            }),
    {
        let ghost ts = task::tasks_view(tasks@);
        let ghost ss = status::statuses_view(statuses@);
        let mut store = Store::empty();
        let mut i: usize = 0;
        while i < tasks.len()
            invariant
                i <= tasks.len(),
                ts == task::tasks_view(tasks@),
                store.wf(),
                store@.statuses == Map::<i64, StatusV>::empty(),
                holds_tasks(store@.tasks, ts.take(i as int)),
                order::unique_ids(ts.take(i as int)),
            decreases tasks.len() - i,
        {
            let ghost seen = ts.take(i as int);
            let ghost next = ts.take(i + 1);
            let ghost m = store@.tasks;
            assert(next =~= seen.push(ts[i as int]));
            assert(ts[i as int] == tasks@[i as int]@);
            if store.find_task(tasks[i].id).is_some() {
                proof {
                    let id = ts[i as int].id;
                    assert(m.dom().contains(id));
                    let k = choose|k: int| 0 <= k < seen.len() && (#[trigger] seen[k]).id == id;
                    assert(ts[k].id == ts[i as int].id);
                }
                return Err(Error::Sqlite(StoreError::DuplicateId));
            }
            store.put_task(tasks[i].id, Some(tasks[i].clone()));
            proof {
                assert forall|k: int| 0 <= k < next.len() implies store@.tasks.contains_pair(
                    (#[trigger] next[k]).id,
                    next[k],
                ) by {
                    if k < i {
                        assert(seen[k] == next[k]);
                        assert(m.contains_pair(seen[k].id, seen[k]));
                    }
                }
                assert forall|id: i64| #[trigger] store@.tasks.dom().contains(id) implies exists|k: int|
                    0 <= k < next.len() && (#[trigger] next[k]).id == id by {
                    if id == ts[i as int].id {
                        assert(next[i as int].id == id);
                    } else {
                        assert(m.dom().contains(id));
                        let k = choose|k: int| 0 <= k < seen.len() && (#[trigger] seen[k]).id == id;
                        assert(next[k].id == id);
                    }
                }
                assert forall|a: int, b: int|
                    0 <= a < next.len() && 0 <= b < next.len() && next[a].id == next[b].id implies a
                    == b by {
                    if a < i && b < i {
                        assert(seen[a].id == seen[b].id);
                    } else if a < i {
                        assert(m.contains_pair(seen[a].id, seen[a]));
                    } else if b < i {
                        assert(m.contains_pair(seen[b].id, seen[b]));
                    }
                }
            }
            i = i + 1;
        }
        assert(ts.take(i as int) =~= ts);
        let ghost tasks_held = store@.tasks;
        let mut j: usize = 0;
        while j < statuses.len()
            invariant
                j <= statuses.len(),
                ss == status::statuses_view(statuses@),
                store.wf(),
                store@.tasks == tasks_held,
                holds_statuses(store@.statuses, ss.take(j as int)),
                order::unique_status_ids(ss.take(j as int)),
            decreases statuses.len() - j,
        {
            let ghost seen = ss.take(j as int);
            let ghost next = ss.take(j + 1);
            let ghost m = store@.statuses;
            assert(next =~= seen.push(ss[j as int]));
            assert(ss[j as int] == statuses@[j as int]@);
            if store.find_status(statuses[j].id).is_some() {
                proof {
                    let id = ss[j as int].id;
                    assert(m.dom().contains(id));
                    let k = choose|k: int| 0 <= k < seen.len() && (#[trigger] seen[k]).id == id;
                    assert(ss[k].id == ss[j as int].id);
                }
                return Err(Error::Sqlite(StoreError::DuplicateId));
            }
            store.put_status(statuses[j].id, Some(statuses[j].clone()));
            proof {
                assert forall|k: int| 0 <= k < next.len() implies store@.statuses.contains_pair(
                    (#[trigger] next[k]).id,
                    next[k],
                ) by {
                    if k < j {
                        assert(seen[k] == next[k]);
                        assert(m.contains_pair(seen[k].id, seen[k]));
                    }
                }
                assert forall|id: i64| #[trigger] store@.statuses.dom().contains(
                    id,
                ) implies exists|k: int| 0 <= k < next.len() && (#[trigger] next[k]).id == id by {
                    if id == ss[j as int].id {
                        assert(next[j as int].id == id);
                    } else {
                        assert(m.dom().contains(id));
                        let k = choose|k: int| 0 <= k < seen.len() && (#[trigger] seen[k]).id == id;
                        assert(next[k].id == id);
                    }
                }
                assert forall|a: int, b: int|
                    0 <= a < next.len() && 0 <= b < next.len() && next[a].id == next[b].id implies a
                    == b by {
                    if a < j && b < j {
                        assert(seen[a].id == seen[b].id);
                    } else if a < j {
                        assert(m.contains_pair(seen[a].id, seen[a]));
                    } else if b < j {
                        assert(m.contains_pair(seen[b].id, seen[b]));
                    }
                }
            }
            j = j + 1;
        }
        assert(ss.take(j as int) =~= ss);
        let mut k: usize = 0;
        while k < tasks.len()
            invariant
                k <= tasks.len(),
                ts == task::tasks_view(tasks@),
                ss == status::statuses_view(statuses@),
                order::unique_ids(ts),
                order::unique_status_ids(ss),
                forall|q: int|
                    0 <= q < k && (#[trigger] ts[q]).parent_id is Some ==> forest::listed(
                        ts,
                        ts[q].parent_id->Some_0,
                    ),
            decreases tasks.len() - k,
        {
            assert(ts[k as int] == tasks@[k as int]@);
            if let Some(parent) = tasks[k].parent_id {
                match forest::position_of(&tasks, parent) {
                    Some(q) => {
                        assert(ts[q as int] == tasks@[q as int]@);
                    },
                    None => {
                        return Err(Error::Sqlite(StoreError::ForeignKey));
                    },
                }
            }
            k = k + 1;
        }
        if !forest::is_forest(&tasks) {
            return Err(Error::Sqlite(StoreError::ParentCycle));
        }
        proof {
            store.lemma_wf();
            let h = forest::heights(ts);
            assert(forest::descends(ts, h));
            assert forall|id: i64| #[trigger]
                store@.tasks.dom().contains(id) && store@.tasks[id].parent_id is Some implies h(id)
                < h(store@.tasks[id].parent_id->Some_0) && store@.tasks.dom().contains(
                store@.tasks[id].parent_id->Some_0,
            ) by {
                let q = choose|q: int| 0 <= q < ts.len() && (#[trigger] ts[q]).id == id;
                assert(store@.tasks.contains_pair(ts[q].id, ts[q]));
                let p = ts[q].parent_id->Some_0;
                let w = choose|w: int| 0 <= w < ts.len() && (#[trigger] ts[w]).id == p;
                assert(store@.tasks.contains_pair(ts[w].id, ts[w]));
            }
            assert(tables::falls(store@.tasks, h));
        }
        Ok(Db::over(store))
    }

    /// A store without tasks and with the statuses a new store starts with.
    pub fn open_in_memory() -> (r: Result<Self, Error>)
        ensures
            r is Ok,
            r->Ok_0.wf(),
            r->Ok_0.consistent(),
            r->Ok_0@ == fresh(r->Ok_0@.tables),
            holds_rows(r->Ok_0@.tables, seq![], seed_view()),
    {
        let statuses = seed_statuses();
        let ghost ss = status::statuses_view(statuses@);
        let tasks: Vec<Task> = Vec::new();
        let ghost ts = task::tasks_view(tasks@);
        proof {
            assert(ts =~= seq![]);
            let h = |x: i64| 0nat;
            assert(forest::descends(ts, h));
        }
        let r = Db::from_rows(tasks, statuses);
        proof {
            let db = r->Ok_0;
            let m = db@.tables.statuses;
            assert(m.contains_pair(ss[0].id, ss[0]));
            assert forall|id: i64| #[trigger] m.dom().contains(id) implies m[id].is_default == (id
                == 1) by {
                let k = choose|k: int| 0 <= k < ss.len() && (#[trigger] ss[k]).id == id;
                assert(m.contains_pair(ss[k].id, ss[k]));
            }
            assert(tables::is_only_default(m, 1));
            assert(tables::sound(db@.tables, false));
            assert forall|id: i64| #[trigger] db@.tables.tasks.dom().contains(id) implies false by {
                let k = choose|k: int| 0 <= k < ts.len() && (#[trigger] ts[k]).id == id;
            }
            assert(tables::sound(db@.tables, true));
        }
        r
    }
}

/// A new row in tables that link as those of a sound store.
proof fn lemma_tx_sound(d: Db, u: Tables, row: TaskV, w: Tables)
    requires
        d.wf(),
        tables::keyed(w),
        same_links(d@.tables.tasks, u.tasks),
        u.statuses == d@.tables.statuses,
        !d@.tables.tasks.dom().contains(row.id),
        plans::parent_exists(d@.tables.tasks, row.parent_id),
        d@.tables.statuses.dom().contains(row.status_id),
        w.tasks == u.tasks.insert(row.id, row),
        w.statuses == u.statuses,
    ensures
        tables::sound(w, false),
        d.consistent() ==> tables::sound(w, true),
{
    let t = d@.tables;
    assert forall|id: i64| #[trigger] u.tasks.dom().contains(id) implies u.tasks[id].id == id by {
        if id != row.id {
            assert(w.tasks.dom().contains(id));
        }
    }
    assert(tables::keyed(u));
    lemma_same_links_sound(t, u, false);
    lemma_insert_sound(u, row, false);
    assert(w =~= Tables { tasks: u.tasks.insert(row.id, row), statuses: u.statuses });
    if d.consistent() {
        lemma_same_links_sound(t, u, true);
        lemma_insert_sound(u, row, true);
    }
}

/// The first of the rows above this display order.
fn next_of(rows: &Vec<Task>, order: i64) -> (r: Option<usize>)
    ensures
        match r {
            Some(i) => i < rows@.len() && plans::next_row(task::tasks_view(rows@), order) == Some(
                rows@[i as int]@,
            ) && rows@[i as int]@.display_order > order,
            None => plans::next_row(task::tasks_view(rows@), order) is None,
        },
{
    let ghost v = task::tasks_view(rows@);
    let mut i: usize = 0;
    assert(v.skip(0) =~= v);
    while i < rows.len()
        invariant
            i <= rows.len(),
            v == task::tasks_view(rows@),
            plans::next_row(v, order) == plans::next_row(v.skip(i as int), order),
        decreases rows.len() - i,
    {
        assert(v.skip(i as int)[0] == rows@[i as int]@);
        if rows[i].display_order > order {
            return Some(i);
        }
        assert(v.skip(i as int).drop_first() =~= v.skip(i + 1));
        i = i + 1;
    }
    None
}

/// The last of the rows below this display order.
fn previous_of(rows: &Vec<Task>, order: i64) -> (r: Option<usize>)
    ensures
        match r {
            Some(i) => i < rows@.len() && plans::previous_row(task::tasks_view(rows@), order)
                == Some(rows@[i as int]@) && rows@[i as int]@.display_order < order,
            None => plans::previous_row(task::tasks_view(rows@), order) is None,
        },
{
    let ghost v = task::tasks_view(rows@);
    let mut i: usize = rows.len();
    assert(v.take(i as int) =~= v);
    while i > 0
        invariant
            i <= rows.len(),
            v == task::tasks_view(rows@),
            plans::previous_row(v, order) == plans::previous_row(v.take(i as int), order),
        decreases i,
    {
        i = i - 1;
        assert(v.take(i + 1).last() == rows@[i as int]@);
        assert(v.take(i + 1).drop_last() =~= v.take(i as int));
        if rows[i].display_order < order {
            return Some(i);
        }
    }
    None
}

/// A row's index is where its id is found.
proof fn lemma_index_of(rows: Seq<TaskV>, i: int)
    requires
        order::unique_ids(rows),
        0 <= i < rows.len(),
    ensures
        plans::index_of(rows, rows[i].id) == i,
    decreases rows.len(),
{
    if i < rows.len() - 1 {
        assert(rows.last().id != rows[i].id);
        let front = rows.drop_last();
        assert forall|a: int, b: int|
            0 <= a < front.len() && 0 <= b < front.len() && front[a].id == front[b].id implies a
            == b by {
            assert(rows[a].id == rows[b].id);
        }
        lemma_index_of(front, i);
    }
}

/// The rows of a sound store are a forest.
proof fn lemma_store_acyclic(s: Store)
    requires
        s.wf(),
        tables::acyclic(s@.tasks),
    ensures
        forest::acyclic(task::tasks_view(s.tasks@)),
{
    let h = choose|h: spec_fn(i64) -> nat| tables::falls(s@.tasks, h);
    tables::lemma_rows_fall(task::tasks_view(s.tasks@), s@.tasks, h);
}

/// The ids of a subtree are those of different rows.
proof fn lemma_subtree_rows(s: Store, i: int)
    requires
        s.wf(),
        tables::acyclic(s@.tasks),
        0 <= i < s.tasks@.len(),
    ensures
        ({
            let ids = plans::subtree_ids(s@.tasks, s.tasks@[i].id);
            &&& ids.no_duplicates()
            &&& ids.contains(s.tasks@[i].id)
            &&& forall|q: int| 0 <= q < ids.len() ==> s@.tasks.dom().contains(#[trigger] ids[q])
        }),
{
    let rows = task::tasks_view(s.tasks@);
    s.lemma_wf();
    lemma_store_acyclic(s);
    lemma_index_of(rows, i);
    let h = forest::heights(rows);
    let g = forest::subtree(rows, i);
    let ids = plans::subtree_ids(s@.tasks, s.tasks@[i].id);
    forest::lemma_preorder_bounds(rows, h, i);
    forest::lemma_preorder_no_duplicates(rows, h, i);
    assert forall|a: int, b: int| 0 <= a < ids.len() && 0 <= b < ids.len() && a != b implies ids[a]
        != ids[b] by {
        assert(0 <= g[a] < rows.len() && 0 <= g[b] < rows.len());
        assert(g[a] != g[b]);
    }
    assert forall|q: int| 0 <= q < ids.len() implies s@.tasks.dom().contains(#[trigger] ids[q]) by {
        assert(0 <= g[q] < rows.len());
        assert(s@.tasks.contains_pair(rows[g[q]].id, rows[g[q]]));
    }
    assert(g[0] == i);
    assert(ids[0] == s.tasks@[i].id);
}

/// A subtree holds the children of its members.
proof fn lemma_subtree_closed(s: Store, i: int, child: i64)
    requires
        s.wf(),
        tables::acyclic(s@.tasks),
        0 <= i < s.tasks@.len(),
        s@.tasks.dom().contains(child),
        s@.tasks[child].parent_id is Some,
        plans::subtree_ids(s@.tasks, s.tasks@[i].id).contains(
            s@.tasks[child].parent_id->Some_0,
        ),
    ensures
        plans::subtree_ids(s@.tasks, s.tasks@[i].id).contains(child),
{
    let rows = task::tasks_view(s.tasks@);
    s.lemma_wf();
    lemma_store_acyclic(s);
    lemma_index_of(rows, i);
    let h = forest::heights(rows);
    let g = forest::subtree(rows, i);
    let ids = plans::subtree_ids(s@.tasks, s.tasks@[i].id);
    let p = s@.tasks[child].parent_id->Some_0;
    let q = choose|q: int| 0 <= q < ids.len() && ids[q] == p;
    assert(rows.contains(s@.tasks[child]));
    let c = choose|c: int| 0 <= c < rows.len() && rows[c] == s@.tasks[child];
    assert(g.contains(g[q]));
    forest::lemma_child_in_subtree(rows, h, i, g[q], c);
    let k = choose|k: int| 0 <= k < g.len() && g[k] == c;
    assert(ids[k] == child);
}

/// Moving a task out of its own subtree's reach keeps the tables sound.
proof fn lemma_moved_sound(s: Store, v: Tables, moved: TaskV, w: Tables, strict: bool)
    requires
        s.wf(),
        tables::sound(s@, strict),
        tables::keyed(w),
        same_links(s@.tasks, v.tasks),
        v.statuses == s@.statuses,
        s@.tasks.dom().contains(moved.id),
        moved.status_id == s@.tasks[moved.id].status_id,
        plans::parent_exists(s@.tasks, moved.parent_id),
        moved.parent_id is Some ==> !plans::subtree_ids(s@.tasks, moved.id).contains(
            moved.parent_id->Some_0,
        ),
        w.tasks == v.tasks.insert(moved.id, moved),
        w.statuses == v.statuses,
    ensures
        tables::sound(w, strict),
{
    let id = moved.id;
    let rows = task::tasks_view(s.tasks@);
    assert(rows.contains(s@.tasks[id]));
    let i = choose|i: int| 0 <= i < rows.len() && rows[i] == s@.tasks[id];
    assert(s.tasks@[i].id == id);
    let ids = plans::subtree_ids(s@.tasks, id);
    lemma_subtree_rows(s, i);
    let h = choose|h: spec_fn(i64) -> nat| tables::falls(s@.tasks, h);
    let g = |x: i64|
        if ids.contains(x) {
            h(x)
        } else {
            h(x) + h(id) + 1
        };
    assert forall|x: i64| #[trigger]
        w.tasks.dom().contains(x) && w.tasks[x].parent_id is Some implies g(x) < g(
        w.tasks[x].parent_id->Some_0,
    ) && w.tasks.dom().contains(w.tasks[x].parent_id->Some_0) by {
        if x != id {
            assert(s@.tasks.dom().contains(x));
            let p = s@.tasks[x].parent_id->Some_0;
            assert(w.tasks[x].parent_id == s@.tasks[x].parent_id);
            if ids.contains(p) {
                lemma_subtree_closed(s, i, x);
            }
        }
    }
    assert(tables::falls(w.tasks, g));
    if strict {
        assert forall|x: i64| #[trigger] w.tasks.dom().contains(x) implies w.statuses.dom().contains(
            w.tasks[x].status_id,
        ) by {
            assert(s@.tasks.dom().contains(x));
        }
    }
}

/// Removing a whole subtree keeps the tables sound.
proof fn lemma_pruned_sound(s: Store, i: int, ids: Seq<i64>, w: Tables, strict: bool)
    requires
        s.wf(),
        tables::sound(s@, strict),
        0 <= i < s.tasks@.len(),
        ids == plans::subtree_ids(s@.tasks, s.tasks@[i].id),
        w.statuses == s@.statuses,
        forall|x: i64| #[trigger]
            w.tasks.dom().contains(x) <==> s@.tasks.dom().contains(x) && !ids.contains(x),
        forall|x: i64| #[trigger] w.tasks.dom().contains(x) ==> w.tasks[x] == s@.tasks[x],
    ensures
        tables::sound(w, strict),
{
    let h = choose|h: spec_fn(i64) -> nat| tables::falls(s@.tasks, h);
    assert forall|x: i64| #[trigger]
        w.tasks.dom().contains(x) && w.tasks[x].parent_id is Some implies h(x) < h(
        w.tasks[x].parent_id->Some_0,
    ) && w.tasks.dom().contains(w.tasks[x].parent_id->Some_0) by {
        assert(s@.tasks.dom().contains(x));
        if ids.contains(s@.tasks[x].parent_id->Some_0) {
            lemma_subtree_closed(s, i, x);
        }
    }
    assert(tables::falls(w.tasks, h));
    if strict {
        assert forall|x: i64| #[trigger] w.tasks.dom().contains(x) implies w.statuses.dom().contains(
            w.tasks[x].status_id,
        ) by {
            assert(s@.tasks.dom().contains(x));
        }
    }
}

/// Whether a text holds a search text given in lower case.
fn holds(hay: &str, needle: &Vec<char>) -> (r: bool)
    ensures
        r == text::contains_text(text::ascii_lower(hay@), needle@),
{
    text::find(&text::lower_chars(&text::chars_of(hay)), needle).is_some()
}

/// Whether a task under a status of this kind passes a filter.
pub fn passes(row: &Task, kind: StatusKind, filter: Filter, today: &str) -> (r: bool)
    ensures
        r == query::passes_filter(row@, kind, filter, today@),
{
    match filter {
        Filter::All => true,
        Filter::Open => kind == StatusKind::Open,
        Filter::Status(id) => row.status_id == id,
        Filter::Overdue => match &row.due {
            Some(due) => kind == StatusKind::Open && text::lt(due.as_str(), today),
            None => false,
        },
    }
}

/// The walk of the whole tree stays within the list.
proof fn lemma_tree_bounds(rows: Seq<TaskV>)
    ensures
        forall|k: int|
            0 <= k < forest::tree_order(rows).len() ==> 0 <= #[trigger] forest::tree_order(rows)[k]
                < rows.len(),
{
    forest::lemma_group_exists(rows, None);
    lemma_roots_bounds(rows, forest::group(rows, None));
}

proof fn lemma_roots_bounds(rows: Seq<TaskV>, g: Seq<int>)
    requires
        forall|k: int| 0 <= k < g.len() ==> 0 <= #[trigger] g[k] < rows.len(),
    ensures
        forall|k: int|
            0 <= k < forest::roots_walk(rows, g).len() ==> 0 <= #[trigger] forest::roots_walk(
                rows,
                g,
            )[k] < rows.len(),
    decreases g.len(),
{
    if g.len() > 0 {
        let first = forest::subtree(rows, g[0]);
        let rest = forest::roots_walk(rows, g.drop_first());
        forest::lemma_preorder_bounds(rows, forest::heights(rows), g[0]);
        lemma_roots_bounds(rows, g.drop_first());
        let all = forest::roots_walk(rows, g);
        assert forall|k: int| 0 <= k < all.len() implies 0 <= #[trigger] all[k] < rows.len() by {
            if k < first.len() {
                assert(all[k] == first[k]);
            } else {
                assert(all[k] == rest[k - first.len()]);
            }
        }
    }
}

/// A change to the statuses alone keeps the tables sound, where the default
/// stays unique and no status in use goes away.
proof fn lemma_statuses_sound(t: Tables, u: Tables, strict: bool)
    requires
        tables::sound(t, strict),
        tables::keyed(u),
        u.tasks == t.tasks,
        strict ==> exists|d: i64| tables::is_only_default(u.statuses, d),
        strict ==> forall|k: i64| #[trigger]
            t.tasks.dom().contains(k) ==> u.statuses.dom().contains(t.tasks[k].status_id),
    ensures
        tables::sound(u, strict),
{
}

/// A task does not carry a status that no task carries.
proof fn lemma_unused(s: Store, status_id: i64, task_id: i64)
    requires
        s.wf(),
        plans::users(tables::rows(s@.tasks), status_id) == 0,
        s@.tasks.dom().contains(task_id),
    ensures
        s@.tasks[task_id].status_id != status_id,
{
    s.lemma_wf();
    let rows = tables::rows(s@.tasks);
    assert(rows.contains(s@.tasks[task_id]));
    let i = choose|i: int| 0 <= i < rows.len() && rows[i] == s@.tasks[task_id];
    lemma_no_users(rows, status_id, i);
}

proof fn lemma_no_users(rows: Seq<TaskV>, status_id: i64, i: int)
    requires
        plans::users(rows, status_id) == 0,
        0 <= i < rows.len(),
    ensures
        rows[i].status_id != status_id,
    decreases rows.len(),
{
    if i < rows.len() - 1 {
        lemma_no_users(rows.drop_last(), status_id, i);
    }
}

/// The first of the statuses above this display order.
fn next_status_of(rows: &Vec<Status>, order: i64) -> (r: Option<usize>)
    ensures
        match r {
            Some(i) => i < rows@.len() && plans::next_status(
                status::statuses_view(rows@),
                order,
            ) == Some(rows@[i as int]@) && rows@[i as int]@.display_order > order,
            None => plans::next_status(status::statuses_view(rows@), order) is None,
        },
{
    let ghost v = status::statuses_view(rows@);
    let mut i: usize = 0;
    assert(v.skip(0) =~= v);
    while i < rows.len()
        invariant
            i <= rows.len(),
            v == status::statuses_view(rows@),
            plans::next_status(v, order) == plans::next_status(v.skip(i as int), order),
        decreases rows.len() - i,
    {
        assert(v.skip(i as int)[0] == rows@[i as int]@);
        if rows[i].display_order > order {
            return Some(i);
        }
        assert(v.skip(i as int).drop_first() =~= v.skip(i + 1));
        i = i + 1;
    }
    None
}

/// The last of the statuses below this display order.
fn previous_status_of(rows: &Vec<Status>, order: i64) -> (r: Option<usize>)
    ensures
        match r {
            Some(i) => i < rows@.len() && plans::previous_status(
                status::statuses_view(rows@),
                order,
            ) == Some(rows@[i as int]@) && rows@[i as int]@.display_order < order,
            None => plans::previous_status(status::statuses_view(rows@), order) is None,
        },
{
    let ghost v = status::statuses_view(rows@);
    let mut i: usize = rows.len();
    assert(v.take(i as int) =~= v);
    while i > 0
        invariant
            i <= rows.len(),
            v == status::statuses_view(rows@),
            plans::previous_status(v, order) == plans::previous_status(v.take(i as int), order),
        decreases i,
    {
        i = i - 1;
        assert(v.take(i + 1).last() == rows@[i as int]@);
        assert(v.take(i + 1).drop_last() =~= v.take(i as int));
        if rows[i].display_order < order {
            return Some(i);
        }
    }
    None
}

} // verus!

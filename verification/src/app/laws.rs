//! What holds of the session whatever the keys are bound to.
use vstd::prelude::*;

use crate::app::model;
use crate::app::model::{AppV, ModeV, Step};
use crate::app::{History, InputAction};
use crate::command::{CommandId, Context};
use crate::error::ErrorV;
use crate::external_editor::EditOutcomeV;
use crate::forest;
use crate::input;
use crate::input::EditResultV;
use crate::key::Key;
use crate::keymap;
use crate::ops;
use crate::plans;
use crate::query::Filter;
use crate::query_view;
use crate::query_view::QueryStateV;
use crate::sight;
use crate::status::{StatusKind, StatusMove, StatusV};
use crate::status_cycle;
use crate::status_cycle::Direction;
use crate::status_manage;
use crate::status_manage::{EditingV, ManageV};
use crate::tables;
use crate::tables::{ChangeV, DbV, OutcomeV, Tables};
use crate::task::{TaskMove, TaskV};
use crate::text;
use crate::tree;
use crate::tree::Look;

verus! {

/// The position of a listed task.
proof fn lemma_has_task(ts: Seq<TaskV>, id: i64)
    ensures
        model::has_task(ts, id) ==> 0 <= tree::first_with(ts, id) < ts.len() && ts[tree::first_with(
            ts,
            id,
        )].id == id,
        model::has_task(ts, id) == forest::listed(ts, id),
    decreases ts.len(),
{
    if ts.len() > 0 {
        let rest = ts.drop_first();
        lemma_has_task(rest, id);
        if ts[0].id == id {
            assert(forest::listed(ts, id));
        } else {
            if forest::listed(ts, id) {
                let i = choose|i: int| 0 <= i < ts.len() && (#[trigger] ts[i]).id == id;
                assert(rest[i - 1].id == id);
            }
            if forest::listed(rest, id) {
                let i = choose|i: int| 0 <= i < rest.len() && (#[trigger] rest[i]).id == id;
                assert(ts[i + 1].id == id);
            }
        }
    }
}

/// Every ancestor of a task is among the tasks.
proof fn lemma_ancestors_listed(ts: Seq<TaskV>, h: spec_fn(i64) -> nat, from: Option<i64>, x: i64)
    requires
        forest::descends(ts, h),
        forest::parents_listed(ts),
        from is Some ==> forest::listed(ts, from->Some_0),
        tree::upwards(ts, h, from).contains(x),
    ensures
        forest::listed(ts, x),
    decreases tree::upwards(ts, h, from).len(),
{
    let c = tree::upwards(ts, h, from);
    let k = choose|k: int| 0 <= k < c.len() && c[k] == x;
    if k > 0 {
        let next = tree::parent_of(ts, from->Some_0);
        let i = plans::index_of(ts, from->Some_0);
        assert(ts[i].parent_id == next);
        let rest = tree::upwards(ts, h, next);
        assert(rest[k - 1] == x);
        lemma_ancestors_listed(ts, h, next, x);
    }
}

/// The search for a row finds one that shows the task.
proof fn lemma_row_from(a: AppV, id: i64, k: int)
    requires
        0 <= k <= a.rows.len(),
    ensures
        k <= model::row_from(a, id, k) <= a.rows.len(),
        model::row_from(a, id, k) < a.rows.len() ==> a.tasks[a.rows[model::row_from(
            a,
            id,
            k,
        )].task_index].id == id,
        forall|j: int|
            k <= j < a.rows.len() && a.tasks[(#[trigger] a.rows[j]).task_index].id == id
                ==> model::row_from(a, id, k) <= j,
    decreases a.rows.len() - k,
{
    if k < a.rows.len() && a.tasks[a.rows[k].task_index].id != id {
        lemma_row_from(a, id, k + 1);
    }
}

/// Selecting a task that has a row puts the cursor on it.
pub proof fn selecting_puts_the_cursor_on_the_task(a: AppV, id: i64, i: int)
    requires
        a.rows.len() <= usize::MAX,
        0 <= i < a.tasks.len(),
        a.tasks[i].id == id,
        sight::has_row(a.rows, i),
    ensures
        model::selected_task(model::selecting(a, id)) is Some,
        model::selected_task(model::selecting(a, id))->Some_0.id == id,
{
    lemma_row_from(a, id, 0);
    let k = choose|k: int| 0 <= k < a.rows.len() && (#[trigger] a.rows[k]).task_index == i;
    assert(a.tasks[a.rows[k].task_index].id == id);
}

/// Revealing a task puts the cursor on it, wherever it is in the tree: its
/// ancestors are expanded, and the zoom is dropped unless it contains it.
/// Only the filter can still hide it.
pub proof fn revealing_puts_the_cursor_on_the_task(a: AppV, id: i64, today: Seq<char>)
    requires
        model::valid_tasks(a.tasks),
        model::rooted(a),
        model::has_task(a.tasks, id),
        tree::shown(tree::visible_ids(a.tasks, a.statuses, a.filter, today), id),
        model::revealed(a, id, today).rows.len() <= usize::MAX,
    ensures
        model::selected_task(model::revealed(a, id, today)) is Some,
        model::selected_task(model::revealed(a, id, today))->Some_0.id == id,
{
    let ts = a.tasks;
    let up = tree::ancestors(ts, id);
    let visible = tree::visible_ids(ts, a.statuses, a.filter, today);
    let zoom_root = match a.zoom_root {
        Some(zoom) => if up.contains(zoom) {
            Some(zoom)
        } else {
            None
        },
        None => None,
    };
    let b = AppV { expanded: a.expanded.union(up.to_set()), zoom_root, ..a };
    let c = model::rebuilt(b, today);
    lemma_has_task(ts, id);
    let i = tree::first_with(ts, id);
    tree::lemma_own_index(ts, i);
    assert forall|x: i64| #[trigger] up.contains(x) implies b.expanded.contains(x) && tree::shown(
        visible,
        x,
    ) by {
        sight::a_filter_keeps_the_ancestors(ts, a.statuses, a.filter, today, id, x);
        assert(up.to_set().contains(x));
    }
    if let Some(zoom) = zoom_root {
        lemma_ancestors_listed(ts, forest::heights(ts), tree::parent_of(ts, id), zoom);
        lemma_has_task(ts, zoom);
    }
    assert(c.zoom_root == zoom_root);
    let look = Look { expanded: b.expanded, visible };
    let n = match zoom_root {
        Some(zoom) => choose|k: int| 0 <= k < up.len() && up[k] == zoom,
        None => up.len() as int,
    };
    assert forall|k: int| 0 <= k < n implies look.expanded.contains(#[trigger] up[k])
        && tree::shown(look.visible, up[k]) by {
        assert(up.contains(up[k]));
    }
    assert(sight::reaches_top(up, zoom_root, n) && sight::open_above(look, up, n));
    sight::a_task_has_a_row_where_it_is_in_sight(ts, look, zoom_root, i);
    selecting_puts_the_cursor_on_the_task(c, id, i);
}

/// Undo and redo reveal the first task they touched that still exists, and
/// say what they did. Only the filter can still hide the task.
pub proof fn undo_reveals_the_affected_task(
    a: AppV,
    d: DbV,
    kind: History,
    o: OutcomeV,
    today: Seq<char>,
)
    requires
        model::replayed(d, kind).1 == Some(o),
        model::history(a, d, kind, today).result is Ok,
        model::valid(model::history(a, d, kind, today).app),
        model::rooted(model::history(a, d, kind, today).app),
        model::history(a, d, kind, today).app.rows.len() <= usize::MAX,
    ensures
        ({
            let s = model::history(a, d, kind, today);
            let ids = model::surviving(s.app.tasks, o.affected_task_ids);
            &&& s.app.status_line == Some(model::verb(kind) + ": "@ + o.description)
            &&& ids.len() > 0 && tree::shown(
                tree::visible_ids(s.app.tasks, s.app.statuses, a.filter, today),
                ids[0],
            ) ==> model::selected_task(s.app) is Some && model::selected_task(s.app)->Some_0.id
                == ids[0]
        }),
{
    let s = model::history(a, d, kind, today);
    let next = s.db;
    let (b, r) = model::with_statuses(a, next);
    let tasks = model::stored_tasks(next);
    let ids = model::surviving(tasks, o.affected_task_ids);
    let c = AppV { tasks, expanded: model::opened_for(tasks, ids, b.expanded), ..b };
    if ids.len() > 0 && tree::shown(
        tree::visible_ids(tasks, b.statuses, a.filter, today),
        ids[0],
    ) {
        lemma_surviving(tasks, o.affected_task_ids);
        let shown = model::revealed(c, ids[0], today);
        assert(shown.tasks == tasks);
        assert(s.app.tasks == tasks);
        assert(shown.rows == s.app.rows);
        revealing_puts_the_cursor_on_the_task(c, ids[0], today);
        assert(model::selected_task(s.app) == model::selected_task(shown));
    }
}

/// What survives exists.
proof fn lemma_surviving(ts: Seq<TaskV>, ids: Seq<i64>)
    ensures
        forall|k: int|
            0 <= k < model::surviving(ts, ids).len() ==> model::has_task(
                ts,
                #[trigger] model::surviving(ts, ids)[k],
            ),
    decreases ids.len(),
{
    if ids.len() > 0 {
        let front = model::surviving(ts, ids.drop_last());
        let all = model::surviving(ts, ids);
        lemma_surviving(ts, ids.drop_last());
        assert forall|k: int| 0 <= k < all.len() implies model::has_task(ts, #[trigger] all[k]) by {
            if k < front.len() {
                assert(all[k] == front[k]);
            }
        }
    }
}

/// Jumping to a search result puts the cursor on it and closes the search.
/// The jump works from the tasks as the tree has them.
pub proof fn jumping_leads_to_the_result(a: AppV, s: QueryStateV, today: Seq<char>)
    requires
        model::valid_tasks(a.tasks),
        model::rooted(a),
        s.selected < s.results.len(),
        model::has_task(a.tasks, s.results[s.selected as int].id),
        tree::shown(
            tree::visible_ids(a.tasks, a.statuses, a.filter, today),
            s.results[s.selected as int].id,
        ),
        model::query_command(a, s, CommandId::QueryJump, today).0.rows.len() <= usize::MAX,
    ensures
        ({
            let (b, next, open) = model::query_command(a, s, CommandId::QueryJump, today);
            &&& !open
            &&& model::selected_task(b) is Some
            &&& model::selected_task(b)->Some_0.id == s.results[s.selected as int].id
        }),
{
    revealing_puts_the_cursor_on_the_task(a, s.results[s.selected as int].id, today);
}

/// Zooming out puts the cursor back on the task that was zoomed into, with
/// its siblings around it. Only the filter can hide it.
pub proof fn zooming_out_returns_to_the_root(a: AppV, root: i64, today: Seq<char>)
    requires
        model::valid_tasks(a.tasks),
        model::rooted(a),
        a.zoom_root == Some(root),
        model::has_task(a.tasks, root),
        tree::shown(tree::visible_ids(a.tasks, a.statuses, a.filter, today), root),
        model::commanded(a, CommandId::ZoomOut, today).rows.len() <= usize::MAX,
    ensures
        ({
            let b = model::commanded(a, CommandId::ZoomOut, today);
            &&& b.zoom_root == a.tasks[tree::first_with(a.tasks, root)].parent_id
            &&& model::selected_task(b) is Some
            &&& model::selected_task(b)->Some_0.id == root
        }),
{
    let ts = a.tasks;
    lemma_has_task(ts, root);
    let i = tree::first_with(ts, root);
    let zoom_root = ts[i].parent_id;
    let c = model::rebuilt(AppV { zoom_root, ..a }, today);
    if zoom_root is Some {
        lemma_has_task(ts, zoom_root->Some_0);
    }
    let visible = tree::visible_ids(ts, a.statuses, a.filter, today);
    sight::a_top_level_task_has_a_row(ts, Look { expanded: a.expanded, visible }, zoom_root, i);
    selecting_puts_the_cursor_on_the_task(c, root, i);
}

/// Searching, filtering and reading the help change no data.
pub proof fn popups_change_no_data(a: AppV, d: DbV, key: Key, today: Seq<char>, now: Seq<char>)
    requires
        a.mode is Query || a.mode is Help || a.mode is FilterSelect,
    ensures
        model::pressed(a, d, key, today, now).db == d,
        model::pressed(a, d, key, today, now).result is Ok,
{
}

/// The delete prompt ends with the next key, and any key but `y` deletes
/// nothing.
pub proof fn only_y_confirms_a_deletion(
    a: AppV,
    d: DbV,
    key: Key,
    today: Seq<char>,
    now: Seq<char>,
)
    requires
        a.mode is ConfirmDelete,
        key != Key::Char('y'),
    ensures
        model::pressed(a, d, key, today, now) == model::done(
            AppV { mode: ModeV::Tree, status_line: None, ..a },
            d,
        ),
{
}

/// Leaving an input line, a menu or a popup with Esc changes no data.
pub proof fn escaping_changes_no_data(a: AppV, d: DbV, today: Seq<char>, now: Seq<char>)
    requires
        a.mode !is Tree,
        a.mode !is StatusManage,
    ensures
        model::pressed(a, d, Key::Esc, today, now).db == d,
        model::pressed(a, d, Key::Esc, today, now).result is Ok,
{
}

/// A key that stands for no status is ignored by the status menu, which
/// stays open.
pub proof fn the_status_menu_ignores_other_keys(
    a: AppV,
    d: DbV,
    key: Key,
    today: Seq<char>,
    now: Seq<char>,
)
    requires
        a.mode is StatusSelect,
        key != Key::Esc,
        key matches Key::Char(c) ==> query_view::with_key(a.statuses, c) >= a.statuses.len(),
    ensures
        model::pressed(a, d, key, today, now) == model::done(AppV { status_line: None, ..a }, d),
{
}

/// A filter chosen in the search applies to the tree as well.
pub proof fn the_filter_is_shared(
    a: AppV,
    d: DbV,
    s: QueryStateV,
    c: char,
    filter: Filter,
    today: Seq<char>,
)
    requires
        s.focus == query_view::Focus::FilterMenu,
        query_view::filter_choice(a.statuses, c) == Some(filter),
    ensures
        ({
            let (b, next, open) = model::query_key(a, d, s, Key::Char(c), today);
            &&& open
            &&& b == model::rebuilt(AppV { filter, ..a }, today)
            &&& next.results == plans::search(
                d.tables,
                query_view::request(s.editor.text, filter, s.sort),
                today,
            )
        }),
{
}

/// Undo and redo leave the filter as it is and collapse nothing.
pub proof fn undo_keeps_the_view(a: AppV, d: DbV, kind: History, today: Seq<char>)
    ensures
        model::history(a, d, kind, today).app.filter == a.filter,
        a.expanded.subset_of(model::history(a, d, kind, today).app.expanded),
{
    let (next, outcome) = model::replayed(d, kind);
    if let Some(o) = outcome {
        let tasks = model::stored_tasks(next);
        lemma_opened(tasks, model::surviving(tasks, o.affected_task_ids), a.expanded);
    }
}

proof fn lemma_opened(ts: Seq<TaskV>, ids: Seq<i64>, expanded: Set<i64>)
    ensures
        expanded.subset_of(model::opened_for(ts, ids, expanded)),
    decreases ids.len(),
{
    if ids.len() > 0 {
        lemma_opened(ts, ids.drop_last(), expanded);
    }
}

/// No two statuses share a key.
pub open spec fn keys_apart(m: Map<i64, StatusV>) -> bool {
    forall|a: i64, b: i64|
        #![trigger m.dom().contains(a), m.dom().contains(b)]
        m.dom().contains(a) && m.dom().contains(b) && m[a].key == m[b].key ==> a == b
}

proof fn lemma_free_key(statuses: Seq<StatusV>, n: u8)
    ensures
        status_manage::free_from(statuses, n) matches Some(c) ==> !status_manage::key_used(
            statuses,
            c,
        ),
    decreases 123 - n,
{
    if n <= 122 && status_manage::key_used(statuses, n as char) {
        lemma_free_key(statuses, (n + 1) as u8);
    }
}

/// Adding a status in the modal, or capturing a key for one, never makes two
/// statuses share a key.
pub proof fn the_modal_keeps_status_keys_apart(
    a: AppV,
    d: DbV,
    s: ManageV,
    label: Seq<char>,
    c: char,
)
    requires
        model::synced(a, d),
        s.row < a.statuses.len(),
        keys_apart(d.tables.statuses),
    ensures
        keys_apart(model::status_added(a, d, s, label).db.tables.statuses),
        keys_apart(model::key_captured(a, d, s, c).db.tables.statuses),
{
    let m = d.tables.statuses;
    let id = a.statuses[s.row as int].id;
    assert(m.contains_pair(a.statuses[s.row as int].id, a.statuses[s.row as int]));
    let w = model::key_captured(a, d, s, c).db.tables.statuses;
    if !status_manage::taken(a.statuses, c, id) {
        let row = StatusV { key: c, ..m[id] };
        tables::lemma_run_one(d.tables, plans::edit_status(d.tables, row));
        assert(w == m.insert(row.id, row));
        assert forall|x: i64, y: i64|
            #![trigger w.dom().contains(x), w.dom().contains(y)]
            w.dom().contains(x) && w.dom().contains(y) && w[x].key == w[y].key implies x == y by {
            assert(x != id ==> m.dom().contains(x));
            assert(y != id ==> m.dom().contains(y));
            if x != id && y == id {
                let i = choose|i: int|
                    0 <= i < a.statuses.len() && (#[trigger] a.statuses[i]).id == x;
                assert(m.contains_pair(a.statuses[i].id, a.statuses[i]));
            }
            if y != id && x == id {
                let i = choose|i: int|
                    0 <= i < a.statuses.len() && (#[trigger] a.statuses[i]).id == y;
                assert(m.contains_pair(a.statuses[i].id, a.statuses[i]));
            }
        }
    }
    let u = model::status_added(a, d, s, label).db.tables.statuses;
    if let Some(key) = status_manage::unused_key(a.statuses) {
        lemma_free_key(a.statuses, 97);
        let plan = plans::create_status(d.tables, label, StatusKind::Open, "gray"@, key);
        if plan is Ok {
            let row = plan->Ok_0.1;
            tables::lemma_run_one(
                d.tables,
                ChangeV::Status { id: row.id, before: None, after: Some(row) },
            );
            assert(u == m.insert(row.id, row));
            assert forall|x: i64, y: i64|
                #![trigger u.dom().contains(x), u.dom().contains(y)]
                u.dom().contains(x) && u.dom().contains(y) && u[x].key == u[y].key implies x
                == y by {
                assert(x != row.id ==> m.dom().contains(x));
                assert(y != row.id ==> m.dom().contains(y));
                if x != row.id && y == row.id {
                    let i = choose|i: int|
                        0 <= i < a.statuses.len() && (#[trigger] a.statuses[i]).id == x;
                    assert(m.contains_pair(a.statuses[i].id, a.statuses[i]));
                }
                if y != row.id && x == row.id {
                    let i = choose|i: int|
                        0 <= i < a.statuses.len() && (#[trigger] a.statuses[i]).id == y;
                    assert(m.contains_pair(a.statuses[i].id, a.statuses[i]));
                }
            }
        }
    }
}

/// A changed note is stored whole in one undo step, and undoing it leads
/// back to the tables before the edit; an unchanged or abandoned one leaves
/// no trace.
pub proof fn a_note_edit_is_one_undo_step(
    a: AppV,
    d: DbV,
    task_id: i64,
    outcome: EditOutcomeV,
    today: Seq<char>,
    now: Seq<char>,
)
    requires
        tables::keyed(d.tables),
        model::note_edited(a, d, task_id, outcome, today, now).result is Ok,
    ensures
        ({
            let e = model::note_edited(a, d, task_id, outcome, today, now).db;
            match outcome {
                EditOutcomeV::Changed(text) => {
                    &&& e.tables.tasks[task_id].note == text
                    &&& e.undo.drop_last() == d.undo
                    &&& tables::undone(e).tables == d.tables
                },
                _ => e == d,
            }
        }),
{
    if let EditOutcomeV::Changed(text) = outcome {
        let row = TaskV { note: text, updated_at: now, ..d.tables.tasks[task_id] };
        let change = plans::edit(d.tables, row);
        let e = model::note_edited(a, d, task_id, outcome, today, now).db;
        tables::lemma_run_one(d.tables, change);
        tables::undo_restores_tables(d, e.undo.last().description, seq![change]);
        assert(e.undo.drop_last() =~= d.undo);
    }
}

/// The changes touch no task.
pub open spec fn status_only(changes: Seq<ChangeV>) -> bool {
    forall|i: int| 0 <= i < changes.len() ==> (#[trigger] changes[i]) is Status
}

/// What can be undone and redone in the open scope touches no task.
pub open spec fn scope_of_statuses(d: DbV) -> bool {
    &&& d.scope matches Some(s) && s.boundary <= d.undo.len() && forall|k: int|
        s.boundary <= k < d.undo.len() ==> status_only((#[trigger] d.undo[k]).changes)
    &&& forall|k: int| 0 <= k < d.redo.len() ==> status_only((#[trigger] d.redo[k]).changes)
}

proof fn lemma_run_status_only(t: Tables, changes: Seq<ChangeV>)
    requires
        status_only(changes),
    ensures
        tables::run(t, changes).tasks == t.tasks,
    decreases changes.len(),
{
    if changes.len() > 0 {
        let front = changes.drop_last();
        assert forall|i: int| 0 <= i < front.len() implies (#[trigger] front[i]) is Status by {
            assert(front[i] == changes[i]);
        }
        assert(changes[changes.len() - 1] is Status);
        lemma_run_status_only(t, front);
    }
}

proof fn lemma_status_action<T>(
    d: DbV,
    description: Seq<char>,
    plan: Result<(Seq<ChangeV>, T), ErrorV>,
)
    requires
        scope_of_statuses(d),
        plan is Ok ==> status_only(plan->Ok_0.0),
    ensures
        scope_of_statuses(plans::acted(d, description, plan).0),
        plans::acted(d, description, plan).0.tables.tasks == d.tables.tasks,
{
    if plan is Ok {
        lemma_run_status_only(d.tables, plan->Ok_0.0);
    }
}

proof fn lemma_status_replay(d: DbV, kind: History)
    requires
        scope_of_statuses(d),
    ensures
        scope_of_statuses(model::replayed(d, kind).0),
        model::replayed(d, kind).0.tables.tasks == d.tables.tasks,
{
    match kind {
        History::Undo => {
            if tables::can_undo(d) {
                let changes = tables::replay(d.undo);
                let top = d.undo[d.undo.len() - 1].changes;
                assert(status_only(top));
                assert forall|i: int| 0 <= i < changes.len() implies (
                #[trigger] changes[i]) is Status by {
                    assert(top[top.len() - 1 - i] is Status);
                }
                lemma_run_status_only(d.tables, changes);
            }
        },
        History::Redo => {
            if d.redo.len() > 0 {
                let changes = tables::replay(d.redo);
                let top = d.redo[d.redo.len() - 1].changes;
                assert(status_only(top));
                assert forall|i: int| 0 <= i < changes.len() implies (
                #[trigger] changes[i]) is Status by {
                    assert(top[top.len() - 1 - i] is Status);
                }
                lemma_run_status_only(d.tables, changes);
            }
        },
    }
}

/// A store where the scope stays one of statuses, or is closed, and no task
/// changed.
spec fn spares_tasks(d: DbV, e: DbV) -> bool {
    e.tables.tasks == d.tables.tasks && (e.scope is Some ==> scope_of_statuses(e))
}

proof fn lemma_manage_command(a: AppV, d: DbV, s: ManageV, command: CommandId)
    requires
        scope_of_statuses(d),
    ensures
        spares_tasks(d, model::manage_command(a, d, s, command).db),
{
    let t = d.tables;
    let status = a.statuses[s.row as int];
    let label = t.statuses[status.id].label;
    match command {
        CommandId::ManageUndo => lemma_status_replay(d, History::Undo),
        CommandId::ManageRedo => lemma_status_replay(d, History::Redo),
        CommandId::ManageDelete => lemma_status_action(
            d,
            "delete status \""@ + label + "\""@,
            plans::delete_status(t, status.id),
        ),
        CommandId::ManageMoveDown => lemma_status_action(
            d,
            "move status \""@ + label + "\""@,
            plans::move_status(t, status.id, StatusMove::Down),
        ),
        CommandId::ManageMoveUp => lemma_status_action(
            d,
            "move status \""@ + label + "\""@,
            plans::move_status(t, status.id, StatusMove::Up),
        ),
        CommandId::ManageSetDefault => lemma_status_action(
            d,
            "set default status \""@ + label + "\""@,
            plans::set_default(t, status.id),
        ),
        CommandId::ManageEdit => lemma_status_action(
            d,
            "update status \""@ + label + "\""@,
            plans::edited_status(
                t,
                status.id,
                StatusV { kind: status_manage::next_kind(status.kind), ..t.statuses[status.id] },
            ),
        ),
        _ => {},
    }
}

/// Whatever is typed in the status modal, no task changes, and what its own
/// undo can reach stays of that kind.
pub proof fn the_status_modal_spares_the_tasks(a: AppV, d: DbV, s: ManageV, key: Key)
    requires
        scope_of_statuses(d),
    ensures
        model::manage_key(a, d, s, key).db.tables.tasks == d.tables.tasks,
        model::manage_key(a, d, s, key).db.scope is Some ==> scope_of_statuses(
            model::manage_key(a, d, s, key).db,
        ),
{
    let t = d.tables;
    let idle = ManageV { editing: EditingV::Nothing, ..s };
    let status = a.statuses[s.row as int];
    let label = t.statuses[status.id].label;
    match s.editing {
        EditingV::Nothing => {
            let (pending, command) = keymap::dispatched(
                a.pending,
                a.bindings,
                Context::StatusManage,
                key,
            );
            if let Some(command) = command {
                lemma_manage_command(AppV { pending, ..a }, d, idle, command);
            }
        },
        EditingV::Cell(editor) => {
            if let EditResultV::Submitted(typed) = input::edited(editor, key) {
                let value = text::trimmed(typed);
                lemma_status_action(
                    d,
                    "rename status \""@ + label + "\" → \""@ + value + "\""@,
                    plans::edited_status(
                        t,
                        status.id,
                        StatusV { label: value, ..t.statuses[status.id] },
                    ),
                );
                lemma_status_action(
                    d,
                    "update status \""@ + label + "\""@,
                    plans::edited_status(
                        t,
                        status.id,
                        StatusV { color: value, ..t.statuses[status.id] },
                    ),
                );
            }
        },
        EditingV::NewStatus(editor) => {
            if let EditResultV::Submitted(typed) = input::edited(editor, key) {
                let value = text::trimmed(typed);
                if let Some(c) = status_manage::unused_key(a.statuses) {
                    lemma_status_action(
                        d,
                        "create status \""@ + value + "\""@,
                        plans::create_status(t, value, StatusKind::Open, "gray"@, c),
                    );
                }
            }
        },
        EditingV::KeyCapture => {
            if let Key::Char(c) = key {
                lemma_status_action(
                    d,
                    "update status \""@ + label + "\""@,
                    plans::edited_status(t, status.id, StatusV { key: c, ..t.statuses[status.id] }),
                );
            }
        },
    }
}

/// The modal opens with such a scope.
pub proof fn the_status_modal_opens_a_scope_of_statuses(a: AppV, d: DbV)
    requires
        model::manage_opened(a, d).app.mode is StatusManage,
        a.mode is Tree,
    ensures
        scope_of_statuses(model::manage_opened(a, d).db),
        model::manage_opened(a, d).db.tables == d.tables,
{
}

/// The two sessions agree on all that the rows are made from, and on them.
spec fn same_view(a: AppV, b: AppV) -> bool {
    &&& a.tasks == b.tasks
    &&& a.statuses == b.statuses
    &&& a.filter == b.filter
    &&& a.expanded == b.expanded
    &&& a.zoom_root == b.zoom_root
    &&& a.rows == b.rows
}

proof fn lemma_same_view(a: AppV, b: AppV, today: Seq<char>)
    requires
        model::current(a, today),
        same_view(a, b),
    ensures
        model::current(b, today),
{
}

/// Rebuilt rows are current, wherever the cursor goes from there.
proof fn lemma_rebuilt(a: AppV, today: Seq<char>)
    ensures
        model::current(model::rebuilt(a, today), today),
        forall|id: i64|
            model::current(#[trigger] model::selecting(model::rebuilt(a, today), id), today),
{
    let b = model::rebuilt(a, today);
    assert(model::kept_zoom(b) == model::kept_zoom(a));
    assert(model::current(b, today));
    assert forall|id: i64| model::current(#[trigger] model::selecting(b, id), today) by {
        lemma_same_view(b, model::selecting(b, id), today);
    }
}

proof fn lemma_revealed(a: AppV, id: i64, today: Seq<char>)
    ensures
        model::current(model::revealed(a, id, today), today),
{
    let ancestors = tree::ancestors(a.tasks, id);
    let zoom_root = match a.zoom_root {
        Some(zoom) => if ancestors.contains(zoom) {
            Some(zoom)
        } else {
            None
        },
        None => None,
    };
    lemma_rebuilt(
        AppV { expanded: a.expanded.union(ancestors.to_set()), zoom_root, ..a },
        today,
    );
}

proof fn lemma_after_edit(
    a: AppV,
    edit: (DbV, Result<(), ErrorV>),
    id: i64,
    parent: Option<i64>,
    today: Seq<char>,
)
    ensures
        model::after_edit(a, edit, id, parent, today).result is Ok ==> model::current(
            model::after_edit(a, edit, id, parent, today).app,
            today,
        ),
{
    let b = match parent {
        Some(p) => AppV { expanded: a.expanded.insert(p), ..a },
        None => a,
    };
    lemma_rebuilt(AppV { tasks: model::stored_tasks(edit.0), ..b }, today);
}

proof fn lemma_deleted(a: AppV, d: DbV, id: i64, today: Seq<char>)
    ensures
        model::deleted(a, d, id, today).result is Ok ==> model::current(
            model::deleted(a, d, id, today).app,
            today,
        ),
{
    let next = ops::delete_subtree(d, id).0;
    lemma_rebuilt(AppV { tasks: model::stored_tasks(next), ..a }, today);
}

proof fn lemma_history(a: AppV, d: DbV, kind: History, today: Seq<char>)
    requires
        model::current(a, today),
    ensures
        model::history(a, d, kind, today).result is Ok ==> model::current(
            model::history(a, d, kind, today).app,
            today,
        ),
{
    let s = model::history(a, d, kind, today);
    let (next, outcome) = model::replayed(d, kind);
    match outcome {
        None => {
            lemma_same_view(a, s.app, today);
        },
        Some(o) => {
            let (b, r) = model::with_statuses(a, next);
            let tasks = model::stored_tasks(next);
            let ids = model::surviving(tasks, o.affected_task_ids);
            let c = AppV { tasks, expanded: model::opened_for(tasks, ids, b.expanded), ..b };
            lemma_rebuilt(c, today);
            if ids.len() > 0 {
                lemma_revealed(c, ids[0], today);
                lemma_same_view(
                    model::revealed(c, ids[0], today),
                    model::shown_replay(b, next, kind, o, today),
                    today,
                );
            } else {
                lemma_same_view(
                    model::rebuilt(c, today),
                    model::shown_replay(b, next, kind, o, today),
                    today,
                );
            }
        },
    }
}

proof fn lemma_commanded(a: AppV, command: CommandId, today: Seq<char>)
    requires
        model::current(a, today),
    ensures
        model::current(model::commanded(a, command, today), today),
{
    let b = model::commanded(a, command, today);
    match command {
        CommandId::SelectFirstChild => {
            if let Some(t) = model::selected_task(a) {
                lemma_rebuilt(AppV { expanded: a.expanded.insert(t.id), ..a }, today);
            }
        },
        CommandId::ToggleExpand => {
            if let Some(t) = model::selected_task(a) {
                lemma_rebuilt(AppV { expanded: a.expanded.insert(t.id), ..a }, today);
                lemma_rebuilt(AppV { expanded: a.expanded.remove(t.id), ..a }, today);
            }
        },
        CommandId::ZoomIn => {
            if let Some(t) = model::selected_task(a) {
                lemma_rebuilt(AppV { zoom_root: Some(t.id), ..a }, today);
            }
        },
        CommandId::ZoomOut => {
            if let Some(root) = a.zoom_root {
                let k = tree::first_with(a.tasks, root);
                let zoom_root = if k < a.tasks.len() {
                    a.tasks[k].parent_id
                } else {
                    None
                };
                lemma_rebuilt(AppV { zoom_root, ..a }, today);
            }
        },
        _ => {
            assert(same_view(a, b));
        },
    }
}

proof fn lemma_tree_command(
    a: AppV,
    d: DbV,
    command: CommandId,
    today: Seq<char>,
    now: Seq<char>,
)
    requires
        model::current(a, today),
    ensures
        model::tree_command(a, d, command, today, now).result is Ok ==> model::current(
            model::tree_command(a, d, command, today, now).app,
            today,
        ),
{
    let selected = model::selected_task(a);
    match command {
        CommandId::StatusNext | CommandId::StatusPrev => {
            if let Some(t) = selected {
                let direction = if command == CommandId::StatusNext {
                    Direction::Next
                } else {
                    Direction::Prev
                };
                if let Some(id) = status_cycle::adjacent(a.statuses, t.status_id, direction) {
                    lemma_after_edit(a, ops::set_status(d, t.id, id, now), t.id, None, today);
                }
            }
        },
        CommandId::TaskMoveUp => {
            if let Some(t) = selected {
                lemma_after_edit(a, ops::move_task(d, t.id, TaskMove::Up), t.id, None, today);
            }
        },
        CommandId::TaskMoveDown => {
            if let Some(t) = selected {
                lemma_after_edit(a, ops::move_task(d, t.id, TaskMove::Down), t.id, None, today);
            }
        },
        CommandId::TaskIndent => {
            if let Some(t) = selected {
                if let Some(p) = tree::indent_parent(a.tasks, t.id) {
                    lemma_after_edit(
                        a,
                        ops::reparent(d, t.id, Some(p), None, now),
                        t.id,
                        Some(p),
                        today,
                    );
                }
            }
        },
        CommandId::TaskOutdent => {
            if let Some(t) = selected {
                if let Some(place) = tree::outdent_place(a.tasks, t.id, a.zoom_root) {
                    lemma_after_edit(
                        a,
                        ops::reparent(d, t.id, place.new_parent, place.after, now),
                        t.id,
                        None,
                        today,
                    );
                }
            }
        },
        CommandId::TaskDelete => {
            if let Some(t) = selected {
                lemma_deleted(a, d, t.id, today);
                let s = model::deleted(a, d, t.id, today);
                let message = "deleted \""@ + t.title + "\" (u to undo)"@;
                if s.result is Ok {
                    lemma_same_view(s.app, model::says(s.app, message), today);
                }
            }
        },
        CommandId::Undo => {
            lemma_history(a, d, History::Undo, today);
        },
        CommandId::Redo => {
            lemma_history(a, d, History::Redo, today);
        },
        CommandId::StatusManage | CommandId::ViewSearch => {},
        _ => {
            lemma_commanded(a, command, today);
        },
    }
}

proof fn lemma_submitted(
    a: AppV,
    d: DbV,
    action: InputAction,
    text: Seq<char>,
    today: Seq<char>,
    now: Seq<char>,
)
    requires
        model::current(a, today),
    ensures
        model::submitted(a, d, action, text, today, now).result is Ok ==> model::current(
            model::submitted(a, d, action, text, today, now).app,
            today,
        ),
{
    let trimmed = text::trimmed(text);
    match action {
        InputAction::Create(target) => {
            let (next, r) = ops::create_task(
                d,
                target.parent_id,
                trimmed,
                target.after,
                a.default_status_id,
                now,
            );
            if let Ok(task) = r {
                lemma_after_edit(a, (next, Ok(())), task.id, target.parent_id, today);
            }
        },
        InputAction::Rename(id) => {
            lemma_after_edit(a, ops::rename_task(d, id, trimmed, now), id, None, today);
        },
        InputAction::SetDue(id) => {
            let due = if trimmed.len() == 0 {
                None
            } else {
                Some(trimmed)
            };
            lemma_after_edit(a, ops::set_due(d, id, due, now), id, None, today);
        },
    }
}

proof fn lemma_query_pressed(a: AppV, d: DbV, s: QueryStateV, key: Key, today: Seq<char>)
    requires
        model::current(a, today),
    ensures
        model::current(model::query_pressed(a, d, s, key, today), today),
{
    match s.focus {
        query_view::Focus::Browse => {
            let (pending, command) = keymap::dispatched(a.pending, a.bindings, Context::Query, key);
            let b = AppV { pending, ..a };
            if s.selected < s.results.len() {
                lemma_revealed(b, s.results[s.selected as int].id, today);
            }
        },
        query_view::Focus::FilterMenu => {
            if let Key::Char(c) = key {
                if let Some(filter) = query_view::filter_choice(a.statuses, c) {
                    lemma_rebuilt(AppV { filter, ..a }, today);
                }
            }
        },
        _ => {},
    }
}

/// While the day lasts, the rows stay those that rebuilding them would give,
/// whatever is pressed outside the status modal. The modal may change the
/// statuses under a filter and leaves the rows as they are.
pub proof fn the_rows_stay_current(a: AppV, d: DbV, key: Key, today: Seq<char>, now: Seq<char>)
    requires
        model::current(a, today),
        a.mode !is StatusManage,
        model::pressed(a, d, key, today, now).result is Ok,
    ensures
        model::current(model::pressed(a, d, key, today, now).app, today),
{
    let b = AppV { status_line: None, mode: ModeV::Tree, ..a };
    lemma_same_view(a, b, today);
    match a.mode {
        ModeV::Tree => {
            let (pending, command) = keymap::dispatched(b.pending, b.bindings, Context::Tree, key);
            let c = AppV { pending, ..b };
            lemma_same_view(b, c, today);
            if let Some(command) = command {
                lemma_tree_command(c, d, command, today, now);
            }
        },
        ModeV::Input { editor, action } => {
            if let EditResultV::Submitted(text) = input::edited(editor, key) {
                lemma_submitted(b, d, action, text, today, now);
            }
        },
        ModeV::StatusManage(_) => {},
        ModeV::ConfirmDelete { task_id, count } => {
            lemma_deleted(b, d, task_id, today);
        },
        ModeV::FilterSelect => {
            if let Key::Char(c) = key {
                if let Some(filter) = query_view::filter_choice(b.statuses, c) {
                    lemma_rebuilt(AppV { filter, ..b }, today);
                }
            }
        },
        ModeV::Query(state) => {
            lemma_query_pressed(b, d, state, key, today);
        },
        ModeV::Help(state) => {
            assert(same_view(b, model::help_pressed(b, state, key)));
        },
        ModeV::StatusSelect { task_id } => {
            if let Key::Char(c) = key {
                let k = query_view::with_key(b.statuses, c);
                if k < b.statuses.len() {
                    let edit = ops::set_status(d, task_id, b.statuses[k].id, now);
                    lemma_after_edit(b, edit, task_id, None, today);
                }
            }
        },
    }
}

/// The session starts with current rows.
pub proof fn the_session_starts_current(
    tasks: Seq<TaskV>,
    statuses: Seq<StatusV>,
    default_status_id: i64,
    today: Seq<char>,
)
    ensures
        model::current(model::started(tasks, statuses, default_status_id, today), today),
{
}

/// The end of an editor session leaves the rows current.
pub proof fn a_note_edit_leaves_the_rows_current(
    a: AppV,
    d: DbV,
    task_id: i64,
    outcome: EditOutcomeV,
    today: Seq<char>,
    now: Seq<char>,
)
    requires
        model::current(a, today),
        model::note_edited(a, d, task_id, outcome, today, now).result is Ok,
    ensures
        model::current(model::note_edited(a, d, task_id, outcome, today, now).app, today),
{
    if let EditOutcomeV::Changed(text) = outcome {
        lemma_after_edit(a, ops::set_note(d, task_id, text, now), task_id, None, today);
    }
}

/// A step that worked shows the stored tasks.
spec fn shows_stored(s: Step) -> bool {
    s.result is Ok ==> s.app.tasks == model::stored_tasks(s.db)
}

proof fn lemma_commanded_tasks(a: AppV, command: CommandId, today: Seq<char>)
    ensures
        model::commanded(a, command, today).tasks == a.tasks,
{
}

proof fn lemma_deleted_tasks(a: AppV, d: DbV, id: i64, today: Seq<char>)
    ensures
        shows_stored(model::deleted(a, d, id, today)),
{
}

proof fn lemma_history_tasks(a: AppV, d: DbV, kind: History, today: Seq<char>)
    requires
        a.tasks == model::stored_tasks(d),
    ensures
        shows_stored(model::history(a, d, kind, today)),
{
}

proof fn lemma_after_edit_tasks(
    a: AppV,
    edit: (DbV, Result<(), ErrorV>),
    id: i64,
    parent: Option<i64>,
    today: Seq<char>,
)
    ensures
        shows_stored(model::after_edit(a, edit, id, parent, today)),
{
}

proof fn lemma_tree_command_tasks(
    a: AppV,
    d: DbV,
    command: CommandId,
    today: Seq<char>,
    now: Seq<char>,
)
    requires
        a.tasks == model::stored_tasks(d),
    ensures
        shows_stored(model::tree_command(a, d, command, today, now)),
{
    match command {
        CommandId::TaskDelete => {
            if let Some(t) = model::selected_task(a) {
                lemma_deleted_tasks(a, d, t.id, today);
            }
        },
        CommandId::Undo => {
            lemma_history_tasks(a, d, History::Undo, today);
        },
        CommandId::Redo => {
            lemma_history_tasks(a, d, History::Redo, today);
        },
        CommandId::StatusNext
        | CommandId::StatusPrev
        | CommandId::TaskMoveUp
        | CommandId::TaskMoveDown
        | CommandId::TaskIndent
        | CommandId::TaskOutdent
        | CommandId::StatusManage
        | CommandId::ViewSearch => {},
        _ => {
            lemma_commanded_tasks(a, command, today);
        },
    }
}

proof fn lemma_submitted_tasks(
    a: AppV,
    d: DbV,
    action: InputAction,
    text: Seq<char>,
    today: Seq<char>,
    now: Seq<char>,
)
    requires
        a.tasks == model::stored_tasks(d),
    ensures
        shows_stored(model::submitted(a, d, action, text, today, now)),
{
    if let InputAction::SetDue(id) = action {
        let trimmed = text::trimmed(text);
        let due = if trimmed.len() == 0 {
            None
        } else {
            Some(trimmed)
        };
        lemma_after_edit_tasks(a, ops::set_due(d, id, due, now), id, None, today);
    }
}

proof fn lemma_query_pressed_tasks(a: AppV, d: DbV, s: QueryStateV, key: Key, today: Seq<char>)
    ensures
        model::query_pressed(a, d, s, key, today).tasks == a.tasks,
{
}

/// The tasks in the tree stay the stored ones, whatever is pressed outside
/// the status modal.
pub proof fn the_tasks_stay_the_stored_ones(
    a: AppV,
    d: DbV,
    key: Key,
    today: Seq<char>,
    now: Seq<char>,
)
    requires
        a.tasks == model::stored_tasks(d),
        a.mode !is StatusManage,
        model::pressed(a, d, key, today, now).result is Ok,
    ensures
        ({
            let s = model::pressed(a, d, key, today, now);
            s.app.tasks == model::stored_tasks(s.db)
        }),
{
    let b = AppV { status_line: None, mode: ModeV::Tree, ..a };
    match a.mode {
        ModeV::Tree => {
            let (pending, command) = keymap::dispatched(b.pending, b.bindings, Context::Tree, key);
            let c = AppV { pending, ..b };
            if let Some(command) = command {
                lemma_tree_command_tasks(c, d, command, today, now);
            }
        },
        ModeV::Input { editor, action } => {
            if let EditResultV::Submitted(text) = input::edited(editor, key) {
                lemma_submitted_tasks(b, d, action, text, today, now);
            }
        },
        ModeV::StatusManage(_) => {},
        ModeV::ConfirmDelete { task_id, count } => {
            lemma_deleted_tasks(b, d, task_id, today);
        },
        ModeV::Query(state) => {
            lemma_query_pressed_tasks(b, d, state, key, today);
        },
        ModeV::FilterSelect | ModeV::Help(_) | ModeV::StatusSelect { .. } => {},
    }
}

} // verus!

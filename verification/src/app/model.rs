//! What the interactive session does, as functions on its state.
use vstd::prelude::*;

use crate::app::{History, InputAction};
use crate::color;
use crate::command;
use crate::command::{CommandId, Context};
use crate::config::ConfigV;
use crate::db;
use crate::error::ErrorV;
use crate::external_editor::EditOutcomeV;
use crate::forest;
use crate::help;
use crate::help::HelpStateV;
use crate::input;
use crate::input::{EditResultV, EditorV};
use crate::key::Key;
use crate::keymap;
use crate::keymap::BindingV;
use crate::ops;
use crate::order;
use crate::order::Order;
use crate::plans;
use crate::query::Filter;
use crate::query_view;
use crate::query_view::QueryStateV;
use crate::status::{StatusKind, StatusMove, StatusV};
use crate::status_cycle;
use crate::status_cycle::Direction;
use crate::status_manage;
use crate::status_manage::{Column, EditingV, ManageV};
use crate::style::Color;
use crate::tables;
use crate::tables::{DbV, OutcomeV};
use crate::task::{TaskMove, TaskV};
use crate::text;
use crate::tree;
use crate::tree::{Look, RowV};

verus! {

/// A mode as plain values.
#[verifier::ext_equal]
pub enum ModeV {
    Tree,
    Input { editor: EditorV, action: InputAction },
    StatusSelect { task_id: i64 },
    StatusManage(ManageV),
    ConfirmDelete { task_id: i64, count: i64 },
    FilterSelect,
    Query(QueryStateV),
    Help(HelpStateV),
}

/// The session's state as plain values.
#[verifier::ext_equal]
pub struct AppV {
    pub statuses: Seq<StatusV>,
    pub default_status_id: i64,
    pub tasks: Seq<TaskV>,
    pub expanded: Set<i64>,
    pub rows: Seq<RowV>,
    pub selected: usize,
    pub zoom_root: Option<i64>,
    pub filter: Filter,
    pub mode: ModeV,
    pub status_line: Option<Seq<char>>,
    pub pending_note_edit: Option<i64>,
    pub bindings: Seq<BindingV>,
    pub pending: Seq<Key>,
    pub show_footer: bool,
    pub should_quit: bool,
    pub list_height: usize,
    pub popup_height: usize,
}

/// A cursor inside the text.
pub open spec fn valid_editor(e: EditorV) -> bool {
    e.at <= e.text.len()
}

pub open spec fn valid_editing(e: EditingV) -> bool {
    match e {
        EditingV::Cell(editor) => valid_editor(editor),
        EditingV::NewStatus(editor) => valid_editor(editor),
        _ => true,
    }
}

/// The status modal's cursor is on one of the statuses.
pub open spec fn valid_manage(s: ManageV, statuses: nat) -> bool {
    valid_editing(s.editing) && s.row < statuses
}

pub open spec fn valid_mode(mode: ModeV, statuses: nat) -> bool {
    match mode {
        ModeV::Input { editor, action } => valid_editor(editor),
        ModeV::StatusManage(state) => valid_manage(state, statuses),
        ModeV::Query(state) => valid_editor(state.editor),
        ModeV::Help(state) => valid_editor(state.editor),
        _ => true,
    }
}

/// The tasks form a forest.
pub open spec fn valid_tasks(ts: Seq<TaskV>) -> bool {
    order::unique_ids(ts) && forest::acyclic(ts)
}

/// Every parent is among the tasks.
pub open spec fn rooted(a: AppV) -> bool {
    forest::parents_listed(a.tasks)
}

/// Every row shows a task.
pub open spec fn valid_rows(rows: Seq<RowV>, tasks: nat) -> bool {
    forall|k: int| 0 <= k < rows.len() ==> 0 <= (#[trigger] rows[k]).task_index < tasks
}

/// What holds of the session between key presses.
pub open spec fn valid(a: AppV) -> bool {
    &&& valid_tasks(a.tasks)
    &&& valid_rows(a.rows, a.tasks.len())
    &&& valid_mode(a.mode, a.statuses.len())
}

/// The session shows the stored statuses.
pub open spec fn synced(a: AppV, d: DbV) -> bool {
    db::lists_statuses(d.tables.statuses, a.statuses)
}

/// Where a key leads: the session, the store, and whether the store refused.
#[verifier::ext_equal]
pub struct Step {
    pub app: AppV,
    pub db: DbV,
    pub result: Result<(), ErrorV>,
}

pub open spec fn done(app: AppV, db: DbV) -> Step {
    Step { app, db, result: Ok(()) }
}

pub open spec fn failed(app: AppV, db: DbV, e: ErrorV) -> Step {
    Step { app, db, result: Err(e) }
}

/// Where a key inside the status modal leads: besides the rest the modal's
/// own state, and whether it stays open.
#[verifier::ext_equal]
pub struct ManageStep {
    pub app: AppV,
    pub db: DbV,
    pub state: ManageV,
    pub result: Result<bool, ErrorV>,
}

pub open spec fn says(a: AppV, message: Seq<char>) -> AppV {
    AppV { status_line: Some(message), ..a }
}

/// The last index of a list, 0 for an empty one.
pub open spec fn last_of(len: nat) -> usize {
    if len == 0 {
        0
    } else {
        (len - 1) as usize
    }
}

pub open spec fn within(i: usize, len: nat) -> usize {
    if i <= last_of(len) {
        i
    } else {
        last_of(len)
    }
}

/// One further down, unless the list ends.
pub open spec fn next_of(i: usize, len: nat) -> usize {
    if i + 1 < len {
        (i + 1) as usize
    } else {
        i
    }
}

/// Several further down, but no further than the end of the list.
pub open spec fn down_by(i: usize, step: usize, len: nat) -> usize {
    if i + step <= last_of(len) {
        (i + step) as usize
    } else {
        last_of(len)
    }
}

/// Several further up, but no further than the start.
pub open spec fn up_by(i: usize, step: usize) -> usize {
    if step <= i {
        (i - step) as usize
    } else {
        0
    }
}

/// Rows one half-page jump covers: half the visible list, at least one row.
pub open spec fn half_page(visible_height: usize) -> usize {
    if visible_height / 2 >= 1 {
        visible_height / 2
    } else {
        1
    }
}

/// The cursor is on a row, or at the start where there is none.
pub open spec fn on_a_row(a: AppV) -> bool {
    a.selected <= last_of(a.rows.len())
}

/// The context whose keys are active.
pub open spec fn context_of(mode: ModeV) -> Context {
    match mode {
        ModeV::Tree => Context::Tree,
        ModeV::Input { editor, action } => Context::Input,
        ModeV::StatusSelect { task_id } => Context::StatusSelect,
        ModeV::StatusManage(state) => match state.editing {
            EditingV::Cell(_) => Context::Input,
            EditingV::NewStatus(_) => Context::Input,
            _ => Context::StatusManage,
        },
        ModeV::ConfirmDelete { task_id, count } => Context::ConfirmDelete,
        ModeV::FilterSelect => Context::FilterSelect,
        ModeV::Query(state) => match state.focus {
            query_view::Focus::Edit => Context::Input,
            query_view::Focus::Browse => Context::Query,
            query_view::Focus::SortMenu => Context::SortSelect,
            query_view::Focus::FilterMenu => Context::FilterSelect,
        },
        ModeV::Help(state) => match state.focus {
            help::Focus::Edit => Context::Input,
            help::Focus::Browse => Context::Help,
        },
    }
}

/// Whether some task has this id.
pub open spec fn has_task(ts: Seq<TaskV>, id: i64) -> bool {
    tree::first_with(ts, id) < ts.len()
}

/// The zoom, dropped where its root has vanished from the tasks.
pub open spec fn kept_zoom(a: AppV) -> Option<i64> {
    match a.zoom_root {
        Some(id) => if has_task(a.tasks, id) {
            Some(id)
        } else {
            None
        },
        None => None,
    }
}

/// The rows rebuilt from the tasks, with the cursor kept inside them.
pub open spec fn rebuilt(a: AppV, today: Seq<char>) -> AppV {
    let zoom_root = kept_zoom(a);
    let visible = tree::visible_ids(a.tasks, a.statuses, a.filter, today);
    let rows = tree::visible_rows(a.tasks, Look { expanded: a.expanded, visible }, zoom_root);
    AppV { zoom_root, rows, selected: within(a.selected, rows.len()), ..a }
}

/// The rows are those that rebuilding them on that day would give.
pub open spec fn current(a: AppV, today: Seq<char>) -> bool {
    a.rows == rebuilt(a, today).rows && a.zoom_root == kept_zoom(a)
}

/// The stored tasks in tree-view order.
pub open spec fn stored_tasks(d: DbV) -> Seq<TaskV> {
    order::listing(tables::rows(d.tables.tasks), Order::Group)
}

/// The tasks read anew.
pub open spec fn reloaded(a: AppV, d: DbV, today: Seq<char>) -> AppV {
    rebuilt(AppV { tasks: stored_tasks(d), ..a }, today)
}

/// The first row from `k` on that shows the task.
pub open spec fn row_from(a: AppV, id: i64, k: int) -> int
    decreases a.rows.len() - k,
{
    if k >= a.rows.len() {
        a.rows.len() as int
    } else if a.tasks[a.rows[k].task_index].id == id {
        k
    } else {
        row_from(a, id, k + 1)
    }
}

/// The cursor on the row showing the task, where there is one.
pub open spec fn selecting(a: AppV, id: i64) -> AppV {
    let k = row_from(a, id, 0);
    if k < a.rows.len() {
        AppV { selected: k as usize, ..a }
    } else {
        a
    }
}

/// The task under the cursor.
pub open spec fn selected_task(a: AppV) -> Option<TaskV> {
    if a.selected < a.rows.len() {
        Some(a.tasks[a.rows[a.selected as int].task_index])
    } else {
        None
    }
}

/// After an edit of a task: the tasks are read anew and the cursor is put on
/// the task, below `parent`, which is expanded so that the task shows.
pub open spec fn after_edit(
    a: AppV,
    edit: (DbV, Result<(), ErrorV>),
    id: i64,
    parent: Option<i64>,
    today: Seq<char>,
) -> Step {
    match edit.1 {
        Err(e) => failed(a, edit.0, e),
        Ok(()) => {
            let b = match parent {
                Some(p) => AppV { expanded: a.expanded.insert(p), ..a },
                None => a,
            };
            done(selecting(reloaded(b, edit.0, today), id), edit.0)
        },
    }
}

/// Swaps the selected task with its sibling neighbour.
pub open spec fn task_moved(a: AppV, d: DbV, direction: TaskMove, today: Seq<char>) -> Step {
    match selected_task(a) {
        None => done(a, d),
        Some(t) => after_edit(a, ops::move_task(d, t.id, direction), t.id, None, today),
    }
}

/// Makes the selected task a child of its preceding sibling.
pub open spec fn task_indented(a: AppV, d: DbV, today: Seq<char>, now: Seq<char>) -> Step {
    match selected_task(a) {
        None => done(a, d),
        Some(t) => match tree::indent_parent(a.tasks, t.id) {
            None => done(a, d),
            Some(p) => after_edit(
                a,
                ops::reparent(d, t.id, Some(p), None, now),
                t.id,
                Some(p),
                today,
            ),
        },
    }
}

/// Moves the selected task up one level, right after its old parent.
pub open spec fn task_outdented(a: AppV, d: DbV, today: Seq<char>, now: Seq<char>) -> Step {
    match selected_task(a) {
        None => done(a, d),
        Some(t) => match tree::outdent_place(a.tasks, t.id, a.zoom_root) {
            None => done(a, d),
            Some(place) => after_edit(
                a,
                ops::reparent(d, t.id, place.new_parent, place.after, now),
                t.id,
                None,
                today,
            ),
        },
    }
}

/// Brings a task into view and puts the cursor on it: its ancestors are
/// expanded, and the zoom is dropped unless it contains the task.
pub open spec fn revealed(a: AppV, id: i64, today: Seq<char>) -> AppV {
    let ancestors = tree::ancestors(a.tasks, id);
    let zoom_root = match a.zoom_root {
        Some(zoom) => if ancestors.contains(zoom) {
            Some(zoom)
        } else {
            None
        },
        None => None,
    };
    let b = AppV { expanded: a.expanded.union(ancestors.to_set()), zoom_root, ..a };
    selecting(rebuilt(b, today), id)
}

/// The ids of which a task still exists.
pub open spec fn surviving(ts: Seq<TaskV>, ids: Seq<i64>) -> Seq<i64>
    decreases ids.len(),
{
    if ids.len() == 0 {
        seq![]
    } else {
        let front = surviving(ts, ids.drop_last());
        if has_task(ts, ids.last()) {
            front.push(ids.last())
        } else {
            front
        }
    }
}

/// The expanded tasks, with the ancestors of all the given ones.
pub open spec fn opened_for(ts: Seq<TaskV>, ids: Seq<i64>, expanded: Set<i64>) -> Set<i64>
    decreases ids.len(),
{
    if ids.len() == 0 {
        expanded
    } else {
        opened_for(ts, ids.drop_last(), expanded).union(tree::ancestors(ts, ids.last()).to_set())
    }
}

/// The statuses and the default read anew.
pub open spec fn with_statuses(a: AppV, d: DbV) -> (AppV, Result<(), ErrorV>) {
    let b = AppV { statuses: plans::statuses(d.tables.statuses), ..a };
    match plans::default_status(d.tables) {
        Ok(default_status_id) => (AppV { default_status_id, ..b }, Ok(())),
        Err(e) => (b, Err(e)),
    }
}

pub open spec fn empty_message(kind: History) -> Seq<char> {
    match kind {
        History::Undo => "nothing to undo"@,
        History::Redo => "nothing to redo"@,
    }
}

pub open spec fn verb(kind: History) -> Seq<char> {
    match kind {
        History::Undo => "undid"@,
        History::Redo => "redid"@,
    }
}

pub open spec fn replayed(d: DbV, kind: History) -> (DbV, Option<OutcomeV>) {
    match kind {
        History::Undo => ops::undo(d),
        History::Redo => ops::redo(d),
    }
}

pub open spec fn replay_message(kind: History, o: OutcomeV) -> Seq<char> {
    verb(kind) + ": "@ + o.description
}

/// The session after an undo or redo: what it touched is brought into view
/// and the change is named.
pub open spec fn shown_replay(a: AppV, d: DbV, kind: History, o: OutcomeV, today: Seq<char>) -> AppV {
    let tasks = stored_tasks(d);
    let ids = surviving(tasks, o.affected_task_ids);
    let b = AppV { tasks, expanded: opened_for(tasks, ids, a.expanded), ..a };
    let c = if ids.len() > 0 {
        revealed(b, ids[0], today)
    } else {
        rebuilt(b, today)
    };
    says(c, replay_message(kind, o))
}

/// Undo or redo from the tree.
pub open spec fn history(a: AppV, d: DbV, kind: History, today: Seq<char>) -> Step {
    let (next, outcome) = replayed(d, kind);
    match outcome {
        None => done(says(a, empty_message(kind)), next),
        Some(o) => {
            let (b, r) = with_statuses(a, next);
            match r {
                Err(e) => failed(b, next, e),
                Ok(()) => done(shown_replay(b, next, kind, o, today), next),
            }
        },
    }
}

/// The search run anew, with the cursor kept inside the results.
pub open spec fn searched(s: QueryStateV, filter: Filter, d: DbV, today: Seq<char>) -> QueryStateV {
    let results = plans::search(
        d.tables,
        query_view::request(s.editor.text, filter, s.sort),
        today,
    );
    QueryStateV { results, selected: within(s.selected, results.len()), ..s }
}

/// Opens the query view with an empty search.
pub open spec fn query_opened(a: AppV, d: DbV, today: Seq<char>) -> AppV {
    AppV { mode: ModeV::Query(searched(query_view::opened(), a.filter, d, today)), ..a }
}

/// A command inside the query view.
pub open spec fn query_command(a: AppV, s: QueryStateV, command: CommandId, today: Seq<char>) -> (
    AppV,
    QueryStateV,
    bool,
) {
    let len = s.results.len();
    match command {
        CommandId::QueryNext => (a, QueryStateV { selected: next_of(s.selected, len), ..s }, true),
        CommandId::QueryPrev => (a, QueryStateV { selected: up_by(s.selected, 1), ..s }, true),
        CommandId::QueryFirst => (a, QueryStateV { selected: 0, ..s }, true),
        CommandId::QueryLast => (a, QueryStateV { selected: last_of(len), ..s }, true),
        CommandId::QueryHalfPageDown => (
            a,
            QueryStateV { selected: down_by(s.selected, half_page(a.popup_height), len), ..s },
            true,
        ),
        CommandId::QueryHalfPageUp => (
            a,
            QueryStateV { selected: up_by(s.selected, half_page(a.popup_height)), ..s },
            true,
        ),
        CommandId::QueryEdit => (
            a,
            QueryStateV {
                editor: input::prefilled(s.editor.text),
                focus: query_view::Focus::Edit,
                ..s
            },
            true,
        ),
        CommandId::QuerySort => (a, QueryStateV { focus: query_view::Focus::SortMenu, ..s }, true),
        CommandId::ViewFilter => (
            a,
            QueryStateV { focus: query_view::Focus::FilterMenu, ..s },
            true,
        ),
        CommandId::QueryClose => (a, s, false),
        CommandId::QueryJump => if s.selected < len {
            (revealed(a, s.results[s.selected as int].id, today), s, false)
        } else {
            (a, s, true)
        },
        _ => (a, s, true),
    }
}

/// One key inside the query view, and whether the view stays open.
pub open spec fn query_key(a: AppV, d: DbV, s: QueryStateV, key: Key, today: Seq<char>) -> (
    AppV,
    QueryStateV,
    bool,
) {
    match s.focus {
        query_view::Focus::Edit => match input::edited(s.editor, key) {
            EditResultV::Continue(editor) => (
                a,
                searched(QueryStateV { editor, ..s }, a.filter, d, today),
                true,
            ),
            EditResultV::Submitted(text) => (
                a,
                QueryStateV {
                    editor: input::prefilled(text),
                    focus: query_view::Focus::Browse,
                    ..s
                },
                true,
            ),
            EditResultV::Cancelled => (a, QueryStateV { editor: input::prefilled(seq![]), ..s }, false),
        },
        query_view::Focus::Browse => {
            let (pending, command) = keymap::dispatched(a.pending, a.bindings, Context::Query, key);
            let b = AppV { pending, ..a };
            match command {
                Some(command) => query_command(b, s, command, today),
                None => (b, s, true),
            }
        },
        query_view::Focus::SortMenu => match key {
            Key::Esc => (a, QueryStateV { focus: query_view::Focus::Browse, ..s }, true),
            Key::Char(c) => match query_view::choice_of(query_view::sort_menu(), c) {
                Some(sort) => (
                    a,
                    searched(
                        QueryStateV { sort, focus: query_view::Focus::Browse, ..s },
                        a.filter,
                        d,
                        today,
                    ),
                    true,
                ),
                None => (a, s, true),
            },
            _ => (a, s, true),
        },
        query_view::Focus::FilterMenu => match key {
            Key::Esc => (a, QueryStateV { focus: query_view::Focus::Browse, ..s }, true),
            Key::Char(c) => match query_view::filter_choice(a.statuses, c) {
                Some(filter) => (
                    rebuilt(AppV { filter, ..a }, today),
                    searched(
                        QueryStateV { focus: query_view::Focus::Browse, ..s },
                        filter,
                        d,
                        today,
                    ),
                    true,
                ),
                None => (a, s, true),
            },
            _ => (a, s, true),
        },
    }
}

/// How many lines the help view shows under its filter.
pub open spec fn help_count(a: AppV, s: HelpStateV) -> nat {
    help::filtered(
        help::all_lines(command::command_table(), a.bindings),
        s.editor.text,
    ).len()
}

/// A command inside the help view.
pub open spec fn help_command(a: AppV, s: HelpStateV, command: CommandId) -> (HelpStateV, bool) {
    let len = help_count(a, s);
    match command {
        CommandId::HelpNext => (HelpStateV { scroll: down_by(s.scroll, 1, len), ..s }, true),
        CommandId::HelpPrev => (HelpStateV { scroll: up_by(s.scroll, 1), ..s }, true),
        CommandId::HelpFirst => (HelpStateV { scroll: 0, ..s }, true),
        CommandId::HelpLast => (HelpStateV { scroll: last_of(len), ..s }, true),
        CommandId::HelpHalfPageDown => (
            HelpStateV { scroll: down_by(s.scroll, half_page(a.popup_height), len), ..s },
            true,
        ),
        CommandId::HelpHalfPageUp => (
            HelpStateV { scroll: up_by(s.scroll, half_page(a.popup_height)), ..s },
            true,
        ),
        CommandId::HelpFilter => (
            HelpStateV {
                editor: input::prefilled(s.editor.text),
                focus: help::Focus::Edit,
                ..s
            },
            true,
        ),
        CommandId::HelpClose => (s, false),
        _ => (s, true),
    }
}

/// One key inside the help view, and whether the view stays open.
pub open spec fn help_key(a: AppV, s: HelpStateV, key: Key) -> (AppV, HelpStateV, bool) {
    match s.focus {
        help::Focus::Edit => match input::edited(s.editor, key) {
            EditResultV::Continue(editor) => (a, HelpStateV { editor, scroll: 0, ..s }, true),
            EditResultV::Submitted(text) => (
                a,
                HelpStateV { editor: input::prefilled(text), focus: help::Focus::Browse, ..s },
                true,
            ),
            EditResultV::Cancelled => (a, HelpStateV { editor: input::prefilled(seq![]), ..s }, false),
        },
        help::Focus::Browse => {
            let (pending, command) = keymap::dispatched(a.pending, a.bindings, Context::Help, key);
            let b = AppV { pending, ..a };
            match command {
                Some(command) => {
                    let (next, open) = help_command(b, s, command);
                    (b, next, open)
                },
                None => (b, s, true),
            }
        },
    }
}

/// Deletes a subtree and moves the cursor to the nearest surviving
/// neighbour.
pub open spec fn deleted(a: AppV, d: DbV, id: i64, today: Seq<char>) -> Step {
    let (next, r) = ops::delete_subtree(d, id);
    match r {
        Err(e) => failed(a, next, e),
        Ok(_) => {
            let b = reloaded(a, next, today);
            match tree::after_delete(a.tasks, id) {
                Some(target) => done(selecting(b, target), next),
                None => done(b, next),
            }
        },
    }
}

pub open spec fn saying(s: Step, message: Seq<char>) -> Step {
    match s.result {
        Ok(()) => Step { app: says(s.app, message), ..s },
        Err(_) => s,
    }
}

/// Deletes a childless task at once; a subtree asks first.
pub open spec fn delete_requested(a: AppV, d: DbV, today: Seq<char>) -> Step {
    match selected_task(a) {
        None => done(a, d),
        Some(t) => match ops::count_subtree(d, t.id) {
            Err(e) => failed(a, d, e),
            Ok(count) => if count == 1 {
                saying(
                    deleted(a, d, t.id, today),
                    "deleted \""@ + t.title + "\" (u to undo)"@,
                )
            } else {
                done(
                    AppV {
                        mode: ModeV::ConfirmDelete { task_id: t.id, count },
                        ..says(
                            a,
                            "delete "@ + text::decimal(count as int) + " task(s)? (y/n)"@,
                        )
                    },
                    d,
                )
            },
        },
    }
}

/// Moves the selected task's status one step through the display order.
pub open spec fn status_cycled(
    a: AppV,
    d: DbV,
    direction: Direction,
    today: Seq<char>,
    now: Seq<char>,
) -> Step {
    match selected_task(a) {
        None => done(a, d),
        Some(t) => match status_cycle::adjacent(a.statuses, t.status_id, direction) {
            None => done(a, d),
            Some(status_id) => after_edit(
                a,
                ops::set_status(d, t.id, status_id, now),
                t.id,
                None,
                today,
            ),
        },
    }
}

/// Opens the status modal and an undo scope with it.
pub open spec fn manage_opened(a: AppV, d: DbV) -> Step {
    if a.statuses.len() == 0 {
        done(a, d)
    } else {
        let (next, r) = ops::begin_undo_scope(d);
        match r {
            Err(e) => failed(a, next, e),
            Ok(()) => done(
                AppV { mode: ModeV::StatusManage(status_manage::opened()), ..a },
                next,
            ),
        }
    }
}

/// After an edit of the statuses they are read anew.
pub open spec fn after_status_edit(a: AppV, s: ManageV, edit: (DbV, Result<(), ErrorV>)) -> ManageStep {
    match edit.1 {
        Err(e) => ManageStep { app: a, db: edit.0, state: s, result: Err(e) },
        Ok(()) => {
            let (b, r) = with_statuses(a, edit.0);
            ManageStep {
                app: b,
                db: edit.0,
                state: s,
                result: match r {
                    Ok(()) => Ok(true),
                    Err(e) => Err(e),
                },
            }
        },
    }
}

/// The cursor kept on a row of the table.
pub open spec fn clamped_row(m: ManageStep) -> ManageStep {
    match m.result {
        Ok(_) => ManageStep {
            state: ManageV { row: within(m.state.row, m.app.statuses.len()), ..m.state },
            ..m
        },
        Err(_) => m,
    }
}

pub open spec fn manage_saying(m: ManageStep, message: Seq<char>) -> ManageStep {
    match m.result {
        Ok(_) => ManageStep { app: says(m.app, message), ..m },
        Err(_) => m,
    }
}

/// Undo or redo inside the status modal.
pub open spec fn manage_history(a: AppV, d: DbV, s: ManageV, kind: History) -> ManageStep {
    let (next, outcome) = replayed(d, kind);
    match outcome {
        None => ManageStep {
            app: says(a, empty_message(kind)),
            db: next,
            state: s,
            result: Ok(true),
        },
        Some(o) => manage_saying(
            clamped_row(after_status_edit(a, s, (next, Ok(())))),
            replay_message(kind, o),
        ),
    }
}

pub open spec fn no_key_left() -> Seq<char> {
    "cannot add a status: every key a-z is already in use"@
}

/// What is shown for a refused deletion of a status, where it is one that
/// the user has to know.
pub open spec fn refusal(e: ErrorV) -> Option<Seq<char>> {
    match e {
        ErrorV::StatusInUse { count } => Some(
            "cannot delete: "@ + text::decimal(count as int) + " task(s) use this status"@,
        ),
        ErrorV::CannotDeleteLastStatus => Some("cannot delete the last status"@),
        ErrorV::CannotDeleteDefaultStatus => Some("cannot delete the default status"@),
        _ => None,
    }
}

/// Deletes the status under the cursor. Refusals are shown, not failures.
pub open spec fn status_deleted(a: AppV, d: DbV, s: ManageV) -> ManageStep {
    let (next, r) = ops::delete_status(d, a.statuses[s.row as int].id);
    match r {
        Ok(()) => clamped_row(after_status_edit(a, s, (next, Ok(())))),
        Err(e) => match refusal(e) {
            Some(message) => ManageStep {
                app: says(a, message),
                db: next,
                state: s,
                result: Ok(true),
            },
            None => ManageStep { app: a, db: next, state: s, result: Err(e) },
        },
    }
}

/// Moves the status under the cursor, and the cursor with it.
pub open spec fn status_moved(a: AppV, d: DbV, s: ManageV, direction: StatusMove) -> ManageStep {
    let id = a.statuses[s.row as int].id;
    let m = after_status_edit(a, s, ops::move_status(d, id, direction));
    let k = status_cycle::position(m.app.statuses, id);
    match m.result {
        Ok(_) => if k < m.app.statuses.len() {
            ManageStep { state: ManageV { row: k as usize, ..m.state }, ..m }
        } else {
            m
        },
        Err(_) => m,
    }
}

/// Opens the edit of the cell under the cursor.
pub open spec fn cell_opened(a: AppV, d: DbV, s: ManageV) -> ManageStep {
    let status = a.statuses[s.row as int];
    let open = |editing: EditingV|
        ManageStep { app: a, db: d, state: ManageV { editing, ..s }, result: Ok(true) };
    match s.col {
        Column::Label => open(EditingV::Cell(input::prefilled(status.label))),
        Column::Color => open(EditingV::Cell(input::prefilled(status.color))),
        Column::Kind => after_status_edit(
            a,
            s,
            ops::update_status_kind(d, status.id, status_manage::next_kind(status.kind)),
        ),
        Column::Key => open(EditingV::KeyCapture),
    }
}

/// A command inside the status modal.
pub open spec fn manage_command(a: AppV, d: DbV, s: ManageV, command: CommandId) -> ManageStep {
    let stay = |app: AppV, state: ManageV|
        ManageStep { app, db: d, state, result: Ok(true) };
    match command {
        CommandId::ManageClose => {
            let (next, r) = ops::end_undo_scope(d, "edit statuses"@);
            ManageStep {
                app: a,
                db: next,
                state: s,
                result: match r {
                    Ok(()) => Ok(false),
                    Err(e) => Err(e),
                },
            }
        },
        CommandId::ManageUndo => manage_history(a, d, s, History::Undo),
        CommandId::ManageRedo => manage_history(a, d, s, History::Redo),
        CommandId::ManageRowNext => stay(
            a,
            ManageV { row: down_by(s.row, 1, a.statuses.len()), ..s },
        ),
        CommandId::ManageRowPrev => stay(a, ManageV { row: up_by(s.row, 1), ..s }),
        CommandId::ManageColPrev => stay(a, ManageV { col: status_manage::left_of(s.col), ..s }),
        CommandId::ManageColNext => stay(a, ManageV { col: status_manage::right_of(s.col), ..s }),
        CommandId::ManageEdit => cell_opened(a, d, s),
        CommandId::ManageAdd => if status_manage::unused_key(a.statuses) is Some {
            stay(a, ManageV { editing: EditingV::NewStatus(input::prefilled(seq![])), ..s })
        } else {
            stay(says(a, no_key_left()), s)
        },
        CommandId::ManageDelete => status_deleted(a, d, s),
        CommandId::ManageMoveDown => status_moved(a, d, s, StatusMove::Down),
        CommandId::ManageMoveUp => status_moved(a, d, s, StatusMove::Up),
        CommandId::ManageSetDefault => after_status_edit(
            a,
            s,
            ops::set_default_status(d, a.statuses[s.row as int].id),
        ),
        _ => stay(a, s),
    }
}

/// A confirmed edit of a label or color; blank text counts as a cancel. An
/// unknown color is stored all the same, with a warning.
pub open spec fn cell_submitted(a: AppV, d: DbV, s: ManageV, text: Seq<char>) -> ManageStep {
    if text.len() == 0 {
        ManageStep { app: a, db: d, state: s, result: Ok(true) }
    } else {
        let id = a.statuses[s.row as int].id;
        match s.col {
            Column::Label => after_status_edit(a, s, ops::update_status_label(d, id, text)),
            Column::Color => {
                let edit = ops::update_status_color(d, id, text);
                let b = if edit.1 is Ok && color::color_of(text) == Color::Reset {
                    says(
                        a,
                        "unknown color `"@ + text
                            + "` (expected a name or #rrggbb); it will render as the terminal default"@,
                    )
                } else {
                    a
                };
                after_status_edit(b, s, edit)
            },
            _ => after_status_edit(a, s, (d, Ok(()))),
        }
    }
}

/// A confirmed label of a new status: it gets a free key, and the cursor.
pub open spec fn status_added(a: AppV, d: DbV, s: ManageV, label: Seq<char>) -> ManageStep {
    match status_manage::unused_key(a.statuses) {
        None => ManageStep { app: says(a, no_key_left()), db: d, state: s, result: Ok(true) },
        Some(key) => {
            let (next, r) = ops::create_status(d, label, StatusKind::Open, "gray"@, key);
            match r {
                Err(e) => ManageStep { app: a, db: next, state: s, result: Err(e) },
                Ok(created) => {
                    let m = after_status_edit(a, s, (next, Ok(())));
                    let k = status_cycle::position(m.app.statuses, created.id);
                    match m.result {
                        Ok(_) => ManageStep {
                            state: ManageV {
                                row: if k < m.app.statuses.len() {
                                    k as usize
                                } else {
                                    0
                                },
                                col: Column::Label,
                                ..m.state
                            },
                            ..m
                        },
                        Err(_) => m,
                    }
                },
            }
        },
    }
}

/// A key captured as a status key.
pub open spec fn key_captured(a: AppV, d: DbV, s: ManageV, c: char) -> ManageStep {
    let status = a.statuses[s.row as int];
    if status_manage::taken(a.statuses, c, status.id) {
        ManageStep {
            app: says(a, "key `"@ + seq![c] + "` is already used by another status"@),
            db: d,
            state: s,
            result: Ok(true),
        }
    } else {
        after_status_edit(a, s, ops::update_status_key(d, status.id, c))
    }
}

/// One key inside the status modal, and whether it stays open.
pub open spec fn manage_key(a: AppV, d: DbV, s: ManageV, key: Key) -> ManageStep {
    let idle = ManageV { editing: EditingV::Nothing, ..s };
    let stay = |editing: EditingV|
        ManageStep { app: a, db: d, state: ManageV { editing, ..s }, result: Ok(true) };
    match s.editing {
        EditingV::Nothing => {
            let (pending, command) = keymap::dispatched(
                a.pending,
                a.bindings,
                Context::StatusManage,
                key,
            );
            let b = AppV { pending, ..a };
            match command {
                Some(command) => manage_command(b, d, idle, command),
                None => ManageStep { app: b, db: d, state: idle, result: Ok(true) },
            }
        },
        EditingV::Cell(editor) => match input::edited(editor, key) {
            EditResultV::Continue(next) => stay(EditingV::Cell(next)),
            EditResultV::Submitted(text) => cell_submitted(a, d, idle, text::trimmed(text)),
            EditResultV::Cancelled => stay(EditingV::Nothing),
        },
        EditingV::NewStatus(editor) => match input::edited(editor, key) {
            EditResultV::Continue(next) => stay(EditingV::NewStatus(next)),
            EditResultV::Submitted(text) => if text::trimmed(text).len() > 0 {
                status_added(a, d, idle, text::trimmed(text))
            } else {
                stay(EditingV::Nothing)
            },
            EditResultV::Cancelled => stay(EditingV::Nothing),
        },
        EditingV::KeyCapture => match key {
            Key::Esc => stay(EditingV::Nothing),
            Key::Char(c) => key_captured(a, d, idle, c),
            _ => stay(EditingV::KeyCapture),
        },
    }
}

/// A confirmed input line.
pub open spec fn submitted(
    a: AppV,
    d: DbV,
    action: InputAction,
    text: Seq<char>,
    today: Seq<char>,
    now: Seq<char>,
) -> Step {
    let trimmed = text::trimmed(text);
    match action {
        InputAction::Create(target) => if trimmed.len() == 0 {
            done(a, d)
        } else {
            let (next, r) = ops::create_task(
                d,
                target.parent_id,
                trimmed,
                target.after,
                a.default_status_id,
                now,
            );
            match r {
                Err(e) => failed(a, next, e),
                Ok(task) => after_edit(a, (next, Ok(())), task.id, target.parent_id, today),
            }
        },
        InputAction::Rename(id) => if trimmed.len() == 0 {
            done(a, d)
        } else {
            after_edit(a, ops::rename_task(d, id, trimmed, now), id, None, today)
        },
        InputAction::SetDue(id) => {
            let due = if trimmed.len() == 0 {
                None
            } else {
                Some(trimmed)
            };
            let (next, r) = ops::set_due(d, id, due, now);
            match r {
                Err(ErrorV::InvalidDate(date)) => done(
                    AppV {
                        mode: ModeV::Input { editor: input::prefilled(text), action },
                        ..says(a, ErrorV::InvalidDate(date).message())
                    },
                    next,
                ),
                _ => after_edit(a, (next, r), id, None, today),
            }
        },
    }
}

/// A command in the tree that only concerns the view.
pub open spec fn commanded(a: AppV, command: CommandId, today: Seq<char>) -> AppV {
    let len = a.rows.len();
    match command {
        CommandId::Quit => AppV { should_quit: true, ..a },
        CommandId::SelectNext => AppV { selected: next_of(a.selected, len), ..a },
        CommandId::SelectPrev => AppV { selected: up_by(a.selected, 1), ..a },
        CommandId::SelectFirst => AppV { selected: 0, ..a },
        CommandId::SelectLast => AppV { selected: last_of(len), ..a },
        CommandId::HalfPageDown => AppV {
            selected: down_by(a.selected, half_page(a.list_height), len),
            ..a
        },
        CommandId::HalfPageUp => AppV {
            selected: up_by(a.selected, half_page(a.list_height)),
            ..a
        },
        CommandId::SelectParent => match selected_task(a) {
            Some(t) => if a.rows[a.selected as int].depth > 0 && t.parent_id is Some {
                selecting(a, t.parent_id->Some_0)
            } else {
                a
            },
            None => a,
        },
        CommandId::SelectFirstChild => match selected_task(a) {
            Some(t) => if a.rows[a.selected as int].has_children {
                let b = rebuilt(AppV { expanded: a.expanded.insert(t.id), ..a }, today);
                // A filter can hide every child, so only a real child is
                // moved onto.
                if b.selected + 1 < b.rows.len() && b.rows[b.selected + 1].depth
                    == a.rows[a.selected as int].depth + 1 {
                    AppV { selected: (b.selected + 1) as usize, ..b }
                } else {
                    b
                }
            } else {
                a
            },
            None => a,
        },
        CommandId::CreateTask => AppV {
            mode: ModeV::Input {
                editor: input::prefilled(seq![]),
                action: InputAction::Create(
                    tree::sibling_place(a.tasks, a.rows, a.selected as int, a.zoom_root),
                ),
            },
            ..a
        },
        CommandId::CreateChild => AppV {
            mode: ModeV::Input {
                editor: input::prefilled(seq![]),
                action: InputAction::Create(
                    tree::child_place(a.tasks, a.rows, a.selected as int, a.zoom_root),
                ),
            },
            ..a
        },
        CommandId::RenameTask => match selected_task(a) {
            Some(t) => AppV {
                mode: ModeV::Input {
                    editor: input::prefilled(t.title),
                    action: InputAction::Rename(t.id),
                },
                ..a
            },
            None => a,
        },
        CommandId::SetStatus => match selected_task(a) {
            Some(t) => AppV { mode: ModeV::StatusSelect { task_id: t.id }, ..a },
            None => a,
        },
        CommandId::SetDue => match selected_task(a) {
            Some(t) => AppV {
                mode: ModeV::Input {
                    editor: input::prefilled(
                        match t.due {
                            Some(due) => due,
                            None => seq![],
                        },
                    ),
                    action: InputAction::SetDue(t.id),
                },
                ..a
            },
            None => a,
        },
        CommandId::EditNote => match selected_task(a) {
            Some(t) => AppV { pending_note_edit: Some(t.id), ..a },
            None => a,
        },
        CommandId::ZoomIn => match selected_task(a) {
            Some(t) => AppV {
                selected: 0,
                ..rebuilt(AppV { zoom_root: Some(t.id), ..a }, today)
            },
            None => a,
        },
        CommandId::ZoomOut => match a.zoom_root {
            Some(root) => {
                let k = tree::first_with(a.tasks, root);
                let zoom_root = if k < a.tasks.len() {
                    a.tasks[k].parent_id
                } else {
                    None
                };
                selecting(rebuilt(AppV { zoom_root, ..a }, today), root)
            },
            None => a,
        },
        CommandId::ViewFilter => AppV { mode: ModeV::FilterSelect, ..a },
        CommandId::Help => AppV { mode: ModeV::Help(help::opened()), ..a },
        CommandId::ToggleFooter => AppV { show_footer: !a.show_footer, ..a },
        CommandId::ToggleExpand => match selected_task(a) {
            Some(t) => if a.rows[a.selected as int].has_children {
                rebuilt(
                    AppV {
                        expanded: if a.expanded.contains(t.id) {
                            a.expanded.remove(t.id)
                        } else {
                            a.expanded.insert(t.id)
                        },
                        ..a
                    },
                    today,
                )
            } else {
                a
            },
            None => a,
        },
        _ => a,
    }
}

/// A command in the tree.
pub open spec fn tree_command(
    a: AppV,
    d: DbV,
    command: CommandId,
    today: Seq<char>,
    now: Seq<char>,
) -> Step {
    match command {
        CommandId::StatusNext => status_cycled(a, d, Direction::Next, today, now),
        CommandId::StatusPrev => status_cycled(a, d, Direction::Prev, today, now),
        CommandId::TaskMoveUp => task_moved(a, d, TaskMove::Up, today),
        CommandId::TaskMoveDown => task_moved(a, d, TaskMove::Down, today),
        CommandId::TaskIndent => task_indented(a, d, today, now),
        CommandId::TaskOutdent => task_outdented(a, d, today, now),
        CommandId::TaskDelete => delete_requested(a, d, today),
        CommandId::Undo => history(a, d, History::Undo, today),
        CommandId::Redo => history(a, d, History::Redo, today),
        CommandId::StatusManage => manage_opened(a, d),
        CommandId::ViewSearch => done(query_opened(a, d, today), d),
        _ => done(commanded(a, command, today), d),
    }
}

/// A key in the tree view.
pub open spec fn tree_pressed(a: AppV, d: DbV, key: Key, today: Seq<char>, now: Seq<char>) -> Step {
    let (pending, command) = keymap::dispatched(a.pending, a.bindings, Context::Tree, key);
    let b = AppV { pending, ..a };
    match command {
        Some(command) => tree_command(b, d, command, today, now),
        None => done(b, d),
    }
}

/// A key while a title or date is being typed.
pub open spec fn input_pressed(
    a: AppV,
    d: DbV,
    editor: EditorV,
    action: InputAction,
    key: Key,
    today: Seq<char>,
    now: Seq<char>,
) -> Step {
    match input::edited(editor, key) {
        EditResultV::Continue(next) => done(
            AppV { mode: ModeV::Input { editor: next, action }, ..a },
            d,
        ),
        EditResultV::Submitted(text) => submitted(a, d, action, text, today, now),
        EditResultV::Cancelled => done(a, d),
    }
}

/// A key in the status modal.
pub open spec fn manage_pressed(a: AppV, d: DbV, state: ManageV, key: Key) -> Step {
    let m = manage_key(a, d, state, key);
    match m.result {
        Ok(open) => done(
            if open {
                AppV { mode: ModeV::StatusManage(m.state), ..m.app }
            } else {
                m.app
            },
            m.db,
        ),
        Err(e) => failed(m.app, m.db, e),
    }
}

/// A key at the delete prompt. The prompt is one-shot: whatever the key, the
/// mode ends.
pub open spec fn confirm_pressed(
    a: AppV,
    d: DbV,
    task_id: i64,
    count: i64,
    key: Key,
    today: Seq<char>,
) -> Step {
    if key == Key::Char('y') {
        saying(
            deleted(a, d, task_id, today),
            "deleted "@ + text::decimal(count as int) + " task(s) (u to undo)"@,
        )
    } else {
        done(a, d)
    }
}

/// A key in the filter menu. Unbound keys are ignored.
pub open spec fn filter_pressed(a: AppV, key: Key, today: Seq<char>) -> AppV {
    let ignored = AppV { mode: ModeV::FilterSelect, ..a };
    match key {
        Key::Esc => a,
        Key::Char(c) => match query_view::filter_choice(a.statuses, c) {
            Some(filter) => rebuilt(AppV { filter, ..a }, today),
            None => ignored,
        },
        _ => ignored,
    }
}

/// A key in the query view.
pub open spec fn query_pressed(a: AppV, d: DbV, state: QueryStateV, key: Key, today: Seq<char>) -> AppV {
    let (b, next, open) = query_key(a, d, state, key, today);
    if open {
        AppV { mode: ModeV::Query(next), ..b }
    } else {
        b
    }
}

/// A key in the help view.
pub open spec fn help_pressed(a: AppV, state: HelpStateV, key: Key) -> AppV {
    let (b, next, open) = help_key(a, state, key);
    if open {
        AppV { mode: ModeV::Help(next), ..b }
    } else {
        b
    }
}

/// A key in the status menu. Unbound keys are ignored.
pub open spec fn status_pressed(
    a: AppV,
    d: DbV,
    task_id: i64,
    key: Key,
    today: Seq<char>,
    now: Seq<char>,
) -> Step {
    let ignored = AppV { mode: ModeV::StatusSelect { task_id }, ..a };
    match key {
        Key::Esc => done(a, d),
        Key::Char(c) => {
            let k = query_view::with_key(a.statuses, c);
            if k < a.statuses.len() {
                let (next, r) = ops::set_status(d, task_id, a.statuses[k].id, now);
                match r {
                    Err(e) => failed(ignored, next, e),
                    Ok(()) => after_edit(a, (next, r), task_id, None, today),
                }
            } else {
                done(ignored, d)
            }
        },
        _ => done(ignored, d),
    }
}

/// One key press. Notices live until the next key press.
pub open spec fn pressed(a: AppV, d: DbV, key: Key, today: Seq<char>, now: Seq<char>) -> Step {
    let b = AppV { status_line: None, mode: ModeV::Tree, ..a };
    match a.mode {
        ModeV::Tree => tree_pressed(b, d, key, today, now),
        ModeV::Input { editor, action } => input_pressed(b, d, editor, action, key, today, now),
        ModeV::StatusManage(state) => manage_pressed(b, d, state, key),
        ModeV::ConfirmDelete { task_id, count } => confirm_pressed(
            b,
            d,
            task_id,
            count,
            key,
            today,
        ),
        ModeV::FilterSelect => done(filter_pressed(b, key, today), d),
        ModeV::Query(state) => done(query_pressed(b, d, state, key, today), d),
        ModeV::Help(state) => done(help_pressed(b, state, key), d),
        ModeV::StatusSelect { task_id } => status_pressed(b, d, task_id, key, today, now),
    }
}

/// The end of an editor session over a task's note. An unchanged note is
/// not written back, so no empty undo step is recorded.
pub open spec fn note_edited(
    a: AppV,
    d: DbV,
    task_id: i64,
    outcome: EditOutcomeV,
    today: Seq<char>,
    now: Seq<char>,
) -> Step {
    match outcome {
        EditOutcomeV::Changed(text) => saying(
            after_edit(a, ops::set_note(d, task_id, text, now), task_id, None, today),
            "note updated (u to undo)"@,
        ),
        EditOutcomeV::Unchanged => done(says(a, "note unchanged"@), d),
        EditOutcomeV::Aborted => done(
            says(a, "note edit discarded (editor exited with an error)"@),
            d,
        ),
    }
}

/// The session as it starts.
pub open spec fn started(
    tasks: Seq<TaskV>,
    statuses: Seq<StatusV>,
    default_status_id: i64,
    today: Seq<char>,
) -> AppV {
    rebuilt(
        AppV {
            statuses,
            default_status_id,
            tasks,
            expanded: Set::empty(),
            rows: seq![],
            selected: 0,
            zoom_root: None,
            filter: Filter::All,
            mode: ModeV::Tree,
            status_line: None,
            pending_note_edit: None,
            bindings: keymap::default_bindings(),
            pending: seq![],
            show_footer: true,
            should_quit: false,
            list_height: 0,
            popup_height: 0,
        },
        today,
    )
}

/// The session with the user's configuration. Shadowed bindings are legal
/// but surprising (the longer sequence can never fire), so they are named
/// once.
pub open spec fn with_config(a: AppV, c: ConfigV) -> AppV {
    let warnings = keymap::warnings(c.bindings, c.bindings.len() as int);
    AppV {
        bindings: c.bindings,
        show_footer: c.footer,
        status_line: if warnings.len() > 0 {
            Some(text::joined(warnings, "; "@))
        } else {
            a.status_line
        },
        ..a
    }
}

} // verus!

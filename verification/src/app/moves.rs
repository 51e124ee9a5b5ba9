//! What the keys do to the view, told from the session before and after.
use vstd::prelude::*;

use crate::app::effects;
use crate::app::model;
use crate::app::model::{AppV, ModeV};
use crate::command::CommandId;
use crate::effects as store_effects;
use crate::finding;
use crate::input;
use crate::key::Key;
use crate::ops;
use crate::plans;
use crate::query::{Filter, QueryV, Sort};
use crate::query_view;
use crate::query_view::QueryStateV;
use crate::siblings;
use crate::status::StatusV;
use crate::status_cycle;
use crate::status_cycle::Direction;
use crate::tables::DbV;
use crate::task::{TaskMove, TaskV};

verus! {

/// The sessions differ in the place of the cursor at most.
pub open spec fn only_cursor(a: AppV, b: AppV) -> bool {
    b == AppV { selected: b.selected, ..a }
}

/// How far a half-page jump goes: half of what is visible, and a row at
/// least.
pub open spec fn is_half_page(height: usize, step: int) -> bool {
    if height < 4 {
        step == 1
    } else {
        2 * step == height || 2 * step + 1 == height
    }
}

/// The cursor goes down and up by one row, to the ends, or by half a page,
/// and never off the rows; nothing else changes.
pub proof fn the_cursor_moves_within_the_rows(a: AppV, today: Seq<char>)
    requires
        a.selected < a.rows.len() <= usize::MAX,
    ensures
        ({
            let last = a.rows.len() - 1;
            let down = model::commanded(a, CommandId::SelectNext, today);
            let up = model::commanded(a, CommandId::SelectPrev, today);
            let first = model::commanded(a, CommandId::SelectFirst, today);
            let end = model::commanded(a, CommandId::SelectLast, today);
            let page_down = model::commanded(a, CommandId::HalfPageDown, today);
            let page_up = model::commanded(a, CommandId::HalfPageUp, today);
            &&& only_cursor(a, down) && only_cursor(a, up) && only_cursor(a, first)
            &&& only_cursor(a, end) && only_cursor(a, page_down) && only_cursor(a, page_up)
            &&& a.selected < last ==> down.selected == a.selected + 1
            &&& a.selected == last ==> down.selected == last
            &&& a.selected > 0 ==> up.selected == a.selected - 1
            &&& a.selected == 0 ==> up.selected == 0
            &&& first.selected == 0
            &&& end.selected == last
            &&& forall|step: int| #[trigger]
                is_half_page(a.list_height, step) ==> {
                    &&& page_down.selected == if a.selected + step <= last {
                        a.selected + step
                    } else {
                        last
                    }
                    &&& page_up.selected == if a.selected >= step {
                        a.selected - step
                    } else {
                        0
                    }
                }
        }),
{
}

/// Expanding and collapsing turns over the task under the cursor and no
/// other, where it has children.
pub proof fn toggling_turns_over_one_task(a: AppV, t: TaskV, today: Seq<char>)
    requires
        effects::cursor_on(a, t),
    ensures
        ({
            let b = model::commanded(a, CommandId::ToggleExpand, today);
            &&& a.rows[a.selected as int].has_children ==> {
                &&& b.expanded.contains(t.id) <==> !a.expanded.contains(t.id)
                &&& forall|x: i64|
                    x != t.id ==> (#[trigger] b.expanded.contains(x) <==> a.expanded.contains(x))
                &&& b.tasks == a.tasks && b.filter == a.filter && b.mode == a.mode
            }
            &&& !a.rows[a.selected as int].has_children ==> b == a
        }),
{
}

/// Zooming in makes the task under the cursor the root of the view and puts
/// the cursor at its start; zooming out where there is no zoom does nothing.
pub proof fn zooming_in_makes_a_task_the_root(a: AppV, t: TaskV, today: Seq<char>)
    requires
        model::valid(a),
        effects::cursor_on(a, t),
    ensures
        ({
            let b = model::commanded(a, CommandId::ZoomIn, today);
            &&& b.zoom_root == Some(t.id)
            &&& b.selected == 0
            &&& b.expanded == a.expanded
            &&& b.tasks == a.tasks
            &&& b.filter == a.filter
            &&& b.mode == a.mode
        }),
        a.zoom_root is None ==> model::commanded(a, CommandId::ZoomOut, today) == a,
{
    let i = a.rows[a.selected as int].task_index;
    assert(0 <= i < a.tasks.len());
    effects::lemma_first_with(a.tasks, i);
}

/// Going to the parent puts the cursor on the parent's row, and does nothing
/// at the top level of the view.
pub proof fn the_cursor_goes_to_the_parent(a: AppV, t: TaskV, today: Seq<char>)
    requires
        effects::cursor_on(a, t),
    ensures
        ({
            let b = model::commanded(a, CommandId::SelectParent, today);
            &&& only_cursor(a, b)
            &&& a.rows[a.selected as int].depth == 0 || t.parent_id is None ==> b == a
            &&& a.rows[a.selected as int].depth > 0 && t.parent_id is Some
                ==> effects::cursor_follows(b, t.parent_id->Some_0)
        }),
{
    if t.parent_id is Some {
        effects::lemma_selecting(a, t.parent_id->Some_0);
    }
}

/// Going to the first child expands the task under the cursor and goes one
/// row down where that row is one deeper. A task without children stays.
pub proof fn the_cursor_goes_to_the_first_child(a: AppV, t: TaskV, today: Seq<char>)
    requires
        effects::cursor_on(a, t),
    ensures
        ({
            let b = model::commanded(a, CommandId::SelectFirstChild, today);
            let row = a.rows[a.selected as int];
            &&& !row.has_children ==> b == a
            &&& row.has_children ==> {
                &&& b.expanded.contains(t.id)
                &&& forall|x: i64|
                    x != t.id ==> (#[trigger] b.expanded.contains(x) <==> a.expanded.contains(x))
                &&& a.selected + 1 < b.rows.len() <= usize::MAX && b.rows[a.selected + 1].depth
                    == row.depth + 1 ==> b.selected == a.selected + 1
                &&& a.selected + 1 < b.rows.len() <= usize::MAX && b.rows[a.selected + 1].depth
                    != row.depth + 1 ==> b.selected == a.selected
            }
        }),
{
}

/// The keys that open something open it for the task under the cursor, and
/// nothing else changes.
pub proof fn opening_keys_open_for_the_selected_task(a: AppV, t: TaskV, today: Seq<char>)
    requires
        effects::cursor_on(a, t),
    ensures
        model::commanded(a, CommandId::SetStatus, today) == (AppV {
            mode: ModeV::StatusSelect { task_id: t.id },
            ..a
        }),
        model::commanded(a, CommandId::EditNote, today) == (AppV {
            pending_note_edit: Some(t.id),
            ..a
        }),
        model::commanded(a, CommandId::ViewFilter, today) == (AppV { mode: ModeV::FilterSelect, ..a }),
        model::commanded(a, CommandId::Quit, today) == (AppV { should_quit: true, ..a }),
        model::commanded(a, CommandId::ToggleFooter, today) == (AppV {
            show_footer: !a.show_footer,
            ..a
        }),
        model::commanded(a, CommandId::Help, today).mode is Help,
{
}

proof fn lemma_with_key(statuses: Seq<StatusV>, c: char)
    ensures
        0 <= query_view::with_key(statuses, c) <= statuses.len(),
        query_view::with_key(statuses, c) < statuses.len() ==> statuses[query_view::with_key(
            statuses,
            c,
        )].key == c,
        forall|k: int|
            0 <= k < query_view::with_key(statuses, c) ==> (#[trigger] statuses[k]).key != c,
    decreases statuses.len(),
{
    if statuses.len() > 0 && statuses[0].key != c {
        let rest = statuses.drop_first();
        lemma_with_key(rest, c);
        assert forall|k: int| 0 <= k < query_view::with_key(statuses, c) implies (
        #[trigger] statuses[k]).key != c by {
            if k > 0 {
                assert(rest[k - 1] == statuses[k]);
            }
        }
        let i = query_view::with_key(rest, c);
        if i < rest.len() {
            assert(rest[i] == statuses[i + 1]);
        }
    }
}

/// In the status menu the key of a status sets that status on the task, and
/// changes nothing else of it; a key of none leaves the menu open.
pub proof fn a_status_key_sets_its_status(
    a: AppV,
    d: DbV,
    id: i64,
    c: char,
    today: Seq<char>,
    now: Seq<char>,
)
    requires
        effects::in_use(a, d),
        a.mode == (ModeV::StatusSelect { task_id: id }),
        d.tables.tasks.dom().contains(id),
        forall|k: int| 0 <= k < a.statuses.len() ==> d.tables.statuses.dom().contains(
            (#[trigger] a.statuses[k]).id,
        ),
    ensures
        ({
            let s = model::pressed(a, d, Key::Char(c), today, now);
            let row = d.tables.tasks[id];
            let n = s.db.tables.tasks;
            if exists|k: int| 0 <= k < a.statuses.len() && (#[trigger] a.statuses[k]).key == c {
                &&& s.result is Ok
                &&& s.app.mode is Tree
                &&& store_effects::only_task(d.tables, s.db.tables, id)
                &&& exists|k: int|
                    {
                        &&& 0 <= k < a.statuses.len()
                        &&& (#[trigger] a.statuses[k]).key == c
                        &&& n[id].status_id == a.statuses[k].id
                        &&& forall|j: int| 0 <= j < k ==> (#[trigger] a.statuses[j]).key != c
                    }
                &&& n[id].title == row.title
                &&& n[id].note == row.note
                &&& n[id].due == row.due
                &&& n[id].parent_id == row.parent_id
                &&& n[id].display_order == row.display_order
                &&& effects::cursor_follows(s.app, id)
            } else {
                s.db == d && s.result is Ok && s.app.mode == a.mode && s.app.tasks == a.tasks
            }
        }),
{
    lemma_with_key(a.statuses, c);
    let k = query_view::with_key(a.statuses, c);
    let b = AppV { status_line: None, mode: ModeV::Tree, ..a };
    if k < a.statuses.len() {
        store_effects::a_status_change_changes_the_status_alone(d, id, a.statuses[k].id, now);
        let next = ops::set_status(d, id, a.statuses[k].id, now).0;
        effects::lemma_selecting(model::reloaded(b, next, today), id);
        assert(a.statuses[k].key == c);
    }
}

/// Cycling sets the status next to a task's own in the list, forward or
/// backward, from one end around to the other.
pub proof fn cycling_sets_the_next_status(
    a: AppV,
    d: DbV,
    t: TaskV,
    i: int,
    today: Seq<char>,
    now: Seq<char>,
)
    requires
        effects::in_use(a, d),
        effects::cursor_on(a, t),
        0 <= i < a.statuses.len(),
        a.statuses[i].id == t.status_id,
        forall|j: int, k: int|
            0 <= j < k < a.statuses.len() ==> a.statuses[j].id != a.statuses[k].id,
        forall|k: int| 0 <= k < a.statuses.len() ==> d.tables.statuses.dom().contains(
            (#[trigger] a.statuses[k]).id,
        ),
    ensures
        ({
            let forward = model::tree_command(a, d, CommandId::StatusNext, today, now);
            let back = model::tree_command(a, d, CommandId::StatusPrev, today, now);
            let next = if i == a.statuses.len() - 1 {
                0
            } else {
                i + 1
            };
            let prev = if i == 0 {
                a.statuses.len() - 1
            } else {
                i - 1
            };
            &&& forward.result is Ok && back.result is Ok
            &&& store_effects::only_task(d.tables, forward.db.tables, t.id)
            &&& store_effects::only_task(d.tables, back.db.tables, t.id)
            &&& forward.db.tables.tasks[t.id].status_id == a.statuses[next].id
            &&& back.db.tables.tasks[t.id].status_id == a.statuses[prev].id
            &&& forward.db.tables.tasks[t.id].title == t.title
            &&& back.db.tables.tasks[t.id].title == t.title
            &&& effects::cursor_follows(forward.app, t.id)
            &&& effects::cursor_follows(back.app, t.id)
        }),
{
    let k = effects::lemma_cursor(a, d, t);
    finding::lemma_position_known(a.statuses, t.status_id, i);
    let next = if i == a.statuses.len() - 1 {
        0
    } else {
        i + 1
    };
    let prev = if i == 0 {
        a.statuses.len() - 1
    } else {
        i - 1
    };
    assert(status_cycle::adjacent(a.statuses, t.status_id, Direction::Next) == Some(
        a.statuses[next].id,
    ));
    assert(status_cycle::adjacent(a.statuses, t.status_id, Direction::Prev) == Some(
        a.statuses[prev].id,
    ));
    store_effects::a_status_change_changes_the_status_alone(d, t.id, a.statuses[next].id, now);
    store_effects::a_status_change_changes_the_status_alone(d, t.id, a.statuses[prev].id, now);
    let e = ops::set_status(d, t.id, a.statuses[next].id, now).0;
    let f = ops::set_status(d, t.id, a.statuses[prev].id, now).0;
    effects::lemma_selecting(model::reloaded(a, e, today), t.id);
    effects::lemma_selecting(model::reloaded(a, f, today), t.id);
}

/// Moving the task under the cursor moves it in the store, and the cursor
/// goes with it.
pub proof fn a_moved_task_keeps_the_cursor(
    a: AppV,
    d: DbV,
    t: TaskV,
    today: Seq<char>,
    now: Seq<char>,
)
    requires
        effects::in_use(a, d),
        effects::cursor_on(a, t),
    ensures
        ({
            let down = model::tree_command(a, d, CommandId::TaskMoveDown, today, now);
            let up = model::tree_command(a, d, CommandId::TaskMoveUp, today, now);
            &&& down.result is Ok && up.result is Ok
            &&& down.db == ops::move_task(d, t.id, TaskMove::Down).0
            &&& up.db == ops::move_task(d, t.id, TaskMove::Up).0
            &&& effects::cursor_follows(down.app, t.id)
            &&& effects::cursor_follows(up.app, t.id)
        }),
{
    let k = effects::lemma_cursor(a, d, t);
    siblings::moving_changes_places_with_the_next(d, t.id, TaskMove::Down);
    siblings::moving_changes_places_with_the_next(d, t.id, TaskMove::Up);
    let e = ops::move_task(d, t.id, TaskMove::Down).0;
    let f = ops::move_task(d, t.id, TaskMove::Up).0;
    effects::lemma_selecting(model::reloaded(a, e, today), t.id);
    effects::lemma_selecting(model::reloaded(a, f, today), t.id);
}

/// Undo and redo from the tree undo and redo the store's last step, read
/// everything anew and say what was done; with nothing to do they say that.
pub proof fn undo_and_redo_act_on_the_store(
    a: AppV,
    d: DbV,
    today: Seq<char>,
    now: Seq<char>,
)
    ensures
        ({
            let undo = model::tree_command(a, d, CommandId::Undo, today, now);
            let redo = model::tree_command(a, d, CommandId::Redo, today, now);
            &&& undo.db == ops::undo(d).0
            &&& redo.db == ops::redo(d).0
            &&& match ops::undo(d).1 {
                None => undo.result is Ok && undo.app == (AppV {
                    status_line: Some("nothing to undo"@),
                    ..a
                }),
                Some(o) => undo.result is Ok ==> {
                    &&& undo.app.status_line == Some("undid"@ + ": "@ + o.description)
                    &&& undo.app.tasks == model::stored_tasks(undo.db)
                    &&& undo.app.statuses == plans::statuses(undo.db.tables.statuses)
                    &&& undo.app.filter == a.filter
                },
            }
            &&& match ops::redo(d).1 {
                None => redo.result is Ok && redo.app == (AppV {
                    status_line: Some("nothing to redo"@),
                    ..a
                }),
                Some(o) => redo.result is Ok ==> {
                    &&& redo.app.status_line == Some("redid"@ + ": "@ + o.description)
                    &&& redo.app.tasks == model::stored_tasks(redo.db)
                    &&& redo.app.statuses == plans::statuses(redo.db.tables.statuses)
                    &&& redo.app.filter == a.filter
                },
            }
        }),
{
}

/// The filter menu: `a` for all, `o` for the open, `!` for the overdue
/// tasks, and the key of a status for the tasks that carry it. Other keys
/// leave the menu open.
pub proof fn the_filter_menu_sets_the_filter(
    a: AppV,
    d: DbV,
    c: char,
    today: Seq<char>,
    now: Seq<char>,
)
    requires
        a.mode is FilterSelect,
    ensures
        ({
            let s = model::pressed(a, d, Key::Char(c), today, now);
            &&& s.db == d && s.result is Ok
            &&& s.app.tasks == a.tasks && s.app.expanded == a.expanded
            &&& c == 'a' ==> s.app.filter == Filter::All && s.app.mode is Tree
            &&& c == 'o' ==> s.app.filter == Filter::Open && s.app.mode is Tree
            &&& c == '!' ==> s.app.filter == Filter::Overdue && s.app.mode is Tree
            &&& c != 'a' && c != 'o' && c != '!' ==> {
                ||| s.app.mode is Tree && exists|k: int|
                    {
                        &&& 0 <= k < a.statuses.len()
                        &&& (#[trigger] a.statuses[k]).key == c
                        &&& s.app.filter == Filter::Status(a.statuses[k].id)
                        &&& forall|j: int| 0 <= j < k ==> (#[trigger] a.statuses[j]).key != c
                    }
                ||| s.app.mode is FilterSelect && s.app.filter == a.filter && forall|k: int|
                    0 <= k < a.statuses.len() ==> (#[trigger] a.statuses[k]).key != c
            }
        }),
{
    lemma_with_key(a.statuses, c);
    let k = query_view::with_key(a.statuses, c);
    if k < a.statuses.len() {
        assert(a.statuses[k].key == c);
    }
}

/// While a search is typed its results are always those of the text so far,
/// under the filter and sort in force; an empty text asks for everything.
pub proof fn a_search_follows_the_typing(a: AppV, d: DbV, s: QueryStateV, key: Key, today: Seq<char>, now: Seq<char>)
    requires
        a.mode == ModeV::Query(s),
        s.focus == query_view::Focus::Edit,
        input::edited(s.editor, key) is Continue,
    ensures
        ({
            let r = model::pressed(a, d, key, today, now);
            let text = input::edited(s.editor, key)->Continue_0.text;
            let q = QueryV {
                text: if text.len() == 0 {
                    None
                } else {
                    Some(text)
                },
                filter: a.filter,
                sort: s.sort,
            };
            &&& r.db == d
            &&& r.app.mode is Query
            &&& r.app.mode->Query_0.editor.text == text
            &&& r.app.mode->Query_0.results == plans::search(d.tables, q, today)
            &&& r.app.mode->Query_0.sort == s.sort
            &&& r.app.filter == a.filter
            &&& r.app.tasks == a.tasks
        }),
{
}

/// The search opens empty, on everything that the filter lets through.
pub proof fn a_search_opens_on_everything(a: AppV, d: DbV, today: Seq<char>, now: Seq<char>)
    ensures
        ({
            let r = model::tree_command(a, d, CommandId::ViewSearch, today, now);
            let q = QueryV { text: None, filter: a.filter, sort: Sort::TreeOrder };
            &&& r.db == d
            &&& r.app.mode is Query
            &&& r.app.mode->Query_0.editor.text.len() == 0
            &&& r.app.mode->Query_0.focus == query_view::Focus::Edit
            &&& r.app.mode->Query_0.results == plans::search(d.tables, q, today)
            &&& r.app.tasks == a.tasks
        }),
{
}

/// The sort menu: `d` by due date, `u` by update, `c` by creation, `t` by
/// title, `-` in tree order. The results are then those in that order; other
/// keys leave the menu open.
pub proof fn the_sort_menu_sorts_the_results(
    a: AppV,
    d: DbV,
    s: QueryStateV,
    c: char,
    today: Seq<char>,
    now: Seq<char>,
)
    requires
        a.mode == ModeV::Query(s),
        s.focus == query_view::Focus::SortMenu,
    ensures
        ({
            let r = model::pressed(a, d, Key::Char(c), today, now);
            let sort = if c == 'd' {
                Some(Sort::Due)
            } else if c == 'u' {
                Some(Sort::Updated)
            } else if c == 'c' {
                Some(Sort::Created)
            } else if c == 't' {
                Some(Sort::Title)
            } else if c == '-' {
                Some(Sort::TreeOrder)
            } else {
                None
            };
            let text = s.editor.text;
            &&& r.db == d
            &&& r.app.mode is Query
            &&& r.app.mode->Query_0.editor.text == text
            &&& sort is Some ==> {
                &&& r.app.mode->Query_0.sort == sort->Some_0
                &&& r.app.mode->Query_0.focus == query_view::Focus::Browse
                &&& r.app.mode->Query_0.results == plans::search(
                    d.tables,
                    QueryV {
                        text: if text.len() == 0 {
                            None
                        } else {
                            Some(text)
                        },
                        filter: a.filter,
                        sort: sort->Some_0,
                    },
                    today,
                )
            }
            &&& sort is None ==> r.app.mode == a.mode
        }),
{
    reveal_with_fuel(query_view::choice_of, 6);
}

/// A filter chosen in the search filters its results, and the tree with
/// them.
pub proof fn a_filter_chosen_in_the_search_filters_both(
    a: AppV,
    d: DbV,
    s: QueryStateV,
    c: char,
    today: Seq<char>,
    now: Seq<char>,
)
    requires
        a.mode == ModeV::Query(s),
        s.focus == query_view::Focus::FilterMenu,
    ensures
        ({
            let r = model::pressed(a, d, Key::Char(c), today, now);
            let filter = r.app.filter;
            let text = s.editor.text;
            &&& r.db == d
            &&& r.app.mode is Query
            &&& c == 'a' ==> filter == Filter::All
            &&& c == 'o' ==> filter == Filter::Open
            &&& c == '!' ==> filter == Filter::Overdue
            &&& c != 'a' && c != 'o' && c != '!' ==> {
                ||| exists|k: int|
                    {
                        &&& 0 <= k < a.statuses.len()
                        &&& (#[trigger] a.statuses[k]).key == c
                        &&& filter == Filter::Status(a.statuses[k].id)
                    }
                ||| r.app.mode == a.mode && filter == a.filter && forall|k: int|
                    0 <= k < a.statuses.len() ==> (#[trigger] a.statuses[k]).key != c
            }
            &&& r.app.mode->Query_0.focus == query_view::Focus::Browse
                ==> r.app.mode->Query_0.results == plans::search(
                d.tables,
                QueryV {
                    text: if text.len() == 0 {
                        None
                    } else {
                        Some(text)
                    },
                    filter,
                    sort: s.sort,
                },
                today,
            )
            &&& r.app.mode->Query_0.focus == query_view::Focus::Browse || r.app.mode == a.mode
        }),
{
    lemma_with_key(a.statuses, c);
    let k = query_view::with_key(a.statuses, c);
    if k < a.statuses.len() {
        assert(a.statuses[k].key == c);
    }
}

} // verus!

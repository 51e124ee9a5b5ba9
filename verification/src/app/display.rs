//! What the screen shows of a session, and how long a message or a sequence
//! of keys lasts, told from the session itself.
use vstd::prelude::*;

use crate::app::effects;
use crate::app::model;
use crate::app::model::{AppV, ModeV};
use crate::app::screen;
use crate::app::screen::{ContentV, ScreenV};
use crate::app::InputAction;
use crate::command::CommandId;
use crate::config::ConfigV;
use crate::help;
use crate::input::EditorV;
use crate::key::Key;
use crate::keymap;
use crate::note;
use crate::ops;
use crate::plans;
use crate::query::Filter;
use crate::query_view;
use crate::showing;
use crate::status::StatusV;
use crate::status_manage::EditingV;
use crate::tables::DbV;
use crate::task::TaskV;
use crate::text;
use crate::tree;

verus! {

/// The screen has a line for every row, and on it the task's title behind an
/// indent for its depth and a mark for its children. The cursor is shown
/// wherever there is a row.
pub proof fn each_row_has_its_line(a: AppV, width: u16, height: u16, today: Seq<char>, k: int)
    requires
        0 <= k < a.rows.len(),
    ensures
        ({
            let screen = screen::screen_of(a, width, height, today);
            let row = a.rows[k];
            let t = a.tasks[row.task_index];
            let line = screen.rows[k];
            let prefix = line[0].content;
            &&& screen.rows.len() == a.rows.len()
            &&& screen.selected == Some(a.selected)
            &&& screen.message == a.status_line
            &&& line[1].content == t.title
            &&& prefix.len() == 2 * row.depth + 2
            &&& prefix[2 * row.depth as int] == '▾' <==> row.has_children
                && a.expanded.contains(t.id)
            &&& prefix[2 * row.depth as int] == '▸' <==> row.has_children
                && !a.expanded.contains(t.id)
        }),
{
    let row = a.rows[k];
    let t = a.tasks[row.task_index];
    showing::a_row_is_indented_by_its_depth(row.depth, row.has_children, a.expanded.contains(t.id));
    assert(screen::screen_of(a, width, height, today).rows[k] == screen::row_line(a, k, today));
}

/// Above the rows stands the path of the zoomed task, below them the note of
/// the selected one under a heading, unless a popup covers them or the note
/// is blank. The note gets a third of the screen, within bounds.
pub proof fn the_screen_tells_zoom_and_note(a: AppV, width: u16, height: u16, today: Seq<char>)
    requires
        a.selected < a.rows.len(),
        0 <= a.rows[a.selected as int].task_index < a.tasks.len(),
    ensures
        ({
            let screen = screen::screen_of(a, width, height, today);
            let t = a.tasks[a.rows[a.selected as int].task_index];
            let blank = forall|k: int|
                0 <= k < t.note.len() ==> text::is_space(#[trigger] t.note[k]);
            let popup = a.mode is StatusManage || a.mode is Help || a.mode is Query;
            &&& a.filter == Filter::All && a.zoom_root is None ==> screen.header is None
            &&& a.filter == Filter::All ==> (a.zoom_root matches Some(id) ==> screen.header
                == Some(tree::path_text(a.tasks, id)))
            &&& screen.note.len() == 0 <==> popup || blank || text::lines_of(t.note).len() == 0
            &&& screen.note.len() > 0 ==> exists|max: nat| #[trigger]
                is_note_room(height, max) && screen.note.len() == note::pane(t.note, max).len() + 1
                    && forall|i: int|
                    0 <= i < note::pane(t.note, max).len() ==> (#[trigger] screen.note[i + 1]).len()
                        == 1 && screen.note[i + 1][0].content == note::pane(t.note, max)[i]
        }),
{
    let t = a.tasks[a.rows[a.selected as int].task_index];
    let max = screen::note_budget(height) as nat;
    effects::typed_text_loses_the_space_around_it(t.note);
    showing::a_long_note_loses_its_middle(t.note, max);
    assert(is_note_room(height, max));
    let pane = note::pane(t.note, max);
    let shown = screen::screen_of(a, width, height, today).note;
    if shown.len() > 0 {
        assert forall|i: int| 0 <= i < pane.len() implies (#[trigger] shown[i + 1]).len() == 1
            && shown[i + 1][0].content == pane[i] by {}
    }
}

/// How many lines of a note are shown: a third of the screen's, but at least
/// eight and at most twenty.
pub open spec fn is_note_room(height: u16, max: nat) -> bool {
    &&& 8 <= max <= 20
    &&& 24 <= height <= 60 ==> 3 * max <= height < 3 * max + 3
    &&& height < 24 ==> max == 8
    &&& height > 60 ==> max == 20
}

/// The rows of the tasks get what the other lines leave of the screen.
pub proof fn the_rows_get_what_is_left(screen: ScreenV, height: u16)
    ensures
        ({
            let one = |present: bool|
                if present {
                    1int
                } else {
                    0
                };
            let others = one(screen.header is Some) + one(screen.input is Some) + one(
                screen.message is Some,
            ) + screen.note.len() + one(screen.footer is Some);
            &&& others <= height ==> screen::rows_left(screen, height) + others == height
            &&& others > height ==> screen::rows_left(screen, height) == 0
        }),
{
}

/// An input line is the prompt and the text, with the character at the
/// cursor turned over, or a blank behind the text where the cursor is at its
/// end.
pub proof fn the_cursor_stands_in_the_input(prompt: Seq<char>, e: EditorV)
    requires
        e.at <= e.text.len(),
    ensures
        ({
            let line = screen::input_spans(prompt, e);
            let whole = line[0].content + line[1].content + line[2].content + line[3].content;
            &&& line.len() == 4
            &&& whole == prompt + e.text + if e.at == e.text.len() {
                seq![' ']
            } else {
                seq![]
            }
            &&& line[0].content == prompt
            &&& line[1].content.len() == e.at
            &&& line[2].content.len() == 1
            &&& line[2].style.reversed && !line[0].style.reversed && !line[1].style.reversed
                && !line[3].style.reversed
        }),
{
    reveal_strlit(" ");
    let line = screen::input_spans(prompt, e);
    let whole = line[0].content + line[1].content + line[2].content + line[3].content;
    assert(" "@ =~= seq![' ']);
    if e.at < e.text.len() {
        assert(whole =~= prompt + e.text + seq![]);
    } else {
        assert(whole =~= prompt + e.text + seq![' ']);
    }
}

/// Where keys are looked up, they are looked up among the bindings of the
/// context whose hints the footer shows, behind the keys already pending. A
/// key that runs no command changes nothing but the pending keys, and takes
/// the last message away.
pub proof fn keys_go_by_the_context_shown(a: AppV, d: DbV, key: Key, today: Seq<char>, now: Seq<char>)
    requires
        match a.mode {
            ModeV::Tree => true,
            ModeV::Query(s) => s.focus == query_view::Focus::Browse,
            ModeV::Help(s) => s.focus == help::Focus::Browse,
            ModeV::StatusManage(s) => s.editing is Nothing,
            _ => false,
        },
        keymap::dispatched(a.pending, a.bindings, model::context_of(a.mode), key).1 is None,
    ensures
        ({
            let s = model::pressed(a, d, key, today, now);
            &&& s.db == d
            &&& s.result is Ok
            &&& s.app == AppV {
                pending: keymap::dispatched(
                    a.pending,
                    a.bindings,
                    model::context_of(a.mode),
                    key,
                ).0,
                status_line: None,
                ..a
            }
        }),
{
}

/// Rebuilding the rows keeps the tasks, the filter and what is expanded. The
/// zoom is kept while its task exists, and the cursor where it is as long as
/// there is a row.
pub proof fn the_view_is_kept_where_it_can_be(a: AppV, today: Seq<char>)
    ensures
        ({
            let b = model::rebuilt(a, today);
            let there = exists|k: int|
                0 <= k < a.tasks.len() && Some((#[trigger] a.tasks[k]).id) == a.zoom_root;
            &&& b.tasks == a.tasks && b.statuses == a.statuses && b.filter == a.filter
            &&& b.expanded == a.expanded && b.mode == a.mode && b.bindings == a.bindings
            &&& b.pending == a.pending && b.status_line == a.status_line
            &&& there ==> b.zoom_root == a.zoom_root
            &&& !there ==> b.zoom_root is None
            &&& a.selected < b.rows.len() <= usize::MAX ==> b.selected == a.selected
            &&& a.selected >= b.rows.len() && 0 < b.rows.len() <= usize::MAX ==> b.selected
                == b.rows.len() - 1
            &&& b.rows.len() == 0 ==> b.selected == 0
        }),
{
    if let Some(id) = a.zoom_root {
        lemma_first_with(a.tasks, id);
    }
}

proof fn lemma_first_with(ts: Seq<TaskV>, id: i64)
    ensures
        0 <= tree::first_with(ts, id) <= ts.len(),
        tree::first_with(ts, id) < ts.len() <==> exists|k: int|
            0 <= k < ts.len() && (#[trigger] ts[k]).id == id,
        tree::first_with(ts, id) < ts.len() ==> ts[tree::first_with(ts, id)].id == id,
    decreases ts.len(),
{
    if ts.len() > 0 && ts[0].id != id {
        let rest = ts.drop_first();
        lemma_first_with(rest, id);
        if exists|k: int| 0 <= k < ts.len() && (#[trigger] ts[k]).id == id {
            let k = choose|k: int| 0 <= k < ts.len() && (#[trigger] ts[k]).id == id;
            assert(rest[k - 1].id == id);
        }
        if exists|k: int| 0 <= k < rest.len() && (#[trigger] rest[k]).id == id {
            let k = choose|k: int| 0 <= k < rest.len() && (#[trigger] rest[k]).id == id;
            assert(ts[k + 1].id == id);
        }
    }
}

/// A session starts in the tree with everything folded and nothing filtered,
/// zoomed, typed or said. The settings set the bindings and the footer, and
/// there is a message exactly where some sequence cannot be typed.
pub proof fn a_session_starts_plain(
    tasks: Seq<TaskV>,
    statuses: Seq<StatusV>,
    default: i64,
    c: ConfigV,
    today: Seq<char>,
)
    ensures
        ({
            let a = model::started(tasks, statuses, default, today);
            let b = model::with_config(a, c);
            let warned = keymap::warnings(c.bindings, c.bindings.len() as int).len() > 0;
            &&& a.tasks == tasks && a.statuses == statuses && a.default_status_id == default
            &&& a.mode is Tree && a.filter == Filter::All && a.zoom_root is None
            &&& a.selected == 0 && a.pending.len() == 0 && a.status_line is None
            &&& a.show_footer && !a.should_quit && a.pending_note_edit is None
            &&& forall|id: i64| !(#[trigger] a.expanded.contains(id))
            &&& b.bindings == c.bindings
            &&& b.show_footer == c.footer
            &&& b.status_line is Some <==> warned
            &&& b == AppV {
                bindings: b.bindings,
                show_footer: b.show_footer,
                status_line: b.status_line,
                ..a
            }
        }),
{
}

/// Of the tasks that undo touched, those that still exist are revealed, in
/// their order.
pub proof fn what_exists_survives(ts: Seq<TaskV>, ids: Seq<i64>, id: i64)
    ensures
        model::surviving(ts, seq![]).len() == 0,
        (exists|k: int| 0 <= k < ts.len() && (#[trigger] ts[k]).id == id) ==> model::surviving(
            ts,
            ids.push(id),
        ) == model::surviving(ts, ids).push(id),
        (forall|k: int| 0 <= k < ts.len() ==> (#[trigger] ts[k]).id != id) ==> model::surviving(
            ts,
            ids.push(id),
        ) == model::surviving(ts, ids),
{
    lemma_first_with(ts, id);
    assert(ids.push(id).drop_last() =~= ids);
}

/// The sessions agree on all but the tasks, the rows and the cursor, what is
/// expanded, and a zoom that may have lost its task. What was expanded stays
/// so, and at most one task is expanded anew.
pub open spec fn keeps_the_view(a: AppV, b: AppV) -> bool {
    &&& b.filter == a.filter && b.statuses == a.statuses && b.mode == a.mode
    &&& b.bindings == a.bindings && b.pending == a.pending && b.show_footer == a.show_footer
    &&& b.default_status_id == a.default_status_id && b.should_quit == a.should_quit
    &&& b.zoom_root == a.zoom_root || b.zoom_root is None
    &&& forall|x: i64| #[trigger] a.expanded.contains(x) ==> b.expanded.contains(x)
    &&& forall|x: i64, y: i64|
        #![trigger b.expanded.contains(x), b.expanded.contains(y)]
        b.expanded.contains(x) && b.expanded.contains(y) && !a.expanded.contains(x)
            && !a.expanded.contains(y) ==> x == y
}

/// Moving, indenting, outdenting, restating and deleting tasks leave the
/// view as it is but for the tasks and the cursor.
pub proof fn an_edit_keeps_the_view(a: AppV, d: DbV, today: Seq<char>, now: Seq<char>)
    ensures
        keeps_the_view(a, model::tree_command(a, d, CommandId::TaskIndent, today, now).app),
        keeps_the_view(a, model::tree_command(a, d, CommandId::TaskOutdent, today, now).app),
        keeps_the_view(a, model::tree_command(a, d, CommandId::TaskMoveUp, today, now).app),
        keeps_the_view(a, model::tree_command(a, d, CommandId::TaskMoveDown, today, now).app),
        keeps_the_view(a, model::tree_command(a, d, CommandId::StatusNext, today, now).app),
        keeps_the_view(a, model::tree_command(a, d, CommandId::StatusPrev, today, now).app),
        forall|id: i64| keeps_the_view(a, #[trigger] model::deleted(a, d, id, today).app),
{
}

/// Confirming a typed title or date leaves the view as it is but for the
/// tasks and the cursor; a date that is none stays open to be mended.
pub proof fn a_confirmed_input_keeps_the_view(
    a: AppV,
    d: DbV,
    action: InputAction,
    typed: Seq<char>,
    today: Seq<char>,
    now: Seq<char>,
)
    ensures
        ({
            let b = model::submitted(a, d, action, typed, today, now).app;
            ||| keeps_the_view(a, b)
            ||| action is SetDue && b == AppV {
                mode: b.mode,
                status_line: b.status_line,
                ..a
            } && (b.mode matches ModeV::Input { editor, action: again } && editor.text == typed
                && again == action)
        }),
{
}

/// A popup lists what it is about: the search its results, each with its own
/// lines, the help its lines, and the modal its table, scrolled so that the
/// row of the cursor shows.
pub proof fn a_popup_lists_what_it_is_about(a: AppV, height: usize, today: Seq<char>)
    ensures
        a.mode matches ModeV::Query(s) ==> {
            &&& s.results.len() == 0 ==> screen::content_of(a, height, today) is Notice
            &&& s.results.len() > 0 ==> {
                &&& screen::content_of(a, height, today) matches ContentV::Items { items, selected }
                &&& selected == s.selected
                &&& items.len() == s.results.len()
                &&& forall|k: int|
                    0 <= k < items.len() ==> #[trigger] items[k] == query_view::result_lines(
                        s.results[k],
                        a.statuses,
                        a.tasks,
                        s.editor.text,
                        today,
                    )
            }
        },
        a.mode matches ModeV::Help(s) ==> {
            &&& model::help_count(a, s) <= s.scroll ==> screen::content_of(a, height, today) is Notice
            &&& s.scroll < model::help_count(a, s) ==> {
                &&& screen::content_of(a, height, today) matches ContentV::Lines { lines, offset }
                &&& lines.len() == model::help_count(a, s)
                &&& offset == s.scroll
            }
        },
        a.mode matches ModeV::StatusManage(s) ==> {
            &&& screen::content_of(a, height, today) matches ContentV::Lines { lines, offset }
            &&& lines.len() == a.statuses.len() + 1
            &&& height > 0 && s.row < usize::MAX ==> offset <= s.row + 1 < offset + height
        },
{
}

/// Renaming starts from the title, and setting a date from the date that is
/// set, with the cursor behind it.
pub proof fn an_input_starts_from_what_is_there(a: AppV, t: TaskV, today: Seq<char>)
    requires
        effects::cursor_on(a, t),
    ensures
        ({
            let rename = model::commanded(a, CommandId::RenameTask, today);
            let due = model::commanded(a, CommandId::SetDue, today);
            &&& rename == AppV { mode: rename.mode, ..a }
            &&& rename.mode matches ModeV::Input { editor, action }
            &&& editor.text == t.title && editor.at == t.title.len()
            &&& action == InputAction::Rename(t.id)
            &&& due == AppV { mode: due.mode, ..a }
            &&& due.mode matches ModeV::Input { editor, action }
            &&& t.due is None ==> editor.text.len() == 0
            &&& t.due is Some ==> editor.text == t.due->Some_0
            &&& editor.at == editor.text.len()
            &&& action == InputAction::SetDue(t.id)
        }),
{
}

/// A popup's lines get what its border leaves, and a prompt with the divider
/// below it, where there is one. Its title gets what corners and blanks
/// leave.
pub proof fn a_popup_loses_its_border(size: u16, prompt: bool)
    ensures
        ({
            let taken: int = if prompt {
                4
            } else {
                2
            };
            &&& size >= taken ==> screen::popup_rows_left(size, prompt) + taken == size
            &&& size < taken ==> screen::popup_rows_left(size, prompt) == 0
            &&& size >= 4 ==> screen::title_budget(size) + 4 == size
            &&& size < 4 ==> screen::title_budget(size) == 0
        }),
{
}

/// A popup that takes text shows the text being typed, with its cursor, and
/// one that does not shows no prompt. A help filter and a search stand in
/// the title.
pub proof fn a_popup_shows_what_is_typed(a: AppV)
    ensures
        ({
            let shows = |e: EditorV|
                screen::prompt_line(a) is Some && screen::prompt_line(a)->Some_0
                    == screen::input_spans(screen::prompt_line(a)->Some_0[0].content, e);
            &&& a.mode matches ModeV::Query(s) ==> {
                &&& s.focus == query_view::Focus::Edit ==> shows(s.editor)
                &&& s.focus != query_view::Focus::Edit ==> screen::prompt_line(a) is None
                &&& screen::title_text(a) == query_view::header_line(
                    s.editor.text,
                    s.sort,
                    a.filter,
                    a.statuses,
                )
            }
            &&& a.mode matches ModeV::Help(s) ==> {
                &&& s.focus == help::Focus::Edit ==> shows(s.editor)
                &&& s.focus == help::Focus::Browse ==> screen::prompt_line(a) is None
                &&& s.editor.text.len() == 0 ==> screen::title_text(a) == "help"@
                &&& s.editor.text.len() > 0 ==> screen::title_text(a) == "help: "@ + s.editor.text
            }
            &&& a.mode matches ModeV::StatusManage(s) ==> match s.editing {
                EditingV::Cell(e) => shows(e),
                EditingV::NewStatus(e) => shows(e),
                EditingV::KeyCapture => screen::prompt_line(a) is Some,
                EditingV::Nothing => screen::prompt_line(a) is None,
            }
            &&& a.mode is Tree ==> screen::prompt_line(a) is None
        }),
{
}

/// Revealing a task expands all that it is under and nothing else, and keeps
/// the zoom exactly where the task is under the zoomed one.
pub proof fn revealing_expands_what_is_above(a: AppV, id: i64, x: i64, today: Seq<char>)
    ensures
        ({
            let b = model::revealed(a, id, today);
            let above = tree::ancestors(a.tasks, id);
            &&& b.expanded.contains(x) <==> a.expanded.contains(x) || above.contains(x)
            &&& b.filter == a.filter && b.tasks == a.tasks && b.statuses == a.statuses
            &&& b.mode == a.mode
            &&& a.zoom_root == Some(x) && !above.contains(x) ==> b.zoom_root is None
            &&& a.zoom_root == Some(x) && above.contains(x) && (exists|k: int|
                0 <= k < a.tasks.len() && (#[trigger] a.tasks[k]).id == x) ==> b.zoom_root == Some(x)
            &&& a.zoom_root is None ==> b.zoom_root is None
        }),
{
    lemma_first_with(a.tasks, x);
    let above = tree::ancestors(a.tasks, id);
    assert(above.to_set().contains(x) <==> above.contains(x));
}

/// What undo brings back is opened up: of every task it touched that still
/// exists, all that it is under is expanded, and nothing else is that was
/// not before.
pub proof fn undo_opens_the_way_to_what_it_touched(
    ts: Seq<TaskV>,
    ids: Seq<i64>,
    expanded: Set<i64>,
    x: i64,
)
    ensures
        model::opened_for(ts, ids, expanded).contains(x) <==> expanded.contains(x) || exists|i: int|
            0 <= i < ids.len() && tree::ancestors(ts, #[trigger] ids[i]).contains(x),
    decreases ids.len(),
{
    if ids.len() > 0 {
        let front = ids.drop_last();
        let last: int = ids.len() - 1;
        undo_opens_the_way_to_what_it_touched(ts, front, expanded, x);
        let above = tree::ancestors(ts, ids[last]);
        assert(above.to_set().contains(x) <==> above.contains(x));
        if exists|i: int|
            0 <= i < front.len() && tree::ancestors(ts, #[trigger] front[i]).contains(x) {
            let i = choose|i: int|
                0 <= i < front.len() && tree::ancestors(ts, #[trigger] front[i]).contains(x);
            assert(ids[i] == front[i]);
        }
        if exists|i: int| 0 <= i < ids.len() && tree::ancestors(ts, #[trigger] ids[i]).contains(x) {
            let i = choose|i: int|
                0 <= i < ids.len() && tree::ancestors(ts, #[trigger] ids[i]).contains(x);
            if i < last {
                assert(front[i] == ids[i]);
            }
        }
    }
}

/// Undo and redo from the tree show the store as it is then, tasks and
/// statuses, with what was expanded still expanded, and what they touched
/// opened up; the filter stays.
pub proof fn undo_shows_the_store_anew(a: AppV, d: DbV, redo: bool, x: i64, today: Seq<char>, now: Seq<char>)
    ensures
        ({
            let command = if redo {
                CommandId::Redo
            } else {
                CommandId::Undo
            };
            let s = model::tree_command(a, d, command, today, now);
            let (e, o) = if redo {
                ops::redo(d)
            } else {
                ops::undo(d)
            };
            &&& s.db == e
            &&& o is None ==> s.result is Ok && s.app == AppV {
                status_line: s.app.status_line,
                ..a
            } && s.app.status_line is Some
            &&& o is Some && s.result is Ok ==> {
                let ids = model::surviving(s.app.tasks, o->Some_0.affected_task_ids);
                &&& s.app.tasks == model::stored_tasks(e)
                &&& s.app.statuses == plans::statuses(e.tables.statuses)
                &&& s.app.filter == a.filter && s.app.mode == a.mode
                &&& a.expanded.contains(x) ==> s.app.expanded.contains(x)
                &&& forall|i: int|
                    0 <= i < ids.len() && tree::ancestors(
                        s.app.tasks,
                        #[trigger] ids[i],
                    ).contains(x) ==> s.app.expanded.contains(x)
            }
        }),
{
    let (e, o) = if redo {
        ops::redo(d)
    } else {
        ops::undo(d)
    };
    if let Some(o) = o {
        let ts = model::stored_tasks(e);
        let ids = model::surviving(ts, o.affected_task_ids);
        undo_opens_the_way_to_what_it_touched(ts, ids, a.expanded, x);
    }
}

} // verus!

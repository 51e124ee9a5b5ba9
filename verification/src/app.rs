//! The interactive session: what is shown, which mode it is in, and what
//! each key does. Terminal and file access live outside; a key press is a
//! function of the session, the store and the clock.
use std::collections::HashSet;

use vstd::prelude::*;

use crate::clock;
use crate::command::Context;
use crate::config::Config;
use crate::db;
use crate::db::Db;
use crate::error::{Error, ErrorV};
use crate::help;
use crate::help::HelpState;
use crate::input::Editor;
use crate::keymap::{Dispatcher, Keymap};
use crate::query::Filter;
use crate::query_view;
use crate::query_view::QueryState;
use crate::status;
use crate::status::Status;
use crate::status_manage::{Editing, ManageState};
use crate::tables::DbV;
use crate::task;
use crate::task::Task;
use crate::text;
use crate::tree;
use crate::tree::{CreateTarget, Row};

pub mod display;
pub mod editing;
pub mod effects;
pub mod keys;
pub mod laws;
pub mod manage;
pub mod modal;
pub mod model;
pub mod moves;
pub mod screen;
pub mod views;

use crate::app::model::{AppV, ModeV, Step};

verus! {

broadcast use vstd::std_specs::hash::group_hash_axioms;

/// What submitting the input line should do. Decided when the input opens,
/// so every key that opens it shares one submit path.
#[derive(Debug, Clone, Copy, PartialEq, Eq, Structural)]
pub enum InputAction {
    Create(CreateTarget),
    Rename(i64),
    SetDue(i64),
}

/// What is asked for in front of the input line.
pub open spec fn prompt_text(action: InputAction) -> Seq<char> {
    match action {
        InputAction::Create(_) => "New task: "@,
        InputAction::Rename(_) => "Rename: "@,
        InputAction::SetDue(_) => "Due (YYYY-MM-DD): "@,
    }
}

impl InputAction {
    pub fn prompt(&self) -> (r: &'static str)
        ensures
            r@ == prompt_text(*self),
    {
        match self {
            InputAction::Create(_) => "New task: ",
            InputAction::Rename(_) => "Rename: ",
            InputAction::SetDue(_) => "Due (YYYY-MM-DD): ",
        }
    }
}

/// Which direction through the edit history a key asked for.
#[derive(Debug, Clone, Copy, PartialEq, Eq, Structural)]
pub enum History {
    Undo,
    Redo,
}

impl History {
    pub fn empty_message(self) -> (r: &'static str)
        ensures
            r@ == model::empty_message(self),
    {
        match self {
            History::Undo => "nothing to undo",
            History::Redo => "nothing to redo",
        }
    }

    pub fn verb(self) -> (r: &'static str)
        ensures
            r@ == model::verb(self),
    {
        match self {
            History::Undo => "undid",
            History::Redo => "redid",
        }
    }
}

pub enum Mode {
    Tree,
    Input { editor: Editor, action: InputAction },
    StatusSelect { task_id: i64 },
    StatusManage(ManageState),
    /// Waiting for the user to confirm deleting `task_id`'s subtree of
    /// `count` tasks. `y` deletes, any other key cancels.
    ConfirmDelete { task_id: i64, count: i64 },
    /// Picking a filter for the tree view. The same menu opened from the
    /// query view lives inside the query state instead, so it can fall back
    /// to browsing.
    FilterSelect,
    Query(QueryState),
    Help(HelpState),
}

impl View for Mode {
    type V = ModeV;

    open spec fn view(&self) -> ModeV {
        match *self {
            Mode::Tree => ModeV::Tree,
            Mode::Input { editor, action } => ModeV::Input { editor: editor@, action },
            Mode::StatusSelect { task_id } => ModeV::StatusSelect { task_id },
            Mode::StatusManage(state) => ModeV::StatusManage(state@),
            Mode::ConfirmDelete { task_id, count } => ModeV::ConfirmDelete { task_id, count },
            Mode::FilterSelect => ModeV::FilterSelect,
            Mode::Query(state) => ModeV::Query(state@),
            Mode::Help(state) => ModeV::Help(state@),
        }
    }
}

pub struct App {
    /// Status definitions loaded from the store at startup, in display
    /// order. Reloaded whenever they are edited (management UI, undo).
    pub statuses: Vec<Status>,
    /// Status applied to newly created tasks.
    pub default_status_id: i64,
    pub tasks: Vec<Task>,
    pub expanded: HashSet<i64>,
    pub rows: Vec<Row>,
    /// Index into `rows`, i.e. cursor position among visible lines.
    pub selected: usize,
    /// Task shown as the view root; its children render at depth 0. View
    /// state only, never persisted.
    pub zoom_root: Option<i64>,
    /// Which tasks the tree and the search show. Everything at first; view
    /// state only, never persisted.
    pub filter: Filter,
    pub mode: Mode,
    /// One-line notice shown above the footer (e.g. why a delete was
    /// refused). Cleared by the next key press.
    pub status_line: Option<String>,
    /// Task whose note should be opened in the external editor. Set by the
    /// edit-note command and consumed by the event loop, which owns the
    /// terminal needed for the handover.
    pub pending_note_edit: Option<i64>,
    pub keymap: Keymap,
    pub dispatcher: Dispatcher,
    /// Whether the key-hint footer line is shown. Seeded from the config,
    /// toggled at runtime; view state only, never persisted.
    pub show_footer: bool,
    pub should_quit: bool,
    /// Rows the task tree showed on the last draw; sizes half-page jumps.
    /// 0 until the first draw, which the jump step treats as one row.
    pub list_height: usize,
    /// Rows the modal popup's list showed on the last draw; sizes the
    /// half-page jumps of the query and help views.
    pub popup_height: usize,
}

impl View for App {
    type V = AppV;

    open spec fn view(&self) -> AppV {
        AppV {
            statuses: status::statuses_view(self.statuses@),
            default_status_id: self.default_status_id,
            tasks: task::tasks_view(self.tasks@),
            expanded: self.expanded@,
            rows: tree::rows_view(self.rows@),
            selected: self.selected,
            zoom_root: self.zoom_root,
            filter: self.filter,
            mode: self.mode@,
            status_line: task::text_option(self.status_line),
            pending_note_edit: self.pending_note_edit,
            bindings: self.keymap@,
            pending: self.dispatcher@,
            show_footer: self.show_footer,
            should_quit: self.should_quit,
            list_height: self.list_height,
            popup_height: self.popup_height,
        }
    }
}

pub open spec fn bool_result(r: Result<bool, Error>) -> Result<bool, ErrorV> {
    match r {
        Ok(b) => Ok(b),
        Err(e) => Err(e@),
    }
}

/// The outcome of a key.
pub open spec fn step(app: AppV, db: DbV, r: Result<(), Error>) -> Step {
    Step { app, db, result: db::unit_result(r) }
}

/// What every key keeps: the session and the store stay valid, the store
/// stays consistent, the statuses shown stay the stored ones, no task loses
/// its parent, and the cursor stays on a row.
pub open spec fn keeps(a: AppV, d: Db, b: AppV, e: Db) -> bool {
    &&& model::valid(b)
    &&& e.wf()
    &&& d.consistent() ==> e.consistent()
    &&& model::synced(a, d@) ==> model::synced(b, e@)
    &&& model::rooted(a) ==> model::rooted(b)
    &&& model::on_a_row(a) ==> model::on_a_row(b)
}

/// Rows one half-page jump covers: half the visible list, vim-style. At
/// least one row, so the keys work even before the first draw sizes the
/// list.
pub fn half_page_step(visible_height: usize) -> (r: usize)
    ensures
        r == model::half_page(visible_height),
{
    if visible_height / 2 >= 1 {
        visible_height / 2
    } else {
        1
    }
}

fn last_of(len: usize) -> (r: usize)
    ensures
        r == model::last_of(len as nat),
{
    if len == 0 {
        0
    } else {
        len - 1
    }
}

fn within(i: usize, len: usize) -> (r: usize)
    ensures
        r == model::within(i, len as nat),
{
    let last: usize = last_of(len);
    if i <= last {
        i
    } else {
        last
    }
}

fn next_of(i: usize, len: usize) -> (r: usize)
    ensures
        r == model::next_of(i, len as nat),
{
    if len > 0 && i < len - 1 {
        i + 1
    } else {
        i
    }
}

fn down_by(i: usize, step: usize, len: usize) -> (r: usize)
    ensures
        r == model::down_by(i, step, len as nat),
{
    let last: usize = last_of(len);
    if i <= last && step <= last - i {
        i + step
    } else {
        last
    }
}

fn up_by(i: usize, step: usize) -> (r: usize)
    ensures
        r == model::up_by(i, step),
{
    if step <= i {
        i - step
    } else {
        0
    }
}

impl App {
    /// The session over the given data, on the given day.
    pub fn new_at(tasks: Vec<Task>, statuses: Vec<Status>, default_status_id: i64, today: &str) -> (r:
        Self)
        requires
            model::valid_tasks(task::tasks_view(tasks@)),
        ensures
            r@ == model::started(
                task::tasks_view(tasks@),
                status::statuses_view(statuses@),
                default_status_id,
                today@,
            ),
            model::valid(r@),
            model::on_a_row(r@),
    {
        let mut app = App {
            statuses,
            default_status_id,
            tasks,
            expanded: HashSet::new(),
            rows: Vec::new(),
            selected: 0,
            zoom_root: None,
            filter: Filter::All,
            mode: Mode::Tree,
            status_line: None,
            pending_note_edit: None,
            keymap: Keymap::default(),
            dispatcher: Dispatcher::default(),
            show_footer: true,
            should_quit: false,
            list_height: 0,
            popup_height: 0,
        };
        assert(app@.rows =~= seq![]);
        assert(app@.expanded =~= Set::empty());
        app.rebuild_rows_at(today);
        app
    }

    /// The session over the given data.
    pub fn new(tasks: Vec<Task>, statuses: Vec<Status>, default_status_id: i64) -> (r: Self)
        requires
            model::valid_tasks(task::tasks_view(tasks@)),
        ensures
            exists|today: Seq<char>|
                clock::is_date(today) && r@ == #[trigger] model::started(
                    task::tasks_view(tasks@),
                    status::statuses_view(statuses@),
                    default_status_id,
                    today,
                ),
            model::valid(r@),
            model::on_a_row(r@),
    {
        let today = App::today();
        App::new_at(tasks, statuses, default_status_id, today.as_str())
    }

    /// The local date every overdue check compares against.
    pub fn today() -> (r: String)
        ensures
            clock::is_date(r@),
    {
        clock::today()
    }

    /// The context whose keys are active. While text is being typed, the
    /// active keys are the text-input ones, so those hints are shown.
    pub fn context(&self) -> (r: Context)
        ensures
            r == model::context_of(self@.mode),
    {
        match &self.mode {
            Mode::Tree => Context::Tree,
            Mode::Input { editor, action } => Context::Input,
            Mode::StatusSelect { task_id } => Context::StatusSelect,
            Mode::StatusManage(state) => match &state.editing {
                Editing::Cell(_) => Context::Input,
                Editing::NewStatus(_) => Context::Input,
                Editing::KeyCapture => Context::StatusManage,
                Editing::Nothing => Context::StatusManage,
            },
            Mode::ConfirmDelete { task_id, count } => Context::ConfirmDelete,
            Mode::FilterSelect => Context::FilterSelect,
            Mode::Query(state) => match state.focus {
                query_view::Focus::Edit => Context::Input,
                query_view::Focus::Browse => Context::Query,
                query_view::Focus::SortMenu => Context::SortSelect,
                query_view::Focus::FilterMenu => Context::FilterSelect,
            },
            Mode::Help(state) => match state.focus {
                help::Focus::Edit => Context::Input,
                help::Focus::Browse => Context::Help,
            },
        }
    }

    /// Rebuilds the rows from the tasks. A zoom root that vanished from the
    /// task list would render an empty, inescapable view; dropping the zoom
    /// is the safe fallback. Collapsing can shrink the row list past the
    /// cursor.
    pub fn rebuild_rows_at(&mut self, today: &str)
        requires
            model::valid_tasks(old(self)@.tasks),
        ensures
            final(self)@ == model::rebuilt(old(self)@, today@),
            model::valid_rows(final(self)@.rows, final(self)@.tasks.len()),
            model::on_a_row(final(self)@),
    {
        let ghost a = self@;
        if let Some(id) = self.zoom_root {
            if tree::find_first(&self.tasks, id).is_none() {
                self.zoom_root = None;
            }
        }
        let visible = tree::filter_visible_ids(&self.tasks, &self.statuses, self.filter, today);
        let shown = visible.as_ref();
        self.rows = tree::build_visible_rows(&self.tasks, &self.expanded, self.zoom_root, shown);
        self.selected = within(self.selected, self.rows.len());
        proof {
            assert(tree::look_of(self.expanded@, shown) == (tree::Look {
                expanded: a.expanded,
                visible: tree::visible_ids(a.tasks, a.statuses, a.filter, today@),
            }));
            assert(self@ =~= model::rebuilt(a, today@));
            assert forall|k: int| 0 <= k < self@.rows.len() implies 0 <= (
            #[trigger] self@.rows[k]).task_index < self@.tasks.len() by {
                assert(self.rows@[k].task_index < self.tasks@.len());
            }
        }
    }

    pub fn rebuild_rows(&mut self)
        requires
            model::valid_tasks(old(self)@.tasks),
        ensures
            exists|today: Seq<char>|
                clock::is_date(today) && final(self)@ == #[trigger] model::rebuilt(
                    old(self)@,
                    today,
                ),
            model::valid_rows(final(self)@.rows, final(self)@.tasks.len()),
            model::on_a_row(final(self)@),
    {
        let today = App::today();
        self.rebuild_rows_at(today.as_str());
    }

    /// Reads the tasks anew.
    fn reload(&mut self, db: &Db, today: &str) -> (r: Result<(), Error>)
        requires
            db.wf(),
        ensures
            r is Ok,
            final(self)@ == model::reloaded(old(self)@, db@, today@),
            model::valid_tasks(final(self)@.tasks),
            model::rooted(final(self)@),
            model::valid_rows(final(self)@.rows, final(self)@.tasks.len()),
            model::on_a_row(final(self)@),
    {
        let ghost a = self@;
        match db.list_all() {
            Ok(tasks) => {
                self.tasks = tasks;
                assert(self@ =~= AppV { tasks: model::stored_tasks(db@), ..a });
                self.rebuild_rows_at(today);
                Ok(())
            },
            Err(e) => Err(e),
        }
    }

    /// Moves the cursor to the visible row showing `task_id`, if any.
    pub fn select_task(&mut self, task_id: i64)
        requires
            model::valid_rows(old(self)@.rows, old(self)@.tasks.len()),
        ensures
            final(self)@ == model::selecting(old(self)@, task_id),
            model::on_a_row(old(self)@) ==> model::on_a_row(final(self)@),
    {
        let ghost a = self@;
        let mut k: usize = 0;
        while k < self.rows.len()
            invariant
                k <= self.rows.len(),
                *self == *old(self),
                a == self@,
                model::valid_rows(a.rows, a.tasks.len()),
                model::row_from(a, task_id, 0) == model::row_from(a, task_id, k as int),
            decreases self.rows.len() - k,
        {
            assert(a.rows[k as int] == self.rows@[k as int]@);
            let i = self.rows[k].task_index;
            assert(a.tasks[i as int] == self.tasks@[i as int]@);
            if self.tasks[i].id == task_id {
                self.selected = k;
                assert(self@ =~= model::selecting(a, task_id));
                return;
            }
            k = k + 1;
        }
    }

    /// The index of the task under the cursor.
    fn selected_index(&self) -> (r: Option<usize>)
        requires
            model::valid_rows(self@.rows, self@.tasks.len()),
        ensures
            match r {
                Some(i) => i < self.tasks@.len() && model::selected_task(self@) == Some(
                    self.tasks@[i as int]@,
                ) && self.selected < self.rows@.len() && i
                    == self.rows@[self.selected as int].task_index,
                None => model::selected_task(self@) is None && self.selected >= self.rows@.len(),
            },
    {
        if self.selected < self.rows.len() {
            assert(self@.rows[self.selected as int] == self.rows@[self.selected as int]@);
            let i = self.rows[self.selected].task_index;
            assert(self@.tasks[i as int] == self.tasks@[i as int]@);
            Some(i)
        } else {
            None
        }
    }

    /// The id of the task under the cursor.
    pub fn selected_task_id(&self) -> (r: Option<i64>)
        requires
            model::valid_rows(self@.rows, self@.tasks.len()),
        ensures
            r == (match model::selected_task(self@) {
                Some(t) => Some(t.id),
                None => None,
            }),
    {
        match self.selected_index() {
            Some(i) => Some(self.tasks[i].id),
            None => None,
        }
    }

    /// After an edit of a task that the store accepted: the tasks are read
    /// anew and the cursor is put on the task.
    fn show_edited(&mut self, db: &Db, task_id: i64, parent: Option<i64>, today: &str) -> (r: Result<
        (),
        Error,
    >)
        requires
            db.wf(),
        ensures
            step(final(self)@, db@, r) == model::after_edit(
                old(self)@,
                (db@, Ok(())),
                task_id,
                parent,
                today@,
            ),
            model::valid_tasks(final(self)@.tasks),
            model::rooted(final(self)@),
            model::valid_rows(final(self)@.rows, final(self)@.tasks.len()),
            model::on_a_row(final(self)@),
    {
        let ghost a = self@;
        if let Some(p) = parent {
            self.expanded.insert(p);
            assert(self@ =~= AppV { expanded: a.expanded.insert(p), ..a });
        }
        match self.reload(db, today) {
            Ok(()) => {
                self.select_task(task_id);
                Ok(())
            },
            Err(e) => Err(e),
        }
    }

    /// Takes over the user's configuration at startup.
    pub fn configure(&mut self, config: Config)
        requires
            model::valid(old(self)@),
        ensures
            final(self)@ == model::with_config(old(self)@, config@),
            model::valid(final(self)@),
    {
        let ghost a = self@;
        self.keymap = config.keymap;
        self.show_footer = config.footer;
        let warnings = self.keymap.shadow_warnings();
        assert(text::texts(warnings@).len() == warnings@.len());
        if warnings.len() > 0 {
            self.status_line = Some(text::join(&warnings, "; "));
        }
        assert(self@ =~= model::with_config(a, config@));
    }

    /// The note of a task, as it was last loaded.
    pub fn note_of(&self, task_id: i64) -> (r: Option<String>)
        ensures
            task::text_option(r) == (if model::has_task(self@.tasks, task_id) {
                Some(self@.tasks[tree::first_with(self@.tasks, task_id)].note)
            } else {
                None
            }),
    {
        match tree::find_first(&self.tasks, task_id) {
            Some(i) => {
                assert(self@.tasks[i as int] == self.tasks@[i as int]@);
                Some(self.tasks[i].note.clone())
            },
            None => None,
        }
    }
}

} // verus!

//! Key presses: from the key, through the keymap where the mode has one, to
//! what it does.
use vstd::prelude::*;

use crate::app;
use crate::app::model;
use crate::app::model::{AppV, ModeV};
use crate::app::{App, History, InputAction, Mode};
use crate::clock;
use crate::command::{CommandId, Context};
use crate::db::Db;
use crate::error::{Error, ErrorV};
use crate::external_editor::EditOutcome;
use crate::help::HelpState;
use crate::input::{EditResult, Editor};
use crate::key::Key;
use crate::keymap;
use crate::query_view;
use crate::query_view::QueryState;
use crate::status_cycle::Direction;
use crate::status_manage::ManageState;
use crate::task::TaskMove;
use crate::text;
use crate::tree;

verus! {

broadcast use vstd::std_specs::hash::group_hash_axioms;

impl App {
    /// Opens the input line.
    fn open_input(&mut self, editor: Editor, action: InputAction)
        requires
            editor.wf(),
        ensures
            final(self)@ == (AppV {
                mode: ModeV::Input { editor: editor@, action },
                ..old(self)@
            }),
    {
        let ghost a = self@;
        self.mode = Mode::Input { editor, action };
        assert(self@ =~= AppV { mode: ModeV::Input { editor: editor@, action }, ..a });
    }

    /// Does what a confirmed input line asks for.
    pub(crate) fn submit(
        &mut self,
        db: &mut Db,
        action: InputAction,
        text: &str,
        today: &str,
        now: &str,
    ) -> (r: Result<(), Error>)
        requires
            model::valid(old(self)@),
            old(db).wf(),
        ensures
            app::step(final(self)@, final(db)@, r) == model::submitted(
                old(self)@,
                old(db)@,
                action,
                text@,
                today@,
                now@,
            ),
            app::keeps(old(self)@, *old(db), final(self)@, *final(db)),
    {
        let ghost a = self@;
        let ghost d = db@;
        let trimmed = text::trim(text);
        let blank = text::chars_of(trimmed.as_str()).len() == 0;
        match action {
            InputAction::Create(target) => {
                // An empty input is treated as a cancel; a blank title would
                // only produce noise to clean up.
                if blank {
                    return Ok(());
                }
                match db.create_task_at(
                    target.parent_id,
                    trimmed.as_str(),
                    target.after,
                    self.default_status_id,
                    now,
                ) {
                    // A new child may sit under a still-collapsed parent
                    // (for siblings the parent is already expanded).
                    Ok(task) => self.show_edited(db, task.id, target.parent_id, today),
                    Err(e) => Err(e),
                }
            },
            InputAction::Rename(id) => {
                if blank {
                    return Ok(());
                }
                match db.rename_task_at(id, trimmed.as_str(), now) {
                    Ok(()) => self.show_edited(db, id, None, today),
                    Err(e) => Err(e),
                }
            },
            InputAction::SetDue(id) => {
                // For a due date, confirming an empty input means "no due
                // date" rather than cancel; Esc is the cancel gesture.
                let due = if blank {
                    None
                } else {
                    Some(trimmed.as_str())
                };
                let canonical = clock::canonical_option(due);
                match db.set_due_at(id, due, canonical, now) {
                    Ok(()) => self.show_edited(db, id, None, today),
                    // A typo should not throw the whole input away: report
                    // it and reopen the editor with the text preserved.
                    Err(Error::InvalidDate(date)) => {
                        let ghost shown = ErrorV::InvalidDate(date@).message();
                        self.status_line = Some(Error::InvalidDate(date).message());
                        assert(self@ =~= model::says(a, shown));
                        self.open_input(Editor::with_text(text), action);
                        Ok(())
                    },
                    Err(other) => Err(other),
                }
            },
        }
    }

    /// Runs a command that only concerns the view.
    #[verifier::rlimit(40)]
    pub fn run_command_at(&mut self, command: CommandId, today: &str)
        requires
            model::valid(old(self)@),
        ensures
            final(self)@ == model::commanded(old(self)@, command, today@),
            model::valid(final(self)@),
            model::on_a_row(old(self)@) ==> model::on_a_row(final(self)@),
    {
        let ghost a = self@;
        match command {
            CommandId::Quit => {
                self.should_quit = true;
            },
            CommandId::SelectNext => {
                self.selected = app::next_of(self.selected, self.rows.len());
            },
            CommandId::SelectPrev => {
                self.selected = app::up_by(self.selected, 1);
            },
            CommandId::SelectFirst => {
                self.selected = 0;
            },
            CommandId::SelectLast => {
                self.selected = app::last_of(self.rows.len());
            },
            CommandId::HalfPageDown => {
                self.selected = app::down_by(
                    self.selected,
                    app::half_page_step(self.list_height),
                    self.rows.len(),
                );
            },
            CommandId::HalfPageUp => {
                self.selected = app::up_by(self.selected, app::half_page_step(self.list_height));
            },
            CommandId::SelectParent => {
                self.select_parent();
                return;
            },
            CommandId::SelectFirstChild => {
                self.select_first_child(today);
                return;
            },
            CommandId::CreateTask => {
                let target = tree::sibling_target(
                    &self.tasks,
                    &self.rows,
                    self.selected,
                    self.zoom_root,
                );
                self.open_input(Editor::new(), InputAction::Create(target));
            },
            CommandId::CreateChild => {
                let target = tree::child_target(
                    &self.tasks,
                    &self.rows,
                    self.selected,
                    self.zoom_root,
                );
                self.open_input(Editor::new(), InputAction::Create(target));
            },
            CommandId::RenameTask => {
                if let Some(i) = self.selected_index() {
                    let editor = Editor::with_text(self.tasks[i].title.as_str());
                    self.open_input(editor, InputAction::Rename(self.tasks[i].id));
                }
            },
            CommandId::SetStatus => {
                if let Some(task_id) = self.selected_task_id() {
                    self.mode = Mode::StatusSelect { task_id };
                }
            },
            CommandId::SetDue => {
                if let Some(i) = self.selected_index() {
                    let editor = match &self.tasks[i].due {
                        Some(due) => Editor::with_text(due.as_str()),
                        None => Editor::new(),
                    };
                    self.open_input(editor, InputAction::SetDue(self.tasks[i].id));
                }
            },
            CommandId::EditNote => {
                if let Some(task_id) = self.selected_task_id() {
                    self.pending_note_edit = Some(task_id);
                }
            },
            CommandId::ZoomIn => {
                if let Some(task_id) = self.selected_task_id() {
                    self.zoom_root = Some(task_id);
                    assert(self@ =~= AppV { zoom_root: Some(task_id), ..a });
                    self.rebuild_rows_at(today);
                    self.selected = 0;
                }
            },
            CommandId::ZoomOut => {
                self.zoom_out(today);
                return;
            },
            CommandId::ViewFilter => {
                self.mode = Mode::FilterSelect;
            },
            CommandId::Help => {
                self.mode = Mode::Help(HelpState::new());
            },
            // The binding stays active while the footer is hidden, so the
            // same key brings it back.
            CommandId::ToggleFooter => {
                self.show_footer = !self.show_footer;
            },
            CommandId::ToggleExpand => {
                self.toggle_expand(today);
                return;
            },
            _ => {},
        }
        assert(self@ =~= model::commanded(a, command, today@));
    }

    pub fn run_command(&mut self, command: CommandId)
        requires
            model::valid(old(self)@),
        ensures
            exists|today: Seq<char>|
                clock::is_date(today) && final(self)@ == #[trigger] model::commanded(
                    old(self)@,
                    command,
                    today,
                ),
            model::valid(final(self)@),
            model::on_a_row(old(self)@) ==> model::on_a_row(final(self)@),
    {
        let today = App::today();
        self.run_command_at(command, today.as_str());
    }

    /// Moves the cursor to the parent's row. Depth 0 means the parent is the
    /// zoom root or nothing at all; either way there is no parent row to
    /// land on.
    fn select_parent(&mut self)
        requires
            model::valid(old(self)@),
        ensures
            forall|today: Seq<char>|
                final(self)@ == #[trigger] model::commanded(
                    old(self)@,
                    CommandId::SelectParent,
                    today,
                ),
            model::valid(final(self)@),
            model::on_a_row(old(self)@) ==> model::on_a_row(final(self)@),
    {
        let ghost a = self@;
        if let Some(i) = self.selected_index() {
            assert(a.rows[a.selected as int] == self.rows@[a.selected as int]@);
            if self.rows[self.selected].depth > 0 {
                if let Some(parent_id) = self.tasks[i].parent_id {
                    self.select_task(parent_id);
                }
            }
        }
    }

    /// Expands the selected task and moves onto its first child.
    fn select_first_child(&mut self, today: &str)
        requires
            model::valid(old(self)@),
        ensures
            final(self)@ == model::commanded(old(self)@, CommandId::SelectFirstChild, today@),
            model::valid(final(self)@),
            model::on_a_row(old(self)@) ==> model::on_a_row(final(self)@),
    {
        let ghost a = self@;
        if let Some(i) = self.selected_index() {
            assert(a.rows[a.selected as int] == self.rows@[a.selected as int]@);
            let row = self.rows[self.selected];
            if row.has_children {
                let id = self.tasks[i].id;
                self.expanded.insert(id);
                assert(self@ =~= AppV { expanded: a.expanded.insert(id), ..a });
                self.rebuild_rows_at(today);
                let ghost b = self@;
                // A filter can hide every child even though the row has
                // some, so only a real child is moved onto.
                if self.rows.len() > 0 && self.selected < self.rows.len() - 1 {
                    assert(b.rows[b.selected + 1] == self.rows@[b.selected + 1]@);
                    let next = self.rows[self.selected + 1];
                    if next.depth > 0 && next.depth - 1 == row.depth {
                        self.selected = self.selected + 1;
                        assert(self@ =~= AppV { selected: (b.selected + 1) as usize, ..b });
                    }
                }
            }
        }
    }

    /// Drops one level of the zoom. Landing back on the subtree just left
    /// keeps the cursor where the user's attention is.
    fn zoom_out(&mut self, today: &str)
        requires
            model::valid(old(self)@),
        ensures
            final(self)@ == model::commanded(old(self)@, CommandId::ZoomOut, today@),
            model::valid(final(self)@),
            model::on_a_row(old(self)@) ==> model::on_a_row(final(self)@),
    {
        let ghost a = self@;
        if let Some(old_root) = self.zoom_root {
            self.zoom_root = match tree::find_first(&self.tasks, old_root) {
                Some(i) => self.tasks[i].parent_id,
                None => None,
            };
            assert(self@ =~= AppV { zoom_root: self.zoom_root, ..a });
            self.rebuild_rows_at(today);
            self.select_task(old_root);
        }
    }

    /// Expands or collapses the selected task.
    fn toggle_expand(&mut self, today: &str)
        requires
            model::valid(old(self)@),
        ensures
            final(self)@ == model::commanded(old(self)@, CommandId::ToggleExpand, today@),
            model::valid(final(self)@),
            model::on_a_row(old(self)@) ==> model::on_a_row(final(self)@),
    {
        let ghost a = self@;
        if let Some(i) = self.selected_index() {
            assert(a.rows[a.selected as int] == self.rows@[a.selected as int]@);
            if self.rows[self.selected].has_children {
                let id = self.tasks[i].id;
                if self.expanded.contains(&id) {
                    self.expanded.remove(&id);
                    assert(self@ =~= AppV { expanded: a.expanded.remove(id), ..a });
                } else {
                    self.expanded.insert(id);
                    assert(self@ =~= AppV { expanded: a.expanded.insert(id), ..a });
                }
                self.rebuild_rows_at(today);
            }
        }
    }

    /// Runs a dispatched command of the tree view.
    fn run_tree_command(&mut self, db: &mut Db, command: CommandId, today: &str, now: &str) -> (r:
        Result<(), Error>)
        requires
            model::valid(old(self)@),
            old(self)@.mode is Tree,
            old(db).wf(),
        ensures
            app::step(final(self)@, final(db)@, r) == model::tree_command(
                old(self)@,
                old(db)@,
                command,
                today@,
                now@,
            ),
            app::keeps(old(self)@, *old(db), final(self)@, *final(db)),
    {
        match command {
            CommandId::StatusNext => self.cycle_status(db, Direction::Next, today, now),
            CommandId::StatusPrev => self.cycle_status(db, Direction::Prev, today, now),
            CommandId::TaskMoveUp => self.move_selected(db, TaskMove::Up, today),
            CommandId::TaskMoveDown => self.move_selected(db, TaskMove::Down, today),
            CommandId::TaskIndent => self.indent_selected(db, today, now),
            CommandId::TaskOutdent => self.outdent_selected(db, today, now),
            CommandId::TaskDelete => self.request_delete(db, today),
            CommandId::Undo => self.apply_history(db, History::Undo, today),
            CommandId::Redo => self.apply_history(db, History::Redo, today),
            CommandId::StatusManage => self.open_status_manage(db),
            CommandId::ViewSearch => self.open_query(db, today),
            _ => {
                self.run_command_at(command, today);
                proof {
                    lemma_commands_keep_statuses(old(self)@, command, today@);
                }
                Ok(())
            },
        }
    }

    /// Handles a key in the tree view.
    fn press_in_tree(&mut self, db: &mut Db, key: Key, today: &str, now: &str) -> (r: Result<
        (),
        Error,
    >)
        requires
            model::valid(old(self)@),
            old(self)@.mode is Tree,
            old(db).wf(),
        ensures
            app::step(final(self)@, final(db)@, r) == model::tree_pressed(
                old(self)@,
                old(db)@,
                key,
                today@,
                now@,
            ),
            app::keeps(old(self)@, *old(db), final(self)@, *final(db)),
    {
        let ghost a = self@;
        let command = self.dispatcher.key(&self.keymap, Context::Tree, key);
        let ghost pending = keymap::dispatched(a.pending, a.bindings, Context::Tree, key).0;
        assert(self@ =~= AppV { pending, ..a });
        match command {
            Some(command) => self.run_tree_command(db, command, today, now),
            None => Ok(()),
        }
    }

    /// Handles a key while a title or date is being typed.
    fn press_in_input(
        &mut self,
        db: &mut Db,
        editor: Editor,
        action: InputAction,
        key: Key,
        today: &str,
        now: &str,
    ) -> (r: Result<(), Error>)
        requires
            model::valid(old(self)@),
            editor.wf(),
            old(db).wf(),
        ensures
            app::step(final(self)@, final(db)@, r) == model::input_pressed(
                old(self)@,
                old(db)@,
                editor@,
                action,
                key,
                today@,
                now@,
            ),
            app::keeps(old(self)@, *old(db), final(self)@, *final(db)),
    {
        match editor.handle_key(key) {
            EditResult::Continue(editor) => {
                self.open_input(editor, action);
                Ok(())
            },
            EditResult::Submitted(text) => self.submit(db, action, text.as_str(), today, now),
            EditResult::Cancelled => Ok(()),
        }
    }

    /// Handles a key in the status modal.
    fn press_in_manage(&mut self, db: &mut Db, state: ManageState, key: Key) -> (r: Result<
        (),
        Error,
    >)
        requires
            model::valid(old(self)@),
            old(self)@.mode is Tree,
            model::valid_manage(state@, old(self)@.statuses.len()),
            model::synced(old(self)@, old(db)@),
            old(db).wf(),
        ensures
            app::step(final(self)@, final(db)@, r) == model::manage_pressed(
                old(self)@,
                old(db)@,
                state@,
                key,
            ),
            app::keeps(old(self)@, *old(db), final(self)@, *final(db)),
    {
        let mut state = state;
        match self.handle_manage_key(db, &mut state, key) {
            Ok(open) => {
                if open {
                    let ghost b = self@;
                    self.mode = Mode::StatusManage(state);
                    assert(self@ =~= AppV { mode: ModeV::StatusManage(state@), ..b });
                }
                Ok(())
            },
            Err(e) => Err(e),
        }
    }

    /// Handles a key at the delete prompt.
    fn press_in_confirm(&mut self, db: &mut Db, task_id: i64, count: i64, key: Key, today: &str) -> (r:
        Result<(), Error>)
        requires
            model::valid(old(self)@),
            old(db).wf(),
        ensures
            app::step(final(self)@, final(db)@, r) == model::confirm_pressed(
                old(self)@,
                old(db)@,
                task_id,
                count,
                key,
                today@,
            ),
            app::keeps(old(self)@, *old(db), final(self)@, *final(db)),
    {
        if key == Key::Char('y') {
            match self.delete_and_reselect(db, task_id, today) {
                Ok(()) => {
                    let ghost b = self@;
                    let message = text::concat3(
                        "deleted ",
                        text::number(count).as_str(),
                        " task(s) (u to undo)",
                    );
                    self.status_line = Some(message);
                    assert(self@ =~= model::says(b, message@));
                    Ok(())
                },
                Err(e) => Err(e),
            }
        } else {
            Ok(())
        }
    }

    /// Handles a key in the filter menu. Unbound keys are ignored so a typo
    /// cannot close the menu or change anything (like the status menu).
    fn press_in_filter(&mut self, key: Key, today: &str)
        requires
            model::valid(old(self)@),
        ensures
            final(self)@ == model::filter_pressed(old(self)@, key, today@),
            model::valid(final(self)@),
            final(self)@.statuses == old(self)@.statuses,
            model::on_a_row(old(self)@) ==> model::on_a_row(final(self)@),
    {
        let ghost a = self@;
        match key {
            Key::Esc => {
                return;
            },
            Key::Char(c) => {
                if let Some(filter) = query_view::filter_from_key(&self.statuses, c) {
                    self.filter = filter;
                    assert(self@ =~= AppV { filter, ..a });
                    self.rebuild_rows_at(today);
                    return;
                }
            },
            _ => {},
        }
        self.mode = Mode::FilterSelect;
        assert(self@ =~= AppV { mode: ModeV::FilterSelect, ..a });
    }

    /// Handles a key in the query view.
    fn press_in_query(&mut self, db: &Db, state: QueryState, key: Key, today: &str) -> (r: Result<
        (),
        Error,
    >)
        requires
            model::valid(old(self)@),
            state.editor.wf(),
            db.wf(),
        ensures
            r is Ok,
            final(self)@ == model::query_pressed(old(self)@, db@, state@, key, today@),
            model::valid(final(self)@),
            final(self)@.statuses == old(self)@.statuses,
            model::on_a_row(old(self)@) ==> model::on_a_row(final(self)@),
    {
        let mut state = state;
        match self.handle_query_key(db, &mut state, key, today) {
            Ok(open) => {
                if open {
                    let ghost b = self@;
                    self.mode = Mode::Query(state);
                    assert(self@ =~= AppV { mode: ModeV::Query(state@), ..b });
                }
                Ok(())
            },
            Err(e) => Err(e),
        }
    }

    /// Handles a key in the help view.
    fn press_in_help(&mut self, state: HelpState, key: Key)
        requires
            model::valid(old(self)@),
            state.editor.wf(),
        ensures
            final(self)@ == model::help_pressed(old(self)@, state@, key),
            model::valid(final(self)@),
            final(self)@.statuses == old(self)@.statuses,
            model::on_a_row(old(self)@) ==> model::on_a_row(final(self)@),
    {
        let mut state = state;
        if self.handle_help_key(&mut state, key) {
            let ghost b = self@;
            self.mode = Mode::Help(state);
            assert(self@ =~= AppV { mode: ModeV::Help(state@), ..b });
        }
    }

    /// Handles a key in the status menu. Keys come from the user's status
    /// definitions, not the keymap; unbound keys are ignored so a typo
    /// cannot close the menu or change anything.
    fn press_in_status(&mut self, db: &mut Db, task_id: i64, key: Key, today: &str, now: &str) -> (r:
        Result<(), Error>)
        requires
            model::valid(old(self)@),
            old(db).wf(),
        ensures
            app::step(final(self)@, final(db)@, r) == model::status_pressed(
                old(self)@,
                old(db)@,
                task_id,
                key,
                today@,
                now@,
            ),
            app::keeps(old(self)@, *old(db), final(self)@, *final(db)),
    {
        let ghost a = self@;
        match key {
            Key::Esc => {
                return Ok(());
            },
            Key::Char(c) => {
                if let Some(i) = query_view::find_key(&self.statuses, c) {
                    assert(a.statuses[i as int] == self.statuses@[i as int]@);
                    match db.set_status_at(task_id, self.statuses[i].id, now) {
                        Ok(()) => {
                            return self.show_edited(db, task_id, None, today);
                        },
                        Err(e) => {
                            self.mode = Mode::StatusSelect { task_id };
                            assert(self@ =~= AppV { mode: ModeV::StatusSelect { task_id }, ..a });
                            return Err(e);
                        },
                    }
                }
            },
            _ => {},
        }
        self.mode = Mode::StatusSelect { task_id };
        assert(self@ =~= AppV { mode: ModeV::StatusSelect { task_id }, ..a });
        Ok(())
    }

    /// Handles one key press on the given day and at the given time. An
    /// error is handed back where the store refuses; what the key did to the
    /// session until then stands.
    pub fn handle_key_at(&mut self, db: &mut Db, key: Key, today: &str, now: &str) -> (r: Result<
        (),
        Error,
    >)
        requires
            model::valid(old(self)@),
            model::synced(old(self)@, old(db)@),
            old(db).wf(),
        ensures
            app::step(final(self)@, final(db)@, r) == model::pressed(
                old(self)@,
                old(db)@,
                key,
                today@,
                now@,
            ),
            app::keeps(old(self)@, *old(db), final(self)@, *final(db)),
    {
        let ghost a = self@;
        self.status_line = None;
        let mut mode = Mode::Tree;
        std::mem::swap(&mut self.mode, &mut mode);
        assert(self@ =~= AppV { status_line: None, mode: ModeV::Tree, ..a });
        match mode {
            Mode::Tree => self.press_in_tree(db, key, today, now),
            Mode::Input { editor, action } => self.press_in_input(
                db,
                editor,
                action,
                key,
                today,
                now,
            ),
            Mode::StatusManage(state) => self.press_in_manage(db, state, key),
            Mode::ConfirmDelete { task_id, count } => self.press_in_confirm(
                db,
                task_id,
                count,
                key,
                today,
            ),
            Mode::FilterSelect => {
                self.press_in_filter(key, today);
                Ok(())
            },
            Mode::Query(state) => self.press_in_query(db, state, key, today),
            Mode::Help(state) => {
                self.press_in_help(state, key);
                Ok(())
            },
            Mode::StatusSelect { task_id } => self.press_in_status(db, task_id, key, today, now),
        }
    }

    /// Handles one key press now.
    pub fn handle_key(&mut self, db: &mut Db, key: Key) -> (r: Result<(), Error>)
        requires
            model::valid(old(self)@),
            model::synced(old(self)@, old(db)@),
            old(db).wf(),
        ensures
            exists|today: Seq<char>, now: Seq<char>|
                clock::is_date(today) && app::step(final(self)@, final(db)@, r) == #[trigger] model::pressed(
                    old(self)@,
                    old(db)@,
                    key,
                    today,
                    now,
                ),
            app::keeps(old(self)@, *old(db), final(self)@, *final(db)),
    {
        let today = App::today();
        let now = clock::now();
        self.handle_key_at(db, key, today.as_str(), now.as_str())
    }

    /// Takes in the end of an editor session over a task's note, on the
    /// given day and at the given time.
    pub fn finish_note_edit_at(
        &mut self,
        db: &mut Db,
        task_id: i64,
        outcome: EditOutcome,
        today: &str,
        now: &str,
    ) -> (r: Result<(), Error>)
        requires
            model::valid(old(self)@),
            old(db).wf(),
        ensures
            app::step(final(self)@, final(db)@, r) == model::note_edited(
                old(self)@,
                old(db)@,
                task_id,
                outcome@,
                today@,
                now@,
            ),
            app::keeps(old(self)@, *old(db), final(self)@, *final(db)),
    {
        let ghost a = self@;
        match outcome {
            EditOutcome::Changed(text) => match db.set_note_at(task_id, text.as_str(), now) {
                Ok(()) => match self.show_edited(db, task_id, None, today) {
                    Ok(()) => {
                        let ghost b = self@;
                        self.status_line = Some("note updated (u to undo)".to_owned());
                        assert(self@ =~= model::says(b, "note updated (u to undo)"@));
                        Ok(())
                    },
                    Err(e) => Err(e),
                },
                Err(e) => Err(e),
            },
            EditOutcome::Unchanged => {
                self.status_line = Some("note unchanged".to_owned());
                assert(self@ =~= model::says(a, "note unchanged"@));
                Ok(())
            },
            EditOutcome::Aborted => {
                self.status_line = Some(
                    "note edit discarded (editor exited with an error)".to_owned(),
                );
                assert(self@ =~= model::says(
                    a,
                    "note edit discarded (editor exited with an error)"@,
                ));
                Ok(())
            },
        }
    }

    pub fn finish_note_edit(&mut self, db: &mut Db, task_id: i64, outcome: EditOutcome) -> (r: Result<
        (),
        Error,
    >)
        requires
            model::valid(old(self)@),
            old(db).wf(),
        ensures
            exists|today: Seq<char>, now: Seq<char>|
                clock::is_date(today) && app::step(final(self)@, final(db)@, r) == #[trigger] model::note_edited(
                    old(self)@,
                    old(db)@,
                    task_id,
                    outcome@,
                    today,
                    now,
                ),
            app::keeps(old(self)@, *old(db), final(self)@, *final(db)),
    {
        let today = App::today();
        let now = clock::now();
        self.finish_note_edit_at(db, task_id, outcome, today.as_str(), now.as_str())
    }
}

/// View commands leave the statuses alone.
proof fn lemma_commands_keep_statuses(a: AppV, command: CommandId, today: Seq<char>)
    ensures
        model::commanded(a, command, today).statuses == a.statuses,
{
}

} // verus!

//! The status-management modal. Its edits form an undo sub-session:
//! fine-grained undo and redo while it is open, folded into a single outer
//! step when it closes.
use vstd::prelude::*;

use crate::app;
use crate::app::model;
use crate::app::model::{AppV, ManageStep};
use crate::app::{App, History, Mode};
use crate::color;
use crate::command::{CommandId, Context};
use crate::db;
use crate::db::Db;
use crate::error::Error;
use crate::input::{EditResult, Editor};
use crate::key::Key;
use crate::keymap;
use crate::status::{StatusKind, StatusMove, StatusV};
use crate::status_cycle;
use crate::status_manage;
use crate::status_manage::{Column, Editing, EditingV, ManageState, ManageV};
use crate::style::Color;
use crate::text;

verus! {

/// The outcome of a key inside the modal.
pub open spec fn manage_step(
    app: AppV,
    db: crate::tables::DbV,
    state: ManageV,
    r: Result<bool, Error>,
) -> ManageStep {
    ManageStep { app, db, state, result: app::bool_result(r) }
}

/// What every key inside the modal keeps: besides the rest, the cursor stays
/// on a status while the modal is open.
pub open spec fn manage_keeps(
    a: AppV,
    d: Db,
    b: AppV,
    e: Db,
    state: ManageV,
    r: Result<bool, Error>,
) -> bool {
    &&& app::keeps(a, d, b, e)
    &&& b.mode is Tree
    &&& r matches Ok(true) ==> model::valid_manage(state, b.statuses.len())
}

/// Two tables with the same ids list equally many statuses.
proof fn lemma_same_count(
    m: Map<i64, StatusV>,
    n: Map<i64, StatusV>,
    a: Seq<StatusV>,
    b: Seq<StatusV>,
)
    requires
        db::lists_statuses(m, a),
        db::lists_statuses(n, b),
        m.dom() == n.dom(),
    ensures
        a.len() == b.len(),
{
    lemma_count(m, a);
    lemma_count(n, b);
}

proof fn lemma_count(m: Map<i64, StatusV>, a: Seq<StatusV>)
    requires
        db::lists_statuses(m, a),
    ensures
        m.dom().finite(),
        m.dom().len() == a.len(),
{
    let ids = a.map_values(|s: StatusV| s.id);
    assert forall|i: int, j: int| 0 <= i < ids.len() && 0 <= j < ids.len() && i != j implies ids[i]
        != ids[j] by {
        assert(a[i].id != a[j].id);
    }
    assert(ids.no_duplicates());
    ids.unique_seq_to_set();
    assert forall|id: i64| ids.to_set().contains(id) == m.dom().contains(id) by {
        if ids.contains(id) {
            let k = choose|k: int| 0 <= k < ids.len() && ids[k] == id;
            assert(m.contains_pair(a[k].id, a[k]));
        }
        if m.dom().contains(id) {
            let k = choose|k: int| 0 <= k < a.len() && (#[trigger] a[k]).id == id;
            assert(ids[k] == id);
        }
    }
    assert(ids.to_set() =~= m.dom());
}

impl App {
    /// Opens the status-management modal. Statuses can never be empty (the
    /// last row is undeletable), but an empty table would leave the cursor
    /// nowhere to sit.
    pub(crate) fn open_status_manage(&mut self, db: &mut Db) -> (r: Result<(), Error>)
        requires
            model::valid(old(self)@),
            old(db).wf(),
        ensures
            app::step(final(self)@, final(db)@, r) == model::manage_opened(old(self)@, old(db)@),
            app::keeps(old(self)@, *old(db), final(self)@, *final(db)),
    {
        let ghost a = self@;
        if self.statuses.len() == 0 {
            return Ok(());
        }
        match db.begin_undo_scope() {
            Ok(()) => {
                self.mode = Mode::StatusManage(ManageState::new());
                assert(self@ =~= model::manage_opened(a, old(db)@).app);
                Ok(())
            },
            Err(e) => Err(e),
        }
    }

    /// After an edit of the statuses that the store accepted they are read
    /// anew.
    fn show_statuses(&mut self, db: &Db) -> (r: Result<bool, Error>)
        requires
            model::valid(old(self)@),
            old(self)@.mode is Tree,
            db.wf(),
        ensures
            forall|s: ManageV| #[trigger]
                manage_step(final(self)@, db@, s, r) == model::after_status_edit(
                    old(self)@,
                    s,
                    (db@, Ok(())),
                ),
            model::valid(final(self)@),
            final(self)@.mode is Tree,
            model::synced(final(self)@, db@),
            r matches Ok(open) ==> open && final(self)@.statuses.len() > 0,
    {
        match self.reload_statuses(db) {
            Ok(()) => Ok(true),
            Err(e) => Err(e),
        }
    }

    /// Undo or redo inside the status modal. Edits here only touch
    /// statuses, so making the change visible is just reloading the table —
    /// and keeping the cursor on a row that still exists.
    fn apply_manage_history(&mut self, db: &mut Db, state: &mut ManageState, kind: History) -> (r:
        Result<bool, Error>)
        requires
            model::valid(old(self)@),
            old(self)@.mode is Tree,
            model::valid_manage(old(state)@, old(self)@.statuses.len()),
            model::synced(old(self)@, old(db)@),
            old(db).wf(),
        ensures
            manage_step(final(self)@, final(db)@, final(state)@, r) == model::manage_history(
                old(self)@,
                old(db)@,
                old(state)@,
                kind,
            ),
            manage_keeps(old(self)@, *old(db), final(self)@, *final(db), final(state)@, r),
    {
        let ghost a = self@;
        let ghost s = state@;
        let outcome = match App::replay(db, kind) {
            Ok(Some(outcome)) => outcome,
            Ok(None) => {
                self.status_line = Some(kind.empty_message().to_owned());
                assert(self@ =~= model::says(a, model::empty_message(kind)));
                return Ok(true);
            },
            Err(e) => {
                return Err(e);
            },
        };
        match self.show_statuses(db) {
            Ok(_) => {},
            Err(e) => {
                assert(manage_step(self@, db@, s, Err(e)).result is Err);
                return Err(e);
            },
        }
        let ghost m = manage_step(self@, db@, s, Ok(true));
        state.clamp_row(self.statuses.len());
        assert(state@ =~= model::clamped_row(m).state);
        self.say_replayed(kind, &outcome);
        Ok(true)
    }

    /// Handles one key inside the status-management modal. Returns whether
    /// the modal stays open.
    pub(crate) fn handle_manage_key(&mut self, db: &mut Db, state: &mut ManageState, key: Key) -> (r:
        Result<bool, Error>)
        requires
            model::valid(old(self)@),
            old(self)@.mode is Tree,
            model::valid_manage(old(state)@, old(self)@.statuses.len()),
            model::synced(old(self)@, old(db)@),
            old(db).wf(),
        ensures
            manage_step(final(self)@, final(db)@, final(state)@, r) == model::manage_key(
                old(self)@,
                old(db)@,
                old(state)@,
                key,
            ),
            manage_keeps(old(self)@, *old(db), final(self)@, *final(db), final(state)@, r),
    {
        let ghost a = self@;
        let ghost s = state@;
        let mut editing = Editing::Nothing;
        std::mem::swap(&mut state.editing, &mut editing);
        assert(state@ =~= ManageV { editing: EditingV::Nothing, ..s });
        match editing {
            Editing::Nothing => {
                let command = self.dispatcher.key(&self.keymap, Context::StatusManage, key);
                let ghost pending = keymap::dispatched(
                    a.pending,
                    a.bindings,
                    Context::StatusManage,
                    key,
                ).0;
                assert(self@ =~= AppV { pending, ..a });
                match command {
                    Some(command) => self.run_manage_command(db, state, command),
                    None => Ok(true),
                }
            },
            Editing::Cell(editor) => match editor.handle_key(key) {
                EditResult::Continue(editor) => {
                    state.editing = Editing::Cell(editor);
                    assert(state@ =~= ManageV { editing: EditingV::Cell(editor@), ..s });
                    Ok(true)
                },
                EditResult::Submitted(text) => {
                    let trimmed = text::trim(text.as_str());
                    self.submit_cell_edit(db, state, trimmed.as_str())
                },
                EditResult::Cancelled => Ok(true),
            },
            Editing::NewStatus(editor) => match editor.handle_key(key) {
                EditResult::Continue(editor) => {
                    state.editing = Editing::NewStatus(editor);
                    assert(state@ =~= ManageV { editing: EditingV::NewStatus(editor@), ..s });
                    Ok(true)
                },
                EditResult::Submitted(text) => {
                    let label = text::trim(text.as_str());
                    // A blank label is treated as a cancel, like elsewhere.
                    if text::chars_of(label.as_str()).len() > 0 {
                        self.submit_new_status(db, state, label.as_str())
                    } else {
                        Ok(true)
                    }
                },
                EditResult::Cancelled => Ok(true),
            },
            Editing::KeyCapture => match key {
                Key::Esc => Ok(true),
                Key::Char(c) => self.capture_key(db, state, c),
                // Non-character keys cannot be a status key; keep waiting.
                _ => {
                    state.editing = Editing::KeyCapture;
                    assert(state@ =~= ManageV { editing: EditingV::KeyCapture, ..s });
                    Ok(true)
                },
            },
        }
    }

    /// Takes a pressed character as the key of the status under the cursor.
    fn capture_key(&mut self, db: &mut Db, state: &mut ManageState, c: char) -> (r: Result<
        bool,
        Error,
    >)
        requires
            model::valid(old(self)@),
            old(self)@.mode is Tree,
            model::valid_manage(old(state)@, old(self)@.statuses.len()),
            model::synced(old(self)@, old(db)@),
            old(db).wf(),
        ensures
            manage_step(final(self)@, final(db)@, final(state)@, r) == model::key_captured(
                old(self)@,
                old(db)@,
                old(state)@,
                c,
            ),
            manage_keeps(old(self)@, *old(db), final(self)@, *final(db), final(state)@, r),
    {
        let ghost a = self@;
        let ghost s = state@;
        let ghost d = db@;
        assert(a.statuses[s.row as int] == self.statuses@[s.row as int]@);
        let id = self.statuses[state.row].id;
        if status_manage::key_taken(&self.statuses, c, id) {
            let mut message = "key `".to_owned();
            message.push(c);
            message.append("` is already used by another status");
            assert(message@ =~= "key `"@ + seq![c] + "` is already used by another status"@);
            self.status_line = Some(message);
            assert(self@ =~= model::key_captured(a, d, s, c).app);
            return Ok(true);
        }
        match db.update_status_key(id, c) {
            Ok(()) => {
                let r = self.show_statuses(db);
                assert(manage_step(self@, db@, s, r) == model::key_captured(a, d, s, c));
                proof {
                    lemma_same_count(
                        d.tables.statuses,
                        db@.tables.statuses,
                        a.statuses,
                        self@.statuses,
                    );
                }
                r
            },
            Err(e) => Err(e),
        }
    }

    /// Opens the edit of the cell under the cursor. Three fixed kinds make a
    /// toggle faster than any input prompt.
    fn edit_cell(&mut self, db: &mut Db, state: &mut ManageState) -> (r: Result<bool, Error>)
        requires
            model::valid(old(self)@),
            old(self)@.mode is Tree,
            model::valid_manage(old(state)@, old(self)@.statuses.len()),
            model::synced(old(self)@, old(db)@),
            old(db).wf(),
        ensures
            manage_step(final(self)@, final(db)@, final(state)@, r) == model::cell_opened(
                old(self)@,
                old(db)@,
                old(state)@,
            ),
            manage_keeps(old(self)@, *old(db), final(self)@, *final(db), final(state)@, r),
    {
        let ghost a = self@;
        let ghost s = state@;
        let ghost d = db@;
        assert(a.statuses[s.row as int] == self.statuses@[s.row as int]@);
        match state.col {
            Column::Label => {
                state.editing = Editing::Cell(
                    Editor::with_text(self.statuses[state.row].label.as_str()),
                );
                assert(state@ =~= model::cell_opened(a, d, s).state);
                Ok(true)
            },
            Column::Color => {
                state.editing = Editing::Cell(
                    Editor::with_text(self.statuses[state.row].color.as_str()),
                );
                assert(state@ =~= model::cell_opened(a, d, s).state);
                Ok(true)
            },
            Column::Kind => {
                let next = status_manage::toggle_kind(self.statuses[state.row].kind);
                match db.update_status_kind(self.statuses[state.row].id, next) {
                    Ok(()) => {
                        let r = self.show_statuses(db);
                        assert(manage_step(self@, db@, s, r) == model::cell_opened(a, d, s));
                        proof {
                            lemma_same_count(
                                d.tables.statuses,
                                db@.tables.statuses,
                                a.statuses,
                                self@.statuses,
                            );
                        }
                        r
                    },
                    Err(e) => Err(e),
                }
            },
            Column::Key => {
                state.editing = Editing::KeyCapture;
                assert(state@ =~= model::cell_opened(a, d, s).state);
                Ok(true)
            },
        }
    }

    /// Deletes the status under the cursor. Refusals are user-visible
    /// outcomes, not failures: show why and keep the modal open.
    fn delete_selected_status(&mut self, db: &mut Db, state: &mut ManageState) -> (r: Result<
        bool,
        Error,
    >)
        requires
            model::valid(old(self)@),
            old(self)@.mode is Tree,
            model::valid_manage(old(state)@, old(self)@.statuses.len()),
            model::synced(old(self)@, old(db)@),
            old(db).wf(),
        ensures
            manage_step(final(self)@, final(db)@, final(state)@, r) == model::status_deleted(
                old(self)@,
                old(db)@,
                old(state)@,
            ),
            manage_keeps(old(self)@, *old(db), final(self)@, *final(db), final(state)@, r),
    {
        let ghost a = self@;
        let ghost s = state@;
        let ghost d = db@;
        assert(a.statuses[s.row as int] == self.statuses@[s.row as int]@);
        match db.delete_status(self.statuses[state.row].id) {
            Ok(()) => match self.show_statuses(db) {
                Ok(_) => {
                    let ghost m = manage_step(self@, db@, s, Ok(true));
                    state.clamp_row(self.statuses.len());
                    assert(state@ =~= model::clamped_row(m).state);
                    Ok(true)
                },
                Err(e) => {
                    assert(manage_step(self@, db@, s, Err(e)).result is Err);
                    Err(e)
                },
            },
            Err(Error::StatusInUse { count }) => {
                self.status_line = Some(
                    text::concat3(
                        "cannot delete: ",
                        text::number(count).as_str(),
                        " task(s) use this status",
                    ),
                );
                assert(self@ =~= model::status_deleted(a, d, s).app);
                Ok(true)
            },
            Err(Error::CannotDeleteLastStatus) => {
                self.status_line = Some("cannot delete the last status".to_owned());
                assert(self@ =~= model::status_deleted(a, d, s).app);
                Ok(true)
            },
            Err(Error::CannotDeleteDefaultStatus) => {
                self.status_line = Some("cannot delete the default status".to_owned());
                assert(self@ =~= model::status_deleted(a, d, s).app);
                Ok(true)
            },
            Err(other) => Err(other),
        }
    }

    /// Runs a dispatched modal command. Returns whether the modal stays
    /// open.
    pub(crate) fn run_manage_command(
        &mut self,
        db: &mut Db,
        state: &mut ManageState,
        command: CommandId,
    ) -> (r: Result<bool, Error>)
        requires
            model::valid(old(self)@),
            old(self)@.mode is Tree,
            model::valid_manage(old(state)@, old(self)@.statuses.len()),
            model::synced(old(self)@, old(db)@),
            old(db).wf(),
        ensures
            manage_step(final(self)@, final(db)@, final(state)@, r) == model::manage_command(
                old(self)@,
                old(db)@,
                old(state)@,
                command,
            ),
            manage_keeps(old(self)@, *old(db), final(self)@, *final(db), final(state)@, r),
    {
        let ghost a = self@;
        let ghost s = state@;
        let ghost d = db@;
        match command {
            CommandId::ManageClose => {
                // Whatever survived the session's own undo becomes one
                // atomic step in the tree-level history.
                match db.end_undo_scope("edit statuses") {
                    Ok(()) => Ok(false),
                    Err(e) => Err(e),
                }
            },
            CommandId::ManageUndo => self.apply_manage_history(db, state, History::Undo),
            CommandId::ManageRedo => self.apply_manage_history(db, state, History::Redo),
            CommandId::ManageRowNext => {
                state.move_down(self.statuses.len());
                assert(state@ =~= model::manage_command(a, d, s, command).state);
                Ok(true)
            },
            CommandId::ManageRowPrev => {
                state.move_up();
                assert(state@ =~= model::manage_command(a, d, s, command).state);
                Ok(true)
            },
            CommandId::ManageColPrev => {
                state.col = state.col.left();
                assert(state@ =~= model::manage_command(a, d, s, command).state);
                Ok(true)
            },
            CommandId::ManageColNext => {
                state.col = state.col.right();
                assert(state@ =~= model::manage_command(a, d, s, command).state);
                Ok(true)
            },
            CommandId::ManageEdit => self.edit_cell(db, state),
            CommandId::ManageAdd => {
                // Refuse up front: without a free key the new status could
                // never be reached from the status-select menu.
                if status_manage::free_key(&self.statuses).is_some() {
                    state.editing = Editing::NewStatus(Editor::new());
                    assert(state@ =~= model::manage_command(a, d, s, command).state);
                } else {
                    self.say_no_key();
                }
                Ok(true)
            },
            CommandId::ManageDelete => self.delete_selected_status(db, state),
            CommandId::ManageMoveDown => self.move_status_row(db, state, StatusMove::Down),
            CommandId::ManageMoveUp => self.move_status_row(db, state, StatusMove::Up),
            CommandId::ManageSetDefault => {
                assert(a.statuses[s.row as int] == self.statuses@[s.row as int]@);
                match db.set_default_status(self.statuses[state.row].id) {
                    Ok(()) => {
                        let r = self.show_statuses(db);
                        assert(manage_step(self@, db@, s, r) == model::manage_command(
                            a,
                            d,
                            s,
                            command,
                        ));
                        proof {
                            lemma_same_count(
                                d.tables.statuses,
                                db@.tables.statuses,
                                a.statuses,
                                self@.statuses,
                            );
                        }
                        r
                    },
                    Err(e) => Err(e),
                }
            },
            _ => Ok(true),
        }
    }

    fn say_no_key(&mut self)
        ensures
            final(self)@ == model::says(old(self)@, model::no_key_left()),
    {
        let ghost a = self@;
        self.status_line = Some("cannot add a status: every key a-z is already in use".to_owned());
        assert(self@ =~= model::says(a, model::no_key_left()));
    }

    /// Stores a confirmed label or color. A blank value is treated as a
    /// cancel, like elsewhere. Unknown colors are stored anyway (they only
    /// degrade to the default color at render time), but the typo is
    /// pointed out. Kind and key cells never open a text edit.
    fn submit_cell_edit(&mut self, db: &mut Db, state: &ManageState, text: &str) -> (r: Result<
        bool,
        Error,
    >)
        requires
            model::valid(old(self)@),
            old(self)@.mode is Tree,
            model::valid_manage(state@, old(self)@.statuses.len()),
            model::synced(old(self)@, old(db)@),
            old(db).wf(),
        ensures
            manage_step(final(self)@, final(db)@, state@, r) == model::cell_submitted(
                old(self)@,
                old(db)@,
                state@,
                text@,
            ),
            manage_keeps(old(self)@, *old(db), final(self)@, *final(db), state@, r),
    {
        let ghost a = self@;
        let ghost s = state@;
        let ghost d = db@;
        if text::chars_of(text).len() == 0 {
            return Ok(true);
        }
        assert(a.statuses[s.row as int] == self.statuses@[s.row as int]@);
        let id = self.statuses[state.row].id;
        match state.col {
            Column::Label => match db.update_status_label(id, text) {
                Ok(()) => {},
                Err(e) => {
                    return Err(e);
                },
            },
            Column::Color => {
                match db.update_status_color(id, text) {
                    Ok(()) => {},
                    Err(e) => {
                        return Err(e);
                    },
                }
                if color::parse_color(text) == Color::Reset {
                    self.status_line = Some(
                        text::concat3(
                            "unknown color `",
                            text,
                            "` (expected a name or #rrggbb); it will render as the terminal default",
                        ),
                    );
                }
            },
            _ => {},
        }
        let r = self.show_statuses(db);
        assert(manage_step(self@, db@, s, r) == model::cell_submitted(a, d, s, text@));
        proof {
            lemma_same_count(d.tables.statuses, db@.tables.statuses, a.statuses, self@.statuses);
        }
        r
    }

    /// Creates the status with the confirmed label. The cursor lands on the
    /// new row so follow-up edits (kind, color) are a single keystroke away.
    fn submit_new_status(&mut self, db: &mut Db, state: &mut ManageState, label: &str) -> (r: Result<
        bool,
        Error,
    >)
        requires
            model::valid(old(self)@),
            old(self)@.mode is Tree,
            model::valid_manage(old(state)@, old(self)@.statuses.len()),
            model::synced(old(self)@, old(db)@),
            old(db).wf(),
        ensures
            manage_step(final(self)@, final(db)@, final(state)@, r) == model::status_added(
                old(self)@,
                old(db)@,
                old(state)@,
                label@,
            ),
            manage_keeps(old(self)@, *old(db), final(self)@, *final(db), final(state)@, r),
    {
        let ghost a = self@;
        let ghost s = state@;
        let ghost d = db@;
        let key = match status_manage::free_key(&self.statuses) {
            Some(key) => key,
            None => {
                // Guarded when the input opened; only reachable if the
                // statuses changed underneath, so just report it.
                self.say_no_key();
                return Ok(true);
            },
        };
        let created = match db.create_status(label, StatusKind::Open, "gray", key) {
            Ok(created) => created,
            Err(e) => {
                return Err(e);
            },
        };
        match self.show_statuses(db) {
            Ok(_) => {},
            Err(e) => {
                assert(manage_step(self@, db@, s, Err(e)).result is Err);
                return Err(e);
            },
        }
        let ghost m = manage_step(self@, db@, s, Ok(true));
        state.row = match status_cycle::position_of(&self.statuses, created.id) {
            Some(position) => position,
            None => 0,
        };
        state.col = Column::Label;
        assert(state@ =~= model::status_added(a, d, s, label@).state);
        Ok(true)
    }

    /// Moves the status under the cursor. The cursor follows the status it
    /// was on, not the table position.
    fn move_status_row(&mut self, db: &mut Db, state: &mut ManageState, direction: StatusMove) -> (r:
        Result<bool, Error>)
        requires
            model::valid(old(self)@),
            old(self)@.mode is Tree,
            model::valid_manage(old(state)@, old(self)@.statuses.len()),
            model::synced(old(self)@, old(db)@),
            old(db).wf(),
        ensures
            manage_step(final(self)@, final(db)@, final(state)@, r) == model::status_moved(
                old(self)@,
                old(db)@,
                old(state)@,
                direction,
            ),
            manage_keeps(old(self)@, *old(db), final(self)@, *final(db), final(state)@, r),
    {
        let ghost a = self@;
        let ghost s = state@;
        let ghost d = db@;
        assert(a.statuses[s.row as int] == self.statuses@[s.row as int]@);
        let id = self.statuses[state.row].id;
        match db.move_status(id, direction) {
            Ok(()) => {},
            Err(e) => {
                return Err(e);
            },
        }
        match self.show_statuses(db) {
            Ok(_) => {},
            Err(e) => {
                assert(manage_step(self@, db@, s, Err(e)).result is Err);
                return Err(e);
            },
        }
        let ghost m = manage_step(self@, db@, s, Ok(true));
        proof {
            lemma_same_count(d.tables.statuses, db@.tables.statuses, a.statuses, self@.statuses);
        }
        if let Some(position) = status_cycle::position_of(&self.statuses, id) {
            state.row = position;
        }
        assert(state@ =~= model::status_moved(a, d, s, direction).state);
        Ok(true)
    }
}

} // verus!

//! The search view and the help view: read-only popups with their own keys.
use vstd::prelude::*;

use crate::app;
use crate::app::model;
use crate::app::model::AppV;
use crate::app::{App, Mode};
use crate::command;
use crate::command::{CommandId, Context};
use crate::db::Db;
use crate::error::Error;
use crate::help;
use crate::help::{HelpState, HelpStateV};
use crate::input;
use crate::input::{EditResult, Editor};
use crate::key::Key;
use crate::keymap;
use crate::query::Filter;
use crate::query_view;
use crate::query_view::{QueryState, QueryStateV};

verus! {

impl App {
    /// Re-runs the search for the view's current text/sort and the shared
    /// filter, keeping the selection on an existing result.
    fn run_search(filter: Filter, db: &Db, state: &mut QueryState, today: &str) -> (r: Result<
        (),
        Error,
    >)
        requires
            db.wf(),
        ensures
            r is Ok,
            final(state)@ == model::searched(old(state)@, filter, db@, today@),
            final(state).editor == old(state).editor,
    {
        let ghost s = state@;
        match db.search(&state.query(filter), today) {
            Ok(results) => {
                state.results = results;
            },
            Err(e) => {
                return Err(e);
            },
        }
        state.clamp_selection();
        assert(state@ =~= model::searched(s, filter, db@, today@));
        Ok(())
    }

    /// Opens the query view with an empty search, i.e. everything under the
    /// current filter, ready for incremental typing.
    pub(crate) fn open_query(&mut self, db: &Db, today: &str) -> (r: Result<(), Error>)
        requires
            model::valid(old(self)@),
            db.wf(),
        ensures
            r is Ok,
            final(self)@ == model::query_opened(old(self)@, db@, today@),
            model::valid(final(self)@),
            model::on_a_row(old(self)@) ==> model::on_a_row(final(self)@),
    {
        let ghost a = self@;
        let mut state = QueryState::new();
        match App::run_search(self.filter, db, &mut state, today) {
            Ok(()) => {},
            Err(e) => {
                return Err(e);
            },
        }
        self.mode = Mode::Query(state);
        assert(self@ =~= model::query_opened(a, db@, today@));
        Ok(())
    }

    /// Runs a dispatched command of the query view. Returns whether the view
    /// stays open.
    fn run_query_command(&mut self, state: &mut QueryState, command: CommandId, today: &str) -> (r:
        bool)
        requires
            model::valid(old(self)@),
            model::valid_editor(old(state)@.editor),
        ensures
            (final(self)@, final(state)@, r) == model::query_command(
                old(self)@,
                old(state)@,
                command,
                today@,
            ),
            model::valid(final(self)@),
            model::valid_editor(final(state)@.editor),
            final(self)@.statuses == old(self)@.statuses,
            model::on_a_row(old(self)@) ==> model::on_a_row(final(self)@),
    {
        let ghost s = state@;
        match command {
            CommandId::QueryNext => {
                state.selected = app::next_of(state.selected, state.results.len());
            },
            CommandId::QueryPrev => {
                state.selected = app::up_by(state.selected, 1);
            },
            CommandId::QueryFirst => {
                state.selected = 0;
            },
            CommandId::QueryLast => {
                state.selected = app::last_of(state.results.len());
            },
            CommandId::QueryHalfPageDown => {
                state.selected = app::down_by(
                    state.selected,
                    app::half_page_step(self.popup_height),
                    state.results.len(),
                );
            },
            CommandId::QueryHalfPageUp => {
                state.selected = app::up_by(
                    state.selected,
                    app::half_page_step(self.popup_height),
                );
            },
            CommandId::QueryEdit => {
                // Rebuilt so the cursor lands at the end of the preserved
                // text.
                state.editor = Editor::with_text(state.editor.text());
                state.focus = query_view::Focus::Edit;
            },
            CommandId::QuerySort => {
                state.focus = query_view::Focus::SortMenu;
            },
            CommandId::ViewFilter => {
                state.focus = query_view::Focus::FilterMenu;
            },
            CommandId::QueryClose => {
                return false;
            },
            CommandId::QueryJump => {
                if state.selected < state.results.len() {
                    let id = state.results[state.selected].id;
                    assert(s.results[s.selected as int].id == id);
                    self.reveal_task(id, today);
                    return false;
                }
            },
            _ => {},
        }
        assert(state@ =~= model::query_command(old(self)@, s, command, today@).1);
        true
    }

    /// Handles one key inside the query view. Returns whether the view
    /// stays open. Tasks are never edited from here: the view is read-only,
    /// and unbound keys fall through to nothing.
    pub(crate) fn handle_query_key(
        &mut self,
        db: &Db,
        state: &mut QueryState,
        key: Key,
        today: &str,
    ) -> (r: Result<bool, Error>)
        requires
            model::valid(old(self)@),
            model::valid_editor(old(state)@.editor),
            db.wf(),
        ensures
            r is Ok,
            (final(self)@, final(state)@, r->Ok_0) == model::query_key(
                old(self)@,
                db@,
                old(state)@,
                key,
                today@,
            ),
            model::valid(final(self)@),
            model::valid_editor(final(state)@.editor),
            final(self)@.statuses == old(self)@.statuses,
            model::on_a_row(old(self)@) ==> model::on_a_row(final(self)@),
    {
        let ghost a = self@;
        let ghost s = state@;
        match state.focus {
            query_view::Focus::Edit => {
                let mut editor = Editor::new();
                std::mem::swap(&mut state.editor, &mut editor);
                match editor.handle_key(key) {
                    EditResult::Continue(editor) => {
                        state.editor = editor;
                        assert(state@ =~= QueryStateV { editor: editor@, ..s });
                        // Searching on every keystroke is what makes the
                        // search incremental.
                        match App::run_search(self.filter, db, state, today) {
                            Ok(()) => {},
                            Err(e) => {
                                return Err(e);
                            },
                        }
                    },
                    EditResult::Submitted(text) => {
                        // The text stays in the editor so `/` can reopen the
                        // edit with it prefilled.
                        state.editor = Editor::with_text(text.as_str());
                        state.focus = query_view::Focus::Browse;
                        assert(state@ =~= QueryStateV {
                            editor: input::prefilled(text@),
                            focus: query_view::Focus::Browse,
                            ..s
                        });
                    },
                    EditResult::Cancelled => {
                        assert(state@ =~= QueryStateV { editor: input::prefilled(seq![]), ..s });
                        return Ok(false);
                    },
                }
            },
            query_view::Focus::Browse => {
                let command = self.dispatcher.key(&self.keymap, Context::Query, key);
                let ghost pending = keymap::dispatched(a.pending, a.bindings, Context::Query, key).0;
                assert(self@ =~= AppV { pending, ..a });
                if let Some(command) = command {
                    return Ok(self.run_query_command(state, command, today));
                }
            },
            query_view::Focus::SortMenu => match key {
                Key::Esc => {
                    state.focus = query_view::Focus::Browse;
                    assert(state@ =~= QueryStateV { focus: query_view::Focus::Browse, ..s });
                },
                Key::Char(c) => {
                    if let Some(sort) = query_view::sort_from_key(c) {
                        state.sort = sort;
                        state.focus = query_view::Focus::Browse;
                        assert(state@ =~= QueryStateV {
                            sort,
                            focus: query_view::Focus::Browse,
                            ..s
                        });
                        match App::run_search(self.filter, db, state, today) {
                            Ok(()) => {},
                            Err(e) => {
                                return Err(e);
                            },
                        }
                    }
                },
                _ => {},
            },
            query_view::Focus::FilterMenu => match key {
                Key::Esc => {
                    state.focus = query_view::Focus::Browse;
                    assert(state@ =~= QueryStateV { focus: query_view::Focus::Browse, ..s });
                },
                Key::Char(c) => {
                    if let Some(filter) = query_view::filter_from_key(&self.statuses, c) {
                        self.filter = filter;
                        assert(self@ =~= AppV { filter, ..a });
                        state.focus = query_view::Focus::Browse;
                        assert(state@ =~= QueryStateV { focus: query_view::Focus::Browse, ..s });
                        match App::run_search(self.filter, db, state, today) {
                            Ok(()) => {},
                            Err(e) => {
                                return Err(e);
                            },
                        }
                        // The filter is shared with the tree view, which
                        // must reflect it once the query view closes.
                        self.rebuild_rows_at(today);
                    }
                },
                _ => {},
            },
        }
        Ok(true)
    }

    /// How many lines the help view currently shows under its filter;
    /// bounds the scroll offset.
    fn help_line_count(&self, state: &HelpState) -> (r: usize)
        ensures
            r == model::help_count(self@, state@),
    {
        let lines = help::filter_lines(
            help::lines(&command::commands(), &self.keymap),
            state.editor.text(),
        );
        assert(help::help_view(lines@).len() == lines@.len());
        lines.len()
    }

    /// Handles one key inside the help view. Returns whether the view stays
    /// open. Pure view logic: nothing here touches the store.
    pub(crate) fn handle_help_key(&mut self, state: &mut HelpState, key: Key) -> (r: bool)
        requires
            model::valid(old(self)@),
            model::valid_editor(old(state)@.editor),
        ensures
            (final(self)@, final(state)@, r) == model::help_key(old(self)@, old(state)@, key),
            model::valid(final(self)@),
            model::valid_editor(final(state)@.editor),
            final(self)@.statuses == old(self)@.statuses,
            model::on_a_row(old(self)@) ==> model::on_a_row(final(self)@),
    {
        let ghost a = self@;
        let ghost s = state@;
        match state.focus {
            help::Focus::Edit => {
                let mut editor = Editor::new();
                std::mem::swap(&mut state.editor, &mut editor);
                match editor.handle_key(key) {
                    EditResult::Continue(editor) => {
                        state.editor = editor;
                        // Every keystroke re-filters the list, so a kept
                        // offset could point past the shrunken list's end.
                        state.scroll = 0;
                        assert(state@ =~= HelpStateV { editor: editor@, scroll: 0, ..s });
                    },
                    EditResult::Submitted(text) => {
                        // The text stays in the editor so `/` can reopen the
                        // filter with it prefilled, and browsing stays on
                        // the filtered list.
                        state.editor = Editor::with_text(text.as_str());
                        state.focus = help::Focus::Browse;
                        assert(state@ =~= HelpStateV {
                            editor: input::prefilled(text@),
                            focus: help::Focus::Browse,
                            ..s
                        });
                    },
                    EditResult::Cancelled => {
                        assert(state@ =~= HelpStateV { editor: input::prefilled(seq![]), ..s });
                        return false;
                    },
                }
                true
            },
            help::Focus::Browse => {
                let command = self.dispatcher.key(&self.keymap, Context::Help, key);
                let ghost pending = keymap::dispatched(a.pending, a.bindings, Context::Help, key).0;
                assert(self@ =~= AppV { pending, ..a });
                match command {
                    Some(command) => self.run_help_command(state, command),
                    None => true,
                }
            },
        }
    }

    /// Runs a dispatched command of the help view. Returns whether the view
    /// stays open.
    fn run_help_command(&self, state: &mut HelpState, command: CommandId) -> (r: bool)
        requires
            model::valid_editor(old(state)@.editor),
        ensures
            (final(state)@, r) == model::help_command(self@, old(state)@, command),
            model::valid_editor(final(state)@.editor),
    {
        let ghost s = state@;
        let len: usize = self.help_line_count(state);
        match command {
            CommandId::HelpNext => {
                state.scroll = app::down_by(state.scroll, 1, len);
            },
            CommandId::HelpPrev => {
                state.scroll = app::up_by(state.scroll, 1);
            },
            CommandId::HelpFirst => {
                state.scroll = 0;
            },
            CommandId::HelpLast => {
                state.scroll = app::last_of(len);
            },
            CommandId::HelpHalfPageDown => {
                state.scroll = app::down_by(
                    state.scroll,
                    app::half_page_step(self.popup_height),
                    len,
                );
            },
            CommandId::HelpHalfPageUp => {
                state.scroll = app::up_by(state.scroll, app::half_page_step(self.popup_height));
            },
            CommandId::HelpFilter => {
                // Rebuilt so the cursor lands at the end of the preserved
                // text.
                state.editor = Editor::with_text(state.editor.text());
                state.focus = help::Focus::Edit;
            },
            CommandId::HelpClose => {
                return false;
            },
            _ => {},
        }
        assert(state@ =~= model::help_command(self@, s, command).0);
        true
    }
}

} // verus!

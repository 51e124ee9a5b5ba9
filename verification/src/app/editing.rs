//! Editing the tree from the session: moving, nesting and deleting tasks,
//! cycling statuses, undo and redo.
use std::collections::HashSet;

use vstd::prelude::*;

use crate::app;
use crate::app::model;
use crate::app::model::AppV;
use crate::app::{App, History, Mode};
use crate::db;
use crate::db::{Db, UndoOutcome};
use crate::error::Error;
use crate::plans;
use crate::status_cycle;
use crate::status_cycle::Direction;
use crate::store;
use crate::task::TaskMove;
use crate::text;
use crate::tree;

verus! {

broadcast use vstd::std_specs::hash::group_hash_axioms;

proof fn lemma_take_set(s: Seq<i64>, i: int)
    requires
        0 <= i < s.len(),
    ensures
        s.take(i + 1).to_set() == s.take(i).to_set().insert(s[i]),
{
    let a = s.take(i + 1);
    let b = s.take(i);
    assert forall|x: i64| a.to_set().contains(x) == b.to_set().insert(s[i]).contains(x) by {
        if a.contains(x) {
            let k = choose|k: int| 0 <= k < a.len() && a[k] == x;
            if k < i {
                assert(b[k] == x);
            }
        }
        if b.contains(x) {
            let k = choose|k: int| 0 <= k < b.len() && b[k] == x;
            assert(a[k] == x);
        }
        assert(a[i] == s[i]);
    }
    assert(a.to_set() =~= b.to_set().insert(s[i]));
}

/// Adds the ids to the set.
fn insert_all(set: &mut HashSet<i64>, ids: &Vec<i64>)
    ensures
        final(set)@ == old(set)@.union(ids@.to_set()),
{
    let ghost start = set@;
    let mut i: usize = 0;
    assert(start.union(ids@.take(0).to_set()) =~= start);
    while i < ids.len()
        invariant
            i <= ids.len(),
            set@ == start.union(ids@.take(i as int).to_set()),
        decreases ids.len() - i,
    {
        proof {
            lemma_take_set(ids@, i as int);
        }
        set.insert(ids[i]);
        assert(set@ =~= start.union(ids@.take(i + 1).to_set()));
        i = i + 1;
    }
    assert(ids@.take(i as int) =~= ids@);
}

impl App {
    /// Swaps the selected task with its sibling neighbour, keeping the
    /// cursor on the task rather than on its old row.
    pub(crate) fn move_selected(&mut self, db: &mut Db, direction: TaskMove, today: &str) -> (r: Result<
        (),
        Error,
    >)
        requires
            model::valid(old(self)@),
            old(db).wf(),
        ensures
            app::step(final(self)@, final(db)@, r) == model::task_moved(
                old(self)@,
                old(db)@,
                direction,
                today@,
            ),
            app::keeps(old(self)@, *old(db), final(self)@, *final(db)),
    {
        match self.selected_task_id() {
            None => Ok(()),
            Some(task_id) => match db.move_task(task_id, direction) {
                Ok(()) => self.show_edited(db, task_id, None, today),
                Err(e) => Err(e),
            },
        }
    }

    /// Makes the selected task a child of its preceding sibling. A no-op for
    /// first siblings, which have nothing above to indent under. Without
    /// expanding the new parent the task would vanish from view.
    pub(crate) fn indent_selected(&mut self, db: &mut Db, today: &str, now: &str) -> (r: Result<
        (),
        Error,
    >)
        requires
            model::valid(old(self)@),
            old(db).wf(),
        ensures
            app::step(final(self)@, final(db)@, r) == model::task_indented(
                old(self)@,
                old(db)@,
                today@,
                now@,
            ),
            app::keeps(old(self)@, *old(db), final(self)@, *final(db)),
    {
        match self.selected_task_id() {
            None => Ok(()),
            Some(task_id) => match tree::indent_new_parent(&self.tasks, task_id) {
                None => Ok(()),
                Some(new_parent) => match db.reparent_at(task_id, Some(new_parent), None, now) {
                    Ok(()) => self.show_edited(db, task_id, Some(new_parent), today),
                    Err(e) => Err(e),
                },
            },
        }
    }

    /// Moves the selected task up one level, right after its old parent.
    /// A no-op at the root level and directly under the zoom root.
    pub(crate) fn outdent_selected(&mut self, db: &mut Db, today: &str, now: &str) -> (r: Result<
        (),
        Error,
    >)
        requires
            model::valid(old(self)@),
            old(db).wf(),
        ensures
            app::step(final(self)@, final(db)@, r) == model::task_outdented(
                old(self)@,
                old(db)@,
                today@,
                now@,
            ),
            app::keeps(old(self)@, *old(db), final(self)@, *final(db)),
    {
        match self.selected_task_id() {
            None => Ok(()),
            Some(task_id) => match tree::outdent_target(&self.tasks, task_id, self.zoom_root) {
                None => Ok(()),
                Some(target) => match db.reparent_at(
                    task_id,
                    target.new_parent,
                    target.after,
                    now,
                ) {
                    Ok(()) => self.show_edited(db, task_id, None, today),
                    Err(e) => Err(e),
                },
            },
        }
    }

    /// Brings `task_id` into view and puts the cursor on it: the task may
    /// sit under collapsed ancestors, outside the zoom, or off-cursor. So
    /// the ancestors are expanded and the zoom dropped unless it contains
    /// the task. Shared by undo/redo and the search-result jump.
    pub(crate) fn reveal_task(&mut self, task_id: i64, today: &str)
        requires
            model::valid_tasks(old(self)@.tasks),
        ensures
            final(self)@ == model::revealed(old(self)@, task_id, today@),
            model::valid_rows(final(self)@.rows, final(self)@.tasks.len()),
            model::on_a_row(final(self)@),
    {
        let ghost a = self@;
        let ancestors = tree::ancestors_of(&self.tasks, task_id);
        insert_all(&mut self.expanded, &ancestors);
        if let Some(zoom) = self.zoom_root {
            if !store::contains_id(&ancestors, zoom) {
                self.zoom_root = None;
            }
        }
        assert(self@ =~= AppV {
            expanded: a.expanded.union(ancestors@.to_set()),
            zoom_root: self.zoom_root,
            ..a
        });
        self.rebuild_rows_at(today);
        self.select_task(task_id);
    }

    /// Re-reads the status list and the default after any status edit, so
    /// the table, the tree rows and new-task creation all see the change.
    pub(crate) fn reload_statuses(&mut self, db: &Db) -> (r: Result<(), Error>)
        requires
            db.wf(),
        ensures
            (final(self)@, db::unit_result(r)) == model::with_statuses(old(self)@, db@),
            model::synced(final(self)@, db@),
            r is Ok ==> final(self)@.statuses.len() > 0,
    {
        let ghost a = self@;
        match db.list_statuses() {
            Ok(statuses) => {
                self.statuses = statuses;
            },
            Err(e) => {
                return Err(e);
            },
        }
        match db.default_status_id() {
            Ok(id) => {
                self.default_status_id = id;
                assert(self@ =~= AppV {
                    statuses: plans::statuses(db@.tables.statuses),
                    default_status_id: id,
                    ..a
                });
                proof {
                    let ss = self@.statuses;
                    let k = choose|k: int| 0 <= k < ss.len() && (#[trigger] ss[k]).id == id;
                    assert(ss[k].id == id);
                }
                Ok(())
            },
            Err(e) => {
                assert(self@ =~= AppV { statuses: plans::statuses(db@.tables.statuses), ..a });
                Err(e)
            },
        }
    }

    /// Undo or redo in the store.
    pub(crate) fn replay(db: &mut Db, kind: History) -> (r: Result<Option<UndoOutcome>, Error>)
        requires
            old(db).wf(),
        ensures
            final(db).wf(),
            old(db).consistent() ==> final(db).consistent(),
            r is Ok,
            (final(db)@, db::outcome_option(r->Ok_0)) == model::replayed(old(db)@, kind),
    {
        match kind {
            History::Undo => db.undo(),
            History::Redo => db.redo(),
        }
    }

    /// The touched tasks that still exist. Tasks the replay removed (e.g.
    /// undoing a create) cannot be shown; only the surviving ones steer the
    /// view.
    fn surviving(&self, ids: &Vec<i64>) -> (r: Vec<i64>)
        ensures
            r@ == model::surviving(self@.tasks, ids@),
    {
        let mut r: Vec<i64> = Vec::new();
        let mut i: usize = 0;
        assert(ids@.take(0) =~= seq![]);
        while i < ids.len()
            invariant
                i <= ids.len(),
                r@ == model::surviving(self@.tasks, ids@.take(i as int)),
            decreases ids.len() - i,
        {
            assert(ids@.take(i + 1).drop_last() =~= ids@.take(i as int));
            if tree::find_first(&self.tasks, ids[i]).is_some() {
                r.push(ids[i]);
            }
            i = i + 1;
        }
        assert(ids@.take(i as int) =~= ids@);
        r
    }

    /// Expands the ancestors of the tasks.
    fn expand_above(&mut self, ids: &Vec<i64>)
        requires
            model::valid_tasks(old(self)@.tasks),
        ensures
            final(self)@ == (AppV {
                expanded: model::opened_for(old(self)@.tasks, ids@, old(self)@.expanded),
                ..old(self)@
            }),
    {
        let ghost a = self@;
        let mut i: usize = 0;
        assert(ids@.take(0) =~= seq![]);
        while i < ids.len()
            invariant
                i <= ids.len(),
                model::valid_tasks(a.tasks),
                self@ == (AppV {
                    expanded: model::opened_for(a.tasks, ids@.take(i as int), a.expanded),
                    ..a
                }),
            decreases ids.len() - i,
        {
            assert(ids@.take(i + 1).drop_last() =~= ids@.take(i as int));
            let ancestors = tree::ancestors_of(&self.tasks, ids[i]);
            insert_all(&mut self.expanded, &ancestors);
            i = i + 1;
            assert(self@ =~= AppV {
                expanded: model::opened_for(a.tasks, ids@.take(i as int), a.expanded),
                ..a
            });
        }
        assert(ids@.take(i as int) =~= ids@);
    }

    /// What is said after an undo or redo.
    pub(crate) fn say_replayed(&mut self, kind: History, outcome: &UndoOutcome)
        ensures
            final(self)@ == model::says(old(self)@, model::replay_message(kind, outcome@)),
    {
        let ghost a = self@;
        self.status_line = Some(
            text::concat3(kind.verb(), ": ", outcome.description.as_str()),
        );
        assert(self@ =~= model::says(a, model::replay_message(kind, outcome@)));
    }

    /// Runs undo or redo and then makes the result visible (reveal_task),
    /// where a successful undo would otherwise look like nothing happened,
    /// and names the change in the status line. Status edits are undoable
    /// too, so both loaded data sets may be stale then.
    pub(crate) fn apply_history(&mut self, db: &mut Db, kind: History, today: &str) -> (r: Result<
        (),
        Error,
    >)
        requires
            model::valid(old(self)@),
            old(self)@.mode is Tree,
            old(db).wf(),
        ensures
            app::step(final(self)@, final(db)@, r) == model::history(
                old(self)@,
                old(db)@,
                kind,
                today@,
            ),
            app::keeps(old(self)@, *old(db), final(self)@, *final(db)),
    {
        let ghost a = self@;
        let outcome = match App::replay(db, kind) {
            Ok(Some(outcome)) => outcome,
            Ok(None) => {
                self.status_line = Some(kind.empty_message().to_owned());
                assert(self@ =~= model::says(a, model::empty_message(kind)));
                return Ok(());
            },
            Err(e) => {
                return Err(e);
            },
        };
        match self.reload_statuses(db) {
            Ok(()) => {},
            Err(e) => {
                return Err(e);
            },
        }
        let ghost b = self@;
        match db.list_all() {
            Ok(tasks) => {
                self.tasks = tasks;
            },
            Err(e) => {
                return Err(e);
            },
        }
        let surviving = self.surviving(&outcome.affected_task_ids);
        assert(self@ =~= AppV { tasks: model::stored_tasks(db@), ..b });
        self.expand_above(&surviving);
        if surviving.len() > 0 {
            self.reveal_task(surviving[0], today);
        } else {
            self.rebuild_rows_at(today);
        }
        self.say_replayed(kind, &outcome);
        Ok(())
    }

    /// Deletes the subtree and moves the cursor to the nearest surviving
    /// neighbour: next sibling, else previous sibling, else parent. It is
    /// computed from the tasks before the deletion; after the reload the
    /// deleted task's neighbours are gone from the rows.
    pub(crate) fn delete_and_reselect(&mut self, db: &mut Db, task_id: i64, today: &str) -> (r: Result<
        (),
        Error,
    >)
        requires
            model::valid(old(self)@),
            old(db).wf(),
        ensures
            app::step(final(self)@, final(db)@, r) == model::deleted(
                old(self)@,
                old(db)@,
                task_id,
                today@,
            ),
            app::keeps(old(self)@, *old(db), final(self)@, *final(db)),
    {
        let fallback = tree::selection_after_delete(&self.tasks, task_id);
        match db.delete_subtree(task_id) {
            Ok(_) => {},
            Err(e) => {
                return Err(e);
            },
        }
        match self.reload(db, today) {
            Ok(()) => {},
            Err(e) => {
                return Err(e);
            },
        }
        if let Some(target) = fallback {
            self.select_task(target);
        }
        Ok(())
    }

    /// Deletes the selected task: a childless one goes instantly — undo
    /// covers mistakes, so a prompt would only cost tempo. Only a subtree,
    /// whose size is not visible at a glance, warrants a confirmation.
    pub(crate) fn request_delete(&mut self, db: &mut Db, today: &str) -> (r: Result<(), Error>)
        requires
            model::valid(old(self)@),
            old(db).wf(),
        ensures
            app::step(final(self)@, final(db)@, r) == model::delete_requested(
                old(self)@,
                old(db)@,
                today@,
            ),
            app::keeps(old(self)@, *old(db), final(self)@, *final(db)),
    {
        let ghost a = self@;
        let i = match self.selected_index() {
            Some(i) => i,
            None => {
                return Ok(());
            },
        };
        let task_id = self.tasks[i].id;
        let count = match db.count_subtree(task_id) {
            Ok(count) => count,
            Err(e) => {
                return Err(e);
            },
        };
        if count == 1 {
            let message = text::concat3(
                "deleted \"",
                self.tasks[i].title.as_str(),
                "\" (u to undo)",
            );
            match self.delete_and_reselect(db, task_id, today) {
                Ok(()) => {
                    let ghost b = self@;
                    self.status_line = Some(message);
                    assert(self@ =~= model::says(b, message@));
                    Ok(())
                },
                Err(e) => Err(e),
            }
        } else {
            self.status_line = Some(
                text::concat3("delete ", text::number(count).as_str(), " task(s)? (y/n)"),
            );
            self.mode = Mode::ConfirmDelete { task_id, count };
            assert(self@ =~= model::delete_requested(a, db@, today@).app);
            Ok(())
        }
    }

    /// Moves the selected task's status one step through the display order,
    /// wrapping at both ends, then reloads to reflect the change.
    pub(crate) fn cycle_status(
        &mut self,
        db: &mut Db,
        direction: Direction,
        today: &str,
        now: &str,
    ) -> (r: Result<(), Error>)
        requires
            model::valid(old(self)@),
            old(db).wf(),
        ensures
            app::step(final(self)@, final(db)@, r) == model::status_cycled(
                old(self)@,
                old(db)@,
                direction,
                today@,
                now@,
            ),
            app::keeps(old(self)@, *old(db), final(self)@, *final(db)),
    {
        let i = match self.selected_index() {
            Some(i) => i,
            None => {
                return Ok(());
            },
        };
        let task_id = self.tasks[i].id;
        match status_cycle::adjacent_status_id(&self.statuses, self.tasks[i].status_id, direction) {
            None => Ok(()),
            Some(status_id) => match db.set_status_at(task_id, status_id, now) {
                Ok(()) => self.show_edited(db, task_id, None, today),
                Err(e) => Err(e),
            },
        }
    }
}

} // verus!

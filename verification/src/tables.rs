//! The stored tables as mathematical values, the row changes that lead from
//! one state to the next, and the undo history over them.
use vstd::prelude::*;

use crate::forest;
use crate::order;
use crate::order::Order;
use crate::status::StatusV;
use crate::task::TaskV;

verus! {

/// The rows of both tables, by id.
#[verifier::ext_equal]
pub struct Tables {
    pub tasks: Map<i64, TaskV>,
    pub statuses: Map<i64, StatusV>,
}

/// What a table holds under an id.
pub open spec fn lookup<T>(m: Map<i64, T>, id: i64) -> Option<T> {
    if m.dom().contains(id) {
        Some(m[id])
    } else {
        None
    }
}

/// The table with `row` under an id, or with nothing there.
pub open spec fn put<T>(m: Map<i64, T>, id: i64, row: Option<T>) -> Map<i64, T> {
    match row {
        Some(r) => m.insert(id, r),
        None => m.remove(id),
    }
}

/// A change of one row: an insert has no row before, a delete none after.
#[allow(inconsistent_fields)]
#[verifier::ext_equal]
pub enum ChangeV {
    Task { id: i64, before: Option<TaskV>, after: Option<TaskV> },
    Status { id: i64, before: Option<StatusV>, after: Option<StatusV> },
}

/// Every row sits under its own id.
pub open spec fn keyed(t: Tables) -> bool {
    &&& forall|id: i64| #[trigger] t.tasks.dom().contains(id) ==> t.tasks[id].id == id
    &&& forall|id: i64| #[trigger] t.statuses.dom().contains(id) ==> t.statuses[id].id == id
}

/// The change starts from what the tables hold.
pub open spec fn fits(t: Tables, c: ChangeV) -> bool {
    match c {
        ChangeV::Task { id, before, after } => lookup(t.tasks, id) == before && (after is Some
            ==> after->Some_0.id == id),
        ChangeV::Status { id, before, after } => lookup(t.statuses, id) == before && (after is Some
            ==> after->Some_0.id == id),
    }
}

pub open spec fn apply(t: Tables, c: ChangeV) -> Tables {
    match c {
        ChangeV::Task { id, before, after } => Tables {
            tasks: put(t.tasks, id, after),
            statuses: t.statuses,
        },
        ChangeV::Status { id, before, after } => Tables {
            tasks: t.tasks,
            statuses: put(t.statuses, id, after),
        },
    }
}

pub open spec fn inverse(c: ChangeV) -> ChangeV {
    match c {
        ChangeV::Task { id, before, after } => ChangeV::Task { id, before: after, after: before },
        ChangeV::Status { id, before, after } => ChangeV::Status {
            id,
            before: after,
            after: before,
        },
    }
}

/// Applying the inverse right after a change restores the tables.
pub proof fn lemma_inverse(t: Tables, c: ChangeV)
    requires
        keyed(t),
        fits(t, c),
    ensures
        keyed(apply(t, c)),
        fits(apply(t, c), inverse(c)),
        apply(apply(t, c), inverse(c)) == t,
{
    let u = apply(apply(t, c), inverse(c));
    assert(u.tasks =~= t.tasks);
    assert(u.statuses =~= t.statuses);
}

/// The changes one after the other.
pub open spec fn run(t: Tables, cs: Seq<ChangeV>) -> Tables
    decreases cs.len(),
{
    if cs.len() == 0 {
        t
    } else {
        apply(run(t, cs.drop_last()), cs.last())
    }
}

/// Each change fits where it is applied.
pub open spec fn runs(t: Tables, cs: Seq<ChangeV>) -> bool
    decreases cs.len(),
{
    cs.len() > 0 ==> runs(t, cs.drop_last()) && fits(run(t, cs.drop_last()), cs.last())
}

/// What undoes the changes: their inverses, newest first.
pub open spec fn inverse_all(cs: Seq<ChangeV>) -> Seq<ChangeV> {
    Seq::new(cs.len(), |i: int| inverse(cs[cs.len() - 1 - i]))
}

pub proof fn lemma_inverse_all_twice(cs: Seq<ChangeV>)
    ensures
        inverse_all(inverse_all(cs)) == cs,
{
    assert(inverse_all(inverse_all(cs)) =~= cs);
}

pub proof fn lemma_run_concat(t: Tables, a: Seq<ChangeV>, b: Seq<ChangeV>)
    ensures
        run(t, a + b) == run(run(t, a), b),
        runs(t, a + b) == (runs(t, a) && runs(run(t, a), b)),
    decreases b.len(),
{
    if b.len() == 0 {
        assert(a + b =~= a);
    } else {
        assert((a + b).drop_last() =~= a + b.drop_last());
        lemma_run_concat(t, a, b.drop_last());
    }
}

pub proof fn lemma_run_one(t: Tables, c: ChangeV)
    ensures
        run(t, seq![c]) == apply(t, c),
        runs(t, seq![c]) == fits(t, c),
{
    assert(seq![c].drop_last() =~= Seq::<ChangeV>::empty());
    reveal_with_fuel(run, 2);
    reveal_with_fuel(runs, 2);
}

pub proof fn lemma_run_push(t: Tables, cs: Seq<ChangeV>, c: ChangeV)
    ensures
        run(t, cs.push(c)) == apply(run(t, cs), c),
        runs(t, cs.push(c)) == (runs(t, cs) && fits(run(t, cs), c)),
{
    assert(cs.push(c).drop_last() =~= cs);
}

pub proof fn lemma_run_keyed(t: Tables, cs: Seq<ChangeV>)
    requires
        keyed(t),
        runs(t, cs),
    ensures
        keyed(run(t, cs)),
    decreases cs.len(),
{
    if cs.len() > 0 {
        lemma_run_keyed(t, cs.drop_last());
        lemma_inverse(run(t, cs.drop_last()), cs.last());
    }
}

/// Running changes and then what undoes them restores the tables.
pub proof fn lemma_rewind(t: Tables, cs: Seq<ChangeV>)
    requires
        keyed(t),
        runs(t, cs),
    ensures
        runs(run(t, cs), inverse_all(cs)),
        run(run(t, cs), inverse_all(cs)) == t,
    decreases cs.len(),
{
    if cs.len() > 0 {
        let front = cs.drop_last();
        lemma_rewind(t, front);
        lemma_run_keyed(t, front);
        lemma_inverse(run(t, front), cs.last());
        assert(inverse_all(cs) =~= seq![inverse(cs.last())] + inverse_all(front));
        lemma_run_one(run(t, cs), inverse(cs.last()));
        lemma_run_concat(run(t, cs), seq![inverse(cs.last())], inverse_all(front));
    } else {
        assert(inverse_all(cs) =~= Seq::<ChangeV>::empty());
    }
}

/// The ids of the tasks the changes touch, each once, in order.
pub open spec fn affected(cs: Seq<ChangeV>) -> Seq<i64>
    decreases cs.len(),
{
    if cs.len() == 0 {
        seq![]
    } else {
        let front = affected(cs.drop_last());
        match cs.last() {
            ChangeV::Task { id, before, after } => if front.contains(id) {
                front
            } else {
                front.push(id)
            },
            _ => front,
        }
    }
}

/// `h` falls along every parent link of the table.
pub open spec fn falls(m: Map<i64, TaskV>, h: spec_fn(i64) -> nat) -> bool {
    forall|id: i64| #[trigger]
        m.dom().contains(id) && m[id].parent_id is Some ==> h(id) < h(m[id].parent_id->Some_0)
}

/// The parent links close no cycle.
pub open spec fn acyclic(m: Map<i64, TaskV>) -> bool {
    exists|h: spec_fn(i64) -> nat| falls(m, h)
}

/// Every parent that a task refers to exists.
pub open spec fn linked(m: Map<i64, TaskV>) -> bool {
    forall|id: i64| #[trigger]
        m.dom().contains(id) && m[id].parent_id is Some ==> m.dom().contains(
            m[id].parent_id->Some_0,
        )
}

/// Every status that a task refers to exists, and exactly one status is the
/// default.
pub open spec fn consistent(t: Tables) -> bool {
    &&& forall|id: i64| #[trigger]
        t.tasks.dom().contains(id) ==> t.statuses.dom().contains(t.tasks[id].status_id)
    &&& exists|d: i64| is_only_default(t.statuses, d)
}

pub open spec fn is_only_default(m: Map<i64, StatusV>, d: i64) -> bool {
    m.dom().contains(d) && forall|id: i64| #[trigger]
        m.dom().contains(id) ==> m[id].is_default == (id == d)
}

/// What every state the history leads to satisfies: rows under their ids, a
/// forest of tasks and, where `strict`, the status references and the
/// default.
pub open spec fn sound(t: Tables, strict: bool) -> bool {
    keyed(t) && acyclic(t.tasks) && linked(t.tasks) && (strict ==> consistent(t))
}

/// One undoable user action: the row changes it made and a human-readable
/// description shown when it is undone or redone.
#[verifier::ext_equal]
pub struct StepV {
    pub description: Seq<char>,
    pub changes: Seq<ChangeV>,
}

/// The state before the top `stack.len() - n` steps.
pub open spec fn rewound(t: Tables, stack: Seq<StepV>, n: int) -> Tables
    decreases stack.len(),
{
    if stack.len() <= n || stack.len() == 0 {
        t
    } else {
        rewound(run(t, inverse_all(stack.last().changes)), stack.drop_last(), n)
    }
}

/// Every step of the stack can be reverted in turn, and only sound states
/// are met on the way.
pub open spec fn chain(t: Tables, stack: Seq<StepV>, strict: bool) -> bool
    decreases stack.len(),
{
    &&& sound(t, strict)
    &&& stack.len() > 0 ==> runs(t, inverse_all(stack.last().changes)) && chain(
        run(t, inverse_all(stack.last().changes)),
        stack.drop_last(),
        strict,
    )
}

/// An open undo sub-session: the length of the undo stack when it opened and
/// the outer redo stack.
#[verifier::ext_equal]
pub struct ScopeV {
    pub boundary: nat,
    pub saved_redo: Seq<StepV>,
}

/// The store: its tables, its history, and the changes not yet taken for
/// saving.
#[verifier::ext_equal]
pub struct DbV {
    pub tables: Tables,
    pub undo: Seq<StepV>,
    pub redo: Seq<StepV>,
    pub scope: Option<ScopeV>,
    pub unsaved: Seq<ChangeV>,
}

/// Undo and redo can revert step by step through sound states; so can the
/// redo steps put aside by an open scope, once the scope is rewound.
pub open spec fn history_ok(d: DbV, strict: bool) -> bool {
    &&& chain(d.tables, d.undo, strict)
    &&& chain(d.tables, d.redo, strict)
    &&& d.scope matches Some(s) ==> s.boundary <= d.undo.len() && chain(
        rewound(d.tables, d.undo, s.boundary as int),
        s.saved_redo,
        strict,
    )
}

/// The store after an action. One that changed no row is not recorded:
/// undoing it would visibly do nothing. Any other opens a new branch of
/// history, so what could be redone no longer can.
pub open spec fn committed(d: DbV, description: Seq<char>, changes: Seq<ChangeV>) -> DbV {
    if changes.len() == 0 {
        d
    } else {
        DbV {
            tables: run(d.tables, changes),
            undo: d.undo.push(StepV { description, changes }),
            redo: seq![],
            scope: d.scope,
            unsaved: d.unsaved + changes,
        }
    }
}

/// What an undo or redo did.
#[verifier::ext_equal]
pub struct OutcomeV {
    pub description: Seq<char>,
    pub affected_task_ids: Seq<i64>,
}

/// Whether there is a step to undo: inside a scope only its own count.
pub open spec fn can_undo(d: DbV) -> bool {
    d.undo.len() > 0 && (d.scope matches Some(s) ==> d.undo.len() > s.boundary)
}

/// The replay of the top step of a stack.
pub open spec fn replay(stack: Seq<StepV>) -> Seq<ChangeV> {
    inverse_all(stack.last().changes)
}

pub open spec fn replay_outcome(stack: Seq<StepV>) -> OutcomeV {
    OutcomeV {
        description: stack.last().description,
        affected_task_ids: affected(replay(stack)),
    }
}

/// What the replay itself records, for going the other way.
pub open spec fn counter_step(stack: Seq<StepV>) -> StepV {
    StepV { description: stack.last().description, changes: replay(stack) }
}

/// The store after undoing its newest step.
pub open spec fn undone(d: DbV) -> DbV {
    DbV {
        tables: run(d.tables, replay(d.undo)),
        undo: d.undo.drop_last(),
        redo: d.redo.push(counter_step(d.undo)),
        scope: d.scope,
        unsaved: d.unsaved + replay(d.undo),
    }
}

/// The store after redoing its most recently undone step.
pub open spec fn redone(d: DbV) -> DbV {
    DbV {
        tables: run(d.tables, replay(d.redo)),
        undo: d.undo.push(counter_step(d.redo)),
        redo: d.redo.drop_last(),
        scope: d.scope,
        unsaved: d.unsaved + replay(d.redo),
    }
}

pub open spec fn scope_opened(d: DbV) -> DbV {
    DbV {
        redo: seq![],
        scope: Some(ScopeV { boundary: d.undo.len(), saved_redo: d.redo }),
        ..d
    }
}

/// All the changes of a run of steps.
pub open spec fn all_changes(steps: Seq<StepV>) -> Seq<ChangeV>
    decreases steps.len(),
{
    if steps.len() == 0 {
        seq![]
    } else {
        all_changes(steps.drop_last()) + steps.last().changes
    }
}

/// The store after closing its scope: the surviving steps become one; where
/// none survived, the history is as before the scope.
pub open spec fn scope_closed(d: DbV, description: Seq<char>) -> DbV {
    let s = d.scope->Some_0;
    if d.undo.len() == s.boundary {
        DbV { redo: s.saved_redo, scope: None, ..d }
    } else {
        DbV {
            undo: d.undo.take(s.boundary as int).push(
                StepV { description, changes: all_changes(d.undo.skip(s.boundary as int)) },
            ),
            redo: seq![],
            scope: None,
            ..d
        }
    }
}

pub proof fn lemma_chain_sound(t: Tables, stack: Seq<StepV>, strict: bool)
    requires
        chain(t, stack, strict),
    ensures
        sound(t, strict),
{
}

/// An action on a sound store that leaves it sound keeps the history whole.
pub proof fn lemma_committed(
    d: DbV,
    description: Seq<char>,
    changes: Seq<ChangeV>,
    strict: bool,
)
    requires
        history_ok(d, strict),
        runs(d.tables, changes),
        sound(run(d.tables, changes), strict),
    ensures
        history_ok(committed(d, description, changes), strict),
{
    if changes.len() > 0 {
        let e = committed(d, description, changes);
        lemma_rewind(d.tables, changes);
        assert(e.undo.drop_last() =~= d.undo);
        assert(chain(e.tables, e.undo, strict));
        assert(chain(e.tables, e.redo, strict));
    }
}

/// The store `e` is the store `d` after at most one action whose changes are
/// recorded as a step that can be undone.
pub open spec fn undoable(d: DbV, e: DbV) -> bool {
    let step = e.undo.last();
    ||| e == d
    ||| step.changes.len() > 0 && runs(d.tables, step.changes) && e == committed(
        d,
        step.description,
        step.changes,
    )
}

/// Every change of the data can be undone: undo leads back to the tables and
/// to the older steps exactly.
pub proof fn every_change_can_be_undone(d: DbV, e: DbV, strict: bool)
    requires
        history_ok(d, strict),
        undoable(d, e),
        e != d,
    ensures
        can_undo(e),
        undone(e).tables == d.tables,
        undone(e).undo == d.undo,
        undone(e).scope == d.scope,
{
    let step = e.undo.last();
    undo_restores_tables(d, step.description, step.changes);
}

/// An action adds to the history and leaves what was there: every state that
/// undo could reach before can still be reached.
pub proof fn older_states_stay_reachable(d: DbV, e: DbV, n: int, strict: bool)
    requires
        history_ok(d, strict),
        undoable(d, e),
        0 <= n <= d.undo.len(),
    ensures
        rewound(e.tables, e.undo, n) == rewound(d.tables, d.undo, n),
{
    if e != d {
        every_change_can_be_undone(d, e, strict);
        assert(e.undo.drop_last() =~= d.undo);
    }
}

/// Undoing an action right away restores the tables it started from.
pub proof fn undo_restores_tables(d: DbV, description: Seq<char>, changes: Seq<ChangeV>)
    requires
        keyed(d.tables),
        runs(d.tables, changes),
        changes.len() > 0,
    ensures
        undone(committed(d, description, changes)).tables == d.tables,
        undone(committed(d, description, changes)).undo == d.undo,
{
    lemma_rewind(d.tables, changes);
    assert(d.undo.push(StepV { description, changes }).drop_last() =~= d.undo);
}

/// Redo is the inverse of undo: tables and both stacks come back exactly.
pub proof fn redo_reverts_undo(d: DbV, strict: bool)
    requires
        history_ok(d, strict),
        d.undo.len() > 0,
    ensures
        redone(undone(d)).tables == d.tables,
        redone(undone(d)).undo == d.undo,
        redone(undone(d)).redo == d.redo,
{
    let u = undone(d);
    let changes = d.undo.last().changes;
    lemma_rewind(d.tables, inverse_all(changes));
    lemma_inverse_all_twice(changes);
    assert(u.redo.drop_last() =~= d.redo);
    assert(u.undo.push(d.undo.last()) =~= d.undo);
}

/// Undo is the inverse of redo: tables and both stacks come back exactly.
pub proof fn undo_reverts_redo(d: DbV, strict: bool)
    requires
        history_ok(d, strict),
        d.redo.len() > 0,
    ensures
        undone(redone(d)).tables == d.tables,
        undone(redone(d)).undo == d.undo,
        undone(redone(d)).redo == d.redo,
{
    let u = redone(d);
    let changes = d.redo.last().changes;
    lemma_rewind(d.tables, inverse_all(changes));
    lemma_inverse_all_twice(changes);
    assert(u.undo.drop_last() =~= d.undo);
    assert(u.redo.push(d.redo.last()) =~= d.redo);
}

/// Undoing keeps the history whole.
pub proof fn lemma_undone(d: DbV, strict: bool)
    requires
        history_ok(d, strict),
        can_undo(d),
    ensures
        runs(d.tables, replay(d.undo)),
        history_ok(undone(d), strict),
{
    let u = undone(d);
    lemma_rewind(d.tables, replay(d.undo));
    assert(chain(u.tables, u.undo, strict));
    lemma_chain_sound(u.tables, u.undo, strict);
    assert(u.redo.drop_last() =~= d.redo);
    assert(chain(u.tables, u.redo, strict));
}

/// Redoing keeps the history whole.
pub proof fn lemma_redone(d: DbV, strict: bool)
    requires
        history_ok(d, strict),
        d.redo.len() > 0,
    ensures
        runs(d.tables, replay(d.redo)),
        history_ok(redone(d), strict),
{
    let u = redone(d);
    lemma_rewind(d.tables, replay(d.redo));
    assert(chain(u.tables, u.redo, strict));
    lemma_chain_sound(u.tables, u.redo, strict);
    assert(u.undo.drop_last() =~= d.undo);
    assert(chain(u.tables, u.undo, strict));
}

/// Rewinding step by step is rewinding the whole run of changes.
proof fn lemma_rewound(t: Tables, stack: Seq<StepV>, n: int, strict: bool)
    requires
        chain(t, stack, strict),
        0 <= n <= stack.len(),
    ensures
        rewound(t, stack, n) == run(t, inverse_all(all_changes(stack.skip(n)))),
        runs(t, inverse_all(all_changes(stack.skip(n)))),
        chain(rewound(t, stack, n), stack.take(n), strict),
    decreases stack.len(),
{
    let rest = stack.skip(n);
    if n == stack.len() {
        assert(rest =~= seq![]);
        assert(inverse_all(all_changes(rest)) =~= seq![]);
        assert(stack.take(n) =~= stack);
    } else {
        let top = stack.last().changes;
        let front = stack.drop_last();
        let t2 = run(t, inverse_all(top));
        lemma_rewound(t2, front, n, strict);
        assert(rest.drop_last() =~= front.skip(n));
        assert(rest.last() == stack.last());
        let older = all_changes(front.skip(n));
        assert(all_changes(rest) == older + top);
        assert(inverse_all(older + top) =~= inverse_all(top) + inverse_all(older));
        lemma_run_concat(t, inverse_all(top), inverse_all(older));
        assert(front.take(n) =~= stack.take(n));
    }
}

/// Opening a scope keeps the history whole.
pub proof fn lemma_scope_opened(d: DbV, strict: bool)
    requires
        history_ok(d, strict),
        d.scope is None,
    ensures
        history_ok(scope_opened(d), strict),
{
}

/// Closing a scope keeps the history whole.
pub proof fn lemma_scope_closed(d: DbV, description: Seq<char>, strict: bool)
    requires
        history_ok(d, strict),
        d.scope is Some,
    ensures
        history_ok(scope_closed(d, description), strict),
{
    let s = d.scope->Some_0;
    let n = s.boundary as int;
    if d.undo.len() > n {
        lemma_rewound(d.tables, d.undo, n, strict);
        let e = scope_closed(d, description);
        assert(e.undo.drop_last() =~= d.undo.take(n));
        assert(chain(e.tables, e.undo, strict));
    }
}

/// Closing a scope folds what survived in it into one step: undoing that
/// step leads to where undoing every step of the scope would have led.
pub proof fn closing_a_scope_folds_its_steps(d: DbV, description: Seq<char>, strict: bool)
    requires
        history_ok(d, strict),
        d.scope is Some,
        d.undo.len() > d.scope->Some_0.boundary,
    ensures
        scope_closed(d, description).undo.len() == d.scope->Some_0.boundary + 1,
        undone(scope_closed(d, description)).tables == rewound(
            d.tables,
            d.undo,
            d.scope->Some_0.boundary as int,
        ),
        undone(scope_closed(d, description)).undo == d.undo.take(d.scope->Some_0.boundary as int),
{
    let n = d.scope->Some_0.boundary as int;
    lemma_rewound(d.tables, d.undo, n, strict);
    assert(scope_closed(d, description).undo.drop_last() =~= d.undo.take(n));
}

/// A scope in which nothing survived leaves no trace: the history is what it
/// was when the scope opened.
pub proof fn an_empty_scope_leaves_no_trace(d: DbV, description: Seq<char>)
    requires
        d.scope is None,
    ensures
        scope_closed(scope_opened(d), description) == d,
{
}

/// Inside a scope, undo stops at the state the scope was opened in.
pub proof fn undo_stays_inside_its_scope(d: DbV)
    requires
        d.scope is Some,
        d.undo.len() <= d.scope->Some_0.boundary,
    ensures
        !can_undo(d),
{
}

/// A saved copy of the tables and the unsaved changes together give the
/// current tables.
pub open spec fn in_step(saved: Tables, d: DbV) -> bool {
    runs(saved, d.unsaved) && run(saved, d.unsaved) == d.tables
}

/// Every action, undo and redo keeps a saved copy in step.
pub proof fn saved_copy_stays_in_step(
    saved: Tables,
    d: DbV,
    description: Seq<char>,
    changes: Seq<ChangeV>,
    strict: bool,
)
    requires
        in_step(saved, d),
        history_ok(d, strict),
        runs(d.tables, changes),
    ensures
        in_step(saved, committed(d, description, changes)),
        can_undo(d) ==> in_step(saved, undone(d)),
        d.redo.len() > 0 ==> in_step(saved, redone(d)),
{
    lemma_run_concat(saved, d.unsaved, changes);
    if can_undo(d) {
        lemma_undone(d, strict);
        lemma_run_concat(saved, d.unsaved, replay(d.undo));
    }
    if d.redo.len() > 0 {
        lemma_redone(d, strict);
        lemma_run_concat(saved, d.unsaved, replay(d.redo));
    }
}

/// The task rows in order of id.
pub open spec fn is_rows(s: Seq<TaskV>, m: Map<i64, TaskV>) -> bool {
    &&& order::sorted(s, order::task_order(Order::Id))
    &&& forall|i: int| 0 <= i < s.len() ==> m.contains_pair(s[i].id, #[trigger] s[i])
    &&& forall|id: i64| #[trigger] m.dom().contains(id) ==> m[id].id == id && s.contains(m[id])
}

pub open spec fn rows(m: Map<i64, TaskV>) -> Seq<TaskV> {
    choose|s: Seq<TaskV>| is_rows(s, m)
}

/// The status rows in order of id.
pub open spec fn id_order() -> spec_fn(StatusV, StatusV) -> bool {
    |a: StatusV, b: StatusV| a.id < b.id
}

pub open spec fn is_status_rows(s: Seq<StatusV>, m: Map<i64, StatusV>) -> bool {
    &&& order::sorted(s, id_order())
    &&& forall|i: int| 0 <= i < s.len() ==> m.contains_pair(s[i].id, #[trigger] s[i])
    &&& forall|id: i64| #[trigger] m.dom().contains(id) ==> m[id].id == id && s.contains(m[id])
}

pub open spec fn status_rows(m: Map<i64, StatusV>) -> Seq<StatusV> {
    choose|s: Seq<StatusV>| is_status_rows(s, m)
}

/// A finite table can be listed.
pub proof fn lemma_rows_exist(m: Map<i64, TaskV>)
    requires
        m.dom().finite(),
        forall|id: i64| #[trigger] m.dom().contains(id) ==> m[id].id == id,
    ensures
        is_rows(rows(m), m),
        order::unique_ids(rows(m)),
    decreases m.dom().len(),
{
    let s = if m.dom().len() == 0 {
        assert(m.dom() =~= Set::<i64>::empty());
        let s = Seq::<TaskV>::empty();
        assert(is_rows(s, m));
        s
    } else {
        let x = m.dom().choose();
        let less = m.remove(x);
        assert(less.dom() =~= m.dom().remove(x));
        assert forall|id: i64| #[trigger] less.dom().contains(id) implies less[id].id == id by {
            assert(m.dom().contains(id));
        }
        lemma_rows_exist(less);
        let front = rows(less);
        let all = front.push(m[x]);
        let before = order::task_order(Order::Id);
        assert forall|i: int, j: int| 0 <= i < j < all.len() implies before(
            #[trigger] all[i],
            #[trigger] all[j],
        ) || before(all[j], all[i]) by {
            assert(less.contains_pair(front[i].id, front[i]));
            if j < front.len() {
                assert(before(front[i], front[j]));
            }
        }
        let s = order::lemma_can_be_sorted(all, before);
        assert forall|i: int| 0 <= i < s.len() implies m.contains_pair(s[i].id, #[trigger] s[i]) by {
            assert(all.contains(s[i]));
            let k = choose|k: int| 0 <= k < all.len() && all[k] == s[i];
            if k < front.len() {
                assert(less.contains_pair(front[k].id, front[k]));
            }
        }
        assert forall|id: i64| #[trigger] m.dom().contains(id) implies m[id].id == id && s.contains(
            m[id],
        ) by {
            if id == x {
                assert(all[front.len() as int] == m[x]);
                assert(s.contains(all[front.len() as int]));
            } else {
                assert(less.dom().contains(id));
                assert(front.contains(less[id]));
                let k = choose|k: int| 0 <= k < front.len() && front[k] == less[id];
                assert(all[k] == m[id]);
                assert(s.contains(all[k]));
            }
        }
        assert(is_rows(s, m));
        s
    };
    lemma_rows_unique(s, m);
}

/// The rows are determined by the table.
pub proof fn lemma_rows_unique(s: Seq<TaskV>, m: Map<i64, TaskV>)
    requires
        is_rows(s, m),
    ensures
        s == rows(m),
        order::unique_ids(s),
{
    let l = rows(m);
    assert(is_rows(l, m));
    assert forall|i: int| 0 <= i < s.len() implies l.contains(#[trigger] s[i]) by {
        assert(m.contains_pair(s[i].id, s[i]));
        assert(m.dom().contains(s[i].id));
    }
    assert forall|i: int| 0 <= i < l.len() implies s.contains(#[trigger] l[i]) by {
        assert(m.contains_pair(l[i].id, l[i]));
        assert(m.dom().contains(l[i].id));
    }
    order::lemma_sorted_unique(s, l, order::task_order(Order::Id));
    assert forall|i: int, j: int| 0 <= i < s.len() && 0 <= j < s.len() && s[i].id == s[j].id implies i
        == j by {
        if i < j {
            assert(order::task_order(Order::Id)(s[i], s[j]));
        } else if j < i {
            assert(order::task_order(Order::Id)(s[j], s[i]));
        }
    }
}

pub proof fn lemma_status_rows_unique(s: Seq<StatusV>, m: Map<i64, StatusV>)
    requires
        is_status_rows(s, m),
    ensures
        s == status_rows(m),
        order::unique_status_ids(s),
{
    let l = status_rows(m);
    assert(is_status_rows(l, m));
    assert forall|i: int| 0 <= i < s.len() implies l.contains(#[trigger] s[i]) by {
        assert(m.contains_pair(s[i].id, s[i]));
        assert(m.dom().contains(s[i].id));
    }
    assert forall|i: int| 0 <= i < l.len() implies s.contains(#[trigger] l[i]) by {
        assert(m.contains_pair(l[i].id, l[i]));
        assert(m.dom().contains(l[i].id));
    }
    order::lemma_sorted_unique(s, l, id_order());
    assert forall|i: int, j: int| 0 <= i < s.len() && 0 <= j < s.len() && s[i].id == s[j].id implies i
        == j by {
        if i < j {
            assert(id_order()(s[i], s[j]));
        } else if j < i {
            assert(id_order()(s[j], s[i]));
        }
    }
}

/// A measure falls along the links of a table where it does along those of
/// its rows.
pub proof fn lemma_rows_fall(s: Seq<TaskV>, m: Map<i64, TaskV>, h: spec_fn(i64) -> nat)
    requires
        is_rows(s, m),
    ensures
        falls(m, h) == forest::descends(s, h),
{
    if falls(m, h) {
        assert forall|i: int| 0 <= i < s.len() && (#[trigger] s[i]).parent_id is Some implies h(s[i].id)
            < h(s[i].parent_id->Some_0) by {
            assert(m.contains_pair(s[i].id, s[i]));
            assert(m.dom().contains(s[i].id));
        }
    }
    if forest::descends(s, h) {
        assert forall|id: i64| #[trigger] m.dom().contains(id) && m[id].parent_id is Some implies h(id)
            < h(m[id].parent_id->Some_0) by {
            assert(s.contains(m[id]));
            let i = choose|i: int| 0 <= i < s.len() && s[i] == m[id];
            assert(s[i].id == id);
        }
    }
}

} // verus!

//! What the keys do to the tasks, told from the rows before and after.
use vstd::prelude::*;

use crate::app::model;
use crate::app::model::{AppV, ModeV};
use crate::clock;
use crate::command::CommandId;
use crate::effects;
use crate::external_editor::EditOutcomeV;
use crate::key::Key;
use crate::laws;
use crate::ops;
use crate::order;
use crate::order::Order;
use crate::plans;
use crate::siblings;
use crate::tables;
use crate::tables::{DbV, Tables};
use crate::task::TaskV;
use crate::text;
use crate::tree;
use crate::tree::ReparentTarget;

verus! {

/// A session over a store, showing the tasks that are stored.
pub open spec fn in_use(a: AppV, d: DbV) -> bool {
    &&& tables::history_ok(d, false)
    &&& d.tables.tasks.dom().finite()
    &&& model::valid(a)
    &&& a.tasks == model::stored_tasks(d)
}

/// The cursor is on a task, this one.
pub open spec fn cursor_on(a: AppV, t: TaskV) -> bool {
    a.selected < a.rows.len() && a.tasks[a.rows[a.selected as int].task_index] == t
}

/// Where the view has a row for the task, the cursor is on one.
pub open spec fn cursor_follows(a: AppV, id: i64) -> bool {
    forall|k: int|
        0 <= k < a.rows.len() <= usize::MAX && a.tasks[(#[trigger] a.rows[k]).task_index].id == id
            ==> a.selected < a.rows.len() && a.tasks[a.rows[a.selected as int].task_index].id == id
}

/// The tree lists every stored task, once and as it is stored: the roots
/// first, each group by display order.
pub proof fn the_tree_lists_the_stored_tasks(d: DbV)
    requires
        tables::history_ok(d, false),
        d.tables.tasks.dom().finite(),
    ensures
        ({
            let ts = model::stored_tasks(d);
            let m = d.tables.tasks;
            &&& forall|k: int|
                0 <= k < ts.len() ==> m.dom().contains((#[trigger] ts[k]).id) && m[ts[k].id]
                    == ts[k]
            &&& forall|x: i64| #[trigger]
                m.dom().contains(x) ==> exists|k: int| 0 <= k < ts.len() && #[trigger] ts[k] == m[x]
            &&& forall|j: int, k: int|
                0 <= j < k < ts.len() ==> {
                    &&& (#[trigger] ts[j]).id != (#[trigger] ts[k]).id
                    &&& ts[j].parent_id == ts[k].parent_id ==> ts[j].display_order
                        <= ts[k].display_order
                }
        }),
{
    let m = d.tables.tasks;
    tables::lemma_chain_sound(d.tables, d.undo, false);
    tables::lemma_rows_exist(m);
    let rows = tables::rows(m);
    order::lemma_listing_exists(rows, Order::Group);
    let ts = model::stored_tasks(d);
    assert forall|k: int| 0 <= k < ts.len() implies m.dom().contains((#[trigger] ts[k]).id)
        && m[ts[k].id] == ts[k] by {
        assert(rows.contains(ts[k]));
        let i = choose|i: int| 0 <= i < rows.len() && rows[i] == ts[k];
        assert(m.contains_pair(rows[i].id, rows[i]));
    }
    assert forall|x: i64| #[trigger] m.dom().contains(x) implies exists|k: int|
        0 <= k < ts.len() && #[trigger] ts[k] == m[x] by {
        assert(rows.contains(m[x]));
        let i = choose|i: int| 0 <= i < rows.len() && rows[i] == m[x];
        assert(ts.contains(rows[i]));
    }
    assert forall|j: int, k: int| 0 <= j < k < ts.len() implies {
        &&& (#[trigger] ts[j]).id != (#[trigger] ts[k]).id
        &&& ts[j].parent_id == ts[k].parent_id ==> ts[j].display_order <= ts[k].display_order
    } by {
        assert(order::task_order(Order::Group)(ts[j], ts[k]));
        if ts[j].id == ts[k].id {
            assert(j == k);
        }
    }
}

pub(crate) proof fn lemma_first_with(ts: Seq<TaskV>, i: int)
    requires
        0 <= i < ts.len(),
        order::unique_ids(ts),
    ensures
        tree::first_with(ts, ts[i].id) == i,
    decreases ts.len(),
{
    if i > 0 {
        let rest = ts.drop_first();
        assert(rest[i - 1] == ts[i]);
        assert(ts[0].id != ts[i].id);
        assert forall|j: int, k: int|
            0 <= j < rest.len() && 0 <= k < rest.len() && rest[j].id == rest[k].id implies j == k by {
            assert(rest[j] == ts[j + 1] && rest[k] == ts[k + 1]);
        }
        lemma_first_with(rest, i - 1);
    }
}

proof fn lemma_preceding(ts: Seq<TaskV>, t: TaskV, n: int)
    requires
        0 <= n <= ts.len(),
    ensures
        match tree::preceding(ts, t, n) {
            Some(s) => {
                &&& exists|k: int| 0 <= k < n && #[trigger] ts[k] == s
                &&& s.parent_id == t.parent_id && s.id != t.id && s.display_order < t.display_order
                &&& forall|k: int|
                    0 <= k < n && (#[trigger] ts[k]).parent_id == t.parent_id && ts[k].display_order
                        < t.display_order && ts[k].id != t.id ==> ts[k].display_order
                        <= s.display_order
            },
            None => forall|k: int|
                0 <= k < n && (#[trigger] ts[k]).parent_id == t.parent_id && ts[k].id != t.id
                    ==> ts[k].display_order >= t.display_order,
        },
    decreases n,
{
    if n > 0 {
        lemma_preceding(ts, t, n - 1);
        let s = ts[n - 1];
        assert(ts[n - 1] == s);
    }
}

proof fn lemma_following(ts: Seq<TaskV>, t: TaskV, n: int)
    requires
        0 <= n <= ts.len(),
    ensures
        match tree::following(ts, t, n) {
            Some(s) => {
                &&& exists|k: int| 0 <= k < n && #[trigger] ts[k] == s
                &&& s.parent_id == t.parent_id && s.id != t.id && s.display_order > t.display_order
                &&& forall|k: int|
                    0 <= k < n && (#[trigger] ts[k]).parent_id == t.parent_id && ts[k].display_order
                        > t.display_order && ts[k].id != t.id ==> ts[k].display_order
                        >= s.display_order
            },
            None => forall|k: int|
                0 <= k < n && (#[trigger] ts[k]).parent_id == t.parent_id && ts[k].id != t.id
                    ==> ts[k].display_order <= t.display_order,
        },
    decreases n,
{
    if n > 0 {
        lemma_following(ts, t, n - 1);
        let s = ts[n - 1];
        assert(ts[n - 1] == s);
    }
}

/// The task under the cursor is a stored one.
pub(crate) proof fn lemma_cursor(a: AppV, d: DbV, t: TaskV) -> (i: int)
    requires
        in_use(a, d),
        cursor_on(a, t),
    ensures
        0 <= i < a.tasks.len(),
        a.tasks[i] == t,
        tree::first_with(a.tasks, t.id) == i,
        d.tables.tasks.dom().contains(t.id),
        d.tables.tasks[t.id] == t,
        model::selected_task(a) == Some(t),
{
    the_tree_lists_the_stored_tasks(d);
    let i = a.rows[a.selected as int].task_index;
    assert(0 <= i < a.tasks.len());
    lemma_first_with(a.tasks, i);
    i
}

/// The search for a row stops at the first that shows the task.
proof fn lemma_row_found(a: AppV, id: i64, k: int)
    requires
        0 <= k <= a.rows.len(),
    ensures
        k <= model::row_from(a, id, k) <= a.rows.len(),
        model::row_from(a, id, k) < a.rows.len() ==> a.tasks[a.rows[model::row_from(
            a,
            id,
            k,
        )].task_index].id == id,
        forall|j: int|
            k <= j < a.rows.len() && a.tasks[(#[trigger] a.rows[j]).task_index].id == id
                ==> model::row_from(a, id, k) < a.rows.len(),
    decreases a.rows.len() - k,
{
    if k < a.rows.len() && a.tasks[a.rows[k].task_index].id != id {
        lemma_row_found(a, id, k + 1);
    }
}

pub(crate) proof fn lemma_selecting(a: AppV, id: i64)
    ensures
        cursor_follows(model::selecting(a, id), id),
{
    lemma_row_found(a, id, 0);
}

/// Some task stands before this one among its siblings.
pub open spec fn has_earlier_sibling(m: Map<i64, TaskV>, t: TaskV) -> bool {
    exists|x: i64| #[trigger]
        m.dom().contains(x) && m[x].parent_id == t.parent_id && m[x].display_order
            < t.display_order
}

/// The one task stands right before the other among its siblings.
pub open spec fn right_before(m: Map<i64, TaskV>, p: i64, t: TaskV) -> bool {
    &&& m.dom().contains(p)
    &&& m[p].parent_id == t.parent_id
    &&& m[p].display_order < t.display_order
    &&& forall|x: i64| #[trigger]
        m.dom().contains(x) && m[x].parent_id == t.parent_id ==> !(m[p].display_order
            < m[x].display_order < t.display_order)
}

/// Indenting makes a task the last child of the sibling right before it,
/// which keeps its other children in their places and is expanded. Where
/// there is no such sibling nothing happens.
pub proof fn indenting_makes_a_task_the_last_child(
    a: AppV,
    d: DbV,
    t: TaskV,
    today: Seq<char>,
    now: Seq<char>,
)
    requires
        in_use(a, d),
        cursor_on(a, t),
    ensures
        ({
            let s = model::tree_command(a, d, CommandId::TaskIndent, today, now);
            let m = d.tables.tasks;
            let n = s.db.tables.tasks;
            &&& !has_earlier_sibling(m, t) ==> s == model::done(a, d)
            &&& has_earlier_sibling(m, t) && (forall|x: i64| #[trigger]
                m.dom().contains(x) ==> m[x].display_order < i64::MAX) ==> s.result is Ok
            &&& has_earlier_sibling(m, t) && s.result is Ok ==> exists|p: i64|
                {
                    &&& #[trigger] right_before(m, p, t)
                    &&& n[t.id].parent_id == Some(p)
                    &&& n[t.id].title == t.title
                    &&& n[t.id].status_id == t.status_id
                    &&& n[t.id].note == t.note
                    &&& n[t.id].due == t.due
                    &&& forall|x: i64| #[trigger]
                        m.dom().contains(x) && m[x].parent_id == Some(p) ==> n[x] == m[x]
                            && n[x].display_order < n[t.id].display_order
                    &&& forall|x: i64| #[trigger]
                        m.dom().contains(x) && x != t.id ==> siblings::same_but_order(m[x], n[x])
                    &&& s.app.expanded.contains(p)
                    &&& cursor_follows(s.app, t.id)
                }
        }),
{
    let m = d.tables.tasks;
    let i = lemma_cursor(a, d, t);
    the_tree_lists_the_stored_tasks(d);
    lemma_preceding(a.tasks, t, a.tasks.len() as int);
    let s = model::tree_command(a, d, CommandId::TaskIndent, today, now);
    match tree::preceding(a.tasks, t, a.tasks.len() as int) {
        Some(before) => {
            let p = before.id;
            let k = choose|k: int| 0 <= k < a.tasks.len() && #[trigger] a.tasks[k] == before;
            assert(m.dom().contains(p) && m[p] == before);
            assert(right_before(m, p, t)) by {
                assert forall|x: i64| #[trigger]
                    m.dom().contains(x) && m[x].parent_id == t.parent_id implies !(
                m[p].display_order < m[x].display_order < t.display_order) by {
                    let j = choose|j: int| 0 <= j < a.tasks.len() && #[trigger] a.tasks[j] == m[x];
                }
            }
            siblings::reparenting_moves_one_task(d, t.id, Some(p), None, now);
            tables::lemma_chain_sound(d.tables, d.undo, false);
            lemma_not_below_sibling(d.tables, p, t.id);
            let b = AppV { expanded: a.expanded.insert(p), ..a };
            let next = ops::reparent(d, t.id, Some(p), None, now).0;
            lemma_selecting(model::reloaded(b, next, today), t.id);
            if s.result is Ok {
                let n = s.db.tables.tasks;
                assert forall|x: i64| #[trigger]
                    m.dom().contains(x) && m[x].parent_id == Some(p) implies n[x] == m[x]
                    && n[x].display_order < n[t.id].display_order by {
                    assert(x != t.id) by {
                        lemma_no_own_parent(d.tables, p);
                    }
                    assert(m[x].parent_id != t.parent_id) by {
                        lemma_no_own_parent(d.tables, p);
                    }
                    assert(n.dom().contains(x));
                }
            }
        },
        None => {
            assert(!has_earlier_sibling(m, t)) by {
                if has_earlier_sibling(m, t) {
                    let x = choose|x: i64| #[trigger]
                        m.dom().contains(x) && m[x].parent_id == t.parent_id && m[x].display_order
                            < t.display_order;
                    let j = choose|j: int| 0 <= j < a.tasks.len() && #[trigger] a.tasks[j] == m[x];
                }
            }
        },
    }
}

/// No task is its own parent.
proof fn lemma_no_own_parent(t: Tables, id: i64)
    requires
        tables::acyclic(t.tasks),
        t.tasks.dom().contains(id),
    ensures
        t.tasks[id].parent_id != Some(id),
{
    let h = choose|h: spec_fn(i64) -> nat| tables::falls(t.tasks, h);
    assert(t.tasks.dom().contains(id));
}

/// A path upwards climbs.
proof fn lemma_climbs(m: Map<i64, TaskV>, h: spec_fn(i64) -> nat, path: Seq<i64>, from: i64, to: i64)
    requires
        tables::falls(m, h),
        laws::is_path(m, path, from, to),
    ensures
        h(from) < h(to),
    decreases path.len(),
{
    assert(m.dom().contains(path[0]));
    assert(m[path[0]].parent_id == Some(path[1]));
    if path.len() > 2 {
        let rest = path.drop_first();
        assert forall|k: int|
            #![trigger rest[k]]
            0 <= k < rest.len() - 1 implies m.dom().contains(rest[k]) && m[rest[k]].parent_id
            == Some(rest[k + 1]) by {
            assert(rest[k] == path[k + 1]);
        }
        assert(laws::is_path(m, rest, path[1], to));
        lemma_climbs(m, h, rest, path[1], to);
    }
}

/// A sibling is not below.
proof fn lemma_not_below_sibling(t: Tables, p: i64, id: i64)
    requires
        tables::acyclic(t.tasks),
        t.tasks.dom().contains(p),
        t.tasks.dom().contains(id),
        t.tasks[p].parent_id == t.tasks[id].parent_id,
        p != id,
    ensures
        !laws::is_below(t.tasks, p, id),
{
    let m = t.tasks;
    let h = choose|h: spec_fn(i64) -> nat| tables::falls(m, h);
    if laws::is_below(m, p, id) {
        let path = choose|path: Seq<i64>| laws::is_path(m, path, p, id);
        assert(m.dom().contains(path[0]));
        assert(m[path[0]].parent_id == Some(path[1]));
        let up = path[1];
        assert(m[id].parent_id == Some(up));
        assert(h(id) < h(up));
        if path.len() > 2 {
            let rest = path.drop_first();
            assert forall|k: int|
                #![trigger rest[k]]
                0 <= k < rest.len() - 1 implies m.dom().contains(rest[k]) && m[rest[k]].parent_id
                == Some(rest[k + 1]) by {
                assert(rest[k] == path[k + 1]);
            }
            assert(laws::is_path(m, rest, up, id));
            lemma_climbs(m, h, rest, up, id);
        }
    }
}

/// Outdenting puts a task right behind its old parent, among the siblings of
/// that: no other comes between. At the root level, and at the top level of
/// a zoomed view, nothing happens.
pub proof fn outdenting_puts_a_task_behind_its_parent(
    a: AppV,
    d: DbV,
    t: TaskV,
    today: Seq<char>,
    now: Seq<char>,
)
    requires
        in_use(a, d),
        cursor_on(a, t),
    ensures
        ({
            let s = model::tree_command(a, d, CommandId::TaskOutdent, today, now);
            let m = d.tables.tasks;
            let n = s.db.tables.tasks;
            if t.parent_id is None || a.zoom_root == t.parent_id {
                s == model::done(a, d)
            } else {
                let p = t.parent_id->Some_0;
                &&& (forall|x: i64| #[trigger] m.dom().contains(x) ==> m[x].display_order < i64::MAX)
                    ==> s.result is Ok
                &&& s.result is Ok ==> {
                    &&& m.dom().contains(p)
                    &&& n[t.id].parent_id == m[p].parent_id
                    &&& n[t.id].title == t.title
                    &&& n[t.id].status_id == t.status_id
                    &&& n[t.id].note == t.note
                    &&& n[t.id].due == t.due
                    &&& n[p] == m[p]
                    &&& n[p].display_order < n[t.id].display_order
                    &&& forall|x: i64| #[trigger]
                        n.dom().contains(x) && x != t.id && n[x].parent_id == m[p].parent_id ==> (
                        n[x].display_order <= n[p].display_order || n[x].display_order
                            > n[t.id].display_order)
                    &&& forall|x: i64, y: i64|
                        #![trigger m.dom().contains(x), m.dom().contains(y)]
                        m.dom().contains(x) && m.dom().contains(y) && x != t.id && y != t.id
                            && m[x].parent_id == m[y].parent_id && m[x].display_order
                            < m[y].display_order ==> n[x].display_order < n[y].display_order
                            || m[x].parent_id == t.parent_id && m[x].display_order == t.display_order
                    &&& forall|x: i64| #[trigger]
                        m.dom().contains(x) && x != t.id ==> siblings::same_but_order(m[x], n[x])
                    &&& cursor_follows(s.app, t.id)
                }
            }
        }),
{
    let m = d.tables.tasks;
    let i = lemma_cursor(a, d, t);
    if t.parent_id is Some && a.zoom_root != t.parent_id {
        let p = t.parent_id->Some_0;
        tables::lemma_chain_sound(d.tables, d.undo, false);
        assert(m.dom().contains(t.id));
        assert(m.dom().contains(p));
        the_tree_lists_the_stored_tasks(d);
        let j = choose|j: int| 0 <= j < a.tasks.len() && #[trigger] a.tasks[j] == m[p];
        assert(a.tasks[j].id == p);
        lemma_first_with(a.tasks, j);
        lemma_behind_parent(d, t, now);
        let next = ops::reparent(d, t.id, m[p].parent_id, Some(m[p].display_order), now).0;
        lemma_selecting(model::reloaded(a, next, today), t.id);
        assert(tree::outdent_place(a.tasks, t.id, a.zoom_root) == Some(
            ReparentTarget { new_parent: m[p].parent_id, after: Some(m[p].display_order) },
        ));
    }
}

/// The place right behind a task's parent.
proof fn lemma_behind_parent(d: DbV, t: TaskV, now: Seq<char>)
    requires
        tables::history_ok(d, false),
        d.tables.tasks.dom().finite(),
        d.tables.tasks.dom().contains(t.id),
        d.tables.tasks[t.id] == t,
        t.parent_id is Some,
    ensures
        ({
            let m = d.tables.tasks;
            let p = t.parent_id->Some_0;
            let (e, r) = ops::reparent(d, t.id, m[p].parent_id, Some(m[p].display_order), now);
            let n = e.tables.tasks;
            &&& m.dom().contains(p)
            &&& (forall|x: i64| #[trigger] m.dom().contains(x) ==> m[x].display_order < i64::MAX)
                ==> r is Ok
            &&& r is Ok ==> {
                &&& n[t.id].parent_id == m[p].parent_id
                &&& n[t.id].title == t.title
                &&& n[t.id].status_id == t.status_id
                &&& n[t.id].note == t.note
                &&& n[t.id].due == t.due
                &&& n[p] == m[p]
                &&& n[p].display_order < n[t.id].display_order
                &&& forall|x: i64| #[trigger]
                    n.dom().contains(x) && x != t.id && n[x].parent_id == m[p].parent_id ==> (
                    n[x].display_order <= n[p].display_order || n[x].display_order
                        > n[t.id].display_order)
                &&& forall|x: i64, y: i64|
                    #![trigger m.dom().contains(x), m.dom().contains(y)]
                    m.dom().contains(x) && m.dom().contains(y) && x != t.id && y != t.id
                        && m[x].parent_id == m[y].parent_id && m[x].display_order
                        < m[y].display_order ==> n[x].display_order < n[y].display_order
                        || m[x].parent_id == t.parent_id && m[x].display_order == t.display_order
                &&& forall|x: i64| #[trigger]
                    m.dom().contains(x) && x != t.id ==> siblings::same_but_order(m[x], n[x])
            }
        }),
{
    let m = d.tables.tasks;
    let p = t.parent_id->Some_0;
    tables::lemma_chain_sound(d.tables, d.undo, false);
    assert(m.dom().contains(t.id));
    assert(m.dom().contains(p));
    let to = m[p].parent_id;
    let after = Some(m[p].display_order);
    siblings::reparenting_moves_one_task(d, t.id, to, after, now);
    let h = choose|h: spec_fn(i64) -> nat| tables::falls(m, h);
    assert(h(t.id) < h(p));
    if to is Some {
        let up = to->Some_0;
        assert(m.dom().contains(up));
        assert(h(p) < h(up));
        if laws::is_below(m, up, t.id) {
            let path = choose|path: Seq<i64>| laws::is_path(m, path, up, t.id);
            lemma_climbs(m, h, path, up, t.id);
        }
    }
    lemma_no_own_parent(d.tables, p);
    let (e, r) = ops::reparent(d, t.id, to, after, now);
    if r is Ok {
        let n = e.tables.tasks;
        assert(m.dom().contains(p) && p != t.id);
        assert(n[p].display_order == m[p].display_order);
        assert forall|x: i64| #[trigger]
            n.dom().contains(x) && x != t.id && n[x].parent_id == m[p].parent_id implies (
        n[x].display_order <= n[p].display_order || n[x].display_order > n[t.id].display_order) by {
            assert(m.dom().contains(x));
        }
    }
}

/// A text without the white space around it.
pub open spec fn is_core(whole: Seq<char>, core: Seq<char>) -> bool {
    exists|i: int, j: int| #[trigger] is_core_at(whole, core, i, j)
}

pub open spec fn is_core_at(whole: Seq<char>, core: Seq<char>, i: int, j: int) -> bool {
    &&& 0 <= i <= j <= whole.len()
    &&& core == whole.subrange(i, j)
    &&& forall|k: int|
        (0 <= k < i || j <= k < whole.len()) ==> text::is_space(#[trigger] whole[k])
    &&& i < j ==> !text::is_space(whole[i]) && !text::is_space(whole[j - 1])
}

proof fn lemma_trim_start(s: Seq<char>) -> (i: int)
    ensures
        0 <= i <= s.len(),
        text::trim_start(s) == s.skip(i),
        forall|k: int| 0 <= k < i ==> text::is_space(#[trigger] s[k]),
        i < s.len() ==> !text::is_space(s[i]),
    decreases s.len(),
{
    if s.len() > 0 && text::is_space(s[0]) {
        let rest = s.drop_first();
        let i = lemma_trim_start(rest);
        assert(rest.skip(i) =~= s.skip(i + 1));
        assert forall|k: int| 0 <= k < i + 1 implies text::is_space(#[trigger] s[k]) by {
            if k > 0 {
                assert(rest[k - 1] == s[k]);
            }
        }
        if i < rest.len() {
            assert(rest[i] == s[i + 1]);
        }
        i + 1
    } else {
        assert(s.skip(0) =~= s);
        0
    }
}

proof fn lemma_trim_end(s: Seq<char>) -> (j: int)
    ensures
        0 <= j <= s.len(),
        text::trim_end(s) == s.take(j),
        forall|k: int| j <= k < s.len() ==> text::is_space(#[trigger] s[k]),
        j > 0 ==> !text::is_space(s[j - 1]),
    decreases s.len(),
{
    if s.len() > 0 && text::is_space(s.last()) {
        let front = s.drop_last();
        let j = lemma_trim_end(front);
        assert(front.take(j) =~= s.take(j));
        assert forall|k: int| j <= k < s.len() implies text::is_space(#[trigger] s[k]) by {
            if k < front.len() {
                assert(front[k] == s[k]);
            }
        }
        if j > 0 {
            assert(front[j - 1] == s[j - 1]);
        }
        j
    } else {
        assert(s.take(s.len() as int) =~= s);
        s.len() as int
    }
}

/// What is typed counts without the white space around it.
pub proof fn typed_text_loses_the_space_around_it(whole: Seq<char>)
    ensures
        is_core(whole, text::trimmed(whole)),
        text::trimmed(whole).len() == 0 <==> forall|k: int|
            0 <= k < whole.len() ==> text::is_space(#[trigger] whole[k]),
{
    let i = lemma_trim_start(whole);
    let mid = whole.skip(i);
    let n = lemma_trim_end(mid);
    let j = i + n;
    assert(mid.take(n) =~= whole.subrange(i, j));
    assert forall|k: int| (0 <= k < i || j <= k < whole.len()) implies text::is_space(
        #[trigger] whole[k],
    ) by {
        if k >= j {
            assert(mid[k - i] == whole[k]);
        }
    }
    if i < j {
        assert(mid[n - 1] == whole[j - 1]);
        assert(mid[0] == whole[i]);
    }
    assert(is_core_at(whole, text::trimmed(whole), i, j));
    if i < j {
        assert(!text::is_space(whole[i]));
    }
}

/// What the store holds after a task was added: the new one with the title,
/// and every other with at most its place moved on.
pub open spec fn added(m: Map<i64, TaskV>, n: Map<i64, TaskV>, id: i64, title: Seq<char>, status_id: i64) -> bool {
    &&& !m.dom().contains(id)
    &&& n.dom().contains(id)
    &&& n[id].title == title
    &&& n[id].status_id == status_id
    &&& n[id].due is None
    &&& n[id].note.len() == 0
    &&& forall|x: i64| #[trigger] n.dom().contains(x) <==> m.dom().contains(x) || x == id
    &&& forall|x: i64| #[trigger] m.dom().contains(x) ==> siblings::same_but_order(m[x], n[x])
}

/// A new task typed from a row comes right behind that row's task, among its
/// siblings, with the default status. From an empty view it becomes the last
/// at the top level of the view. A blank title creates nothing.
pub proof fn a_typed_task_comes_behind_the_selected_one(
    a: AppV,
    d: DbV,
    typed: Seq<char>,
    today: Seq<char>,
    now: Seq<char>,
)
    requires
        in_use(a, d),
    ensures
        model::commanded(a, CommandId::CreateTask, today).mode is Input,
        ({
            let action = model::commanded(a, CommandId::CreateTask, today).mode->Input_action;
            let s = model::submitted(a, d, action, typed, today, now);
            let m = d.tables.tasks;
            let n = s.db.tables.tasks;
            let title = text::trimmed(typed);
            &&& (forall|k: int| 0 <= k < typed.len() ==> text::is_space(#[trigger] typed[k])) ==> s
                == model::done(a, d)
            &&& (exists|k: int| 0 <= k < typed.len() && !text::is_space(#[trigger] typed[k]))
                && s.result is Ok ==> exists|id: i64|
                {
                    &&& #[trigger] added(m, n, id, title, a.default_status_id)
                    &&& forall|t: TaskV| #[trigger]
                        cursor_on(a, t) ==> {
                            &&& n[id].parent_id == t.parent_id
                            &&& n[t.id].display_order == t.display_order
                            &&& n[t.id].display_order < n[id].display_order
                            &&& forall|x: i64| #[trigger]
                                n.dom().contains(x) && x != id && n[x].parent_id == t.parent_id ==> (
                                n[x].display_order <= t.display_order || n[x].display_order
                                    > n[id].display_order)
                        }
                    &&& a.selected >= a.rows.len() ==> n[id].parent_id == a.zoom_root
                        && forall|x: i64| #[trigger]
                        n.dom().contains(x) && x != id && n[x].parent_id == a.zoom_root
                            ==> n[x].display_order < n[id].display_order
                    &&& cursor_follows(s.app, id)
                }
        }),
{
    typed_text_loses_the_space_around_it(typed);
    let target = tree::sibling_place(a.tasks, a.rows, a.selected as int, a.zoom_root);
    let title = text::trimmed(typed);
    let m = d.tables.tasks;
    siblings::creating_adds_one_task(
        d,
        target.parent_id,
        title,
        target.after,
        a.default_status_id,
        now,
    );
    if a.selected < a.rows.len() {
        let t = a.tasks[a.rows[a.selected as int].task_index];
        assert(cursor_on(a, t));
        let i = lemma_cursor(a, d, t);
    }
    let (next, r) = ops::create_task(
        d,
        target.parent_id,
        title,
        target.after,
        a.default_status_id,
        now,
    );
    if title.len() > 0 && r is Ok {
        let row = r->Ok_0;
        let b = match target.parent_id {
            Some(p) => AppV { expanded: a.expanded.insert(p), ..a },
            None => a,
        };
        lemma_selecting(model::reloaded(b, next, today), row.id);
        let n = next.tables.tasks;
        assert(added(m, n, row.id, title, a.default_status_id));
        if a.selected >= a.rows.len() {
            assert forall|x: i64| #[trigger]
                n.dom().contains(x) && x != row.id && n[x].parent_id == a.zoom_root implies n[x].display_order
                < row.display_order by {
                assert(m.dom().contains(x));
            }
        }
        assert forall|t: TaskV| #[trigger] cursor_on(a, t) implies {
            &&& n[row.id].parent_id == t.parent_id
            &&& n[t.id].display_order == t.display_order
            &&& n[t.id].display_order < n[row.id].display_order
            &&& forall|x: i64| #[trigger]
                n.dom().contains(x) && x != row.id && n[x].parent_id == t.parent_id ==> (
                n[x].display_order <= t.display_order || n[x].display_order
                    > n[row.id].display_order)
        } by {
            let i = lemma_cursor(a, d, t);
            assert(m.dom().contains(t.id));
            assert forall|x: i64| #[trigger]
                n.dom().contains(x) && x != row.id && n[x].parent_id == t.parent_id implies (
            n[x].display_order <= t.display_order || n[x].display_order
                > n[row.id].display_order) by {
                assert(m.dom().contains(x));
            }
        }
    }
}

/// A new subtask typed from a row becomes the last child of that row's task,
/// which is expanded. From an empty view it becomes the last at the top level
/// of the view.
pub proof fn a_typed_subtask_becomes_the_last_child(
    a: AppV,
    d: DbV,
    typed: Seq<char>,
    today: Seq<char>,
    now: Seq<char>,
)
    requires
        in_use(a, d),
    ensures
        model::commanded(a, CommandId::CreateChild, today).mode is Input,
        ({
            let action = model::commanded(a, CommandId::CreateChild, today).mode->Input_action;
            let s = model::submitted(a, d, action, typed, today, now);
            let m = d.tables.tasks;
            let n = s.db.tables.tasks;
            let title = text::trimmed(typed);
            &&& (forall|k: int| 0 <= k < typed.len() ==> text::is_space(#[trigger] typed[k])) ==> s
                == model::done(a, d)
            &&& (exists|k: int| 0 <= k < typed.len() && !text::is_space(#[trigger] typed[k]))
                && s.result is Ok ==> exists|id: i64|
                {
                    &&& #[trigger] added(m, n, id, title, a.default_status_id)
                    &&& forall|t: TaskV| #[trigger]
                        cursor_on(a, t) ==> n[id].parent_id == Some(t.id) && s.app.expanded.contains(
                            t.id,
                        )
                    &&& a.selected >= a.rows.len() ==> n[id].parent_id == a.zoom_root
                    &&& forall|x: i64| #[trigger]
                        m.dom().contains(x) ==> n[x] == m[x] && (m[x].parent_id == n[id].parent_id
                            ==> n[x].display_order < n[id].display_order)
                    &&& cursor_follows(s.app, id)
                }
        }),
{
    typed_text_loses_the_space_around_it(typed);
    let target = tree::child_place(a.tasks, a.rows, a.selected as int, a.zoom_root);
    let title = text::trimmed(typed);
    let m = d.tables.tasks;
    siblings::creating_adds_one_task(
        d,
        target.parent_id,
        title,
        target.after,
        a.default_status_id,
        now,
    );
    let (next, r) = ops::create_task(
        d,
        target.parent_id,
        title,
        target.after,
        a.default_status_id,
        now,
    );
    if title.len() > 0 && r is Ok {
        let row = r->Ok_0;
        let b = match target.parent_id {
            Some(p) => AppV { expanded: a.expanded.insert(p), ..a },
            None => a,
        };
        lemma_selecting(model::reloaded(b, next, today), row.id);
        let n = next.tables.tasks;
        assert(added(m, n, row.id, title, a.default_status_id));
    }
}

/// Confirming a rename gives the task under the cursor the typed title and
/// changes nothing else; a blank one changes nothing.
pub proof fn a_typed_title_renames_the_selected_task(
    a: AppV,
    d: DbV,
    t: TaskV,
    typed: Seq<char>,
    today: Seq<char>,
    now: Seq<char>,
)
    requires
        in_use(a, d),
        cursor_on(a, t),
    ensures
        ({
            let opened = model::commanded(a, CommandId::RenameTask, today);
            let s = model::submitted(a, d, opened.mode->Input_action, typed, today, now);
            let n = s.db.tables.tasks;
            &&& opened.mode is Input
            &&& opened.mode->Input_editor.text == t.title
            &&& (forall|k: int| 0 <= k < typed.len() ==> text::is_space(#[trigger] typed[k])) ==> s
                == model::done(a, d)
            &&& (exists|k: int| 0 <= k < typed.len() && !text::is_space(#[trigger] typed[k])) ==> {
                &&& s.result is Ok
                &&& effects::only_task(d.tables, s.db.tables, t.id)
                &&& n[t.id].title == text::trimmed(typed)
                &&& n[t.id].note == t.note
                &&& n[t.id].due == t.due
                &&& n[t.id].status_id == t.status_id
                &&& n[t.id].parent_id == t.parent_id
                &&& n[t.id].display_order == t.display_order
                &&& cursor_follows(s.app, t.id)
            }
        }),
{
    let i = lemma_cursor(a, d, t);
    typed_text_loses_the_space_around_it(typed);
    let title = text::trimmed(typed);
    effects::renaming_changes_the_title_alone(d, t.id, title, now);
    let next = ops::rename_task(d, t.id, title, now).0;
    lemma_selecting(model::reloaded(a, next, today), t.id);
}

/// Confirming a due date sets it on the task under the cursor and changes
/// nothing else; an empty one clears it. What is no calendar day changes
/// nothing and can be corrected.
pub proof fn a_typed_date_schedules_the_selected_task(
    a: AppV,
    d: DbV,
    t: TaskV,
    typed: Seq<char>,
    today: Seq<char>,
    now: Seq<char>,
)
    requires
        in_use(a, d),
        cursor_on(a, t),
    ensures
        ({
            let opened = model::commanded(a, CommandId::SetDue, today);
            let action = opened.mode->Input_action;
            let s = model::submitted(a, d, action, typed, today, now);
            let n = s.db.tables.tasks;
            let date = text::trimmed(typed);
            &&& opened.mode is Input
            &&& t.due is Some ==> opened.mode->Input_editor.text == t.due->Some_0
            &&& t.due is None ==> opened.mode->Input_editor.text.len() == 0
            &&& s.result is Ok
            &&& if date.len() > 0 && !clock::calendar_day(date) {
                &&& s.db == d
                &&& s.app.mode is Input
                &&& s.app.mode->Input_action == action
                &&& s.app.mode->Input_editor.text == typed
                &&& s.app.status_line == Some(
                    "invalid date `"@ + date + "` (expected YYYY-MM-DD)"@,
                )
                &&& s.app.tasks == a.tasks
            } else {
                &&& effects::only_task(d.tables, s.db.tables, t.id)
                &&& n[t.id].due == if date.len() == 0 {
                    None
                } else {
                    Some(date)
                }
                &&& n[t.id].title == t.title
                &&& n[t.id].note == t.note
                &&& n[t.id].status_id == t.status_id
                &&& n[t.id].parent_id == t.parent_id
                &&& n[t.id].display_order == t.display_order
                &&& cursor_follows(s.app, t.id)
            }
        }),
{
    let i = lemma_cursor(a, d, t);
    let date = text::trimmed(typed);
    let due = if date.len() == 0 {
        None
    } else {
        Some(date)
    };
    effects::scheduling_changes_the_due_date_alone(d, t.id, due, now);
    let next = ops::set_due(d, t.id, due, now).0;
    lemma_selecting(model::reloaded(a, next, today), t.id);
}

/// A saved note lands on its task and changes nothing else; an unchanged or
/// discarded one changes nothing.
pub proof fn a_saved_note_lands_on_its_task(
    a: AppV,
    d: DbV,
    id: i64,
    note: Seq<char>,
    today: Seq<char>,
    now: Seq<char>,
)
    requires
        in_use(a, d),
        d.tables.tasks.dom().contains(id),
    ensures
        ({
            let s = model::note_edited(a, d, id, EditOutcomeV::Changed(note), today, now);
            let row = d.tables.tasks[id];
            let n = s.db.tables.tasks;
            &&& s.result is Ok
            &&& effects::only_task(d.tables, s.db.tables, id)
            &&& n[id].note == note
            &&& n[id].title == row.title
            &&& n[id].due == row.due
            &&& n[id].status_id == row.status_id
            &&& n[id].parent_id == row.parent_id
            &&& n[id].display_order == row.display_order
        }),
        model::note_edited(a, d, id, EditOutcomeV::Unchanged, today, now).db == d,
        model::note_edited(a, d, id, EditOutcomeV::Aborted, today, now).db == d,
{
    effects::annotating_changes_the_note_alone(d, id, note, now);
}

/// Deleting a task without children deletes it at once; one with children
/// asks first, with the number of tasks that would go, and deletes nothing.
pub proof fn only_a_childless_task_goes_unasked(
    a: AppV,
    d: DbV,
    t: TaskV,
    today: Seq<char>,
    now: Seq<char>,
)
    requires
        in_use(a, d),
        cursor_on(a, t),
        d.tables.tasks.dom().len() <= i64::MAX,
    ensures
        ({
            let s = model::tree_command(a, d, CommandId::TaskDelete, today, now);
            let m = d.tables.tasks;
            let n = s.db.tables.tasks;
            let gone = m.dom().filter(|x: i64| x == t.id || laws::is_below(m, x, t.id));
            if exists|x: i64| #[trigger] m.dom().contains(x) && m[x].parent_id == Some(t.id) {
                &&& s.db == d
                &&& s.result is Ok
                &&& s.app.mode is ConfirmDelete
                &&& s.app.mode->ConfirmDelete_task_id == t.id
                &&& s.app.mode->ConfirmDelete_count == gone.len()
                &&& s.app.tasks == a.tasks
                &&& s.app.rows == a.rows
            } else {
                &&& s.result is Ok
                &&& s.db.tables.statuses == d.tables.statuses
                &&& forall|x: i64| #[trigger] n.dom().contains(x) <==> m.dom().contains(x) && x != t.id
                &&& forall|x: i64| #[trigger] n.dom().contains(x) ==> n[x] == m[x]
            }
        }),
{
    let m = d.tables.tasks;
    let i = lemma_cursor(a, d, t);
    tables::lemma_chain_sound(d.tables, d.undo, false);
    laws::deleting_takes_what_is_below(d, t.id);
    laws::a_childless_task_counts_alone(d.tables, t.id);
    laws::lemma_subtree(d.tables, t.id);
    let ids = plans::subtree_ids(m, t.id);
    let gone = m.dom().filter(|x: i64| x == t.id || laws::is_below(m, x, t.id));
    assert(ids.to_set() =~= gone) by {
        assert forall|x: i64| ids.to_set().contains(x) <==> gone.contains(x) by {
            assert(ids.to_set().contains(x) <==> ids.contains(x));
        }
    }
    ids.unique_seq_to_set();
    vstd::set_lib::lemma_len_subset(gone, m.dom());
    if !(exists|x: i64| #[trigger] m.dom().contains(x) && m[x].parent_id == Some(t.id)) {
        assert(ids.len() == 1);
        assert forall|x: i64| m.dom().contains(x) implies !laws::is_below(m, x, t.id) by {
            if laws::is_below(m, x, t.id) {
                let path = choose|path: Seq<i64>| laws::is_path(m, path, x, t.id);
                let k = path.len() - 2;
                assert(m.dom().contains(path[k]) && m[path[k]].parent_id == Some(path[k + 1]));
            }
        }
    } else {
        let x = choose|x: i64| #[trigger] m.dom().contains(x) && m[x].parent_id == Some(t.id);
        assert(ids.len() != 1);
        assert(ids.contains(t.id));
    }
}

/// Answering the question with `y` deletes the task and what is below it.
pub proof fn y_deletes_what_was_asked_about(
    a: AppV,
    d: DbV,
    id: i64,
    count: i64,
    today: Seq<char>,
    now: Seq<char>,
)
    requires
        in_use(a, d),
        a.mode == (ModeV::ConfirmDelete { task_id: id, count }),
        d.tables.tasks.dom().contains(id),
    ensures
        ({
            let s = model::pressed(a, d, Key::Char('y'), today, now);
            let m = d.tables.tasks;
            let n = s.db.tables.tasks;
            &&& s.result is Ok
            &&& s.app.mode is Tree
            &&& s.db.tables.statuses == d.tables.statuses
            &&& forall|x: i64| #[trigger]
                n.dom().contains(x) <==> m.dom().contains(x) && x != id && !laws::is_below(m, x, id)
            &&& forall|x: i64| #[trigger] n.dom().contains(x) ==> n[x] == m[x]
        }),
{
    laws::deleting_takes_what_is_below(d, id);
}

/// After a deletion the cursor goes to the next sibling, or else to the one
/// before, or else to the parent.
pub proof fn the_cursor_stays_near_a_deleted_task(ts: Seq<TaskV>, i: int)
    requires
        order::unique_ids(ts),
        0 <= i < ts.len(),
    ensures
        ({
            let t = ts[i];
            let to = tree::after_delete(ts, t.id);
            if exists|k: int|
                0 <= k < ts.len() && (#[trigger] ts[k]).parent_id == t.parent_id
                    && ts[k].display_order > t.display_order {
                exists|k: int|
                    {
                        &&& 0 <= k < ts.len()
                        &&& (#[trigger] ts[k]).parent_id == t.parent_id
                        &&& ts[k].display_order > t.display_order
                        &&& to == Some(ts[k].id)
                        &&& forall|j: int|
                            0 <= j < ts.len() && (#[trigger] ts[j]).parent_id == t.parent_id
                                && ts[j].display_order > t.display_order ==> ts[k].display_order
                                <= ts[j].display_order
                    }
            } else if exists|k: int|
                0 <= k < ts.len() && (#[trigger] ts[k]).parent_id == t.parent_id
                    && ts[k].display_order < t.display_order {
                exists|k: int|
                    {
                        &&& 0 <= k < ts.len()
                        &&& (#[trigger] ts[k]).parent_id == t.parent_id
                        &&& ts[k].display_order < t.display_order
                        &&& to == Some(ts[k].id)
                        &&& forall|j: int|
                            0 <= j < ts.len() && (#[trigger] ts[j]).parent_id == t.parent_id
                                && ts[j].display_order < t.display_order ==> ts[k].display_order
                                >= ts[j].display_order
                    }
            } else {
                (forall|k: int|
                    0 <= k < ts.len() && (#[trigger] ts[k]).parent_id == t.parent_id
                        && ts[k].display_order == t.display_order ==> k == i) ==> to == t.parent_id
            }
        }),
{
    let t = ts[i];
    lemma_first_with(ts, i);
    lemma_following(ts, t, ts.len() as int);
    lemma_preceding(ts, t, ts.len() as int);
    assert forall|k: int| 0 <= k < ts.len() && (#[trigger] ts[k]).id == t.id implies k == i by {
        assert(ts[i].id == t.id);
    }
}

/// A deletion that goes through puts the cursor where it stays near, for a
/// task deleted unasked as for one that was asked about, and says so.
pub proof fn a_deletion_moves_the_cursor_near(
    a: AppV,
    d: DbV,
    id: i64,
    to: i64,
    count: i64,
    today: Seq<char>,
    now: Seq<char>,
)
    requires
        tree::after_delete(a.tasks, id) == Some(to),
    ensures
        ({
            let s = model::deleted(a, d, id, today);
            s.result is Ok ==> cursor_follows(s.app, to)
        }),
        a.mode == (ModeV::ConfirmDelete { task_id: id, count }) ==> ({
            let s = model::pressed(a, d, Key::Char('y'), today, now);
            s.result is Ok ==> cursor_follows(s.app, to) && s.app.status_line is Some
        }),
        model::selected_task(a) is Some && model::selected_task(a)->Some_0.id == id ==> ({
            let s = model::tree_command(a, d, CommandId::TaskDelete, today, now);
            s.result is Ok && s.db != d ==> cursor_follows(s.app, to) && s.app.status_line is Some
        }),
{
    let next = ops::delete_subtree(d, id).0;
    let b = AppV { status_line: None, mode: ModeV::Tree, ..a };
    lemma_selecting(model::reloaded(a, next, today), to);
    lemma_selecting(model::reloaded(b, next, today), to);
}

/// A note that was not changed, or whose editor gave up, changes nothing; a
/// message tells which.
pub proof fn an_unchanged_note_changes_nothing(
    a: AppV,
    d: DbV,
    id: i64,
    today: Seq<char>,
    now: Seq<char>,
)
    ensures
        ({
            let same = model::note_edited(a, d, id, EditOutcomeV::Unchanged, today, now);
            let gone = model::note_edited(a, d, id, EditOutcomeV::Aborted, today, now);
            &&& same.db == d && gone.db == d
            &&& same.result is Ok && gone.result is Ok
            &&& same.app == AppV { status_line: same.app.status_line, ..a }
            &&& gone.app == AppV { status_line: gone.app.status_line, ..a }
            &&& same.app.status_line is Some && gone.app.status_line is Some
        }),
{
}

/// The stored tasks are listed sibling group by sibling group, the top level
/// first and then by the parent's id, and in a group by display order.
pub proof fn the_tree_lists_siblings_together(d: DbV, j: int, k: int)
    requires
        tables::history_ok(d, false),
        d.tables.tasks.dom().finite(),
        0 <= j < k < model::stored_tasks(d).len(),
    ensures
        ({
            let a = model::stored_tasks(d)[j];
            let b = model::stored_tasks(d)[k];
            ||| a.parent_id is None && b.parent_id is Some
            ||| a.parent_id is Some && b.parent_id is Some && a.parent_id->Some_0
                < b.parent_id->Some_0
            ||| a.parent_id == b.parent_id && a.display_order < b.display_order
            ||| a.parent_id == b.parent_id && a.display_order == b.display_order && a.id < b.id
        }),
{
    let m = d.tables.tasks;
    tables::lemma_chain_sound(d.tables, d.undo, false);
    tables::lemma_rows_exist(m);
    order::lemma_listing_exists(tables::rows(m), Order::Group);
    let ts = model::stored_tasks(d);
    assert(order::task_order(Order::Group)(ts[j], ts[k]));
}

} // verus!

//! What holds of the store's actions for all tables.
use vstd::prelude::*;

use crate::clock;
use crate::effects;
use crate::error::ErrorV;
use crate::forest;
use crate::ops;
use crate::order;
use crate::order::Order;
use crate::plans;
use crate::query;
use crate::query::{Filter, QueryV, Sort};
use crate::status::StatusKind;
use crate::tables;
use crate::tables::{ChangeV, DbV, Tables};
use crate::task::TaskV;
use crate::text;
use crate::tree;

verus! {

/// A finite table of tasks whose links form a forest.
pub open spec fn well_kept(t: Tables) -> bool {
    tables::sound(t, false) && t.tasks.dom().finite()
}

/// A refused action changes nothing: neither the data nor the history.
pub proof fn a_refused_action_changes_nothing<T>(
    d: DbV,
    description: Seq<char>,
    plan: Result<(Seq<ChangeV>, T), ErrorV>,
)
    requires
        plans::acted(d, description, plan).1 is Err,
    ensures
        plans::acted(d, description, plan).0 == d,
{
}

/// A due date that is stored is a calendar day written `YYYY-MM-DD`; any
/// other text is refused.
pub proof fn stored_due_dates_are_calendar_days(d: DbV, id: i64, due: Seq<char>, now: Seq<char>)
    requires
        tables::keyed(d.tables),
    ensures
        ({
            let (e, r) = ops::set_due(d, id, Some(due), now);
            &&& r is Ok ==> e.tables.tasks[id].due == Some(due) && clock::calendar_day(due)
            &&& r == Err::<(), ErrorV>(ErrorV::InvalidDate(due)) <==> !clock::calendar_day(due)
        }),
{
    let row = TaskV { due: Some(due), updated_at: now, ..d.tables.tasks[id] };
    tables::lemma_run_one(d.tables, plans::edit(d.tables, row));
}

/// Two texts with the same start are ordered by the first character in which
/// they differ.
proof fn lemma_first_difference(a: Seq<char>, b: Seq<char>, k: int)
    requires
        0 <= k < a.len(),
        k < b.len(),
        forall|i: int| 0 <= i < k ==> a[i] == b[i],
        a[k] != b[k],
    ensures
        text::text_lt(a, b) == (a[k] < b[k]),
    decreases k,
{
    if k > 0 {
        let x = a.drop_first();
        let y = b.drop_first();
        assert forall|i: int| 0 <= i < k - 1 implies x[i] == y[i] by {
            assert(a[i + 1] == b[i + 1]);
        }
        assert(a[0] == b[0]);
        lemma_first_difference(x, y, k - 1);
    }
}

/// Calendar days compare as texts in the order of time: by year, then month,
/// then day.
pub proof fn dates_compare_as_texts(a: Seq<char>, b: Seq<char>)
    requires
        clock::calendar_day(a),
        clock::calendar_day(b),
    ensures
        text::text_lt(a, b) <==> clock::earlier(a, b),
{
    if exists|k: int| 0 <= k < 10 && a[k] != b[k] && forall|i: int| 0 <= i < k ==> a[i] == b[i] {
        let k = choose|k: int|
            0 <= k < 10 && a[k] != b[k] && forall|i: int| 0 <= i < k ==> a[i] == b[i];
        lemma_first_difference(a, b, k);
        lemma_day_digits(a);
        lemma_day_digits(b);
    } else {
        lemma_same_start(a, b, 10);
        assert(a =~= b);
        text::lemma_text_lt_irreflexive(a);
    }
}

/// On a day that four digits can date, the overdue tasks are the open ones
/// whose due date is an earlier day.
pub proof fn overdue_tasks_were_due_earlier(t: TaskV, kind: StatusKind, today: Seq<char>)
    requires
        clock::is_due(t.due),
        clock::calendar_day(today),
    ensures
        query::passes_filter(t, kind, Filter::Overdue, today) <==> {
            &&& kind == StatusKind::Open
            &&& t.due is Some
            &&& clock::earlier(t.due->Some_0, today)
        },
{
    if let Some(due) = t.due {
        dates_compare_as_texts(due, today);
    }
}

proof fn lemma_same_start(a: Seq<char>, b: Seq<char>, n: int)
    requires
        0 <= n <= 10,
        !exists|k: int| 0 <= k < 10 && a[k] != b[k] && forall|i: int| 0 <= i < k ==> a[i] == b[i],
    ensures
        forall|i: int| 0 <= i < n ==> a[i] == b[i],
    decreases n,
{
    if n > 0 {
        lemma_same_start(a, b, n - 1);
        assert(a[n - 1] == b[n - 1]);
    }
}

proof fn lemma_day_digits(a: Seq<char>)
    requires
        clock::calendar_day(a),
    ensures
        0 <= clock::digit(a[0]) <= 9,
        0 <= clock::digit(a[1]) <= 9,
        0 <= clock::digit(a[2]) <= 9,
        0 <= clock::digit(a[3]) <= 9,
        a[4] == '-',
        0 <= clock::digit(a[5]) <= 9,
        0 <= clock::digit(a[6]) <= 9,
        a[7] == '-',
        0 <= clock::digit(a[8]) <= 9,
        0 <= clock::digit(a[9]) <= 9,
{
    assert(clock::is_digit(a[0]) && clock::is_digit(a[1]) && clock::is_digit(a[2])
        && clock::is_digit(a[3]) && clock::is_digit(a[5]) && clock::is_digit(a[6])
        && clock::is_digit(a[8]) && clock::is_digit(a[9]));
}

/// The rows of a table and what the walks over them need.
pub(crate) proof fn lemma_rows(t: Tables)
    requires
        well_kept(t),
    ensures
        tables::is_rows(tables::rows(t.tasks), t.tasks),
        order::unique_ids(tables::rows(t.tasks)),
        forest::acyclic(tables::rows(t.tasks)),
        forest::parents_listed(tables::rows(t.tasks)),
        forall|row: TaskV| #[trigger]
            tables::rows(t.tasks).contains(row) <==> t.tasks.dom().contains(row.id)
                && t.tasks[row.id] == row,
{
    let rows = tables::rows(t.tasks);
    tables::lemma_rows_exist(t.tasks);
    let h = choose|h: spec_fn(i64) -> nat| tables::falls(t.tasks, h);
    tables::lemma_rows_fall(rows, t.tasks, h);
    assert forall|i: int|
        0 <= i < rows.len() && (#[trigger] rows[i]).parent_id is Some implies forest::listed(
        rows,
        rows[i].parent_id->Some_0,
    ) by {
        let p = rows[i].parent_id->Some_0;
        assert(t.tasks.contains_pair(rows[i].id, rows[i]));
        assert(t.tasks.dom().contains(rows[i].id));
        assert(t.tasks.dom().contains(p));
        assert(rows.contains(t.tasks[p]));
        let j = choose|j: int| 0 <= j < rows.len() && rows[j] == t.tasks[p];
        assert(rows[j].id == p);
    }
    assert forall|row: TaskV| #[trigger]
        rows.contains(row) implies t.tasks.dom().contains(row.id) && t.tasks[row.id] == row by {
        let i = choose|i: int| 0 <= i < rows.len() && rows[i] == row;
        assert(t.tasks.contains_pair(rows[i].id, rows[i]));
    }
}

/// Of the rows exactly the found ones are selected, in their order.
proof fn lemma_select(rows: Seq<TaskV>, t: Tables, q: QueryV, today: Seq<char>)
    requires
        order::unique_ids(rows),
    ensures
        order::unique_ids(plans::select(rows, t, q, today)),
        forall|row: TaskV| #[trigger]
            plans::select(rows, t, q, today).contains(row) <==> rows.contains(row) && plans::found(
                t,
                row,
                q,
                today,
            ),
    decreases rows.len(),
{
    let all = plans::select(rows, t, q, today);
    if rows.len() > 0 {
        let front = rows.drop_last();
        let some = plans::select(front, t, q, today);
        lemma_select(front, t, q, today);
        assert forall|row: TaskV| #[trigger] all.contains(row) <==> rows.contains(row)
            && plans::found(t, row, q, today) by {
            if all.contains(row) {
                let k = choose|k: int| 0 <= k < all.len() && all[k] == row;
                if k < some.len() {
                    assert(some[k] == row);
                    assert(some.contains(row));
                    let j = choose|j: int| 0 <= j < front.len() && front[j] == row;
                    assert(rows[j] == row);
                } else {
                    assert(rows[rows.len() - 1] == row);
                }
            }
            if rows.contains(row) && plans::found(t, row, q, today) {
                let j = choose|j: int| 0 <= j < rows.len() && rows[j] == row;
                if j < front.len() {
                    assert(front[j] == row);
                    assert(some.contains(row));
                    let k = choose|k: int| 0 <= k < some.len() && some[k] == row;
                    assert(all[k] == row);
                } else {
                    assert(all[all.len() - 1] == row);
                }
            }
        }
        assert forall|i: int, j: int|
            0 <= i < all.len() && 0 <= j < all.len() && all[i].id == all[j].id implies i == j by {
            if i < some.len() && j < some.len() {
                assert(all[i] == some[i] && all[j] == some[j]);
            } else if i < some.len() {
                lemma_not_again(rows, some, i);
            } else if j < some.len() {
                lemma_not_again(rows, some, j);
            }
        }
    }
}

proof fn lemma_not_again(rows: Seq<TaskV>, some: Seq<TaskV>, i: int)
    requires
        rows.len() > 0,
        order::unique_ids(rows),
        0 <= i < some.len(),
        some.contains(some[i]) ==> rows.drop_last().contains(some[i]),
    ensures
        some[i].id != rows.last().id,
{
    assert(some.contains(some[i]));
    let front = rows.drop_last();
    let k = choose|k: int| 0 <= k < front.len() && front[k] == some[i];
    assert(rows[k].id == some[i].id);
}

/// Every order lists every task once.
proof fn lemma_sort_listing(t: Tables, sort: Sort)
    requires
        well_kept(t),
    ensures
        order::unique_ids(plans::sort_listing(tables::rows(t.tasks), sort)),
        forall|row: TaskV| #[trigger]
            plans::sort_listing(tables::rows(t.tasks), sort).contains(row) <==> tables::rows(
                t.tasks,
            ).contains(row),
{
    let rows = tables::rows(t.tasks);
    let all = plans::sort_listing(rows, sort);
    lemma_rows(t);
    match sort {
        Sort::TreeOrder => {
            forest::the_walk_meets_every_task_once(rows);
            let walk = forest::tree_order(rows);
            assert forall|i: int| 0 <= i < walk.len() implies 0 <= #[trigger] walk[i] < rows.len() by {
                assert(walk.contains(walk[i]));
            }
            assert forall|row: TaskV| #[trigger] all.contains(row) <==> rows.contains(row) by {
                if all.contains(row) {
                    let k = choose|k: int| 0 <= k < all.len() && all[k] == row;
                    assert(rows[walk[k]] == row);
                }
                if rows.contains(row) {
                    let i = choose|i: int| 0 <= i < rows.len() && rows[i] == row;
                    assert(walk.contains(i));
                    let k = choose|k: int| 0 <= k < walk.len() && walk[k] == i;
                    assert(all[k] == row);
                }
            }
            assert forall|i: int, j: int|
                0 <= i < all.len() && 0 <= j < all.len() && all[i].id == all[j].id implies i == j by {
                assert(all[i] == rows[walk[i]] && all[j] == rows[walk[j]]);
                assert(walk[i] == walk[j]);
            }
        },
        Sort::Due => lemma_listed(rows, Order::Due),
        Sort::Updated => lemma_listed(rows, Order::Updated),
        Sort::Created => lemma_listed(rows, Order::Created),
        Sort::Title => lemma_listed(rows, Order::Title),
    }
}

proof fn lemma_listed(rows: Seq<TaskV>, o: Order)
    requires
        order::unique_ids(rows),
    ensures
        order::unique_ids(order::listing(rows, o)),
        forall|row: TaskV| #[trigger]
            order::listing(rows, o).contains(row) <==> rows.contains(row),
{
    order::lemma_listing_exists(rows, o);
    let all = order::listing(rows, o);
    assert forall|row: TaskV| #[trigger] all.contains(row) <==> rows.contains(row) by {
        if all.contains(row) {
            let k = choose|k: int| 0 <= k < all.len() && all[k] == row;
            assert(rows.contains(all[k]));
        }
        if rows.contains(row) {
            let k = choose|k: int| 0 <= k < rows.len() && rows[k] == row;
            assert(all.contains(rows[k]));
        }
    }
}

/// A search finds exactly the stored tasks that match it, each once, in
/// whatever order they are asked for.
pub proof fn a_search_finds_exactly_the_matching_tasks(
    t: Tables,
    q: QueryV,
    today: Seq<char>,
    row: TaskV,
)
    requires
        well_kept(t),
    ensures
        plans::search(t, q, today).contains(row) <==> t.tasks.dom().contains(row.id)
            && t.tasks[row.id] == row && plans::found(t, row, q, today),
        order::unique_ids(plans::search(t, q, today)),
{
    lemma_rows(t);
    lemma_sort_listing(t, q.sort);
    lemma_select(plans::sort_listing(tables::rows(t.tasks), q.sort), t, q, today);
}

/// A task is in the subtree of another exactly where it is that task or has
/// it among its ancestors.
pub proof fn a_subtree_holds_the_descendants(ts: Seq<TaskV>, root: int, x: int)
    requires
        forest::acyclic(ts),
        order::unique_ids(ts),
        forest::parents_listed(ts),
        0 <= root < ts.len(),
        0 <= x < ts.len(),
    ensures
        forest::subtree(ts, root).contains(x) <==> x == root || tree::ancestors(
            ts,
            ts[x].id,
        ).contains(ts[root].id),
    decreases tree::ancestors(ts, ts[x].id).len(),
{
    let h = forest::heights(ts);
    let up = tree::ancestors(ts, ts[x].id);
    tree::lemma_own_index(ts, x);
    forest::lemma_preorder_bounds(ts, h, root);
    if ts[x].parent_id is Some {
        let p = ts[x].parent_id->Some_0;
        assert(forest::listed(ts, p));
        let j = choose|j: int| 0 <= j < ts.len() && (#[trigger] ts[j]).id == p;
        tree::lemma_own_index(ts, j);
        let above = tree::ancestors(ts, p);
        assert(up =~= seq![p] + above);
        a_subtree_holds_the_descendants(ts, root, j);
        if x != root && forest::subtree(ts, root).contains(x) {
            let q = forest::lemma_parent_in_subtree(ts, h, root, x);
            assert(ts[q].id == ts[j].id);
            assert(up[0] == p);
            if j != root {
                let k = choose|k: int| 0 <= k < above.len() && above[k] == ts[root].id;
                assert(up[k + 1] == ts[root].id);
            }
        }
        if up.contains(ts[root].id) {
            let k = choose|k: int| 0 <= k < up.len() && up[k] == ts[root].id;
            if k > 0 {
                assert(above[k - 1] == ts[root].id);
            } else {
                assert(ts[j].id == ts[root].id);
            }
            forest::lemma_child_in_subtree(ts, h, root, j, x);
        }
    } else {
        assert(up =~= seq![]);
        if x != root && forest::subtree(ts, root).contains(x) {
            let q = forest::lemma_parent_in_subtree(ts, h, root, x);
        }
    }
}

/// Deleting the given rows leaves the others.
proof fn lemma_delete_rows(t: Tables, m: Map<i64, TaskV>, ids: Seq<i64>)
    ensures
        tables::run(t, plans::delete_rows(m, ids)).statuses == t.statuses,
        tables::run(t, plans::delete_rows(m, ids)).tasks =~= t.tasks.remove_keys(ids.to_set()),
    decreases ids.len(),
{
    let changes = plans::delete_rows(m, ids);
    if ids.len() > 0 {
        let rest = ids.drop_first();
        assert(changes.drop_last() =~= plans::delete_rows(m, rest));
        assert(changes.last() == ChangeV::Task { id: ids[0], before: Some(m[ids[0]]), after: None });
        lemma_delete_rows(t, m, rest);
        assert forall|x: i64| ids.to_set().contains(x) <==> x == ids[0] || rest.to_set().contains(
            x,
        ) by {
            if ids.contains(x) {
                let k = choose|k: int| 0 <= k < ids.len() && ids[k] == x;
                if k > 0 {
                    assert(rest[k - 1] == x);
                }
            }
            if rest.contains(x) {
                let k = choose|k: int| 0 <= k < rest.len() && rest[k] == x;
                assert(ids[k + 1] == x);
            }
        }
        assert(tables::run(t, changes).tasks =~= t.tasks.remove_keys(ids.to_set()));
    } else {
        assert(tables::run(t, changes).tasks =~= t.tasks.remove_keys(ids.to_set()));
    }
}

/// Where a task sits among the rows.
proof fn lemma_position(t: Tables, id: i64)
    requires
        well_kept(t),
        t.tasks.dom().contains(id),
    ensures
        ({
            let rows = tables::rows(t.tasks);
            let i = plans::index_of(rows, id);
            0 <= i < rows.len() && rows[i] == t.tasks[id] && rows[i].id == id
        }),
{
    let rows = tables::rows(t.tasks);
    lemma_rows(t);
    assert(rows.contains(t.tasks[id]));
    let i = choose|i: int| 0 <= i < rows.len() && rows[i] == t.tasks[id];
    tree::lemma_own_index(rows, i);
}

/// Deleting a task removes it and everything below it, and nothing else: the
/// other tasks stay as they are.
pub proof fn deleting_removes_exactly_the_subtree(t: Tables, id: i64)
    requires
        well_kept(t),
        t.tasks.dom().contains(id),
    ensures
        ({
            let u = tables::run(t, plans::delete(t, id)->Ok_0.0);
            &&& plans::delete(t, id) is Ok
            &&& u.statuses == t.statuses
            &&& forall|x: i64| #[trigger]
                u.tasks.dom().contains(x) <==> t.tasks.dom().contains(x) && x != id
                    && !tree::ancestors(tables::rows(t.tasks), x).contains(id)
            &&& forall|x: i64| #[trigger] u.tasks.dom().contains(x) ==> u.tasks[x] == t.tasks[x]
        }),
{
    let rows = tables::rows(t.tasks);
    let ids = plans::subtree_ids(t.tasks, id);
    lemma_rows(t);
    lemma_position(t, id);
    lemma_delete_rows(t, t.tasks, ids);
    let root = plans::index_of(rows, id);
    let walk = forest::subtree(rows, root);
    forest::lemma_preorder_bounds(rows, forest::heights(rows), root);
    assert forall|x: i64| t.tasks.dom().contains(x) implies (ids.contains(x) <==> x == id
        || tree::ancestors(rows, x).contains(id)) by {
        lemma_position(t, x);
        let i = plans::index_of(rows, x);
        a_subtree_holds_the_descendants(rows, root, i);
        if walk.contains(i) {
            let k = choose|k: int| 0 <= k < walk.len() && walk[k] == i;
            assert(ids[k] == x);
        }
        if ids.contains(x) {
            let k = choose|k: int| 0 <= k < ids.len() && ids[k] == x;
            assert(rows[walk[k]].id == x);
            assert(walk[k] == i);
        }
    }
}

/// A task counts alone exactly where it has no children; then it is deleted
/// without asking.
pub proof fn a_childless_task_counts_alone(t: Tables, id: i64)
    requires
        well_kept(t),
        t.tasks.dom().contains(id),
    ensures
        plans::subtree_ids(t.tasks, id).len() == 1 <==> forall|x: i64| #[trigger]
            t.tasks.dom().contains(x) ==> t.tasks[x].parent_id != Some(id),
{
    let rows = tables::rows(t.tasks);
    let h = forest::heights(rows);
    lemma_rows(t);
    lemma_position(t, id);
    let root = plans::index_of(rows, id);
    let g = forest::group(rows, Some(id));
    forest::lemma_group_exists(rows, Some(id));
    if g.len() > 0 {
        assert(rows[g[0]].parent_id == Some(id));
        assert(t.tasks.contains_pair(rows[g[0]].id, rows[g[0]]));
        assert(t.tasks.dom().contains(rows[g[0]].id));
        assert(forest::preorder(rows, h, g[0]).len() > 0);
    }
    assert forall|x: i64| #[trigger]
        t.tasks.dom().contains(x) && t.tasks[x].parent_id == Some(id) implies g.len() > 0 by {
        lemma_position(t, x);
        assert(g.contains(plans::index_of(rows, x)));
    }
}

/// The links lead from one task up to another, through one parent after the
/// other.
pub open spec fn is_path(m: Map<i64, TaskV>, path: Seq<i64>, from: i64, to: i64) -> bool {
    &&& path.len() >= 2
    &&& path[0] == from
    &&& path[path.len() - 1] == to
    &&& forall|k: int|
        #![trigger path[k]]
        0 <= k < path.len() - 1 ==> m.dom().contains(path[k]) && m[path[k]].parent_id == Some(
            path[k + 1],
        )
}

/// One task is somewhere below another.
pub open spec fn is_below(m: Map<i64, TaskV>, x: i64, id: i64) -> bool {
    exists|path: Seq<i64>| is_path(m, path, x, id)
}

/// What is below a task are its children and what is below them.
proof fn lemma_below_step(m: Map<i64, TaskV>, x: i64, id: i64)
    requires
        m.dom().contains(x),
    ensures
        is_below(m, x, id) <==> m[x].parent_id is Some && (m[x].parent_id == Some(id) || is_below(
            m,
            m[x].parent_id->Some_0,
            id,
        )),
{
    if is_below(m, x, id) {
        let path = choose|path: Seq<i64>| is_path(m, path, x, id);
        assert(m[path[0]].parent_id == Some(path[1]));
        if path.len() > 2 {
            let rest = path.drop_first();
            assert forall|k: int|
                #![trigger rest[k]]
                0 <= k < rest.len() - 1 implies m.dom().contains(rest[k]) && m[rest[k]].parent_id
                == Some(rest[k + 1]) by {
                assert(rest[k] == path[k + 1]);
            }
            assert(is_path(m, rest, m[x].parent_id->Some_0, id));
        }
    }
    if m[x].parent_id is Some {
        let p = m[x].parent_id->Some_0;
        if p == id {
            assert(is_path(m, seq![x, id], x, id));
        } else if is_below(m, p, id) {
            let rest = choose|path: Seq<i64>| is_path(m, path, p, id);
            let path = seq![x] + rest;
            assert forall|k: int|
                #![trigger path[k]]
                0 <= k < path.len() - 1 implies m.dom().contains(path[k]) && m[path[k]].parent_id
                == Some(path[k + 1]) by {
                if k > 0 {
                    assert(path[k] == rest[k - 1]);
                    assert(path[k + 1] == rest[k]);
                }
            }
            assert(is_path(m, path, x, id));
        }
    }
}

/// The ancestors of a stored task are the tasks that it is below.
pub proof fn the_ancestors_are_the_tasks_above(t: Tables, x: i64, id: i64)
    requires
        well_kept(t),
        t.tasks.dom().contains(x),
    ensures
        tree::ancestors(tables::rows(t.tasks), x).contains(id) <==> is_below(t.tasks, x, id),
    decreases tree::ancestors(tables::rows(t.tasks), x).len(),
{
    let rows = tables::rows(t.tasks);
    let up = tree::ancestors(rows, x);
    lemma_rows(t);
    lemma_position(t, x);
    lemma_below_step(t.tasks, x, id);
    if t.tasks[x].parent_id is Some {
        let p = t.tasks[x].parent_id->Some_0;
        assert(t.tasks.dom().contains(p));
        lemma_position(t, p);
        let above = tree::ancestors(rows, p);
        assert(up =~= seq![p] + above);
        the_ancestors_are_the_tasks_above(t, p, id);
        if up.contains(id) {
            let k = choose|k: int| 0 <= k < up.len() && up[k] == id;
            if k > 0 {
                assert(above[k - 1] == id);
            }
        }
        if p == id {
            assert(up[0] == id);
        }
        if above.contains(id) {
            let k = choose|k: int| 0 <= k < above.len() && above[k] == id;
            assert(up[k + 1] == id);
        }
    } else {
        assert(up =~= seq![]);
    }
}

/// A subtree holds a task and what is below it.
pub(crate) proof fn lemma_subtree(t: Tables, id: i64)
    requires
        well_kept(t),
        t.tasks.dom().contains(id),
    ensures
        forall|x: i64| #[trigger]
            plans::subtree_ids(t.tasks, id).contains(x) <==> t.tasks.dom().contains(x) && (x == id
                || is_below(t.tasks, x, id)),
        plans::subtree_ids(t.tasks, id).no_duplicates(),
{
    let rows = tables::rows(t.tasks);
    let h = forest::heights(rows);
    let ids = plans::subtree_ids(t.tasks, id);
    lemma_rows(t);
    lemma_position(t, id);
    let root = plans::index_of(rows, id);
    let walk = forest::subtree(rows, root);
    forest::lemma_preorder_bounds(rows, h, root);
    forest::lemma_preorder_no_duplicates(rows, h, root);
    assert forall|x: i64| #[trigger] ids.contains(x) <==> t.tasks.dom().contains(x) && (x == id
        || is_below(t.tasks, x, id)) by {
        if t.tasks.dom().contains(x) {
            lemma_position(t, x);
            let i = plans::index_of(rows, x);
            a_subtree_holds_the_descendants(rows, root, i);
            the_ancestors_are_the_tasks_above(t, x, id);
            if walk.contains(i) {
                let k = choose|k: int| 0 <= k < walk.len() && walk[k] == i;
                assert(ids[k] == x);
            }
            if ids.contains(x) {
                let k = choose|k: int| 0 <= k < ids.len() && ids[k] == x;
                assert(rows[walk[k]].id == x);
                assert(walk[k] == i);
            }
        }
        if ids.contains(x) {
            let k = choose|k: int| 0 <= k < ids.len() && ids[k] == x;
            assert(0 <= walk[k] < rows.len());
            assert(t.tasks.contains_pair(rows[walk[k]].id, rows[walk[k]]));
        }
    }
    assert forall|i: int, j: int| 0 <= i < ids.len() && 0 <= j < ids.len() && i != j implies ids[i]
        != ids[j] by {
        assert(0 <= walk[i] < rows.len() && 0 <= walk[j] < rows.len());
        assert(walk[i] != walk[j]);
        if rows[walk[i]].id == rows[walk[j]].id {
            assert(walk[i] == walk[j]);
        }
    }
}

proof fn lemma_removed_count(m: Map<i64, TaskV>, ids: Seq<i64>)
    requires
        m.dom().finite(),
        ids.no_duplicates(),
        forall|x: i64| #[trigger] ids.contains(x) ==> m.dom().contains(x),
    ensures
        m.remove_keys(ids.to_set()).dom().len() + ids.len() == m.dom().len(),
{
    let gone = ids.to_set();
    let rest = m.remove_keys(gone).dom();
    ids.unique_seq_to_set();
    assert(rest =~= m.dom().difference(gone));
    vstd::set_lib::lemma_set_disjoint_lens(rest, gone);
    assert(rest.union(gone) =~= m.dom()) by {
        assert forall|x: i64| #[trigger] gone.contains(x) implies m.dom().contains(x) by {
            assert(ids.contains(x));
        }
    }
}

/// Deleting takes a task and all that is below it, at any depth, and leaves
/// every other row as it was. It says how many tasks went. Only an unknown
/// task is refused.
pub proof fn deleting_takes_what_is_below(d: DbV, id: i64)
    requires
        tables::history_ok(d, false),
        d.tables.tasks.dom().finite(),
    ensures
        ({
            let (e, r) = ops::delete_subtree(d, id);
            let t = d.tables;
            let u = e.tables;
            if t.tasks.dom().contains(id) {
                &&& r is Ok
                &&& u.statuses == t.statuses
                &&& forall|x: i64| #[trigger]
                    u.tasks.dom().contains(x) <==> t.tasks.dom().contains(x) && x != id
                        && !is_below(t.tasks, x, id)
                &&& forall|x: i64| #[trigger] u.tasks.dom().contains(x) ==> u.tasks[x] == t.tasks[x]
                &&& t.tasks.dom().len() <= i64::MAX ==> r->Ok_0 == t.tasks.dom().len()
                    - u.tasks.dom().len()
                &&& ops::count_subtree(d, id) == r
                &&& effects::one_step(d, e, "delete \""@ + t.tasks[id].title + "\""@)
            } else {
                &&& e == d
                &&& r == Err::<i64, ErrorV>(ErrorV::TaskNotFound(id))
                &&& ops::count_subtree(d, id) == r
            }
        }),
{
    let t = d.tables;
    tables::lemma_chain_sound(t, d.undo, false);
    if t.tasks.dom().contains(id) {
        let ids = plans::subtree_ids(t.tasks, id);
        let changes = plans::delete_rows(t.tasks, ids);
        lemma_subtree(t, id);
        lemma_delete_rows(t, t.tasks, ids);
        lemma_removed_count(t.tasks, ids);
        lemma_deletes_run(t, ids);
        assert(ids.contains(id));
        effects::lemma_one_step(d, "delete \""@ + t.tasks[id].title + "\""@, changes);
        let u = tables::run(t, changes);
        assert forall|x: i64| #[trigger] u.tasks.dom().contains(x) <==> t.tasks.dom().contains(x)
            && x != id && !is_below(t.tasks, x, id) by {
            assert(ids.to_set().contains(x) <==> ids.contains(x));
        }
    }
}

proof fn lemma_deletes_run(t: Tables, ids: Seq<i64>)
    requires
        ids.no_duplicates(),
        forall|x: i64| #[trigger] ids.contains(x) ==> t.tasks.dom().contains(x),
    ensures
        tables::runs(t, plans::delete_rows(t.tasks, ids)),
    decreases ids.len(),
{
    let changes = plans::delete_rows(t.tasks, ids);
    if ids.len() > 0 {
        let rest = ids.drop_first();
        assert(changes.drop_last() =~= plans::delete_rows(t.tasks, rest));
        assert forall|x: i64| #[trigger] rest.contains(x) implies t.tasks.dom().contains(x) by {
            let k = choose|k: int| 0 <= k < rest.len() && rest[k] == x;
            assert(ids[k + 1] == x);
            assert(ids.contains(x));
        }
        lemma_deletes_run(t, rest);
        lemma_delete_rows(t, t.tasks, rest);
        assert(ids.contains(ids[0]));
        assert(!rest.contains(ids[0])) by {
            if rest.contains(ids[0]) {
                let k = choose|k: int| 0 <= k < rest.len() && rest[k] == ids[0];
                assert(ids[k + 1] == ids[0]);
            }
        }
        assert(!rest.to_set().contains(ids[0]));
    }
}

} // verus!

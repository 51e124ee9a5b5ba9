//! Where actions place a task among its siblings, and what they leave alone.
use vstd::prelude::*;

use crate::effects;
use crate::error::{ErrorV, StoreError};
use crate::forest;
use crate::laws;
use crate::ops;
use crate::order;
use crate::plans;
use crate::tables;
use crate::tables::{ChangeV, DbV, Tables};
use crate::task::{TaskMove, TaskV};

verus! {

/// A finite table whose rows sit under their own ids.
pub open spec fn listable(t: Tables) -> bool {
    tables::keyed(t) && t.tasks.dom().finite()
}

/// No two siblings share a display order.
pub open spec fn distinct_orders(m: Map<i64, TaskV>) -> bool {
    forall|a: i64, b: i64|
        #![trigger m.dom().contains(a), m.dom().contains(b)]
        m.dom().contains(a) && m.dom().contains(b) && m[a].parent_id == m[b].parent_id
            && m[a].display_order == m[b].display_order ==> a == b
}

/// No two children of this parent share a display order.
pub open spec fn distinct_children(m: Map<i64, TaskV>, parent: Option<i64>) -> bool {
    forall|a: i64, b: i64|
        #![trigger m.dom().contains(a), m.dom().contains(b)]
        m.dom().contains(a) && m.dom().contains(b) && m[a].parent_id == parent && m[b].parent_id
            == parent && m[a].display_order == m[b].display_order ==> a == b
}

/// The children of a task are the rows that name it as their parent, by
/// display order.
proof fn lemma_children(t: Tables, parent: Option<i64>)
    requires
        listable(t),
    ensures
        ({
            let cs = plans::children(t.tasks, parent);
            &&& order::unique_ids(cs)
            &&& forall|k: int|
                0 <= k < cs.len() ==> t.tasks.contains_pair((#[trigger] cs[k]).id, cs[k])
                    && cs[k].parent_id == parent
            &&& forall|id: i64| #[trigger]
                t.tasks.dom().contains(id) && t.tasks[id].parent_id == parent ==> cs.contains(
                    t.tasks[id],
                )
            &&& forall|j: int, k: int|
                0 <= j < k < cs.len() ==> (#[trigger] cs[j]).display_order <= (
                #[trigger] cs[k]).display_order
        }),
{
    tables::lemma_rows_exist(t.tasks);
    let rows = tables::rows(t.tasks);
    let g = forest::group(rows, parent);
    forest::lemma_group_exists(rows, parent);
    let cs = plans::children(t.tasks, parent);
    assert forall|k: int| 0 <= k < cs.len() implies t.tasks.contains_pair(
        (#[trigger] cs[k]).id,
        cs[k],
    ) && cs[k].parent_id == parent by {
        assert(0 <= g[k] < rows.len());
        assert(t.tasks.contains_pair(rows[g[k]].id, rows[g[k]]));
    }
    assert forall|id: i64| #[trigger]
        t.tasks.dom().contains(id) && t.tasks[id].parent_id == parent implies cs.contains(
        t.tasks[id],
    ) by {
        assert(rows.contains(t.tasks[id]));
        let i = choose|i: int| 0 <= i < rows.len() && rows[i] == t.tasks[id];
        assert(g.contains(i));
        let k = choose|k: int| 0 <= k < g.len() && g[k] == i;
        assert(cs[k] == t.tasks[id]);
    }
    assert forall|j: int, k: int| 0 <= j < k < cs.len() implies (#[trigger] cs[j]).id != (
    #[trigger] cs[k]).id && cs[j].display_order <= cs[k].display_order by {
        assert(forest::sibling_order(rows)(g[j], g[k]));
        assert(0 <= g[j] < rows.len() && 0 <= g[k] < rows.len());
    }
}

/// A row after room was made or closed.
spec fn shifted(row: TaskV, above: i64, by: int, except: Option<i64>) -> TaskV {
    if plans::shifts(row, above, except) {
        TaskV { display_order: (row.display_order + by) as i64, ..row }
    } else {
        row
    }
}

/// One of the rows has this id.
spec fn among(rows: Seq<TaskV>, id: i64) -> bool {
    exists|i: int| 0 <= i < rows.len() && (#[trigger] rows[i]).id == id
}

proof fn lemma_shift(t: Tables, rows: Seq<TaskV>, above: i64, by: int, except: Option<i64>)
    requires
        order::unique_ids(rows),
        forall|i: int| 0 <= i < rows.len() ==> t.tasks.contains_pair((#[trigger] rows[i]).id, rows[i]),
    ensures
        ({
            let u = tables::run(t, plans::shift(rows, above, by, except));
            &&& u.statuses == t.statuses
            &&& u.tasks.dom() =~= t.tasks.dom()
            &&& forall|id: i64| #[trigger]
                t.tasks.dom().contains(id) ==> u.tasks[id] == if among(rows, id) {
                    shifted(t.tasks[id], above, by, except)
                } else {
                    t.tasks[id]
                }
        }),
    decreases rows.len(),
{
    if rows.len() > 0 {
        let front = rows.drop_last();
        let row = rows.last();
        assert forall|i: int| 0 <= i < front.len() implies t.tasks.contains_pair(
            (#[trigger] front[i]).id,
            front[i],
        ) by {
            assert(front[i] == rows[i]);
        }
        lemma_shift(t, front, above, by, except);
        let before = plans::shift(front, above, by, except);
        let v = tables::run(t, before);
        let u = tables::run(t, plans::shift(rows, above, by, except));
        assert(t.tasks.contains_pair(rows[rows.len() - 1].id, rows[rows.len() - 1]));
        if plans::shifts(row, above, except) {
            tables::lemma_run_push(
                t,
                before,
                ChangeV::Task {
                    id: row.id,
                    before: Some(row),
                    after: Some(TaskV { display_order: (row.display_order + by) as i64, ..row }),
                },
            );
        }
        assert forall|id: i64| #[trigger] t.tasks.dom().contains(id) implies u.tasks[id]
            == if among(rows, id) {
            shifted(t.tasks[id], above, by, except)
        } else {
            t.tasks[id]
        } by {
            if id == row.id {
                assert(rows[rows.len() - 1].id == id);
                if among(front, id) {
                    let i = choose|i: int| 0 <= i < front.len() && (#[trigger] front[i]).id == id;
                    assert(rows[i].id == rows[rows.len() - 1].id);
                }
            } else {
                if among(front, id) {
                    let i = choose|i: int| 0 <= i < front.len() && (#[trigger] front[i]).id == id;
                    assert(rows[i].id == id);
                }
                if among(rows, id) {
                    let i = choose|i: int| 0 <= i < rows.len() && (#[trigger] rows[i]).id == id;
                    assert(front[i].id == id);
                }
            }
        }
    }
}

/// What making or closing room in a sibling group does to every task.
proof fn lemma_shift_children(
    t: Tables,
    parent: Option<i64>,
    above: i64,
    by: int,
    except: Option<i64>,
)
    requires
        listable(t),
    ensures
        ({
            let u = tables::run(t, plans::shift(plans::children(t.tasks, parent), above, by, except));
            &&& listable(u)
            &&& u.statuses == t.statuses
            &&& u.tasks.dom() =~= t.tasks.dom()
            &&& forall|id: i64| #[trigger]
                t.tasks.dom().contains(id) ==> u.tasks[id] == if t.tasks[id].parent_id == parent {
                    shifted(t.tasks[id], above, by, except)
                } else {
                    t.tasks[id]
                }
        }),
{
    let cs = plans::children(t.tasks, parent);
    lemma_children(t, parent);
    lemma_shift(t, cs, above, by, except);
    let u = tables::run(t, plans::shift(cs, above, by, except));
    assert forall|id: i64| #[trigger] t.tasks.dom().contains(id) implies u.tasks[id]
        == if t.tasks[id].parent_id == parent {
        shifted(t.tasks[id], above, by, except)
    } else {
        t.tasks[id]
    } by {
        if t.tasks[id].parent_id == parent {
            assert(cs.contains(t.tasks[id]));
            let k = choose|k: int| 0 <= k < cs.len() && cs[k] == t.tasks[id];
            assert(cs[k].id == id);
        }
        if among(cs, id) {
            let k = choose|k: int| 0 <= k < cs.len() && (#[trigger] cs[k]).id == id;
            assert(t.tasks.contains_pair(cs[k].id, cs[k]));
        }
    }
}

/// The tail lies behind every row but the one left out.
proof fn lemma_tail(rows: Seq<TaskV>, except: Option<i64>)
    requires
        forall|j: int, k: int|
            0 <= j < k < rows.len() ==> (#[trigger] rows[j]).display_order <= (
            #[trigger] rows[k]).display_order,
    ensures
        forall|k: int|
            0 <= k < rows.len() && Some((#[trigger] rows[k]).id) != except
                ==> rows[k].display_order < plans::tail_order(rows, except),
    decreases rows.len(),
{
    if rows.len() > 0 {
        let front = rows.drop_last();
        assert forall|j: int, k: int| 0 <= j < k < front.len() implies (
        #[trigger] front[j]).display_order <= (#[trigger] front[k]).display_order by {
            assert(front[j] == rows[j] && front[k] == rows[k]);
        }
        lemma_tail(front, except);
        assert forall|k: int| 0 <= k < rows.len() && Some((#[trigger] rows[k]).id) != except implies rows[k].display_order
            < plans::tail_order(rows, except) by {
            if k < front.len() {
                assert(front[k] == rows[k]);
                assert(rows[k].display_order <= rows[rows.len() - 1].display_order);
            }
        }
    }
}

/// Where a task comes to stand in a sibling group: behind the rows up to
/// `after`, or behind all of them, and before the others.
pub open spec fn lands(t: Tables, u: Tables, row: TaskV, after: Option<i64>, id: i64) -> bool {
    match after {
        None => u.tasks[id] == t.tasks[id] && u.tasks[id].display_order < row.display_order,
        Some(a) => if t.tasks[id].display_order <= a {
            u.tasks[id] == t.tasks[id] && u.tasks[id].display_order < row.display_order
        } else {
            &&& u.tasks[id].display_order == t.tasks[id].display_order + 1
            &&& u.tasks[id] == (TaskV {
                display_order: u.tasks[id].display_order,
                ..t.tasks[id]
            })
            &&& row.display_order < u.tasks[id].display_order
        },
    }
}

/// Room made in a sibling group is free, and the siblings keep their order.
proof fn lemma_room(t: Tables, parent: Option<i64>, after: Option<i64>, except: Option<i64>)
    requires
        listable(t),
        plans::make_room(plans::children(t.tasks, parent), after, except) is Some,
    ensures
        ({
            let (room, order) = plans::make_room(
                plans::children(t.tasks, parent),
                after,
                except,
            )->Some_0;
            let u = tables::run(t, room);
            &&& listable(u)
            &&& u.statuses == t.statuses
            &&& u.tasks.dom() =~= t.tasks.dom()
            &&& forall|id: i64| #[trigger]
                t.tasks.dom().contains(id) && t.tasks[id].parent_id == parent && Some(id) != except
                    ==> lands(t, u, TaskV { display_order: order, ..t.tasks[id] }, after, id)
            &&& forall|id: i64| #[trigger]
                t.tasks.dom().contains(id) && (t.tasks[id].parent_id != parent || Some(id) == except)
                    ==> u.tasks[id] == t.tasks[id]
        }),
{
    let cs = plans::children(t.tasks, parent);
    lemma_children(t, parent);
    let (room, order) = plans::make_room(cs, after, except)->Some_0;
    let u = tables::run(t, room);
    match after {
        Some(a) => {
            lemma_shift_children(t, parent, a, 1, except);
            assert forall|id: i64| #[trigger]
                t.tasks.dom().contains(id) && t.tasks[id].parent_id == parent && Some(id)
                    != except implies lands(
                t,
                u,
                TaskV { display_order: order, ..t.tasks[id] },
                after,
                id,
            ) by {
                assert(cs.contains(t.tasks[id]));
                let k = choose|k: int| 0 <= k < cs.len() && cs[k] == t.tasks[id];
                if t.tasks[id].display_order > a {
                    assert(plans::shifts(cs[k], a, except));
                    assert(cs[k].display_order != i64::MAX);
                }
            }
        },
        None => {
            lemma_tail(cs, except);
            assert(u == t);
            assert forall|id: i64| #[trigger]
                t.tasks.dom().contains(id) && t.tasks[id].parent_id == parent && Some(id)
                    != except implies lands(
                t,
                u,
                TaskV { display_order: order, ..t.tasks[id] },
                after,
                id,
            ) by {
                assert(cs.contains(t.tasks[id]));
                let k = choose|k: int| 0 <= k < cs.len() && cs[k] == t.tasks[id];
                assert(cs[k].id == id);
            }
        },
    }
}

/// A new task is added under a fresh id and lands where it was asked for:
/// right behind `after`, or behind all its siblings. Its siblings keep their
/// order, and every other task stays as it is.
pub proof fn a_new_task_lands_in_its_place(
    t: Tables,
    parent: Option<i64>,
    title: Seq<char>,
    after: Option<i64>,
    status_id: i64,
    now: Seq<char>,
)
    requires
        listable(t),
        plans::create(t, parent, title, after, status_id, now) is Ok,
    ensures
        ({
            let (changes, row) = plans::create(t, parent, title, after, status_id, now)->Ok_0;
            let u = tables::run(t, changes);
            &&& !t.tasks.dom().contains(row.id)
            &&& u.tasks.dom() =~= t.tasks.dom().insert(row.id)
            &&& u.tasks[row.id] == row
            &&& u.statuses == t.statuses
            &&& forall|id: i64| #[trigger]
                t.tasks.dom().contains(id) ==> if t.tasks[id].parent_id == parent {
                    lands(t, u, row, after, id)
                } else {
                    u.tasks[id] == t.tasks[id]
                }
            &&& distinct_orders(t.tasks) ==> distinct_orders(u.tasks)
        }),
{
    let (changes, row) = plans::create(t, parent, title, after, status_id, now)->Ok_0;
    let (room, order) = plans::make_room(plans::children(t.tasks, parent), after, None)->Some_0;
    lemma_room(t, parent, after, None);
    let v = tables::run(t, room);
    let u = tables::run(t, changes);
    tables::lemma_run_push(
        t,
        room,
        ChangeV::Task { id: row.id, before: None, after: Some(row) },
    );
    lemma_fresh(t);
    assert forall|id: i64| #[trigger] t.tasks.dom().contains(id) implies (
    if t.tasks[id].parent_id == parent {
        lands(t, u, row, after, id)
    } else {
        u.tasks[id] == t.tasks[id]
    }) by {
        assert(u.tasks[id] == v.tasks[id]);
    }
    if distinct_orders(t.tasks) {
        assert forall|a: i64, b: i64|
            #![trigger u.tasks.dom().contains(a), u.tasks.dom().contains(b)]
            u.tasks.dom().contains(a) && u.tasks.dom().contains(b) && u.tasks[a].parent_id
                == u.tasks[b].parent_id && u.tasks[a].display_order
                == u.tasks[b].display_order implies a == b by {
            if a != row.id && b != row.id {
                assert(t.tasks.dom().contains(a) && t.tasks.dom().contains(b));
            } else if a != row.id {
                assert(t.tasks.dom().contains(a));
            } else if b != row.id {
                assert(t.tasks.dom().contains(b));
            }
        }
    }
}

/// The next id is above all others.
proof fn lemma_fresh(t: Tables)
    requires
        listable(t),
    ensures
        forall|id: i64| #[trigger]
            t.tasks.dom().contains(id) ==> id < plans::next_task_id(t.tasks),
{
    tables::lemma_rows_exist(t.tasks);
    let rows = tables::rows(t.tasks);
    let ids = rows.map_values(|r: TaskV| r.id);
    assert forall|id: i64| #[trigger] t.tasks.dom().contains(id) implies id < plans::next_task_id(
        t.tasks,
    ) by {
        assert(rows.contains(t.tasks[id]));
        let i = choose|i: int| 0 <= i < rows.len() && rows[i] == t.tasks[id];
        assert(ids.last() == rows[rows.len() - 1].id);
        if i < rows.len() - 1 {
            assert(order::task_order(order::Order::Id)(rows[i], rows[rows.len() - 1]));
        }
    }
}

/// A task given a new parent is the only one whose parent changes, and no
/// two siblings come to share a display order.
pub proof fn a_moved_task_takes_a_free_place(
    t: Tables,
    id: i64,
    new_parent: Option<i64>,
    after: Option<i64>,
    now: Seq<char>,
)
    requires
        listable(t),
        plans::reparent(t, id, new_parent, after, now) is Ok,
    ensures
        ({
            let u = tables::run(t, plans::reparent(t, id, new_parent, after, now)->Ok_0.0);
            &&& u.tasks.dom() =~= t.tasks.dom()
            &&& u.statuses == t.statuses
            &&& u.tasks[id].parent_id == new_parent
            &&& forall|x: i64| #[trigger]
                t.tasks.dom().contains(x) && x != id ==> u.tasks[x] == (TaskV {
                    display_order: u.tasks[x].display_order,
                    ..t.tasks[x]
                })
            &&& distinct_orders(t.tasks) ==> distinct_orders(u.tasks)
        }),
{
    let changes = plans::reparent(t, id, new_parent, after, now)->Ok_0.0;
    let row = t.tasks[id];
    let closed = plans::shift(
        plans::children(t.tasks, row.parent_id),
        row.display_order,
        -1,
        None,
    );
    let v = tables::run(t, closed);
    lemma_shift_children(t, row.parent_id, row.display_order, -1, None);
    let (room, order) = plans::make_room(
        plans::children(v.tasks, new_parent),
        after,
        Some(id),
    )->Some_0;
    lemma_room(v, new_parent, after, Some(id));
    let w = tables::run(v, room);
    let moved = TaskV { parent_id: new_parent, display_order: order, updated_at: now, ..row };
    tables::lemma_run_concat(t, closed, room);
    tables::lemma_run_push(
        t,
        closed + room,
        ChangeV::Task { id, before: Some(row), after: Some(moved) },
    );
    let u = tables::run(t, changes);
    assert(u.tasks == w.tasks.insert(id, moved));
    assert forall|x: i64| #[trigger] t.tasks.dom().contains(x) && x != id implies u.tasks[x] == (
    TaskV { display_order: u.tasks[x].display_order, ..t.tasks[x] }) by {
        assert(v.tasks.dom().contains(x));
    }
    if distinct_orders(t.tasks) {
        assert forall|a: i64, b: i64|
            #![trigger u.tasks.dom().contains(a), u.tasks.dom().contains(b)]
            u.tasks.dom().contains(a) && u.tasks.dom().contains(b) && u.tasks[a].parent_id
                == u.tasks[b].parent_id && u.tasks[a].display_order
                == u.tasks[b].display_order implies a == b by {
            assert(t.tasks.dom().contains(a) && t.tasks.dom().contains(b));
            assert(t.tasks.dom().contains(id));
            assert(v.tasks.dom().contains(a) && v.tasks.dom().contains(b));
        }
    }
}

/// The next row is the nearest one above.
proof fn lemma_next(rows: Seq<TaskV>, order: i64)
    requires
        forall|j: int, k: int|
            0 <= j < k < rows.len() ==> (#[trigger] rows[j]).display_order <= (
            #[trigger] rows[k]).display_order,
    ensures
        plans::next_row(rows, order) matches Some(n) ==> rows.contains(n) && n.display_order
            > order && forall|k: int|
            0 <= k < rows.len() && (#[trigger] rows[k]).display_order > order
                ==> n.display_order <= rows[k].display_order,
        plans::next_row(rows, order) is None ==> forall|k: int|
            0 <= k < rows.len() ==> (#[trigger] rows[k]).display_order <= order,
    decreases rows.len(),
{
    if rows.len() > 0 {
        let rest = rows.drop_first();
        if rows[0].display_order <= order {
            assert forall|j: int, k: int| 0 <= j < k < rest.len() implies (
            #[trigger] rest[j]).display_order <= (#[trigger] rest[k]).display_order by {
                assert(rest[j] == rows[j + 1] && rest[k] == rows[k + 1]);
            }
            lemma_next(rest, order);
            if let Some(n) = plans::next_row(rows, order) {
                let q = choose|q: int| 0 <= q < rest.len() && rest[q] == n;
                assert(rows[q + 1] == n);
            }
            assert forall|k: int| 0 < k < rows.len() implies #[trigger] rows[k] == rest[k - 1] by {
            }
        } else {
            assert(rows.contains(rows[0]));
        }
    }
}

/// The previous row is the nearest one below.
proof fn lemma_previous(rows: Seq<TaskV>, order: i64)
    requires
        forall|j: int, k: int|
            0 <= j < k < rows.len() ==> (#[trigger] rows[j]).display_order <= (
            #[trigger] rows[k]).display_order,
    ensures
        plans::previous_row(rows, order) matches Some(n) ==> rows.contains(n) && n.display_order
            < order && forall|k: int|
            0 <= k < rows.len() && (#[trigger] rows[k]).display_order < order
                ==> rows[k].display_order <= n.display_order,
        plans::previous_row(rows, order) is None ==> forall|k: int|
            0 <= k < rows.len() ==> (#[trigger] rows[k]).display_order >= order,
    decreases rows.len(),
{
    if rows.len() > 0 {
        let front = rows.drop_last();
        if rows.last().display_order >= order {
            assert forall|j: int, k: int| 0 <= j < k < front.len() implies (
            #[trigger] front[j]).display_order <= (#[trigger] front[k]).display_order by {
                assert(front[j] == rows[j] && front[k] == rows[k]);
            }
            lemma_previous(front, order);
            if let Some(n) = plans::previous_row(rows, order) {
                let q = choose|q: int| 0 <= q < front.len() && front[q] == n;
                assert(rows[q] == n);
            }
            assert forall|k: int| 0 <= k < rows.len() - 1 implies #[trigger] rows[k] == front[k] by {
            }
        } else {
            assert(rows.contains(rows[rows.len() - 1]));
        }
    }
}

/// The sibling a move swaps a task with.
spec fn neighbour(t: Tables, id: i64, direction: TaskMove) -> Option<TaskV> {
    let row = t.tasks[id];
    let rows = plans::children(t.tasks, row.parent_id);
    match direction {
        TaskMove::Down => plans::next_row(rows, row.display_order),
        TaskMove::Up => plans::previous_row(rows, row.display_order),
    }
}

/// The neighbour is the nearest sibling in that direction.
proof fn lemma_neighbour(t: Tables, id: i64, direction: TaskMove)
    requires
        listable(t),
        t.tasks.dom().contains(id),
    ensures
        match neighbour(t, id, direction) {
            Some(n) => {
                &&& t.tasks.contains_pair(n.id, n)
                &&& n.id != id
                &&& n.parent_id == t.tasks[id].parent_id
                &&& beyond(t, id, n.id, direction)
                &&& forall|x: i64| #[trigger]
                    t.tasks.dom().contains(x) && beyond(t, id, x, direction) ==> !beyond(
                        t,
                        x,
                        n.id,
                        direction,
                    )
            },
            None => forall|x: i64| #[trigger]
                t.tasks.dom().contains(x) ==> !beyond(t, id, x, direction),
        },
{
    let row = t.tasks[id];
    let rows = plans::children(t.tasks, row.parent_id);
    lemma_children(t, row.parent_id);
    lemma_next(rows, row.display_order);
    lemma_previous(rows, row.display_order);
    if let Some(n) = neighbour(t, id, direction) {
        let q = choose|q: int| 0 <= q < rows.len() && rows[q] == n;
        assert(t.tasks.contains_pair(rows[q].id, rows[q]));
    }
    assert forall|x: i64| #[trigger]
        t.tasks.dom().contains(x) && beyond(t, id, x, direction) implies match neighbour(
        t,
        id,
        direction,
    ) {
        Some(n) => !beyond(t, x, n.id, direction),
        None => false,
    } by {
        assert(rows.contains(t.tasks[x]));
        let k = choose|k: int| 0 <= k < rows.len() && rows[k] == t.tasks[x];
        assert(rows[k].display_order == t.tasks[x].display_order);
    }
}

/// `x` is a sibling of `id` further in the given direction.
pub open spec fn beyond(t: Tables, id: i64, x: i64, direction: TaskMove) -> bool {
    t.tasks[x].parent_id == t.tasks[id].parent_id && match direction {
        TaskMove::Down => t.tasks[x].display_order > t.tasks[id].display_order,
        TaskMove::Up => t.tasks[x].display_order < t.tasks[id].display_order,
    }
}

pub open spec fn opposite(direction: TaskMove) -> TaskMove {
    match direction {
        TaskMove::Down => TaskMove::Up,
        TaskMove::Up => TaskMove::Down,
    }
}

/// What a move does: two siblings swap their display orders.
proof fn lemma_swap(t: Tables, id: i64, direction: TaskMove)
    requires
        listable(t),
        t.tasks.dom().contains(id),
    ensures
        ({
            let u = tables::run(t, plans::move_task(t, id, direction)->Ok_0.0);
            &&& plans::move_task(t, id, direction) is Ok
            &&& u.statuses == t.statuses
            &&& match neighbour(t, id, direction) {
                Some(n) => u.tasks == t.tasks.insert(
                    id,
                    TaskV { display_order: n.display_order, ..t.tasks[id] },
                ).insert(n.id, TaskV { display_order: t.tasks[id].display_order, ..n }),
                None => u.tasks == t.tasks,
            }
        }),
{
    let row = t.tasks[id];
    if let Some(n) = neighbour(t, id, direction) {
        let first = plans::edit(t, TaskV { display_order: n.display_order, ..row });
        let second = plans::edit(t, TaskV { display_order: row.display_order, ..n });
        assert(seq![first, second] =~= seq![first].push(second));
        tables::lemma_run_one(t, first);
        tables::lemma_run_push(t, seq![first], second);
    }
}

/// Moving a task swaps it with its nearest sibling in that direction, so that
/// no sibling stands between the two; where there is none, nothing changes. No two siblings come to share a display
/// order.
pub proof fn a_move_swaps_neighbours(t: Tables, id: i64, direction: TaskMove)
    requires
        listable(t),
        t.tasks.dom().contains(id),
    ensures
        ({
            let u = tables::run(t, plans::move_task(t, id, direction)->Ok_0.0);
            &&& plans::move_task(t, id, direction) is Ok
            &&& (forall|x: i64| #[trigger]
                t.tasks.dom().contains(x) ==> !beyond(t, id, x, direction)) ==> u == t
            &&& u != t ==> exists|n: i64|
                n != id && beyond(t, id, n, direction) && beyond(u, n, id, direction)
                    && #[trigger] u.tasks.dom().contains(n) && u.tasks[n].display_order
                    == t.tasks[id].display_order && u.tasks[id].display_order
                    == t.tasks[n].display_order && (forall|x: i64| #[trigger]
                    t.tasks.dom().contains(x) && beyond(t, id, x, direction) ==> !beyond(
                        t,
                        x,
                        n,
                        direction,
                    ))
            &&& distinct_orders(t.tasks) ==> distinct_orders(u.tasks)
        }),
{
    lemma_neighbour(t, id, direction);
    lemma_swap(t, id, direction);
    let u = tables::run(t, plans::move_task(t, id, direction)->Ok_0.0);
    match neighbour(t, id, direction) {
        Some(n) => {
            assert(u.tasks.dom().contains(n.id));
            assert(beyond(u, n.id, id, direction));
            if distinct_orders(t.tasks) {
                assert forall|a: i64, b: i64|
                    #![trigger u.tasks.dom().contains(a), u.tasks.dom().contains(b)]
                    u.tasks.dom().contains(a) && u.tasks.dom().contains(b) && u.tasks[a].parent_id
                        == u.tasks[b].parent_id && u.tasks[a].display_order
                        == u.tasks[b].display_order implies a == b by {
                    assert(t.tasks.dom().contains(a) && t.tasks.dom().contains(b));
                    assert(t.tasks.dom().contains(id) && t.tasks.dom().contains(n.id));
                }
            }
        },
        None => {
            assert(u == t);
        },
    }
}

/// A move that did something is reverted by the move the other way, where no
/// two siblings of the task share a display order.
pub proof fn moving_back_restores_the_order(t: Tables, id: i64, direction: TaskMove)
    requires
        listable(t),
        t.tasks.dom().contains(id),
        distinct_children(t.tasks, t.tasks[id].parent_id),
        tables::run(t, plans::move_task(t, id, direction)->Ok_0.0) != t,
    ensures
        ({
            let u = tables::run(t, plans::move_task(t, id, direction)->Ok_0.0);
            &&& plans::move_task(u, id, opposite(direction)) is Ok
            &&& tables::run(u, plans::move_task(u, id, opposite(direction))->Ok_0.0) == t
        }),
{
    lemma_neighbour(t, id, direction);
    lemma_swap(t, id, direction);
    let u = tables::run(t, plans::move_task(t, id, direction)->Ok_0.0);
    if neighbour(t, id, direction) is None {
        assert(u == t);
    }
    let n = neighbour(t, id, direction)->Some_0;
    assert(u.tasks.dom() =~= t.tasks.dom());
    assert forall|x: i64| #[trigger] u.tasks.dom().contains(x) implies u.tasks[x].id == x by {
        assert(t.tasks.dom().contains(x));
    }
    let back = opposite(direction);
    lemma_neighbour(u, id, back);
    lemma_swap(u, id, back);
    assert(t.tasks.dom().contains(n.id));
    assert(u.tasks.dom().contains(n.id));
    assert(beyond(u, id, n.id, back));
    let m = neighbour(u, id, back)->Some_0;
    if m.id != n.id {
        // Between the two there was nothing before the swap.
        assert(t.tasks.dom().contains(m.id));
        assert(t.tasks[m.id] == m);
        assert(!beyond(u, n.id, m.id, direction) || beyond(t, id, m.id, direction));
        assert(false);
    }
    let w = tables::run(u, plans::move_task(u, id, back)->Ok_0.0);
    assert(w.tasks =~= t.tasks);
    assert(w.statuses == t.statuses);
}

/// Two rows that differ in their display order at most.
pub open spec fn same_but_order(a: TaskV, b: TaskV) -> bool {
    &&& a.id == b.id
    &&& a.parent_id == b.parent_id
    &&& a.title == b.title
    &&& a.status_id == b.status_id
    &&& a.due == b.due
    &&& a.note == b.note
    &&& a.created_at == b.created_at
    &&& a.updated_at == b.updated_at
}

/// The order comes right behind all the children of this parent, one task
/// left aside: one above the highest, or 0 where there are none.
pub open spec fn is_tail(m: Map<i64, TaskV>, parent: Option<i64>, aside: Option<i64>, order: i64) -> bool {
    &&& forall|x: i64| #[trigger]
        m.dom().contains(x) && m[x].parent_id == parent && Some(x) != aside
            ==> m[x].display_order < order
    &&& order == 0 || exists|x: i64| #[trigger]
        m.dom().contains(x) && m[x].parent_id == parent && Some(x) != aside && m[x].display_order
            + 1 == order
    &&& (exists|x: i64| #[trigger]
        m.dom().contains(x) && m[x].parent_id == parent && Some(x) != aside) ==> exists|x: i64|
     #[trigger]
        m.dom().contains(x) && m[x].parent_id == parent && Some(x) != aside && m[x].display_order
            + 1 == order
}

/// Where a tail order comes from.
proof fn lemma_tail_from(rows: Seq<TaskV>, except: Option<i64>)
    ensures
        (exists|k: int| 0 <= k < rows.len() && Some((#[trigger] rows[k]).id) != except) ==> exists|
            k: int,
        |
            0 <= k < rows.len() && Some((#[trigger] rows[k]).id) != except && plans::tail_order(
                rows,
                except,
            ) == rows[k].display_order + 1,
        !(exists|k: int| 0 <= k < rows.len() && Some((#[trigger] rows[k]).id) != except)
            ==> plans::tail_order(rows, except) == 0,
    decreases rows.len(),
{
    if rows.len() > 0 {
        let front = rows.drop_last();
        lemma_tail_from(front, except);
        assert(rows[rows.len() - 1] == rows.last());
        if Some(rows.last().id) == except {
            assert forall|k: int| 0 <= k < rows.len() && Some((#[trigger] rows[k]).id) != except implies k
                < front.len() && Some(front[k].id) != except by {
            }
            if exists|k: int| 0 <= k < rows.len() && Some((#[trigger] rows[k]).id) != except {
                let k = choose|k: int| 0 <= k < rows.len() && Some((#[trigger] rows[k]).id) != except;
                assert(Some(front[k].id) != except);
                let j = choose|j: int|
                    0 <= j < front.len() && Some((#[trigger] front[j]).id) != except
                        && plans::tail_order(front, except) == front[j].display_order + 1;
                assert(Some(rows[j].id) != except);
            } else {
                assert(forall|k: int|
                    0 <= k < front.len() ==> Some((#[trigger] front[k]).id) == except) by {
                    assert forall|k: int| 0 <= k < front.len() implies Some(
                        (#[trigger] front[k]).id,
                    ) == except by {
                        assert(rows[k] == front[k]);
                    }
                }
            }
        }
    }
}

proof fn lemma_is_tail(t: Tables, parent: Option<i64>, except: Option<i64>)
    requires
        listable(t),
        plans::make_room(plans::children(t.tasks, parent), None, except) is Some,
    ensures
        is_tail(
            t.tasks,
            parent,
            except,
            plans::make_room(plans::children(t.tasks, parent), None, except)->Some_0.1,
        ),
{
    let cs = plans::children(t.tasks, parent);
    let m = t.tasks;
    lemma_children(t, parent);
    lemma_tail(cs, except);
    lemma_tail_from(cs, except);
    let order = plans::make_room(cs, None, except)->Some_0.1;
    assert forall|x: i64| #[trigger]
        m.dom().contains(x) && m[x].parent_id == parent && Some(x) != except implies exists|k: int|
        0 <= k < cs.len() && (#[trigger] cs[k]) == m[x] && cs[k].id == x by {
        assert(cs.contains(m[x]));
        let k = choose|k: int| 0 <= k < cs.len() && cs[k] == m[x];
        assert(cs[k].id == x);
    }
    if exists|k: int| 0 <= k < cs.len() && Some((#[trigger] cs[k]).id) != except {
        let k = choose|k: int|
            0 <= k < cs.len() && Some((#[trigger] cs[k]).id) != except && plans::tail_order(
                cs,
                except,
            ) == cs[k].display_order + 1;
        assert(m.contains_pair(cs[k].id, cs[k]));
        assert(m.dom().contains(cs[k].id) && m[cs[k].id].display_order + 1 == order);
    } else {
        assert(order == 0);
    }
}

/// Creating adds one task with the title, parent and status asked for, no
/// due date and no note, under an id above all others. Given a display order
/// it comes right behind it and what was behind moves on by one; otherwise it
/// becomes the last child. No other row changes. A task or status that it
/// refers to must exist.
pub proof fn creating_adds_one_task(
    d: DbV,
    parent: Option<i64>,
    title: Seq<char>,
    after: Option<i64>,
    status_id: i64,
    now: Seq<char>,
)
    requires
        tables::history_ok(d, false),
        d.tables.tasks.dom().finite(),
    ensures
        ({
            let (e, r) = ops::create_task(d, parent, title, after, status_id, now);
            let t = d.tables;
            let u = e.tables;
            let known = (parent is Some ==> t.tasks.dom().contains(parent->Some_0))
                && t.statuses.dom().contains(status_id);
            let room = (after is Some ==> after->Some_0 < i64::MAX) && forall|x: i64| #[trigger]
                t.tasks.dom().contains(x) && t.tasks[x].parent_id == parent
                    ==> t.tasks[x].display_order < i64::MAX;
            let ids = forall|x: i64| #[trigger] t.tasks.dom().contains(x) ==> x < i64::MAX;
            &&& r is Err ==> e == d
            &&& known && room && ids ==> r is Ok
            &&& !known ==> r is Err
            &&& !known && room ==> r == Err::<TaskV, ErrorV>(ErrorV::Sqlite(StoreError::ForeignKey))
            &&& r matches Ok(row) ==> {
                &&& u.statuses == t.statuses
                &&& forall|x: i64| #[trigger] t.tasks.dom().contains(x) ==> x < row.id
                &&& forall|x: i64| #[trigger]
                    u.tasks.dom().contains(x) <==> t.tasks.dom().contains(x) || x == row.id
                &&& u.tasks[row.id] == row
                &&& row.parent_id == parent
                &&& row.title == title
                &&& row.status_id == status_id
                &&& row.due is None
                &&& row.note.len() == 0
                &&& row.created_at == now
                &&& row.updated_at == now
                &&& forall|x: i64| #[trigger]
                    t.tasks.dom().contains(x) ==> same_but_order(t.tasks[x], u.tasks[x]) && (
                    if t.tasks[x].parent_id == parent && after is Some
                        && t.tasks[x].display_order > after->Some_0 {
                        u.tasks[x].display_order == t.tasks[x].display_order + 1
                    } else {
                        u.tasks[x].display_order == t.tasks[x].display_order
                    })
                &&& after is Some ==> row.display_order == after->Some_0 + 1
                &&& after is None ==> is_tail(t.tasks, parent, None, row.display_order)
                &&& effects::one_step(d, e, "create \""@ + title + "\""@)
            }
        }),
{
    let t = d.tables;
    tables::lemma_chain_sound(t, d.undo, false);
    let cs = plans::children(t.tasks, parent);
    lemma_children(t, parent);
    lemma_tail(cs, None);
    lemma_tail_from(cs, None);
    lemma_fresh(t);
    tables::lemma_rows_exist(t.tasks);
    let all = tables::rows(t.tasks);
    let room = (after is Some ==> after->Some_0 < i64::MAX) && forall|x: i64| #[trigger]
        t.tasks.dom().contains(x) && t.tasks[x].parent_id == parent ==> t.tasks[x].display_order
            < i64::MAX;
    if room {
        assert forall|k: int| 0 <= k < cs.len() implies (#[trigger] cs[k]).display_order
            < i64::MAX by {
            assert(t.tasks.contains_pair(cs[k].id, cs[k]));
            assert(t.tasks.dom().contains(cs[k].id));
        }
        assert(plans::make_room(cs, after, None) is Some);
    }
    let ids = forall|x: i64| #[trigger] t.tasks.dom().contains(x) ==> x < i64::MAX;
    if ids && all.len() > 0 {
        let last = all[all.len() - 1];
        assert(t.tasks.contains_pair(last.id, last));
        assert(t.tasks.dom().contains(last.id));
        assert(plans::next_task_id(t.tasks) == last.id + 1);
    }
    if plans::create(t, parent, title, after, status_id, now) is Ok {
        let (changes, row) = plans::create(t, parent, title, after, status_id, now)->Ok_0;
        a_new_task_lands_in_its_place(t, parent, title, after, status_id, now);
        let u = tables::run(t, changes);
        if after is None {
            lemma_is_tail(t, parent, None);
        }
        lemma_create_runs(t, parent, title, after, status_id, now);
        effects::lemma_one_step(d, "create \""@ + title + "\""@, changes);
    }
}

/// Each shift starts from the row it shifts.
proof fn lemma_shift_runs(t: Tables, rows: Seq<TaskV>, above: i64, by: int, except: Option<i64>)
    requires
        order::unique_ids(rows),
        forall|i: int| 0 <= i < rows.len() ==> t.tasks.contains_pair((#[trigger] rows[i]).id, rows[i]),
    ensures
        tables::runs(t, plans::shift(rows, above, by, except)),
    decreases rows.len(),
{
    if rows.len() > 0 {
        let front = rows.drop_last();
        let row = rows.last();
        assert forall|i: int| 0 <= i < front.len() implies t.tasks.contains_pair(
            (#[trigger] front[i]).id,
            front[i],
        ) by {
            assert(front[i] == rows[i]);
        }
        lemma_shift_runs(t, front, above, by, except);
        lemma_shift(t, front, above, by, except);
        assert(t.tasks.contains_pair(rows[rows.len() - 1].id, rows[rows.len() - 1]));
        if plans::shifts(row, above, except) {
            tables::lemma_run_push(
                t,
                plans::shift(front, above, by, except),
                ChangeV::Task {
                    id: row.id,
                    before: Some(row),
                    after: Some(TaskV { display_order: (row.display_order + by) as i64, ..row }),
                },
            );
            if among(front, row.id) {
                let i = choose|i: int| 0 <= i < front.len() && (#[trigger] front[i]).id == row.id;
                assert(rows[i].id == rows[rows.len() - 1].id);
            }
        }
    }
}

proof fn lemma_room_runs(t: Tables, parent: Option<i64>, after: Option<i64>, except: Option<i64>)
    requires
        listable(t),
        plans::make_room(plans::children(t.tasks, parent), after, except) is Some,
    ensures
        tables::runs(
            t,
            plans::make_room(plans::children(t.tasks, parent), after, except)->Some_0.0,
        ),
{
    let cs = plans::children(t.tasks, parent);
    lemma_children(t, parent);
    if let Some(a) = after {
        lemma_shift_runs(t, cs, a, 1, except);
    }
}

proof fn lemma_create_runs(
    t: Tables,
    parent: Option<i64>,
    title: Seq<char>,
    after: Option<i64>,
    status_id: i64,
    now: Seq<char>,
)
    requires
        listable(t),
        plans::create(t, parent, title, after, status_id, now) is Ok,
    ensures
        tables::runs(t, plans::create(t, parent, title, after, status_id, now)->Ok_0.0),
{
    let (changes, row) = plans::create(t, parent, title, after, status_id, now)->Ok_0;
    let room = plans::make_room(plans::children(t.tasks, parent), after, None)->Some_0.0;
    lemma_room_runs(t, parent, after, None);
    lemma_room(t, parent, after, None);
    lemma_fresh(t);
    tables::lemma_run_push(
        t,
        room,
        ChangeV::Task { id: row.id, before: None, after: Some(row) },
    );
}

/// A row's display order once the gap is closed that a task leaves in its
/// sibling group.
pub open spec fn closed_up(m: Map<i64, TaskV>, id: i64, x: i64) -> int {
    if m[x].parent_id == m[id].parent_id && m[x].display_order > m[id].display_order {
        m[x].display_order - 1
    } else {
        m[x].display_order as int
    }
}

/// Giving a task a new parent moves it there with all that it is, and closes
/// the gap it leaves. Given a display order it comes right behind it and what
/// was behind moves on by one; otherwise it becomes the last child. Nothing
/// can go below itself, and the new parent must exist.
pub proof fn reparenting_moves_one_task(
    d: DbV,
    id: i64,
    new_parent: Option<i64>,
    after: Option<i64>,
    now: Seq<char>,
)
    requires
        tables::history_ok(d, false),
        d.tables.tasks.dom().finite(),
    ensures
        ({
            let (e, r) = ops::reparent(d, id, new_parent, after, now);
            let t = d.tables;
            let u = e.tables;
            let old_row = t.tasks[id];
            let row = u.tasks[id];
            let room = (after is Some ==> after->Some_0 < i64::MAX) && forall|x: i64| #[trigger]
                t.tasks.dom().contains(x) && t.tasks[x].parent_id == new_parent
                    ==> t.tasks[x].display_order < i64::MAX;
            &&& r is Err ==> e == d
            &&& if !t.tasks.dom().contains(id) {
                r == Err::<(), ErrorV>(ErrorV::TaskNotFound(id))
            } else if new_parent is Some && t.tasks.dom().contains(new_parent->Some_0) && (
            new_parent->Some_0 == id || laws::is_below(t.tasks, new_parent->Some_0, id)) {
                r == Err::<(), ErrorV>(
                    ErrorV::CycleDetected { task: id, new_parent: new_parent->Some_0 },
                )
            } else if new_parent is Some && !t.tasks.dom().contains(new_parent->Some_0) {
                r is Err && (room ==> r == Err::<(), ErrorV>(
                    ErrorV::Sqlite(StoreError::ForeignKey),
                ))
            } else {
                room ==> r is Ok
            }
            &&& r is Ok ==> {
                &&& u.statuses == t.statuses
                &&& forall|x: i64| #[trigger] u.tasks.dom().contains(x) <==> t.tasks.dom().contains(x)
                &&& row.id == id
                &&& row.parent_id == new_parent
                &&& row.title == old_row.title
                &&& row.status_id == old_row.status_id
                &&& row.due == old_row.due
                &&& row.note == old_row.note
                &&& row.created_at == old_row.created_at
                &&& row.updated_at == now
                &&& forall|x: i64| #[trigger]
                    t.tasks.dom().contains(x) && x != id ==> same_but_order(
                        t.tasks[x],
                        u.tasks[x],
                    ) && (if t.tasks[x].parent_id == new_parent && after is Some && closed_up(
                        t.tasks,
                        id,
                        x,
                    ) > after->Some_0 {
                        u.tasks[x].display_order == closed_up(t.tasks, id, x) + 1
                    } else {
                        u.tasks[x].display_order == closed_up(t.tasks, id, x)
                    })
                &&& after is Some ==> row.display_order == after->Some_0 + 1
                &&& after is None ==> is_tail(u.tasks, new_parent, Some(id), row.display_order)
                &&& effects::one_step(d, e, "move \""@ + old_row.title + "\""@)
            }
        }),
{
    let t = d.tables;
    tables::lemma_chain_sound(t, d.undo, false);
    if t.tasks.dom().contains(id) {
        laws::lemma_subtree(t, id);
        let row = t.tasks[id];
        let cs = plans::children(t.tasks, row.parent_id);
        let closed = plans::shift(cs, row.display_order, -1, None);
        lemma_children(t, row.parent_id);
        lemma_shift_runs(t, cs, row.display_order, -1, None);
        lemma_shift_children(t, row.parent_id, row.display_order, -1, None);
        let v = tables::run(t, closed);
        let ds = plans::children(v.tasks, new_parent);
        lemma_children(v, new_parent);
        lemma_tail(ds, Some(id));
        lemma_tail_from(ds, Some(id));
        let room = (after is Some ==> after->Some_0 < i64::MAX) && forall|x: i64| #[trigger]
            t.tasks.dom().contains(x) && t.tasks[x].parent_id == new_parent
                ==> t.tasks[x].display_order < i64::MAX;
        if room {
            assert forall|k: int| 0 <= k < ds.len() implies (#[trigger] ds[k]).display_order
                < i64::MAX by {
                assert(v.tasks.contains_pair(ds[k].id, ds[k]));
                assert(t.tasks.dom().contains(ds[k].id));
            }
            assert(plans::make_room(ds, after, Some(id)) is Some);
        }
        if plans::reparent(t, id, new_parent, after, now) is Ok {
            let (more, order) = plans::make_room(ds, after, Some(id))->Some_0;
            lemma_room(v, new_parent, after, Some(id));
            lemma_room_runs(v, new_parent, after, Some(id));
            let w = tables::run(v, more);
            let moved = TaskV { parent_id: new_parent, display_order: order, updated_at: now, ..row };
            tables::lemma_run_concat(t, closed, more);
            tables::lemma_run_push(
                t,
                closed + more,
                ChangeV::Task { id, before: Some(row), after: Some(moved) },
            );
            let changes = plans::reparent(t, id, new_parent, after, now)->Ok_0.0;
            let u = tables::run(t, changes);
            assert(u.tasks == w.tasks.insert(id, moved));
            assert(v.tasks[id] == row);
            assert(w.tasks[id] == row) by {
                assert(v.tasks.dom().contains(id));
            }
            assert(tables::runs(t, changes));
            effects::lemma_one_step(d, "move \""@ + row.title + "\""@, changes);
            assert forall|x: i64| #[trigger] t.tasks.dom().contains(x) && x != id implies w.tasks[x]
                == u.tasks[x] && same_but_order(t.tasks[x], u.tasks[x]) && (
            if t.tasks[x].parent_id == new_parent && after is Some && closed_up(t.tasks, id, x)
                > after->Some_0 {
                u.tasks[x].display_order == closed_up(t.tasks, id, x) + 1
            } else {
                u.tasks[x].display_order == closed_up(t.tasks, id, x)
            }) by {
                assert(v.tasks.dom().contains(x));
            }
            if after is None {
                lemma_is_tail(v, new_parent, Some(id));
                assert(w == v);
                lemma_tail_carries(v.tasks, u.tasks, new_parent, id, order);
            }
        }
    }
}

/// The place behind the others does not depend on the task left aside.
proof fn lemma_tail_carries(
    m: Map<i64, TaskV>,
    n: Map<i64, TaskV>,
    parent: Option<i64>,
    id: i64,
    order: i64,
)
    requires
        m.dom().contains(id),
        n == m.insert(id, n[id]),
        is_tail(m, parent, Some(id), order),
    ensures
        is_tail(n, parent, Some(id), order),
{
    assert forall|x: i64| #[trigger] n.dom().contains(x) <==> m.dom().contains(x) by {
    }
    if exists|x: i64| #[trigger]
        m.dom().contains(x) && m[x].parent_id == parent && Some(x) != Some(id) && m[x].display_order
            + 1 == order {
        let x = choose|x: i64| #[trigger]
            m.dom().contains(x) && m[x].parent_id == parent && Some(x) != Some(id)
                && m[x].display_order + 1 == order;
        assert(n.dom().contains(x));
    }
    if exists|x: i64| #[trigger]
        n.dom().contains(x) && n[x].parent_id == parent && Some(x) != Some(id) {
        let x = choose|x: i64| #[trigger]
            n.dom().contains(x) && n[x].parent_id == parent && Some(x) != Some(id);
        assert(m.dom().contains(x));
    }
}

/// Moving a task changes places with the nearest sibling in that direction,
/// and with no other row; at the end of its group nothing changes. Only an
/// unknown task is refused.
pub proof fn moving_changes_places_with_the_next(d: DbV, id: i64, direction: TaskMove)
    requires
        tables::history_ok(d, false),
        d.tables.tasks.dom().finite(),
    ensures
        ({
            let (e, r) = ops::move_task(d, id, direction);
            let t = d.tables;
            let u = e.tables;
            if !t.tasks.dom().contains(id) {
                e == d && r == Err::<(), ErrorV>(ErrorV::TaskNotFound(id))
            } else if forall|x: i64| #[trigger]
                t.tasks.dom().contains(x) && t.tasks[x].parent_id == t.tasks[id].parent_id ==> (
                match direction {
                    TaskMove::Down => t.tasks[x].display_order <= t.tasks[id].display_order,
                    TaskMove::Up => t.tasks[x].display_order >= t.tasks[id].display_order,
                }) {
                e == d && r is Ok
            } else {
                &&& r is Ok
                &&& u.statuses == t.statuses
                &&& forall|x: i64| #[trigger] u.tasks.dom().contains(x) <==> t.tasks.dom().contains(x)
                &&& effects::one_step(d, e, "move \""@ + t.tasks[id].title + "\""@)
                &&& exists|n: i64|
                    {
                        &&& #[trigger] t.tasks.dom().contains(n)
                        &&& t.tasks[n].parent_id == t.tasks[id].parent_id
                        &&& match direction {
                            TaskMove::Down => t.tasks[n].display_order > t.tasks[id].display_order,
                            TaskMove::Up => t.tasks[n].display_order < t.tasks[id].display_order,
                        }
                        &&& forall|x: i64| #[trigger]
                            t.tasks.dom().contains(x) && t.tasks[x].parent_id
                                == t.tasks[id].parent_id ==> !(match direction {
                                TaskMove::Down => t.tasks[id].display_order
                                    < t.tasks[x].display_order < t.tasks[n].display_order,
                                TaskMove::Up => t.tasks[n].display_order < t.tasks[x].display_order
                                    < t.tasks[id].display_order,
                            })
                        &&& same_but_order(t.tasks[id], u.tasks[id])
                        &&& same_but_order(t.tasks[n], u.tasks[n])
                        &&& u.tasks[id].display_order == t.tasks[n].display_order
                        &&& u.tasks[n].display_order == t.tasks[id].display_order
                        &&& forall|x: i64| #[trigger]
                            t.tasks.dom().contains(x) && x != id && x != n ==> u.tasks[x]
                                == t.tasks[x]
                    }
            }
        }),
{
    let t = d.tables;
    tables::lemma_chain_sound(t, d.undo, false);
    if t.tasks.dom().contains(id) {
        lemma_neighbour(t, id, direction);
        lemma_swap(t, id, direction);
        let (e, r) = ops::move_task(d, id, direction);
        match neighbour(t, id, direction) {
            Some(n) => {
                let row = t.tasks[id];
                let a = plans::edit(t, TaskV { display_order: n.display_order, ..row });
                let b = plans::edit(t, TaskV { display_order: row.display_order, ..n });
                let changes = plans::move_task(t, id, direction)->Ok_0.0;
                assert(changes =~= seq![a].push(b));
                tables::lemma_run_one(t, a);
                tables::lemma_run_push(t, seq![a], b);
                effects::lemma_one_step(d, "move \""@ + row.title + "\""@, changes);
                assert(t.tasks.dom().contains(n.id));
                let u = e.tables;
                assert(u == tables::run(t, changes));
                assert(t.tasks[n.id] == n);
            },
            None => {
                assert(e == d);
            },
        }
    }
}

/// The children of a task, or the tasks without a parent, are listed each
/// once, exactly those that name it as their parent, by display order.
pub proof fn children_are_listed_by_display_order(t: Tables, parent: Option<i64>)
    requires
        listable(t),
    ensures
        ({
            let cs = plans::children(t.tasks, parent);
            &&& forall|k: int|
                0 <= k < cs.len() ==> t.tasks.dom().contains((#[trigger] cs[k]).id)
                    && t.tasks[cs[k].id] == cs[k] && cs[k].parent_id == parent
            &&& forall|id: i64| #[trigger]
                t.tasks.dom().contains(id) && t.tasks[id].parent_id == parent ==> exists|k: int|
                    0 <= k < cs.len() && #[trigger] cs[k] == t.tasks[id]
            &&& forall|j: int, k: int|
                0 <= j < k < cs.len() ==> (#[trigger] cs[j]).id != (#[trigger] cs[k]).id
                    && cs[j].display_order <= cs[k].display_order
        }),
{
    lemma_children(t, parent);
    let cs = plans::children(t.tasks, parent);
    assert forall|id: i64| #[trigger]
        t.tasks.dom().contains(id) && t.tasks[id].parent_id == parent implies exists|k: int|
        0 <= k < cs.len() && #[trigger] cs[k] == t.tasks[id] by {
        assert(cs.contains(t.tasks[id]));
    }
}

} // verus!

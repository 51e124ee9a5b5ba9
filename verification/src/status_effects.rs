//! What each action on the statuses comes to, told from the rows before and
//! after it.
use vstd::prelude::*;

use crate::effects;
use crate::error::{ErrorV, StoreError};
use crate::ops;
use crate::order;
use crate::plans;
use crate::status::{StatusKind, StatusMove, StatusV};
use crate::tables;
use crate::tables::{ChangeV, DbV, Tables};
use crate::task::TaskV;

verus! {

/// Every row but this status's is as it was, and no row came or went.
pub open spec fn only_status(t: Tables, u: Tables, id: i64) -> bool {
    &&& u.tasks == t.tasks
    &&& forall|x: i64| #[trigger] u.statuses.dom().contains(x) <==> t.statuses.dom().contains(x)
    &&& forall|x: i64| #[trigger]
        u.statuses.dom().contains(x) && x != id ==> u.statuses[x] == t.statuses[x]
}

/// Two statuses that differ in their display order at most.
pub open spec fn same_but_place(a: StatusV, b: StatusV) -> bool {
    &&& a.id == b.id
    &&& a.label == b.label
    &&& a.kind == b.kind
    &&& a.color == b.color
    &&& a.key == b.key
    &&& a.is_default == b.is_default
}

/// A finite table of statuses, each under its own id.
spec fn tabled(m: Map<i64, StatusV>) -> bool {
    m.dom().finite() && forall|id: i64| #[trigger] m.dom().contains(id) ==> m[id].id == id
}

proof fn lemma_status_rows(m: Map<i64, StatusV>)
    requires
        tabled(m),
    ensures
        tables::is_status_rows(tables::status_rows(m), m),
        order::unique_status_ids(tables::status_rows(m)),
        tables::status_rows(m).len() == m.dom().len(),
    decreases m.dom().len(),
{
    let s = if m.dom().len() == 0 {
        assert(m.dom() =~= Set::<i64>::empty());
        let s = Seq::<StatusV>::empty();
        assert(tables::is_status_rows(s, m));
        s
    } else {
        let x = m.dom().choose();
        let less = m.remove(x);
        assert(less.dom() =~= m.dom().remove(x));
        assert forall|id: i64| #[trigger] less.dom().contains(id) implies less[id].id == id by {
            assert(m.dom().contains(id));
        }
        lemma_status_rows(less);
        let front = tables::status_rows(less);
        let all = front.push(m[x]);
        let before = tables::id_order();
        assert forall|i: int, j: int| 0 <= i < j < all.len() implies before(
            #[trigger] all[i],
            #[trigger] all[j],
        ) || before(all[j], all[i]) by {
            assert(less.contains_pair(front[i].id, front[i]));
            if j < front.len() {
                assert(before(front[i], front[j]));
            }
        }
        let s = order::lemma_can_be_sorted(all, before);
        assert forall|i: int| 0 <= i < s.len() implies m.contains_pair(s[i].id, #[trigger] s[i]) by {
            assert(all.contains(s[i]));
            let k = choose|k: int| 0 <= k < all.len() && all[k] == s[i];
            if k < front.len() {
                assert(less.contains_pair(front[k].id, front[k]));
            }
        }
        assert forall|id: i64| #[trigger] m.dom().contains(id) implies m[id].id == id && s.contains(
            m[id],
        ) by {
            if id == x {
                assert(all[front.len() as int] == m[x]);
                assert(s.contains(all[front.len() as int]));
            } else {
                assert(less.dom().contains(id));
                assert(front.contains(less[id]));
                let k = choose|k: int| 0 <= k < front.len() && front[k] == less[id];
                assert(all[k] == m[id]);
                assert(s.contains(all[k]));
            }
        }
        assert(tables::is_status_rows(s, m));
        assert(s.len() == m.dom().len());
        s
    };
    tables::lemma_status_rows_unique(s, m);
}

/// Every status is listed once, by display order and then by id.
pub proof fn statuses_are_listed_in_their_order(m: Map<i64, StatusV>)
    requires
        m.dom().finite(),
        forall|id: i64| #[trigger] m.dom().contains(id) ==> m[id].id == id,
    ensures
        ({
            let listed = plans::statuses(m);
            &&& forall|id: i64| #[trigger]
                m.dom().contains(id) ==> exists|k: int|
                    0 <= k < listed.len() && #[trigger] listed[k] == m[id]
            &&& forall|k: int|
                0 <= k < listed.len() ==> m.dom().contains((#[trigger] listed[k]).id)
                    && m[listed[k].id] == listed[k]
            &&& forall|j: int, k: int|
                0 <= j < k < listed.len() ==> {
                    ||| (#[trigger] listed[j]).display_order < (#[trigger] listed[k]).display_order
                    ||| listed[j].display_order == listed[k].display_order && listed[j].id
                        < listed[k].id
                }
        }),
{
    lemma_status_rows(m);
    let rows = tables::status_rows(m);
    let before = order::status_order();
    assert forall|i: int, j: int| 0 <= i < j < rows.len() implies before(
        #[trigger] rows[i],
        #[trigger] rows[j],
    ) || before(rows[j], rows[i]) by {
        assert(tables::id_order()(rows[i], rows[j]));
    }
    let s = order::lemma_can_be_sorted(rows, before);
    order::lemma_status_listing_unique(s, rows);
    let listed = plans::statuses(m);
    assert(listed == s);
    assert forall|id: i64| #[trigger] m.dom().contains(id) implies exists|k: int|
        0 <= k < listed.len() && #[trigger] listed[k] == m[id] by {
        assert(rows.contains(m[id]));
        let i = choose|i: int| 0 <= i < rows.len() && rows[i] == m[id];
        assert(listed.contains(rows[i]));
    }
    assert forall|k: int| 0 <= k < listed.len() implies m.dom().contains((#[trigger] listed[k]).id)
        && m[listed[k].id] == listed[k] by {
        assert(rows.contains(listed[k]));
        let i = choose|i: int| 0 <= i < rows.len() && rows[i] == listed[k];
        assert(m.contains_pair(rows[i].id, rows[i]));
    }
    assert forall|j: int, k: int| 0 <= j < k < listed.len() implies {
        ||| (#[trigger] listed[j]).display_order < (#[trigger] listed[k]).display_order
        ||| listed[j].display_order == listed[k].display_order && listed[j].id < listed[k].id
    } by {
        assert(before(listed[j], listed[k]));
    }
}

proof fn lemma_edit_status(d: DbV, description: Seq<char>, row: StatusV)
    requires
        tables::history_ok(d, false),
        d.tables.statuses.dom().contains(row.id),
    ensures
        ({
            let e = tables::committed(d, description, seq![plans::edit_status(d.tables, row)]);
            &&& only_status(d.tables, e.tables, row.id)
            &&& e.tables.statuses[row.id] == row
            &&& effects::one_step(d, e, description)
        }),
{
    let c = plans::edit_status(d.tables, row);
    tables::lemma_run_one(d.tables, c);
    effects::lemma_one_step(d, description, seq![c]);
}

/// Relabelling changes a status's label alone.
pub proof fn relabelling_changes_the_label_alone(d: DbV, id: i64, label: Seq<char>)
    requires
        tables::history_ok(d, false),
    ensures
        ({
            let (e, r) = ops::update_status_label(d, id, label);
            let old_row = d.tables.statuses[id];
            let row = e.tables.statuses[id];
            if d.tables.statuses.dom().contains(id) {
                &&& r is Ok
                &&& only_status(d.tables, e.tables, id)
                &&& row.id == id
                &&& row.label == label
                &&& row.kind == old_row.kind
                &&& row.color == old_row.color
                &&& row.key == old_row.key
                &&& row.display_order == old_row.display_order
                &&& row.is_default == old_row.is_default
                &&& effects::one_step(
                    d,
                    e,
                    "rename status \""@ + old_row.label + "\" → \""@ + label + "\""@,
                )
            } else {
                e == d && r == Err::<(), ErrorV>(ErrorV::StatusNotFound(id))
            }
        }),
{
    if d.tables.statuses.dom().contains(id) {
        let row = d.tables.statuses[id];
        lemma_edit_status(
            d,
            "rename status \""@ + row.label + "\" → \""@ + label + "\""@,
            StatusV { label, ..row },
        );
    }
}

/// Changing the kind of a status changes that alone.
pub proof fn a_kind_change_changes_the_kind_alone(d: DbV, id: i64, kind: StatusKind)
    requires
        tables::history_ok(d, false),
    ensures
        ({
            let (e, r) = ops::update_status_kind(d, id, kind);
            let old_row = d.tables.statuses[id];
            let row = e.tables.statuses[id];
            if d.tables.statuses.dom().contains(id) {
                &&& r is Ok
                &&& only_status(d.tables, e.tables, id)
                &&& row.id == id
                &&& row.kind == kind
                &&& row.label == old_row.label
                &&& row.color == old_row.color
                &&& row.key == old_row.key
                &&& row.display_order == old_row.display_order
                &&& row.is_default == old_row.is_default
                &&& effects::one_step(d, e, "update status \""@ + old_row.label + "\""@)
            } else {
                e == d && r == Err::<(), ErrorV>(ErrorV::StatusNotFound(id))
            }
        }),
{
    if d.tables.statuses.dom().contains(id) {
        let row = d.tables.statuses[id];
        lemma_edit_status(d, "update status \""@ + row.label + "\""@, StatusV { kind, ..row });
    }
}

/// Changing the color of a status changes that alone.
pub proof fn a_color_change_changes_the_color_alone(d: DbV, id: i64, color: Seq<char>)
    requires
        tables::history_ok(d, false),
    ensures
        ({
            let (e, r) = ops::update_status_color(d, id, color);
            let old_row = d.tables.statuses[id];
            let row = e.tables.statuses[id];
            if d.tables.statuses.dom().contains(id) {
                &&& r is Ok
                &&& only_status(d.tables, e.tables, id)
                &&& row.id == id
                &&& row.color == color
                &&& row.label == old_row.label
                &&& row.kind == old_row.kind
                &&& row.key == old_row.key
                &&& row.display_order == old_row.display_order
                &&& row.is_default == old_row.is_default
                &&& effects::one_step(d, e, "update status \""@ + old_row.label + "\""@)
            } else {
                e == d && r == Err::<(), ErrorV>(ErrorV::StatusNotFound(id))
            }
        }),
{
    if d.tables.statuses.dom().contains(id) {
        let row = d.tables.statuses[id];
        lemma_edit_status(d, "update status \""@ + row.label + "\""@, StatusV { color, ..row });
    }
}

/// Changing the key of a status changes that alone.
pub proof fn a_key_change_changes_the_key_alone(d: DbV, id: i64, key: char)
    requires
        tables::history_ok(d, false),
    ensures
        ({
            let (e, r) = ops::update_status_key(d, id, key);
            let old_row = d.tables.statuses[id];
            let row = e.tables.statuses[id];
            if d.tables.statuses.dom().contains(id) {
                &&& r is Ok
                &&& only_status(d.tables, e.tables, id)
                &&& row.id == id
                &&& row.key == key
                &&& row.label == old_row.label
                &&& row.kind == old_row.kind
                &&& row.color == old_row.color
                &&& row.display_order == old_row.display_order
                &&& row.is_default == old_row.is_default
                &&& effects::one_step(d, e, "update status \""@ + old_row.label + "\""@)
            } else {
                e == d && r == Err::<(), ErrorV>(ErrorV::StatusNotFound(id))
            }
        }),
{
    if d.tables.statuses.dom().contains(id) {
        let row = d.tables.statuses[id];
        lemma_edit_status(d, "update status \""@ + row.label + "\""@, StatusV { key, ..row });
    }
}

/// A new status has what was asked for, comes behind all others, and is not
/// the default. No other row changes.
pub proof fn creating_a_status_appends_it(
    d: DbV,
    label: Seq<char>,
    kind: StatusKind,
    color: Seq<char>,
    key: char,
)
    requires
        tables::history_ok(d, false),
        d.tables.statuses.dom().finite(),
    ensures
        ({
            let (e, r) = ops::create_status(d, label, kind, color, key);
            let m = d.tables.statuses;
            let n = e.tables.statuses;
            let room = forall|x: i64| #[trigger]
                m.dom().contains(x) ==> x < i64::MAX && m[x].display_order < i64::MAX;
            &&& r is Err ==> e == d
            &&& room ==> r is Ok
            &&& r matches Ok(row) ==> {
                &&& e.tables.tasks == d.tables.tasks
                &&& n[row.id] == row
                &&& row.label == label
                &&& row.kind == kind
                &&& row.color == color
                &&& row.key == key
                &&& !row.is_default
                &&& forall|x: i64| #[trigger]
                    m.dom().contains(x) ==> x < row.id && m[x].display_order < row.display_order
                        && n[x] == m[x]
                &&& forall|x: i64| #[trigger]
                    n.dom().contains(x) <==> m.dom().contains(x) || x == row.id
                &&& effects::one_step(d, e, "create status \""@ + label + "\""@)
            }
        }),
{
    let m = d.tables.statuses;
    tables::lemma_chain_sound(d.tables, d.undo, false);
    lemma_status_rows(m);
    statuses_are_listed_in_their_order(m);
    let rows = tables::status_rows(m);
    let ids = rows.map_values(|s: StatusV| s.id);
    let listed = plans::statuses(m);
    assert forall|x: i64| #[trigger] m.dom().contains(x) implies x < plans::next_status_id(m)
        && m[x].display_order < plans::status_tail(listed) by {
        assert(rows.contains(m[x]));
        let i = choose|i: int| 0 <= i < rows.len() && rows[i] == m[x];
        assert(ids.last() == rows[rows.len() - 1].id);
        if i < rows.len() - 1 {
            assert(tables::id_order()(rows[i], rows[rows.len() - 1]));
        }
        let k = choose|k: int| 0 <= k < listed.len() && #[trigger] listed[k] == m[x];
        assert(listed[listed.len() - 1] == listed.last());
    }
    if listed.len() > 0 {
        assert(m.dom().contains(listed[listed.len() - 1].id));
    }
    if rows.len() > 0 {
        assert(m.contains_pair(rows[rows.len() - 1].id, rows[rows.len() - 1]));
        assert(m.dom().contains(rows[rows.len() - 1].id));
        assert(ids.last() == rows[rows.len() - 1].id);
    }
    let (e, r) = ops::create_status(d, label, kind, color, key);
    if let Ok(row) = r {
        let c = ChangeV::Status { id: row.id, before: None, after: Some(row) };
        tables::lemma_run_one(d.tables, c);
        assert(!m.dom().contains(row.id));
        effects::lemma_one_step(d, "create status \""@ + label + "\""@, seq![c]);
    }
}

/// How many tasks carry the status.
proof fn lemma_users(m: Map<i64, TaskV>, status_id: i64)
    requires
        m.dom().finite(),
        forall|id: i64| #[trigger] m.dom().contains(id) ==> m[id].id == id,
    ensures
        plans::users(tables::rows(m), status_id) == m.dom().filter(
            |x: i64| m[x].status_id == status_id,
        ).len(),
{
    tables::lemma_rows_exist(m);
    let rows = tables::rows(m);
    let all = m.dom().filter(|x: i64| m[x].status_id == status_id);
    lemma_users_of(rows, m, status_id, rows.len() as int);
    assert(rows.take(rows.len() as int) =~= rows);
    let ids = Set::new(|x: i64| carries(rows, x, status_id, rows.len() as int));
    assert(ids =~= all) by {
        assert forall|x: i64| ids.contains(x) <==> all.contains(x) by {
            if m.dom().contains(x) {
                assert(rows.contains(m[x]));
                let i = choose|i: int| 0 <= i < rows.len() && rows[i] == m[x];
                assert(rows[i].id == x);
            }
            if carries(rows, x, status_id, rows.len() as int) {
                let i = choose|i: int|
                    0 <= i < rows.len() && (#[trigger] rows[i]).id == x && rows[i].status_id
                        == status_id;
                assert(m.contains_pair(rows[i].id, rows[i]));
            }
        }
    }
}

/// One of the first `n` rows is the given task, and carries the status.
spec fn carries(rows: Seq<TaskV>, x: i64, status_id: i64, n: int) -> bool {
    exists|i: int| 0 <= i < n && (#[trigger] rows[i]).id == x && rows[i].status_id == status_id
}

proof fn lemma_users_of(rows: Seq<TaskV>, m: Map<i64, TaskV>, status_id: i64, n: int)
    requires
        order::unique_ids(rows),
        0 <= n <= rows.len(),
    ensures
        Set::new(|x: i64| carries(rows, x, status_id, n)).finite(),
        plans::users(rows.take(n), status_id) == Set::new(
            |x: i64| carries(rows, x, status_id, n),
        ).len(),
    decreases n,
{
    let now = Set::new(|x: i64| carries(rows, x, status_id, n));
    if n == 0 {
        assert(now =~= Set::<i64>::empty());
    } else {
        lemma_users_of(rows, m, status_id, n - 1);
        let before = Set::new(|x: i64| carries(rows, x, status_id, n - 1));
        let row = rows[n - 1];
        assert(rows.take(n).drop_last() =~= rows.take(n - 1));
        assert(!before.contains(row.id)) by {
            if carries(rows, row.id, status_id, n - 1) {
                let i = choose|i: int|
                    0 <= i < n - 1 && (#[trigger] rows[i]).id == row.id && rows[i].status_id
                        == status_id;
                assert(rows[i].id == rows[n - 1].id);
            }
        }
        if row.status_id == status_id {
            assert(now =~= before.insert(row.id)) by {
                assert forall|x: i64| now.contains(x) <==> before.insert(row.id).contains(x) by {
                    if now.contains(x) {
                        let i = choose|i: int|
                            0 <= i < n && (#[trigger] rows[i]).id == x && rows[i].status_id
                                == status_id;
                    }
                }
            }
        } else {
            assert(now =~= before) by {
                assert forall|x: i64| now.contains(x) <==> before.contains(x) by {
                    if now.contains(x) {
                        let i = choose|i: int|
                            0 <= i < n && (#[trigger] rows[i]).id == x && rows[i].status_id
                                == status_id;
                        assert(i < n - 1);
                    }
                }
            }
        }
    }
}

/// A status goes only where no task carries it, it is not the last one and
/// not the default; then it alone goes. In that order the reasons are given,
/// the first with the number of tasks.
pub proof fn deleting_a_status_takes_an_unused_one(d: DbV, id: i64)
    requires
        tables::history_ok(d, false),
        d.tables.tasks.dom().finite(),
        d.tables.tasks.dom().len() <= i64::MAX,
        d.tables.statuses.dom().finite(),
    ensures
        ({
            let (e, r) = ops::delete_status(d, id);
            let t = d.tables;
            let u = e.tables;
            let carriers = t.tasks.dom().filter(|x: i64| t.tasks[x].status_id == id);
            &&& r is Err ==> e == d
            &&& if !t.statuses.dom().contains(id) {
                r == Err::<(), ErrorV>(ErrorV::StatusNotFound(id))
            } else if carriers.len() > 0 {
                r is Err && r->Err_0 is StatusInUse && r->Err_0->StatusInUse_count
                    == carriers.len()
            } else if t.statuses.dom().len() == 1 {
                r == Err::<(), ErrorV>(ErrorV::CannotDeleteLastStatus)
            } else if t.statuses[id].is_default {
                r == Err::<(), ErrorV>(ErrorV::CannotDeleteDefaultStatus)
            } else {
                &&& r is Ok
                &&& u.tasks == t.tasks
                &&& forall|x: i64| #[trigger]
                    u.statuses.dom().contains(x) <==> t.statuses.dom().contains(x) && x != id
                &&& forall|x: i64| #[trigger]
                    u.statuses.dom().contains(x) ==> u.statuses[x] == t.statuses[x]
                &&& effects::one_step(
                    d,
                    e,
                    "delete status \""@ + t.statuses[id].label + "\""@,
                )
            }
        }),
{
    let t = d.tables;
    tables::lemma_chain_sound(t, d.undo, false);
    lemma_users(t.tasks, id);
    lemma_status_rows(t.statuses);
    let carriers = t.tasks.dom().filter(|x: i64| t.tasks[x].status_id == id);
    vstd::set_lib::lemma_len_subset(carriers, t.tasks.dom());
    if t.statuses.dom().contains(id) {
        assert(t.statuses.dom().len() > 0) by {
            if t.statuses.dom().len() == 0 {
                assert(t.statuses.dom() =~= Set::<i64>::empty());
            }
        }
        let c = ChangeV::Status { id, before: Some(t.statuses[id]), after: None };
        tables::lemma_run_one(t, c);
        effects::lemma_one_step(
            d,
            "delete status \""@ + t.statuses[id].label + "\""@,
            seq![c],
        );
    }
}

proof fn lemma_next_status(rows: Seq<StatusV>, order: i64)
    requires
        forall|j: int, k: int|
            0 <= j < k < rows.len() ==> (#[trigger] rows[j]).display_order <= (
            #[trigger] rows[k]).display_order,
    ensures
        plans::next_status(rows, order) matches Some(n) ==> rows.contains(n) && n.display_order
            > order && forall|k: int|
            0 <= k < rows.len() && (#[trigger] rows[k]).display_order > order
                ==> n.display_order <= rows[k].display_order,
        plans::next_status(rows, order) is None ==> forall|k: int|
            0 <= k < rows.len() ==> (#[trigger] rows[k]).display_order <= order,
    decreases rows.len(),
{
    if rows.len() > 0 {
        let rest = rows.drop_first();
        if rows[0].display_order <= order {
            assert forall|j: int, k: int| 0 <= j < k < rest.len() implies (
            #[trigger] rest[j]).display_order <= (#[trigger] rest[k]).display_order by {
                assert(rest[j] == rows[j + 1] && rest[k] == rows[k + 1]);
            }
            lemma_next_status(rest, order);
            if let Some(n) = plans::next_status(rows, order) {
                let q = choose|q: int| 0 <= q < rest.len() && rest[q] == n;
                assert(rows[q + 1] == n);
            }
            assert forall|k: int| 0 < k < rows.len() implies #[trigger] rows[k] == rest[k - 1] by {
            }
        } else {
            assert(rows.contains(rows[0]));
        }
    }
}

proof fn lemma_previous_status(rows: Seq<StatusV>, order: i64)
    requires
        forall|j: int, k: int|
            0 <= j < k < rows.len() ==> (#[trigger] rows[j]).display_order <= (
            #[trigger] rows[k]).display_order,
    ensures
        plans::previous_status(rows, order) matches Some(n) ==> rows.contains(n) && n.display_order
            < order && forall|k: int|
            0 <= k < rows.len() && (#[trigger] rows[k]).display_order < order
                ==> rows[k].display_order <= n.display_order,
        plans::previous_status(rows, order) is None ==> forall|k: int|
            0 <= k < rows.len() ==> (#[trigger] rows[k]).display_order >= order,
    decreases rows.len(),
{
    if rows.len() > 0 {
        let front = rows.drop_last();
        if rows.last().display_order >= order {
            assert forall|j: int, k: int| 0 <= j < k < front.len() implies (
            #[trigger] front[j]).display_order <= (#[trigger] front[k]).display_order by {
                assert(front[j] == rows[j] && front[k] == rows[k]);
            }
            lemma_previous_status(front, order);
            if let Some(n) = plans::previous_status(rows, order) {
                let q = choose|q: int| 0 <= q < front.len() && front[q] == n;
                assert(rows[q] == n);
            }
            assert forall|k: int| 0 <= k < rows.len() - 1 implies #[trigger] rows[k] == front[k] by {
            }
        } else {
            assert(rows.contains(rows[rows.len() - 1]));
        }
    }
}

/// Moving a status changes places with the nearest one in that direction,
/// and with no other row; at the end of the list nothing changes.
pub proof fn moving_a_status_changes_places_with_the_next(d: DbV, id: i64, direction: StatusMove)
    requires
        tables::history_ok(d, false),
        d.tables.statuses.dom().finite(),
    ensures
        ({
            let (e, r) = ops::move_status(d, id, direction);
            let m = d.tables.statuses;
            let n = e.tables.statuses;
            if !m.dom().contains(id) {
                e == d && r == Err::<(), ErrorV>(ErrorV::StatusNotFound(id))
            } else if forall|x: i64| #[trigger]
                m.dom().contains(x) ==> (match direction {
                    StatusMove::Down => m[x].display_order <= m[id].display_order,
                    StatusMove::Up => m[x].display_order >= m[id].display_order,
                }) {
                e == d && r is Ok
            } else {
                &&& r is Ok
                &&& e.tables.tasks == d.tables.tasks
                &&& forall|x: i64| #[trigger] n.dom().contains(x) <==> m.dom().contains(x)
                &&& effects::one_step(d, e, "move status \""@ + m[id].label + "\""@)
                &&& exists|o: i64|
                    {
                        &&& #[trigger] m.dom().contains(o)
                        &&& match direction {
                            StatusMove::Down => m[o].display_order > m[id].display_order,
                            StatusMove::Up => m[o].display_order < m[id].display_order,
                        }
                        &&& forall|x: i64| #[trigger]
                            m.dom().contains(x) ==> !(match direction {
                                StatusMove::Down => m[id].display_order < m[x].display_order
                                    < m[o].display_order,
                                StatusMove::Up => m[o].display_order < m[x].display_order
                                    < m[id].display_order,
                            })
                        &&& same_but_place(m[id], n[id])
                        &&& same_but_place(m[o], n[o])
                        &&& n[id].display_order == m[o].display_order
                        &&& n[o].display_order == m[id].display_order
                        &&& forall|x: i64| #[trigger]
                            m.dom().contains(x) && x != id && x != o ==> n[x] == m[x]
                    }
            }
        }),
{
    let t = d.tables;
    let m = t.statuses;
    tables::lemma_chain_sound(t, d.undo, false);
    if m.dom().contains(id) {
        statuses_are_listed_in_their_order(m);
        let listed = plans::statuses(m);
        let row = m[id];
        lemma_next_status(listed, row.display_order);
        lemma_previous_status(listed, row.display_order);
        let other = match direction {
            StatusMove::Down => plans::next_status(listed, row.display_order),
            StatusMove::Up => plans::previous_status(listed, row.display_order),
        };
        let (e, r) = ops::move_status(d, id, direction);
        match other {
            Some(o) => {
                let k = choose|k: int| 0 <= k < listed.len() && listed[k] == o;
                assert(m.dom().contains(listed[k].id));
                let a = plans::edit_status(t, StatusV { display_order: o.display_order, ..row });
                let b = plans::edit_status(t, StatusV { display_order: row.display_order, ..o });
                let changes = plans::move_status(t, id, direction)->Ok_0.0;
                assert(changes =~= seq![a].push(b));
                tables::lemma_run_one(t, a);
                tables::lemma_run_push(t, seq![a], b);
                effects::lemma_one_step(d, "move status \""@ + row.label + "\""@, changes);
                assert(e.tables == tables::run(t, changes));
                assert forall|x: i64| #[trigger] m.dom().contains(x) implies !(match direction {
                    StatusMove::Down => m[id].display_order < m[x].display_order
                        < m[o.id].display_order,
                    StatusMove::Up => m[o.id].display_order < m[x].display_order
                        < m[id].display_order,
                }) by {
                    let j = choose|j: int| 0 <= j < listed.len() && #[trigger] listed[j] == m[x];
                }
            },
            None => {
                assert forall|x: i64| #[trigger] m.dom().contains(x) implies (match direction {
                    StatusMove::Down => m[x].display_order <= m[id].display_order,
                    StatusMove::Up => m[x].display_order >= m[id].display_order,
                }) by {
                    let j = choose|j: int| 0 <= j < listed.len() && #[trigger] listed[j] == m[x];
                }
                assert(e == d);
            },
        }
    }
}

proof fn lemma_flag(t: Tables, rows: Seq<StatusV>, id: i64)
    requires
        order::unique_status_ids(rows),
        forall|i: int|
            0 <= i < rows.len() ==> t.statuses.contains_pair((#[trigger] rows[i]).id, rows[i]),
    ensures
        tables::runs(t, plans::flag_default(rows, id)),
        ({
            let u = tables::run(t, plans::flag_default(rows, id));
            &&& u.tasks == t.tasks
            &&& forall|x: i64| #[trigger] u.statuses.dom().contains(x) <==> t.statuses.dom().contains(x)
            &&& forall|x: i64| #[trigger]
                t.statuses.dom().contains(x) ==> u.statuses[x] == if exists|i: int|
                    0 <= i < rows.len() && (#[trigger] rows[i]).id == x {
                    StatusV { is_default: x == id, ..t.statuses[x] }
                } else {
                    t.statuses[x]
                }
        }),
    decreases rows.len(),
{
    let changes = plans::flag_default(rows, id);
    if rows.len() > 0 {
        let front = rows.drop_last();
        let row = rows[rows.len() - 1];
        assert forall|i: int| 0 <= i < front.len() implies t.statuses.contains_pair(
            (#[trigger] front[i]).id,
            front[i],
        ) by {
            assert(front[i] == rows[i]);
        }
        lemma_flag(t, front, id);
        assert(changes.drop_last() =~= plans::flag_default(front, id));
        assert(t.statuses.contains_pair(row.id, row));
        assert(!exists|i: int| 0 <= i < front.len() && (#[trigger] front[i]).id == row.id) by {
            if exists|i: int| 0 <= i < front.len() && (#[trigger] front[i]).id == row.id {
                let i = choose|i: int| 0 <= i < front.len() && (#[trigger] front[i]).id == row.id;
                assert(rows[i].id == rows[rows.len() - 1].id);
            }
        }
        let u = tables::run(t, changes);
        assert forall|x: i64| #[trigger] t.statuses.dom().contains(x) implies u.statuses[x]
            == if exists|i: int| 0 <= i < rows.len() && (#[trigger] rows[i]).id == x {
            StatusV { is_default: x == id, ..t.statuses[x] }
        } else {
            t.statuses[x]
        } by {
            if x == row.id {
                assert(rows[rows.len() - 1].id == x);
            } else {
                if exists|i: int| 0 <= i < rows.len() && (#[trigger] rows[i]).id == x {
                    let i = choose|i: int| 0 <= i < rows.len() && (#[trigger] rows[i]).id == x;
                    assert(front[i].id == x);
                }
                if exists|i: int| 0 <= i < front.len() && (#[trigger] front[i]).id == x {
                    let i = choose|i: int| 0 <= i < front.len() && (#[trigger] front[i]).id == x;
                    assert(rows[i].id == x);
                }
            }
        }
    }
}

/// Making a status the default makes it the only one and changes nothing
/// else. It is then the one that new tasks get.
pub proof fn one_status_becomes_the_default(d: DbV, id: i64)
    requires
        tables::history_ok(d, false),
        d.tables.statuses.dom().finite(),
    ensures
        ({
            let (e, r) = ops::set_default_status(d, id);
            let m = d.tables.statuses;
            let n = e.tables.statuses;
            if m.dom().contains(id) {
                &&& r is Ok
                &&& e.tables.tasks == d.tables.tasks
                &&& forall|x: i64| #[trigger] n.dom().contains(x) <==> m.dom().contains(x)
                &&& forall|x: i64| #[trigger]
                    n.dom().contains(x) ==> {
                        &&& n[x].is_default == (x == id)
                        &&& n[x].id == m[x].id
                        &&& n[x].label == m[x].label
                        &&& n[x].kind == m[x].kind
                        &&& n[x].color == m[x].color
                        &&& n[x].key == m[x].key
                        &&& n[x].display_order == m[x].display_order
                    }
                &&& plans::default_status(e.tables) == Ok::<i64, ErrorV>(id)
                &&& effects::one_step(d, e, "set default status \""@ + m[id].label + "\""@)
            } else {
                e == d && r == Err::<(), ErrorV>(ErrorV::StatusNotFound(id))
            }
        }),
{
    let t = d.tables;
    let m = t.statuses;
    tables::lemma_chain_sound(t, d.undo, false);
    if m.dom().contains(id) {
        lemma_status_rows(m);
        let rows = tables::status_rows(m);
        let changes = plans::flag_default(rows, id);
        lemma_flag(t, rows, id);
        assert(rows.contains(m[id]));
        effects::lemma_one_step(d, "set default status \""@ + m[id].label + "\""@, changes);
        let e = ops::set_default_status(d, id).0;
        let n = e.tables.statuses;
        assert(e.tables == tables::run(t, changes));
        assert forall|x: i64| #[trigger] m.dom().contains(x) implies exists|i: int|
            0 <= i < rows.len() && (#[trigger] rows[i]).id == x by {
            assert(rows.contains(m[x]));
            let i = choose|i: int| 0 <= i < rows.len() && rows[i] == m[x];
            assert(rows[i].id == x);
        }
        assert(n.dom() =~= m.dom());
        assert(n.dom().contains(id));
        the_default_status_is_the_flagged_one(e.tables, id);
    }
}

proof fn lemma_first_default(rows: Seq<StatusV>)
    ensures
        match plans::first_default(rows) {
            Some(id) => exists|i: int|
                0 <= i < rows.len() && (#[trigger] rows[i]).id == id && rows[i].is_default,
            None => forall|i: int| 0 <= i < rows.len() ==> !(#[trigger] rows[i]).is_default,
        },
    decreases rows.len(),
{
    if rows.len() > 0 {
        if rows[0].is_default {
        } else {
            let rest = rows.drop_first();
            lemma_first_default(rest);
            match plans::first_default(rows) {
                Some(id) => {
                    let i = choose|i: int|
                        0 <= i < rest.len() && (#[trigger] rest[i]).id == id && rest[i].is_default;
                    assert(rows[i + 1] == rest[i]);
                },
                None => {
                    assert forall|i: int| 0 <= i < rows.len() implies !(#[trigger] rows[i]).is_default by {
                        if i > 0 {
                            assert(rows[i] == rest[i - 1]);
                        }
                    }
                },
            }
        }
    }
}

/// Where one status alone is flagged as the default, it is the default;
/// where none is, there is no default to give.
pub proof fn the_default_status_is_the_flagged_one(t: Tables, id: i64)
    requires
        t.statuses.dom().finite(),
        forall|x: i64| #[trigger] t.statuses.dom().contains(x) ==> t.statuses[x].id == x,
    ensures
        t.statuses.dom().contains(id) && (forall|x: i64| #[trigger]
            t.statuses.dom().contains(x) ==> t.statuses[x].is_default == (x == id))
            ==> plans::default_status(t) == Ok::<i64, ErrorV>(id),
        (forall|x: i64| #[trigger] t.statuses.dom().contains(x) ==> !t.statuses[x].is_default)
            ==> plans::default_status(t) == Err::<i64, ErrorV>(ErrorV::Sqlite(StoreError::NoRow)),
{
    let m = t.statuses;
    lemma_status_rows(m);
    let rows = tables::status_rows(m);
    lemma_first_default(rows);
    match plans::first_default(rows) {
        Some(y) => {
            let i = choose|i: int|
                0 <= i < rows.len() && (#[trigger] rows[i]).id == y && rows[i].is_default;
            assert(m.contains_pair(rows[i].id, rows[i]));
            assert(m.dom().contains(y));
        },
        None => {
            if m.dom().contains(id) {
                assert(rows.contains(m[id]));
                let i = choose|i: int| 0 <= i < rows.len() && rows[i] == m[id];
                assert(!rows[i].is_default);
            }
        },
    }
}

} // verus!

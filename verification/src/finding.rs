//! What a search finds and in which order, and what a filter lets through,
//! told from the tasks themselves.
use vstd::prelude::*;

use crate::forest;
use crate::laws;
use crate::order;
use crate::order::Order;
use crate::plans;
use crate::query::{Filter, QueryV, Sort};
use crate::status::{StatusKind, StatusV};
use crate::status_cycle;
use crate::tables;
use crate::tables::Tables;
use crate::task::TaskV;
use crate::text;
use crate::tree;

verus! {

/// The same character, or the same ASCII letter in the other case.
pub open spec fn same_letter(a: char, b: char) -> bool {
    ||| a == b
    ||| 'A' <= a && a <= 'Z' && b as int == a as int + 32
    ||| 'A' <= b && b <= 'Z' && a as int == b as int + 32
}

/// The words stand somewhere in the text, ASCII letters in either case.
pub open spec fn mentions(whole: Seq<char>, words: Seq<char>) -> bool {
    exists|k: int| #[trigger] mentions_at(whole, words, k)
}

pub open spec fn mentions_at(whole: Seq<char>, words: Seq<char>, k: int) -> bool {
    &&& 0 <= k
    &&& k + words.len() <= whole.len()
    &&& forall|j: int|
        #![trigger words[j]]
        0 <= j < words.len() ==> same_letter(whole[k + j], words[j])
}

/// One text comes before another: where they first differ it has the lower
/// character, or it ends there.
pub open spec fn precedes(a: Seq<char>, b: Seq<char>) -> bool {
    exists|k: int| #[trigger] precedes_at(a, b, k)
}

pub open spec fn precedes_at(a: Seq<char>, b: Seq<char>, k: int) -> bool {
    &&& 0 <= k <= a.len()
    &&& k < b.len()
    &&& forall|j: int| 0 <= j < k ==> #[trigger] a[j] == b[j]
    &&& k < a.len() ==> a[k] < b[k]
}

proof fn lemma_same_letter(a: char, b: char)
    ensures
        text::ascii_lower_char(a) == text::ascii_lower_char(b) <==> same_letter(a, b),
{
    if 'A' <= a && a <= 'Z' {
        assert((a as u8 + 32) as char as int == a as int + 32);
    }
    if 'A' <= b && b <= 'Z' {
        assert((b as u8 + 32) as char as int == b as int + 32);
    }
}

pub(crate) proof fn lemma_mentions_at(whole: Seq<char>, words: Seq<char>, k: int)
    ensures
        text::occurs_at(text::ascii_lower(whole), text::ascii_lower(words), k) <==> mentions_at(
            whole,
            words,
            k,
        ),
{
    let a = text::ascii_lower(whole);
    let b = text::ascii_lower(words);
    if 0 <= k && k + words.len() <= whole.len() {
        let part = a.subrange(k, k + b.len());
        assert forall|j: int| 0 <= j < words.len() implies (part[j] == b[j] <==> same_letter(
            whole[k + j],
            #[trigger] words[j],
        )) by {
            lemma_same_letter(whole[k + j], words[j]);
        }
        if mentions_at(whole, words, k) {
            assert(part =~= b) by {
                assert forall|j: int| 0 <= j < part.len() implies part[j] == b[j] by {
                    assert(same_letter(whole[k + j], words[j]));
                }
            }
        }
    }
}

pub(crate) proof fn lemma_mentions(whole: Seq<char>, words: Seq<char>)
    ensures
        text::contains_text(text::ascii_lower(whole), text::ascii_lower(words)) <==> mentions(
            whole,
            words,
        ),
{
    let a = text::ascii_lower(whole);
    let b = text::ascii_lower(words);
    assert forall|k: int| text::occurs_at(a, b, k) <==> mentions_at(whole, words, k) by {
        lemma_mentions_at(whole, words, k);
    }
    if text::contains_text(a, b) {
        let k = choose|k: int| #[trigger] text::occurs_at(a, b, k);
        assert(mentions_at(whole, words, k));
    }
    if mentions(whole, words) {
        let k = choose|k: int| #[trigger] mentions_at(whole, words, k);
        assert(text::occurs_at(a, b, k));
    }
}

/// The order texts are sorted in.
pub proof fn texts_sort_by_their_first_difference(a: Seq<char>, b: Seq<char>)
    ensures
        text::text_lt(a, b) <==> precedes(a, b),
    decreases a.len(),
{
    if b.len() > 0 && a.len() > 0 && a[0] == b[0] {
        let x = a.drop_first();
        let y = b.drop_first();
        texts_sort_by_their_first_difference(x, y);
        if precedes(x, y) {
            let k = choose|k: int| #[trigger] precedes_at(x, y, k);
            assert(precedes_at(a, b, k + 1)) by {
                assert forall|j: int| 0 <= j < k + 1 implies #[trigger] a[j] == b[j] by {
                    if j > 0 {
                        assert(x[j - 1] == y[j - 1]);
                    }
                }
            }
        }
        if precedes(a, b) {
            let k = choose|k: int| #[trigger] precedes_at(a, b, k);
            assert(precedes_at(x, y, k - 1)) by {
                assert forall|j: int| 0 <= j < k - 1 implies #[trigger] x[j] == y[j] by {
                    assert(a[j + 1] == b[j + 1]);
                }
            }
        }
    } else {
        if text::text_lt(a, b) {
            assert(precedes_at(a, b, 0));
        }
        if precedes(a, b) {
            let k = choose|k: int| #[trigger] precedes_at(a, b, k);
            if k > 0 {
                assert(a[0] == b[0]);
            }
        }
    }
}

/// What a filter asks of a task and the kind of its status.
pub open spec fn let_through(row: TaskV, kind: StatusKind, filter: Filter, today: Seq<char>) -> bool {
    match filter {
        Filter::All => true,
        Filter::Open => kind is Open,
        Filter::Status(id) => row.status_id == id,
        Filter::Overdue => kind is Open && row.due is Some && precedes(row.due->Some_0, today),
    }
}

/// A search finds exactly the stored tasks with a known status that mention
/// the text in their title or their note, where a text is given, and that the
/// filter lets through. Each is found once.
pub proof fn a_search_finds_what_mentions_the_text(
    t: Tables,
    q: QueryV,
    today: Seq<char>,
    row: TaskV,
)
    requires
        laws::well_kept(t),
    ensures
        plans::search(t, q, today).contains(row) <==> {
            &&& t.tasks.dom().contains(row.id)
            &&& t.tasks[row.id] == row
            &&& t.statuses.dom().contains(row.status_id)
            &&& q.text is Some ==> mentions(row.title, q.text->Some_0) || mentions(
                row.note,
                q.text->Some_0,
            )
            &&& let_through(row, t.statuses[row.status_id].kind, q.filter, today)
        },
        forall|i: int, j: int|
            0 <= i < j < plans::search(t, q, today).len() ==> (#[trigger] plans::search(
                t,
                q,
                today,
            )[i]).id != (#[trigger] plans::search(t, q, today)[j]).id,
{
    laws::a_search_finds_exactly_the_matching_tasks(t, q, today, row);
    if let Some(words) = q.text {
        lemma_mentions(row.title, words);
        lemma_mentions(row.note, words);
    }
    if row.due is Some {
        texts_sort_by_their_first_difference(row.due->Some_0, today);
    }
}

/// A finished or cancelled task is never among the open ones, and an open
/// one always is, in a search and in the tree.
pub proof fn the_open_filter_keeps_the_open_tasks(
    t: Tables,
    q: QueryV,
    today: Seq<char>,
    row: TaskV,
    statuses: Seq<StatusV>,
    k: int,
)
    requires
        laws::well_kept(t),
        q.filter == Filter::Open,
        0 <= k < statuses.len(),
        forall|i: int, j: int| 0 <= i < j < statuses.len() ==> statuses[i].id != statuses[j].id,
        statuses[k].id == row.status_id,
    ensures
        plans::search(t, q, today).contains(row) ==> t.statuses[row.status_id].kind
            == StatusKind::Open,
        tree::matches_filter(row, statuses, Filter::Open, today) <==> statuses[k].kind
            == StatusKind::Open,
{
    a_search_finds_what_mentions_the_text(t, q, today, row);
    lemma_position_known(statuses, row.status_id, k);
}

pub(crate) proof fn lemma_position_known(statuses: Seq<StatusV>, id: i64, k: int)
    requires
        0 <= k < statuses.len(),
        statuses[k].id == id,
        forall|i: int, j: int| 0 <= i < j < statuses.len() ==> statuses[i].id != statuses[j].id,
    ensures
        status_cycle::position(statuses, id) == k,
    decreases statuses.len(),
{
    if k > 0 {
        let rest = statuses.drop_first();
        assert(rest[k - 1] == statuses[k]);
        assert forall|i: int, j: int| 0 <= i < j < rest.len() implies rest[i].id != rest[j].id by {
            assert(rest[i] == statuses[i + 1] && rest[j] == statuses[j + 1]);
        }
        lemma_position_known(rest, id, k - 1);
    }
}

pub(crate) proof fn lemma_position_unknown(statuses: Seq<StatusV>, id: i64)
    requires
        forall|i: int| 0 <= i < statuses.len() ==> (#[trigger] statuses[i]).id != id,
    ensures
        status_cycle::position(statuses, id) == statuses.len(),
    decreases statuses.len(),
{
    if statuses.len() > 0 {
        let rest = statuses.drop_first();
        assert forall|i: int| 0 <= i < rest.len() implies (#[trigger] rest[i]).id != id by {
            assert(rest[i] == statuses[i + 1]);
        }
        lemma_position_unknown(rest, id);
    }
}

/// The kind of status that a filter in the tree goes by: that of the status
/// with the task's id, and open where there is none.
pub open spec fn goes_by(statuses: Seq<StatusV>, id: i64, kind: StatusKind) -> bool {
    ||| exists|k: int|
        0 <= k < statuses.len() && (#[trigger] statuses[k]).id == id && statuses[k].kind == kind
    ||| kind == StatusKind::Open && forall|k: int|
        0 <= k < statuses.len() ==> (#[trigger] statuses[k]).id != id
}

/// In the tree a filter lets through what it lets through in a search.
pub proof fn the_tree_filters_as_the_search_does(
    row: TaskV,
    statuses: Seq<StatusV>,
    filter: Filter,
    today: Seq<char>,
    kind: StatusKind,
)
    requires
        forall|i: int, j: int| 0 <= i < j < statuses.len() ==> statuses[i].id != statuses[j].id,
        goes_by(statuses, row.status_id, kind),
    ensures
        tree::matches_filter(row, statuses, filter, today) <==> let_through(
            row,
            kind,
            filter,
            today,
        ),
{
    if exists|k: int|
        0 <= k < statuses.len() && (#[trigger] statuses[k]).id == row.status_id && statuses[k].kind
            == kind {
        let k = choose|k: int|
            0 <= k < statuses.len() && (#[trigger] statuses[k]).id == row.status_id
                && statuses[k].kind == kind;
        lemma_position_known(statuses, row.status_id, k);
    } else {
        lemma_position_unknown(statuses, row.status_id);
    }
    if row.due is Some {
        texts_sort_by_their_first_difference(row.due->Some_0, today);
    }
}

/// The links lead from one task up to another in a list of tasks.
pub open spec fn leads_up(ts: Seq<TaskV>, path: Seq<i64>, from: i64, to: i64) -> bool {
    &&& path.len() >= 2
    &&& path[0] == from
    &&& path[path.len() - 1] == to
    &&& forall|k: int|
        #![trigger path[k]]
        0 <= k < path.len() - 1 ==> is_child(ts, path[k], path[k + 1])
}

/// A task of the list names another as its parent.
pub open spec fn is_child(ts: Seq<TaskV>, child: i64, parent: i64) -> bool {
    exists|i: int|
        0 <= i < ts.len() && (#[trigger] ts[i]).id == child && ts[i].parent_id == Some(parent)
}

/// One task of the list is somewhere below another.
pub open spec fn is_under(ts: Seq<TaskV>, x: i64, id: i64) -> bool {
    exists|path: Seq<i64>| leads_up(ts, path, x, id)
}

proof fn lemma_under_step(ts: Seq<TaskV>, i: int, id: i64)
    requires
        order::unique_ids(ts),
        0 <= i < ts.len(),
    ensures
        is_under(ts, ts[i].id, id) <==> ts[i].parent_id is Some && (ts[i].parent_id == Some(id)
            || is_under(ts, ts[i].parent_id->Some_0, id)),
{
    let x = ts[i].id;
    if is_under(ts, x, id) {
        let path = choose|path: Seq<i64>| leads_up(ts, path, x, id);
        assert(is_child(ts, path[0], path[1]));
        let j = choose|j: int|
            0 <= j < ts.len() && (#[trigger] ts[j]).id == x && ts[j].parent_id == Some(path[1]);
        assert(j == i);
        if path.len() > 2 {
            let rest = path.drop_first();
            assert forall|k: int|
                #![trigger rest[k]]
                0 <= k < rest.len() - 1 implies is_child(ts, rest[k], rest[k + 1]) by {
                assert(rest[k] == path[k + 1]);
            }
            assert(leads_up(ts, rest, path[1], id));
        }
    }
    if ts[i].parent_id is Some {
        let p = ts[i].parent_id->Some_0;
        assert(is_child(ts, x, p));
        if p == id {
            assert(leads_up(ts, seq![x, id], x, id));
        } else if is_under(ts, p, id) {
            let rest = choose|path: Seq<i64>| leads_up(ts, path, p, id);
            let path = seq![x] + rest;
            assert forall|k: int|
                #![trigger path[k]]
                0 <= k < path.len() - 1 implies is_child(ts, path[k], path[k + 1]) by {
                if k > 0 {
                    assert(path[k] == rest[k - 1]);
                    assert(path[k + 1] == rest[k]);
                }
            }
            assert(leads_up(ts, path, x, id));
        }
    }
}

/// A task's ancestors in a list are the tasks that it is below.
pub proof fn the_ancestors_are_what_a_task_is_under(ts: Seq<TaskV>, i: int, id: i64)
    requires
        forest::acyclic(ts),
        order::unique_ids(ts),
        forest::parents_listed(ts),
        0 <= i < ts.len(),
    ensures
        tree::ancestors(ts, ts[i].id).contains(id) <==> is_under(ts, ts[i].id, id),
    decreases tree::ancestors(ts, ts[i].id).len(),
{
    let up = tree::ancestors(ts, ts[i].id);
    tree::lemma_own_index(ts, i);
    lemma_under_step(ts, i, id);
    if ts[i].parent_id is Some {
        let p = ts[i].parent_id->Some_0;
        assert(forest::listed(ts, p));
        let j = choose|j: int| 0 <= j < ts.len() && (#[trigger] ts[j]).id == p;
        tree::lemma_own_index(ts, j);
        let above = tree::ancestors(ts, p);
        assert(up =~= seq![p] + above);
        the_ancestors_are_what_a_task_is_under(ts, j, id);
        if up.contains(id) {
            let k = choose|k: int| 0 <= k < up.len() && up[k] == id;
            if k > 0 {
                assert(above[k - 1] == id);
            }
        }
        if p == id {
            assert(up[0] == id);
        }
        if above.contains(id) {
            let k = choose|k: int| 0 <= k < above.len() && above[k] == id;
            assert(up[k + 1] == id);
        }
    } else {
        assert(up =~= seq![]);
    }
}

/// Under a filter the tree may show exactly the tasks that it lets through
/// and those that have one of them below; without one it may show all.
pub proof fn a_filtered_tree_shows_matches_and_the_way_to_them(
    ts: Seq<TaskV>,
    statuses: Seq<StatusV>,
    filter: Filter,
    today: Seq<char>,
    x: i64,
)
    requires
        forest::acyclic(ts),
        order::unique_ids(ts),
        forest::parents_listed(ts),
        forall|i: int, j: int| 0 <= i < j < statuses.len() ==> statuses[i].id != statuses[j].id,
    ensures
        filter == Filter::All ==> tree::shown(tree::visible_ids(ts, statuses, filter, today), x),
        filter != Filter::All ==> (tree::shown(tree::visible_ids(ts, statuses, filter, today), x)
            <==> exists|i: int, kind: StatusKind|
            {
                &&& 0 <= i < ts.len()
                &&& #[trigger] goes_by(statuses, (#[trigger] ts[i]).status_id, kind)
                &&& let_through(ts[i], kind, filter, today)
                &&& x == ts[i].id || is_under(ts, ts[i].id, x)
            }),
{
    if filter != Filter::All {
        let shown = tree::shown(tree::visible_ids(ts, statuses, filter, today), x);
        if shown {
            let i = choose|i: int|
                0 <= i < ts.len() && tree::matches_filter(#[trigger] ts[i], statuses, filter, today) && (
                x == ts[i].id || tree::ancestors(ts, ts[i].id).contains(x));
            let kind = tree::kind_of(statuses, ts[i].status_id);
            lemma_goes_by(statuses, ts[i].status_id);
            the_tree_filters_as_the_search_does(ts[i], statuses, filter, today, kind);
            the_ancestors_are_what_a_task_is_under(ts, i, x);
            assert(goes_by(statuses, ts[i].status_id, kind));
        }
        assert forall|i: int, kind: StatusKind|
            {
                &&& 0 <= i < ts.len()
                &&& #[trigger] goes_by(statuses, (#[trigger] ts[i]).status_id, kind)
                &&& let_through(ts[i], kind, filter, today)
                &&& x == ts[i].id || is_under(ts, ts[i].id, x)
            } implies shown by {
            the_tree_filters_as_the_search_does(ts[i], statuses, filter, today, kind);
            the_ancestors_are_what_a_task_is_under(ts, i, x);
            assert(tree::filter_ids(ts, statuses, filter, today).contains(x));
        }
    }
}

proof fn lemma_goes_by(statuses: Seq<StatusV>, id: i64)
    ensures
        goes_by(statuses, id, tree::kind_of(statuses, id)),
{
    lemma_position(statuses, id);
    let i = status_cycle::position(statuses, id);
    if i < statuses.len() {
        assert(statuses[i].id == id);
    }
}

proof fn lemma_position(statuses: Seq<StatusV>, id: i64)
    ensures
        0 <= status_cycle::position(statuses, id) <= statuses.len(),
        status_cycle::position(statuses, id) < statuses.len()
            ==> statuses[status_cycle::position(statuses, id)].id == id,
        status_cycle::position(statuses, id) == statuses.len() ==> forall|k: int|
            0 <= k < statuses.len() ==> (#[trigger] statuses[k]).id != id,
    decreases statuses.len(),
{
    if statuses.len() > 0 && statuses[0].id != id {
        let rest = statuses.drop_first();
        lemma_position(rest, id);
        assert forall|k: int|
            status_cycle::position(statuses, id) == statuses.len() && 0 <= k < statuses.len() implies (
        #[trigger] statuses[k]).id != id by {
            if k > 0 {
                assert(rest[k - 1] == statuses[k]);
            }
        }
    }
}

/// What was listed in some order is selected in that order.
proof fn lemma_select_keeps_order(
    rows: Seq<TaskV>,
    t: Tables,
    q: QueryV,
    today: Seq<char>,
    i: int,
    j: int,
) -> (r: (int, int))
    requires
        0 <= i < j < plans::select(rows, t, q, today).len(),
    ensures
        0 <= r.0 < r.1 < rows.len(),
        rows[r.0] == plans::select(rows, t, q, today)[i],
        rows[r.1] == plans::select(rows, t, q, today)[j],
    decreases rows.len(),
{
    let front = rows.drop_last();
    let some = plans::select(front, t, q, today);
    if j < some.len() {
        lemma_select_keeps_order(front, t, q, today, i, j)
    } else {
        let k = lemma_selected_from(front, t, q, today, i);
        (k, rows.len() - 1)
    }
}

proof fn lemma_selected_from(rows: Seq<TaskV>, t: Tables, q: QueryV, today: Seq<char>, i: int) -> (k:
    int)
    requires
        0 <= i < plans::select(rows, t, q, today).len(),
    ensures
        0 <= k < rows.len(),
        rows[k] == plans::select(rows, t, q, today)[i],
    decreases rows.len(),
{
    let front = rows.drop_last();
    let some = plans::select(front, t, q, today);
    if i < some.len() {
        lemma_selected_from(front, t, q, today, i)
    } else {
        rows.len() - 1
    }
}

/// The order that a sort asks of two found tasks.
pub open spec fn in_sort_order(a: TaskV, b: TaskV, sort: Sort) -> bool {
    match sort {
        Sort::TreeOrder => true,
        Sort::Due => match (a.due, b.due) {
            (Some(x), Some(y)) => precedes(x, y) || (x == y && a.id < b.id),
            (Some(_), None) => true,
            (None, Some(_)) => false,
            (None, None) => a.id < b.id,
        },
        Sort::Updated => precedes(b.updated_at, a.updated_at) || (a.updated_at == b.updated_at
            && a.id < b.id),
        Sort::Created => precedes(b.created_at, a.created_at) || (a.created_at == b.created_at
            && a.id < b.id),
        Sort::Title => precedes(a.title, b.title) || (a.title == b.title && a.id < b.id),
    }
}

/// Found tasks come by due date, those without one last, by the latest
/// update or creation, or by title, as the sort asks; equal ones by id.
pub proof fn found_tasks_come_sorted(t: Tables, q: QueryV, today: Seq<char>, i: int, j: int)
    requires
        laws::well_kept(t),
        0 <= i < j < plans::search(t, q, today).len(),
    ensures
        in_sort_order(plans::search(t, q, today)[i], plans::search(t, q, today)[j], q.sort),
{
    if q.sort != Sort::TreeOrder {
        let rows = tables::rows(t.tasks);
        tables::lemma_rows_exist(t.tasks);
        let o = match q.sort {
            Sort::Due => Order::Due,
            Sort::Updated => Order::Updated,
            Sort::Created => Order::Created,
            _ => Order::Title,
        };
        order::lemma_listing_exists(rows, o);
        let all = order::listing(rows, o);
        let (x, y) = lemma_select_keeps_order(all, t, q, today, i, j);
        assert(order::task_order(o)(all[x], all[y]));
        let a = all[x];
        let b = all[y];
        texts_sort_by_their_first_difference(b.updated_at, a.updated_at);
        texts_sort_by_their_first_difference(b.created_at, a.created_at);
        texts_sort_by_their_first_difference(a.title, b.title);
        if a.due is Some && b.due is Some {
            texts_sort_by_their_first_difference(a.due->Some_0, b.due->Some_0);
        }
    }
}

/// In tree order a found task comes before what is below it, and what is at
/// or below a task before what is at or below a sibling further behind.
pub proof fn found_tasks_come_in_tree_order(
    t: Tables,
    q: QueryV,
    today: Seq<char>,
    i: int,
    j: int,
    a: i64,
    b: i64,
)
    requires
        laws::well_kept(t),
        q.sort == Sort::TreeOrder,
        0 <= i < j < plans::search(t, q, today).len(),
    ensures
        ({
            let x = plans::search(t, q, today)[i].id;
            let y = plans::search(t, q, today)[j].id;
            let m = t.tasks;
            &&& !laws::is_below(m, x, y)
            &&& m.dom().contains(a) && m.dom().contains(b) && m[a].parent_id == m[b].parent_id && (x
                == a || laws::is_below(m, x, a)) && (y == b || laws::is_below(m, y, b))
                ==> m[a].display_order <= m[b].display_order
        }),
{
    let rows = tables::rows(t.tasks);
    let m = t.tasks;
    let walk = forest::tree_order(rows);
    let listed = plans::tree_listing(rows);
    let found = plans::search(t, q, today);
    laws::lemma_rows(t);
    forest::the_walk_meets_every_task_once(rows);
    let (p, s) = lemma_select_keeps_order(listed, t, q, today, i, j);
    let x = found[i].id;
    let y = found[j].id;
    let ix = walk[p];
    let iy = walk[s];
    assert(walk.contains(ix) && walk.contains(iy));
    assert(rows[ix].id == x && rows[iy].id == y);
    assert(m.contains_pair(rows[ix].id, rows[ix]) && m.contains_pair(rows[iy].id, rows[iy]));
    assert(m.dom().contains(x) && m.dom().contains(y));
    if laws::is_below(m, x, y) {
        lemma_in_subtree(t, y, x, iy, ix);
        assert(x != y) by {
            if x == y {
                assert(walk[p] == walk[s]);
            }
        }
        forest::the_walk_meets_parents_first(rows, iy, ix);
        lemma_met_once(walk, ix, iy, p, s);
    }
    if m.dom().contains(a) && m.dom().contains(b) && m[a].parent_id == m[b].parent_id && (x == a
        || laws::is_below(m, x, a)) && (y == b || laws::is_below(m, y, b)) && m[b].display_order
        < m[a].display_order {
        let ia = lemma_listed_at(t, a);
        let ib = lemma_listed_at(t, b);
        lemma_in_subtree(t, a, x, ia, ix);
        lemma_in_subtree(t, b, y, ib, iy);
        forest::the_walk_goes_by_sibling_order(rows, ib, ia, iy, ix);
        lemma_met_once(walk, ix, iy, p, s);
    }
}

/// A walk without repetition does not meet two tasks both ways round.
proof fn lemma_met_once(walk: Seq<int>, x: int, y: int, p: int, s: int)
    requires
        walk.no_duplicates(),
        0 <= p < s < walk.len(),
        walk[p] == x,
        walk[s] == y,
    ensures
        !forest::met_before(walk, y, x),
{
    if forest::met_before(walk, y, x) {
        let (i, j) = choose|i: int, j: int|
            0 <= i < j < walk.len() && #[trigger] walk[i] == y && #[trigger] walk[j] == x;
        assert(i == s && j == p);
    }
}

proof fn lemma_listed_at(t: Tables, id: i64) -> (i: int)
    requires
        laws::well_kept(t),
        t.tasks.dom().contains(id),
    ensures
        0 <= i < tables::rows(t.tasks).len(),
        tables::rows(t.tasks)[i] == t.tasks[id],
        tables::rows(t.tasks)[i].id == id,
{
    let rows = tables::rows(t.tasks);
    laws::lemma_rows(t);
    assert(rows.contains(t.tasks[id]));
    choose|i: int| 0 <= i < rows.len() && rows[i] == t.tasks[id]
}

proof fn lemma_in_subtree(t: Tables, a: i64, x: i64, ia: int, ix: int)
    requires
        laws::well_kept(t),
        t.tasks.dom().contains(a),
        t.tasks.dom().contains(x),
        0 <= ia < tables::rows(t.tasks).len(),
        0 <= ix < tables::rows(t.tasks).len(),
        tables::rows(t.tasks)[ia].id == a,
        tables::rows(t.tasks)[ix].id == x,
        x == a || laws::is_below(t.tasks, x, a),
    ensures
        forest::subtree(tables::rows(t.tasks), ia).contains(ix),
{
    let rows = tables::rows(t.tasks);
    laws::lemma_rows(t);
    laws::the_ancestors_are_the_tasks_above(t, x, a);
    laws::a_subtree_holds_the_descendants(rows, ia, ix);
    if x == a {
        assert(rows[ia].id == rows[ix].id);
    }
}

} // verus!

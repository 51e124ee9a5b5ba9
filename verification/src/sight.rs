//! When a task has a row: its ancestors are expanded and nothing on the way
//! is filtered out.
use vstd::prelude::*;

use crate::forest;
use crate::order;
use crate::query::Filter;
use crate::status::StatusV;
use crate::task::TaskV;
use crate::tree;
use crate::tree::{Look, RowV};

verus! {

/// Some row shows the task at index `i`.
pub open spec fn has_row(rows: Seq<RowV>, i: int) -> bool {
    exists|k: int| 0 <= k < rows.len() && (#[trigger] rows[k]).task_index == i
}

proof fn lemma_has_row_left(a: Seq<RowV>, b: Seq<RowV>, i: int)
    requires
        has_row(a, i),
    ensures
        has_row(a + b, i),
{
    let k = choose|k: int| 0 <= k < a.len() && (#[trigger] a[k]).task_index == i;
    assert((a + b)[k].task_index == i);
}

proof fn lemma_has_row_right(a: Seq<RowV>, b: Seq<RowV>, i: int)
    requires
        has_row(b, i),
    ensures
        has_row(a + b, i),
{
    let k = choose|k: int| 0 <= k < b.len() && (#[trigger] b[k]).task_index == i;
    assert((a + b)[a.len() + k].task_index == i);
}

proof fn lemma_has_row_either(a: Seq<RowV>, b: Seq<RowV>, i: int)
    requires
        has_row(a + b, i),
    ensures
        has_row(a, i) || has_row(b, i),
{
    let k = choose|k: int| 0 <= k < (a + b).len() && (#[trigger] (a + b)[k]).task_index == i;
    if k < a.len() {
        assert(a[k].task_index == i);
    } else {
        assert(b[k - a.len()].task_index == i);
    }
}

/// A task's rows begin with its own.
proof fn lemma_own_row(ts: Seq<TaskV>, h: spec_fn(i64) -> nat, look: Look, i: int, depth: nat)
    ensures
        has_row(tree::rows_of(ts, h, look, i, depth), i),
{
    assert(tree::rows_of(ts, h, look, i, depth)[0].task_index == i);
}

/// A row of one of the shown siblings is among the rows of all of them.
proof fn lemma_in_below(
    ts: Seq<TaskV>,
    h: spec_fn(i64) -> nat,
    look: Look,
    n: nat,
    g: Seq<int>,
    depth: nat,
    q: int,
    x: int,
)
    requires
        0 <= q < g.len(),
        h(ts[g[q]].id) < n,
        tree::shown(look.visible, ts[g[q]].id),
        has_row(tree::rows_of(ts, h, look, g[q], depth), x),
    ensures
        has_row(tree::rows_below(ts, h, look, n, g, depth), x),
    decreases g.len(),
{
    let first = if tree::shown(look.visible, ts[g[0]].id) && h(ts[g[0]].id) < n {
        tree::rows_of(ts, h, look, g[0], depth)
    } else {
        seq![]
    };
    let rest = tree::rows_below(ts, h, look, n, g.drop_first(), depth);
    if q == 0 {
        lemma_has_row_left(first, rest, x);
    } else {
        assert(g.drop_first()[q - 1] == g[q]);
        lemma_in_below(ts, h, look, n, g.drop_first(), depth, q - 1, x);
        lemma_has_row_right(first, rest, x);
    }
}

/// A row among the rows of siblings belongs to one of them.
proof fn lemma_from_below(
    ts: Seq<TaskV>,
    h: spec_fn(i64) -> nat,
    look: Look,
    n: nat,
    g: Seq<int>,
    depth: nat,
    x: int,
) -> (q: int)
    requires
        has_row(tree::rows_below(ts, h, look, n, g, depth), x),
    ensures
        0 <= q < g.len(),
        h(ts[g[q]].id) < n,
        tree::shown(look.visible, ts[g[q]].id),
        has_row(tree::rows_of(ts, h, look, g[q], depth), x),
    decreases g.len(),
{
    let k = choose|k: int|
        0 <= k < tree::rows_below(ts, h, look, n, g, depth).len() && (
        #[trigger] tree::rows_below(ts, h, look, n, g, depth)[k]).task_index == x;
    assert(g.len() > 0);
    let first = if tree::shown(look.visible, ts[g[0]].id) && h(ts[g[0]].id) < n {
        tree::rows_of(ts, h, look, g[0], depth)
    } else {
        seq![]
    };
    let rest = tree::rows_below(ts, h, look, n, g.drop_first(), depth);
    lemma_has_row_either(first, rest, x);
    if has_row(first, x) {
        0
    } else {
        let q = lemma_from_below(ts, h, look, n, g.drop_first(), depth, x);
        assert(g.drop_first()[q] == g[q + 1]);
        q + 1
    }
}

/// The shown children of an expanded task have rows where the task has one.
proof fn lemma_child_row(
    ts: Seq<TaskV>,
    h: spec_fn(i64) -> nat,
    look: Look,
    root: int,
    depth: nat,
    x: int,
    c: int,
)
    requires
        forest::descends(ts, h),
        0 <= c < ts.len(),
        has_row(tree::rows_of(ts, h, look, root, depth), x),
        look.expanded.contains(ts[x].id),
        ts[c].parent_id == Some(ts[x].id),
        tree::shown(look.visible, ts[c].id),
    ensures
        has_row(tree::rows_of(ts, h, look, root, depth), c),
    decreases h(ts[root].id),
{
    let n = h(ts[root].id);
    let g = forest::group(ts, Some(ts[root].id));
    forest::lemma_group_exists(ts, Some(ts[root].id));
    let own = seq![RowV { task_index: root, depth, has_children: g.len() > 0 }];
    let rest = tree::rows_below(ts, h, look, n, g, depth + 1);
    if look.expanded.contains(ts[root].id) {
        let q = if x == root {
            assert(g.contains(c));
            let q = choose|q: int| 0 <= q < g.len() && g[q] == c;
            lemma_own_row(ts, h, look, c, depth + 1);
            q
        } else {
            lemma_has_row_either(own, rest, x);
            if has_row(own, x) {
                assert(own[0].task_index == x);
            }
            let q = lemma_from_below(ts, h, look, n, g, depth + 1, x);
            lemma_child_row(ts, h, look, g[q], depth + 1, x, c);
            q
        };
        lemma_in_below(ts, h, look, n, g, depth + 1, q, c);
        lemma_has_row_right(own, rest, c);
    } else {
        assert(own[0].task_index == x);
    }
}

/// A row of one of the shown top-level tasks is among the rows of all.
proof fn lemma_in_top(ts: Seq<TaskV>, look: Look, g: Seq<int>, q: int, x: int)
    requires
        0 <= q < g.len(),
        tree::shown(look.visible, ts[g[q]].id),
        has_row(tree::rows_of(ts, forest::heights(ts), look, g[q], 0), x),
    ensures
        has_row(tree::rows_top(ts, look, g), x),
    decreases g.len(),
{
    let first = if tree::shown(look.visible, ts[g[0]].id) {
        tree::rows_of(ts, forest::heights(ts), look, g[0], 0)
    } else {
        seq![]
    };
    let rest = tree::rows_top(ts, look, g.drop_first());
    if q == 0 {
        lemma_has_row_left(first, rest, x);
    } else {
        assert(g.drop_first()[q - 1] == g[q]);
        lemma_in_top(ts, look, g.drop_first(), q - 1, x);
        lemma_has_row_right(first, rest, x);
    }
}

proof fn lemma_from_top(ts: Seq<TaskV>, look: Look, g: Seq<int>, x: int) -> (q: int)
    requires
        has_row(tree::rows_top(ts, look, g), x),
    ensures
        0 <= q < g.len(),
        tree::shown(look.visible, ts[g[q]].id),
        has_row(tree::rows_of(ts, forest::heights(ts), look, g[q], 0), x),
    decreases g.len(),
{
    let k = choose|k: int|
        0 <= k < tree::rows_top(ts, look, g).len() && (#[trigger] tree::rows_top(
            ts,
            look,
            g,
        )[k]).task_index == x;
    assert(g.len() > 0);
    let first = if tree::shown(look.visible, ts[g[0]].id) {
        tree::rows_of(ts, forest::heights(ts), look, g[0], 0)
    } else {
        seq![]
    };
    let rest = tree::rows_top(ts, look, g.drop_first());
    lemma_has_row_either(first, rest, x);
    if has_row(first, x) {
        0
    } else {
        let q = lemma_from_top(ts, look, g.drop_first(), x);
        assert(g.drop_first()[q] == g[q + 1]);
        q + 1
    }
}

/// A task at the top level of the view has a row unless it is filtered out.
pub proof fn a_top_level_task_has_a_row(ts: Seq<TaskV>, look: Look, zoom_root: Option<i64>, i: int)
    requires
        0 <= i < ts.len(),
        ts[i].parent_id == zoom_root,
        tree::shown(look.visible, ts[i].id),
    ensures
        has_row(tree::visible_rows(ts, look, zoom_root), i),
{
    let g = forest::group(ts, zoom_root);
    forest::lemma_group_exists(ts, zoom_root);
    assert(g.contains(i));
    let q = choose|q: int| 0 <= q < g.len() && g[q] == i;
    lemma_own_row(ts, forest::heights(ts), look, i, 0);
    lemma_in_top(ts, look, g, q, i);
}

/// Other than its own, a task's rows show children of expanded tasks that
/// have rows too.
proof fn lemma_parent_row(
    ts: Seq<TaskV>,
    h: spec_fn(i64) -> nat,
    look: Look,
    root: int,
    depth: nat,
    x: int,
) -> (j: int)
    requires
        0 <= root < ts.len(),
        x != root,
        has_row(tree::rows_of(ts, h, look, root, depth), x),
    ensures
        0 <= j < ts.len(),
        0 <= x < ts.len(),
        has_row(tree::rows_of(ts, h, look, root, depth), j),
        ts[x].parent_id == Some(ts[j].id),
        look.expanded.contains(ts[j].id),
    decreases h(ts[root].id),
{
    let n = h(ts[root].id);
    let g = forest::group(ts, Some(ts[root].id));
    forest::lemma_group_exists(ts, Some(ts[root].id));
    let own = seq![RowV { task_index: root, depth, has_children: g.len() > 0 }];
    let rest = tree::rows_below(ts, h, look, n, g, depth + 1);
    if look.expanded.contains(ts[root].id) {
        lemma_has_row_either(own, rest, x);
        if has_row(own, x) {
            assert(own[0].task_index == x);
        }
        let q = lemma_from_below(ts, h, look, n, g, depth + 1, x);
        assert(g.contains(g[q]));
        if x == g[q] {
            lemma_own_row(ts, h, look, root, depth);
            root
        } else {
            let j = lemma_parent_row(ts, h, look, g[q], depth + 1, x);
            lemma_in_below(ts, h, look, n, g, depth + 1, q, j);
            lemma_has_row_right(own, rest, j);
            j
        }
    } else {
        assert(own[0].task_index == x);
        root
    }
}

/// The first `n` of a task's ancestors are those that the view can hold:
/// all of them, or those below the zoom root.
pub open spec fn reaches_top(up: Seq<i64>, zoom_root: Option<i64>, n: int) -> bool {
    match zoom_root {
        Some(z) => 0 <= n < up.len() && up[n] == z,
        None => n == up.len(),
    }
}

/// The first `n` of a task's ancestors are expanded and may be shown.
pub open spec fn open_above(look: Look, up: Seq<i64>, n: int) -> bool {
    forall|k: int|
        0 <= k < n ==> look.expanded.contains(#[trigger] up[k]) && tree::shown(look.visible, up[k])
}

/// The way from the task at index `i` up to the top level of the view is
/// open: the task may be shown, and every task above it may be shown and is
/// expanded.
pub open spec fn in_sight(ts: Seq<TaskV>, look: Look, zoom_root: Option<i64>, i: int) -> bool {
    let up = tree::ancestors(ts, ts[i].id);
    tree::shown(look.visible, ts[i].id) && exists|n: int| #[trigger]
        reaches_top(up, zoom_root, n) && open_above(look, up, n)
}

/// A listed task's ancestors are its parent and the parent's ancestors.
proof fn lemma_above(ts: Seq<TaskV>, i: int, j: int)
    requires
        forest::acyclic(ts),
        order::unique_ids(ts),
        0 <= i < ts.len(),
        0 <= j < ts.len(),
        ts[i].parent_id == Some(ts[j].id),
    ensures
        tree::ancestors(ts, ts[i].id) == seq![ts[j].id] + tree::ancestors(ts, ts[j].id),
{
    tree::lemma_own_index(ts, i);
    tree::lemma_own_index(ts, j);
    assert(tree::ancestors(ts, ts[i].id) =~= seq![ts[j].id] + tree::ancestors(ts, ts[j].id));
}

/// What has a row is in sight.
proof fn lemma_row_in_sight(ts: Seq<TaskV>, look: Look, zoom_root: Option<i64>, i: int)
    requires
        forest::acyclic(ts),
        order::unique_ids(ts),
        forest::parents_listed(ts),
        0 <= i < ts.len(),
        has_row(tree::visible_rows(ts, look, zoom_root), i),
    ensures
        in_sight(ts, look, zoom_root, i),
    decreases tree::ancestors(ts, ts[i].id).len(),
{
    let h = forest::heights(ts);
    let up = tree::ancestors(ts, ts[i].id);
    let g = forest::group(ts, zoom_root);
    forest::lemma_group_exists(ts, zoom_root);
    tree::lemma_own_index(ts, i);
    let q = lemma_from_top(ts, look, g, i);
    lemma_rows_shown(ts, h, look, g[q], 0, i);
    assert(g.contains(g[q]));
    if i == g[q] {
        if let Some(z) = zoom_root {
            assert(forest::listed(ts, z));
            let j = choose|j: int| 0 <= j < ts.len() && (#[trigger] ts[j]).id == z;
            lemma_above(ts, i, j);
        } else {
            assert(up =~= seq![]);
        }
        assert(reaches_top(up, zoom_root, 0) && open_above(look, up, 0));
    } else {
        let j = lemma_parent_row(ts, h, look, g[q], 0, i);
        lemma_in_top(ts, look, g, q, j);
        lemma_above(ts, i, j);
        let above = tree::ancestors(ts, ts[j].id);
        lemma_row_in_sight(ts, look, zoom_root, j);
        let n = choose|n: int| #[trigger]
            reaches_top(above, zoom_root, n) && open_above(look, above, n);
        assert forall|k: int| 0 <= k < n + 1 implies look.expanded.contains(#[trigger] up[k])
            && tree::shown(look.visible, up[k]) by {
            if k > 0 {
                assert(up[k] == above[k - 1]);
            }
        }
        assert(reaches_top(up, zoom_root, n + 1) && open_above(look, up, n + 1));
    }
}

/// What is in sight has a row.
proof fn lemma_sight_has_row(
    ts: Seq<TaskV>,
    look: Look,
    zoom_root: Option<i64>,
    i: int,
    n: int,
)
    requires
        forest::acyclic(ts),
        order::unique_ids(ts),
        forest::parents_listed(ts),
        0 <= i < ts.len(),
        tree::shown(look.visible, ts[i].id),
        reaches_top(tree::ancestors(ts, ts[i].id), zoom_root, n),
        open_above(look, tree::ancestors(ts, ts[i].id), n),
    ensures
        has_row(tree::visible_rows(ts, look, zoom_root), i),
    decreases n,
{
    let h = forest::heights(ts);
    let up = tree::ancestors(ts, ts[i].id);
    tree::lemma_own_index(ts, i);
    if ts[i].parent_id is None {
        assert(up =~= seq![]);
        a_top_level_task_has_a_row(ts, look, zoom_root, i);
    } else {
        let p = ts[i].parent_id->Some_0;
        assert(forest::listed(ts, p));
        let j = choose|j: int| 0 <= j < ts.len() && (#[trigger] ts[j]).id == p;
        lemma_above(ts, i, j);
        let above = tree::ancestors(ts, p);
        assert(up[0] == p);
        if n == 0 {
            a_top_level_task_has_a_row(ts, look, zoom_root, i);
        } else {
            assert forall|k: int| 0 <= k < n - 1 implies look.expanded.contains(
                #[trigger] above[k],
            ) && tree::shown(look.visible, above[k]) by {
                assert(up[k + 1] == above[k]);
            }
            if zoom_root is Some {
                assert(up[n] == above[n - 1]);
            }
            lemma_sight_has_row(ts, look, zoom_root, j, n - 1);
            let g = forest::group(ts, zoom_root);
            let q = lemma_from_top(ts, look, g, j);
            lemma_child_row(ts, h, look, g[q], 0, j, i);
            lemma_in_top(ts, look, g, q, i);
        }
    }
}

/// A task has a row exactly where the way up from it is open: it and the
/// tasks above it, up to the zoom root if there is one, may be shown, and
/// those above it are expanded.
pub proof fn a_task_has_a_row_where_it_is_in_sight(
    ts: Seq<TaskV>,
    look: Look,
    zoom_root: Option<i64>,
    i: int,
)
    requires
        forest::acyclic(ts),
        order::unique_ids(ts),
        forest::parents_listed(ts),
        0 <= i < ts.len(),
    ensures
        has_row(tree::visible_rows(ts, look, zoom_root), i) <==> in_sight(ts, look, zoom_root, i),
{
    if has_row(tree::visible_rows(ts, look, zoom_root), i) {
        lemma_row_in_sight(ts, look, zoom_root, i);
    }
    if in_sight(ts, look, zoom_root, i) {
        let up = tree::ancestors(ts, ts[i].id);
        let n = choose|n: int| #[trigger] reaches_top(up, zoom_root, n) && open_above(look, up, n);
        lemma_sight_has_row(ts, look, zoom_root, i, n);
    }
}

/// Under a filter, with every task its ancestors may be shown: hiding a
/// finished parent does not hide its open children.
pub proof fn a_filter_keeps_the_ancestors(
    ts: Seq<TaskV>,
    statuses: Seq<StatusV>,
    filter: Filter,
    today: Seq<char>,
    id: i64,
    x: i64,
)
    requires
        forest::acyclic(ts),
        order::unique_ids(ts),
        tree::shown(tree::visible_ids(ts, statuses, filter, today), id),
        tree::ancestors(ts, id).contains(x),
    ensures
        tree::shown(tree::visible_ids(ts, statuses, filter, today), x),
{
    if filter != Filter::All {
        let ids = tree::filter_ids(ts, statuses, filter, today);
        let h = forest::heights(ts);
        let from = tree::parent_of(ts, id);
        if from is Some {
            tree::lemma_filter_closed(ts, statuses, filter, today, id);
        }
        assert forall|y: i64| #[trigger]
            ids.contains(y) && tree::parent_of(ts, y) is Some implies ids.contains(
            tree::parent_of(ts, y)->Some_0,
        ) by {
            tree::lemma_filter_closed(ts, statuses, filter, today, y);
        }
        tree::lemma_chain_within(ts, h, from, ids);
        let c = tree::upwards(ts, h, from);
        let k = choose|k: int| 0 <= k < c.len() && c[k] == x;
        assert(ids.contains(c[k]));
    }
}

/// No two rows show the same task.
pub open spec fn rows_distinct(rows: Seq<RowV>) -> bool {
    forall|i: int, j: int|
        0 <= i < rows.len() && 0 <= j < rows.len() && (#[trigger] rows[i]).task_index == (
        #[trigger] rows[j]).task_index ==> i == j
}

/// The rows of a task show what is in its subtree, each task once.
proof fn lemma_rows_of(ts: Seq<TaskV>, h: spec_fn(i64) -> nat, look: Look, i: int, depth: nat)
    requires
        forest::descends(ts, h),
        order::unique_ids(ts),
        0 <= i < ts.len(),
    ensures
        rows_distinct(tree::rows_of(ts, h, look, i, depth)),
        forall|x: int|
            has_row(tree::rows_of(ts, h, look, i, depth), x) ==> #[trigger] forest::preorder(
                ts,
                h,
                i,
            ).contains(x),
    decreases h(ts[i].id) + 1, 0nat,
{
    let n = h(ts[i].id);
    let g = forest::group(ts, Some(ts[i].id));
    forest::lemma_group_exists(ts, Some(ts[i].id));
    forest::lemma_sorted_distinct(ts, g);
    forest::lemma_preorder_bounds(ts, h, i);
    forest::lemma_preorder_all_bounds(ts, h, n, g);
    let own = seq![RowV { task_index: i, depth, has_children: g.len() > 0 }];
    let all = tree::rows_of(ts, h, look, i, depth);
    if look.expanded.contains(ts[i].id) {
        let below = tree::rows_below(ts, h, look, n, g, depth + 1);
        let walk = forest::preorder_all(ts, h, n, g);
        lemma_rows_below(ts, h, look, n, g, Some(ts[i].id), depth + 1);
        assert forall|x: int| has_row(all, x) implies #[trigger] forest::preorder(ts, h, i).contains(
            x,
        ) by {
            lemma_has_row_either(own, below, x);
            if has_row(own, x) {
                assert(own[0].task_index == x);
            } else {
                assert(walk.contains(x));
                let k = choose|k: int| 0 <= k < walk.len() && walk[k] == x;
                assert(forest::preorder(ts, h, i)[k + 1] == x);
            }
        }
        assert forall|a: int, b: int|
            0 <= a < all.len() && 0 <= b < all.len() && (#[trigger] all[a]).task_index == (
            #[trigger] all[b]).task_index implies a == b by {
            if a > 0 {
                assert(all[a] == below[a - 1]);
                assert(has_row(below, all[a].task_index));
                assert(walk.contains(all[a].task_index));
                let k = choose|k: int| 0 <= k < walk.len() && walk[k] == all[a].task_index;
                assert(h(ts[walk[k]].id) < n);
            }
            if b > 0 {
                assert(all[b] == below[b - 1]);
                assert(has_row(below, all[b].task_index));
                assert(walk.contains(all[b].task_index));
                let k = choose|k: int| 0 <= k < walk.len() && walk[k] == all[b].task_index;
                assert(h(ts[walk[k]].id) < n);
            }
        }
    }
}

/// The same for several siblings.
proof fn lemma_rows_below(
    ts: Seq<TaskV>,
    h: spec_fn(i64) -> nat,
    look: Look,
    n: nat,
    g: Seq<int>,
    parent: Option<i64>,
    depth: nat,
)
    requires
        forest::descends(ts, h),
        order::unique_ids(ts),
        g.no_duplicates(),
        forall|k: int|
            0 <= k < g.len() ==> 0 <= #[trigger] g[k] < ts.len() && ts[g[k]].parent_id == parent,
    ensures
        rows_distinct(tree::rows_below(ts, h, look, n, g, depth)),
        forall|x: int|
            has_row(tree::rows_below(ts, h, look, n, g, depth), x)
                ==> #[trigger] forest::preorder_all(ts, h, n, g).contains(x),
    decreases n, g.len(),
{
    if g.len() > 0 {
        let rest_g = g.drop_first();
        let all = tree::rows_below(ts, h, look, n, g, depth);
        let first = if tree::shown(look.visible, ts[g[0]].id) && h(ts[g[0]].id) < n {
            tree::rows_of(ts, h, look, g[0], depth)
        } else {
            seq![]
        };
        let rest = tree::rows_below(ts, h, look, n, rest_g, depth);
        assert forall|k: int| 0 <= k < rest_g.len() implies 0 <= #[trigger] rest_g[k] < ts.len()
            && ts[rest_g[k]].parent_id == parent by {
            assert(rest_g[k] == g[k + 1]);
        }
        lemma_rows_below(ts, h, look, n, rest_g, parent, depth);
        if h(ts[g[0]].id) < n {
            lemma_rows_of(ts, h, look, g[0], depth);
        }
        assert forall|x: int| has_row(all, x) implies #[trigger] forest::preorder_all(
            ts,
            h,
            n,
            g,
        ).contains(x) by {
            lemma_has_row_either(first, rest, x);
            if has_row(first, x) {
                assert(forest::preorder(ts, h, g[0]).contains(x));
                forest::lemma_in_preorder_all(ts, h, n, g, 0, x);
            } else {
                assert(forest::preorder_all(ts, h, n, rest_g).contains(x));
                let q = forest::lemma_from_preorder_all(ts, h, n, rest_g, x);
                assert(g[q + 1] == rest_g[q]);
                forest::lemma_in_preorder_all(ts, h, n, g, q + 1, x);
            }
        }
        assert forall|a: int, b: int|
            0 <= a < first.len() && first.len() <= b < all.len() implies (
        #[trigger] all[a]).task_index != (#[trigger] all[b]).task_index by {
            let x = all[a].task_index;
            assert(first[a].task_index == x);
            assert(has_row(first, x));
            assert(forest::preorder(ts, h, g[0]).contains(x));
            if all[b].task_index == x {
                assert(rest[b - first.len()].task_index == x);
                assert(has_row(rest, x));
                assert(forest::preorder_all(ts, h, n, rest_g).contains(x));
                let q = forest::lemma_from_preorder_all(ts, h, n, rest_g, x);
                assert(g[q + 1] == rest_g[q]);
                forest::lemma_siblings_disjoint(ts, h, g[0], rest_g[q], x);
            }
        }
        assert forall|a: int, b: int|
            0 <= a < all.len() && 0 <= b < all.len() && (#[trigger] all[a]).task_index == (
            #[trigger] all[b]).task_index implies a == b by {
            if a < first.len() && b < first.len() {
                assert(all[a] == first[a] && all[b] == first[b]);
            } else if a >= first.len() && b >= first.len() {
                assert(all[a] == rest[a - first.len()] && all[b] == rest[b - first.len()]);
            }
        }
    }
}

/// The rows of the top-level siblings are rows below a height that bounds
/// them all.
proof fn lemma_rows_top(ts: Seq<TaskV>, look: Look, g: Seq<int>, n: nat)
    requires
        forall|k: int| 0 <= k < g.len() ==> forest::heights(ts)(ts[#[trigger] g[k]].id) < n,
    ensures
        tree::rows_top(ts, look, g) == tree::rows_below(ts, forest::heights(ts), look, n, g, 0),
    decreases g.len(),
{
    if g.len() > 0 {
        let rest = g.drop_first();
        assert forall|k: int| 0 <= k < rest.len() implies forest::heights(ts)(
            ts[#[trigger] rest[k]].id,
        ) < n by {
            assert(rest[k] == g[k + 1]);
        }
        assert(forest::heights(ts)(ts[g[0]].id) < n);
        lemma_rows_top(ts, look, rest, n);
    }
}

/// A task has at most one row, so the cursor stands for one task only.
pub proof fn a_task_has_at_most_one_row(ts: Seq<TaskV>, look: Look, zoom_root: Option<i64>)
    requires
        forest::acyclic(ts),
        order::unique_ids(ts),
    ensures
        rows_distinct(tree::visible_rows(ts, look, zoom_root)),
{
    let h = forest::heights(ts);
    let g = forest::group(ts, zoom_root);
    let n = (forest::top(ts, h, ts.len() as int) + 1) as nat;
    forest::lemma_group_exists(ts, zoom_root);
    forest::lemma_sorted_distinct(ts, g);
    assert forall|k: int| 0 <= k < g.len() implies h(ts[#[trigger] g[k]].id) < n by {
        forest::lemma_top(ts, h, ts.len() as int, g[k]);
    }
    lemma_rows_top(ts, look, g, n);
    lemma_rows_below(ts, h, look, n, g, zoom_root, 0);
}

/// What has a row may be shown.
proof fn lemma_rows_shown(
    ts: Seq<TaskV>,
    h: spec_fn(i64) -> nat,
    look: Look,
    root: int,
    depth: nat,
    x: int,
)
    requires
        tree::shown(look.visible, ts[root].id),
        has_row(tree::rows_of(ts, h, look, root, depth), x),
    ensures
        tree::shown(look.visible, ts[x].id),
    decreases h(ts[root].id),
{
    let g = forest::group(ts, Some(ts[root].id));
    let own = seq![RowV { task_index: root, depth, has_children: g.len() > 0 }];
    if look.expanded.contains(ts[root].id) {
        let below = tree::rows_below(ts, h, look, h(ts[root].id), g, depth + 1);
        lemma_has_row_either(own, below, x);
        if has_row(own, x) {
            assert(own[0].task_index == x);
        } else {
            let q = lemma_from_below(ts, h, look, h(ts[root].id), g, depth + 1, x);
            lemma_rows_shown(ts, h, look, g[q], depth + 1, x);
        }
    } else {
        assert(own[0].task_index == x);
    }
}

/// Under a filter every row shows a task that passes it or is an ancestor of
/// one that does.
pub proof fn every_row_leads_to_a_match(
    ts: Seq<TaskV>,
    statuses: Seq<StatusV>,
    filter: Filter,
    today: Seq<char>,
    expanded: Set<i64>,
    zoom_root: Option<i64>,
    x: int,
)
    requires
        filter != Filter::All,
        has_row(
            tree::visible_rows(
                ts,
                Look { expanded, visible: tree::visible_ids(ts, statuses, filter, today) },
                zoom_root,
            ),
            x,
        ),
    ensures
        exists|i: int|
            0 <= i < ts.len() && tree::matches_filter(#[trigger] ts[i], statuses, filter, today) && (
            ts[x].id == ts[i].id || tree::ancestors(ts, ts[i].id).contains(ts[x].id)),
{
    let look = Look { expanded, visible: tree::visible_ids(ts, statuses, filter, today) };
    let g = forest::group(ts, zoom_root);
    let q = lemma_from_top(ts, look, g, x);
    lemma_rows_shown(ts, forest::heights(ts), look, g[q], 0, x);
    assert(tree::filter_ids(ts, statuses, filter, today).contains(ts[x].id));
}

/// A row shows whether its task has children.
pub open spec fn marks_children(ts: Seq<TaskV>, row: RowV) -> bool {
    row.has_children <==> exists|j: int|
        0 <= j < ts.len() && (#[trigger] ts[j]).parent_id == Some(ts[row.task_index].id)
}

/// The row at `k` stands under the row at `p`: that is its task's parent, one
/// level up, and what stands between is deeper than that.
pub open spec fn stands_under(ts: Seq<TaskV>, rows: Seq<RowV>, p: int, k: int) -> bool {
    &&& 0 <= p < k < rows.len()
    &&& ts[rows[k].task_index].parent_id == Some(ts[rows[p].task_index].id)
    &&& rows[k].depth == rows[p].depth + 1
    &&& forall|q: int| p < q < k ==> (#[trigger] rows[q]).depth > rows[p].depth
}

/// The row at `k` stands at the given depth under the given parent, or under
/// another of the rows.
spec fn nested_at(ts: Seq<TaskV>, rows: Seq<RowV>, parent: Option<i64>, depth: nat, k: int) -> bool {
    &&& rows[k].depth >= depth
    &&& marks_children(ts, rows[k])
    &&& (rows[k].depth == depth && ts[rows[k].task_index].parent_id == parent) || exists|p: int|
     #[trigger] stands_under(ts, rows, p, k)
}

spec fn nested(ts: Seq<TaskV>, rows: Seq<RowV>, parent: Option<i64>, depth: nat) -> bool {
    forall|k: int| 0 <= k < rows.len() ==> #[trigger] nested_at(ts, rows, parent, depth, k)
}

proof fn lemma_under_in_part(
    ts: Seq<TaskV>,
    a: Seq<RowV>,
    part: Seq<RowV>,
    b: Seq<RowV>,
    p: int,
    k: int,
)
    requires
        stands_under(ts, part, p, k),
    ensures
        stands_under(ts, a + part + b, p + a.len(), k + a.len()),
{
    let all = a + part + b;
    let n = a.len() as int;
    assert(all[p + n] == part[p] && all[k + n] == part[k]);
    assert forall|q: int| p + n < q < k + n implies (#[trigger] all[q]).depth > all[p + n].depth by {
        assert(all[q] == part[q - n]);
    }
}

proof fn lemma_nested_join(
    ts: Seq<TaskV>,
    a: Seq<RowV>,
    b: Seq<RowV>,
    parent: Option<i64>,
    depth: nat,
)
    requires
        nested(ts, a, parent, depth),
        nested(ts, b, parent, depth),
    ensures
        nested(ts, a + b, parent, depth),
{
    let all = a + b;
    let none = Seq::<RowV>::empty();
    let n = a.len() as int;
    assert(none + a + b =~= all);
    assert(a + b + none =~= all);
    assert forall|k: int| 0 <= k < all.len() implies nested_at(ts, all, parent, depth, k) by {
        if k < n {
            assert(all[k] == a[k]);
            assert(nested_at(ts, a, parent, depth, k));
            if !(a[k].depth == depth && ts[a[k].task_index].parent_id == parent) {
                let p = choose|p: int| #[trigger] stands_under(ts, a, p, k);
                lemma_under_in_part(ts, none, a, b, p, k);
                assert(stands_under(ts, all, p, k));
            }
        } else {
            let j = k - n;
            assert(all[k] == b[j]);
            assert(nested_at(ts, b, parent, depth, j));
            if !(b[j].depth == depth && ts[b[j].task_index].parent_id == parent) {
                let p = choose|p: int| #[trigger] stands_under(ts, b, p, j);
                lemma_under_in_part(ts, a, b, none, p, j);
                assert(stands_under(ts, all, p + n, k));
            }
        }
    }
}

proof fn lemma_rows_of_nested(ts: Seq<TaskV>, h: spec_fn(i64) -> nat, look: Look, i: int, depth: nat)
    requires
        0 <= i < ts.len(),
    ensures
        nested(ts, tree::rows_of(ts, h, look, i, depth), ts[i].parent_id, depth),
    decreases h(ts[i].id) + 1, 0nat,
{
    let n = h(ts[i].id);
    let g = forest::group(ts, Some(ts[i].id));
    forest::lemma_group_exists(ts, Some(ts[i].id));
    let row = RowV { task_index: i, depth, has_children: g.len() > 0 };
    let own = seq![row];
    let all = tree::rows_of(ts, h, look, i, depth);
    assert(marks_children(ts, row)) by {
        if g.len() > 0 {
            assert(ts[g[0]].parent_id == Some(ts[i].id));
        }
        if exists|j: int| 0 <= j < ts.len() && (#[trigger] ts[j]).parent_id == Some(ts[i].id) {
            let j = choose|j: int| 0 <= j < ts.len() && (#[trigger] ts[j]).parent_id == Some(ts[i].id);
            assert(g.contains(j));
        }
    }
    if look.expanded.contains(ts[i].id) {
        let below = tree::rows_below(ts, h, look, n, g, depth + 1);
        lemma_rows_below_nested(ts, h, look, n, g, Some(ts[i].id), depth + 1);
        let none = Seq::<RowV>::empty();
        assert(own + below + none =~= all);
        assert forall|k: int| 0 <= k < all.len() implies nested_at(
            ts,
            all,
            ts[i].parent_id,
            depth,
            k,
        ) by {
            if k > 0 {
                assert(all[k] == below[k - 1]);
                assert(nested_at(ts, below, Some(ts[i].id), depth + 1, k - 1));
                if below[k - 1].depth == depth + 1 && ts[below[k - 1].task_index].parent_id == Some(
                    ts[i].id,
                ) {
                    assert forall|q: int| 0 < q < k implies (#[trigger] all[q]).depth
                        > all[0].depth by {
                        assert(all[q] == below[q - 1]);
                        assert(nested_at(ts, below, Some(ts[i].id), depth + 1, q - 1));
                    }
                    assert(stands_under(ts, all, 0, k));
                } else {
                    let p = choose|p: int| #[trigger] stands_under(ts, below, p, k - 1);
                    lemma_under_in_part(ts, own, below, none, p, k - 1);
                    assert(stands_under(ts, all, p + 1, k));
                }
            }
        }
    } else {
        assert(all =~= own);
    }
}

proof fn lemma_rows_below_nested(
    ts: Seq<TaskV>,
    h: spec_fn(i64) -> nat,
    look: Look,
    n: nat,
    g: Seq<int>,
    parent: Option<i64>,
    depth: nat,
)
    requires
        forall|k: int|
            0 <= k < g.len() ==> 0 <= #[trigger] g[k] < ts.len() && ts[g[k]].parent_id == parent,
    ensures
        nested(ts, tree::rows_below(ts, h, look, n, g, depth), parent, depth),
    decreases n, g.len(),
{
    if g.len() > 0 {
        let rest_g = g.drop_first();
        assert forall|k: int| 0 <= k < rest_g.len() implies 0 <= #[trigger] rest_g[k] < ts.len()
            && ts[rest_g[k]].parent_id == parent by {
            assert(rest_g[k] == g[k + 1]);
        }
        let first = if tree::shown(look.visible, ts[g[0]].id) && h(ts[g[0]].id) < n {
            tree::rows_of(ts, h, look, g[0], depth)
        } else {
            seq![]
        };
        if h(ts[g[0]].id) < n {
            lemma_rows_of_nested(ts, h, look, g[0], depth);
        }
        lemma_rows_below_nested(ts, h, look, n, rest_g, parent, depth);
        lemma_nested_join(ts, first, tree::rows_below(ts, h, look, n, rest_g, depth), parent, depth);
    }
}

/// The rows stand nested: at the top level are the tasks whose parent the
/// view has as its root, any other row stands right under its parent's, one
/// level deeper, with nothing but deeper rows between. Each shows whether its
/// task has children.
pub proof fn the_rows_stand_nested(ts: Seq<TaskV>, look: Look, zoom_root: Option<i64>, k: int)
    requires
        forest::acyclic(ts),
        order::unique_ids(ts),
        0 <= k < tree::visible_rows(ts, look, zoom_root).len(),
    ensures
        ({
            let rows = tree::visible_rows(ts, look, zoom_root);
            &&& marks_children(ts, rows[k])
            &&& (rows[k].depth == 0 && ts[rows[k].task_index].parent_id == zoom_root) || exists|
                p: int,
            | #[trigger] stands_under(ts, rows, p, k)
        }),
{
    let h = forest::heights(ts);
    let g = forest::group(ts, zoom_root);
    let n = (forest::top(ts, h, ts.len() as int) + 1) as nat;
    forest::lemma_group_exists(ts, zoom_root);
    assert forall|j: int| 0 <= j < g.len() implies h(ts[#[trigger] g[j]].id) < n by {
        forest::lemma_top(ts, h, ts.len() as int, g[j]);
    }
    lemma_rows_top(ts, look, g, n);
    lemma_rows_below_nested(ts, h, look, n, g, zoom_root, 0);
    assert(nested_at(ts, tree::visible_rows(ts, look, zoom_root), zoom_root, 0, k));
}

/// Siblings among the rows come by display order.
spec fn by_order(ts: Seq<TaskV>, rows: Seq<RowV>) -> bool {
    forall|p: int, q: int|
        0 <= p < q < rows.len() && ts[(#[trigger] rows[p]).task_index].parent_id == ts[(
        #[trigger] rows[q]).task_index].parent_id ==> ts[rows[p].task_index].display_order
            <= ts[rows[q].task_index].display_order
}

/// Tasks with one parent in the subtrees of two siblings are those siblings.
proof fn lemma_same_parent_across(
    ts: Seq<TaskV>,
    h: spec_fn(i64) -> nat,
    a: int,
    b: int,
    x: int,
    y: int,
)
    requires
        forest::descends(ts, h),
        order::unique_ids(ts),
        0 <= a < ts.len(),
        0 <= b < ts.len(),
        a != b,
        ts[a].parent_id == ts[b].parent_id,
        forest::preorder(ts, h, a).contains(x),
        forest::preorder(ts, h, b).contains(y),
        ts[x].parent_id == ts[y].parent_id,
    ensures
        x == a,
        y == b,
{
    forest::lemma_preorder_bounds(ts, h, a);
    forest::lemma_preorder_bounds(ts, h, b);
    if x != a {
        let p = forest::lemma_parent_in_subtree(ts, h, a, x);
        let w = forest::preorder(ts, h, a);
        let k = choose|k: int| 0 <= k < w.len() && w[k] == p;
        assert(h(ts[w[k]].id) <= h(ts[a].id));
        if y == b {
            assert(ts[b].parent_id == Some(ts[p].id));
            assert(h(ts[a].id) < h(ts[p].id));
        } else {
            let q = forest::lemma_parent_in_subtree(ts, h, b, y);
            assert(ts[p].id == ts[q].id);
            assert(p == q);
            forest::lemma_siblings_disjoint(ts, h, a, b, p);
        }
    } else if y != b {
        let q = forest::lemma_parent_in_subtree(ts, h, b, y);
        let w = forest::preorder(ts, h, b);
        let k = choose|k: int| 0 <= k < w.len() && w[k] == q;
        assert(h(ts[w[k]].id) <= h(ts[b].id));
        assert(ts[a].parent_id == Some(ts[q].id));
        assert(h(ts[b].id) < h(ts[q].id));
    }
}

proof fn lemma_rows_of_by_order(
    ts: Seq<TaskV>,
    h: spec_fn(i64) -> nat,
    look: Look,
    i: int,
    depth: nat,
)
    requires
        forest::descends(ts, h),
        order::unique_ids(ts),
        0 <= i < ts.len(),
    ensures
        by_order(ts, tree::rows_of(ts, h, look, i, depth)),
    decreases h(ts[i].id) + 1, 0nat,
{
    let n = h(ts[i].id);
    let g = forest::group(ts, Some(ts[i].id));
    forest::lemma_group_exists(ts, Some(ts[i].id));
    let all = tree::rows_of(ts, h, look, i, depth);
    if look.expanded.contains(ts[i].id) {
        let below = tree::rows_below(ts, h, look, n, g, depth + 1);
        lemma_rows_below_by_order(ts, h, look, n, g, Some(ts[i].id), depth + 1);
        lemma_rows_of(ts, h, look, i, depth);
        forest::lemma_preorder_bounds(ts, h, i);
        assert forall|p: int, q: int|
            0 <= p < q < all.len() && ts[(#[trigger] all[p]).task_index].parent_id == ts[(
            #[trigger] all[q]).task_index].parent_id implies ts[all[p].task_index].display_order
            <= ts[all[q].task_index].display_order by {
            assert(all[q] == below[q - 1]);
            if p > 0 {
                assert(all[p] == below[p - 1]);
            } else {
                let y = all[q].task_index;
                assert(has_row(all, y));
                assert(forest::preorder(ts, h, i).contains(y));
                assert(y != i) by {
                    if y == i {
                        assert(all[0].task_index == all[q].task_index);
                    }
                }
                let r = forest::lemma_parent_in_subtree(ts, h, i, y);
                let w = forest::preorder(ts, h, i);
                let k = choose|k: int| 0 <= k < w.len() && w[k] == r;
                assert(h(ts[w[k]].id) <= h(ts[i].id));
                assert(ts[i].parent_id == Some(ts[r].id));
                assert(h(ts[i].id) < h(ts[r].id));
            }
        }
    }
}

proof fn lemma_rows_below_by_order(
    ts: Seq<TaskV>,
    h: spec_fn(i64) -> nat,
    look: Look,
    n: nat,
    g: Seq<int>,
    parent: Option<i64>,
    depth: nat,
)
    requires
        forest::descends(ts, h),
        order::unique_ids(ts),
        order::sorted(g, forest::sibling_order(ts)),
        forall|k: int|
            0 <= k < g.len() ==> 0 <= #[trigger] g[k] < ts.len() && ts[g[k]].parent_id == parent,
    ensures
        by_order(ts, tree::rows_below(ts, h, look, n, g, depth)),
    decreases n, g.len(),
{
    if g.len() > 0 {
        let rest_g = g.drop_first();
        assert forall|k: int| 0 <= k < rest_g.len() implies 0 <= #[trigger] rest_g[k] < ts.len()
            && ts[rest_g[k]].parent_id == parent by {
            assert(rest_g[k] == g[k + 1]);
        }
        assert forall|i: int, j: int| 0 <= i < j < rest_g.len() implies #[trigger] forest::sibling_order(
            ts,
        )(rest_g[i], rest_g[j]) by {
            assert(forest::sibling_order(ts)(g[i + 1], g[j + 1]));
        }
        let first = if tree::shown(look.visible, ts[g[0]].id) && h(ts[g[0]].id) < n {
            tree::rows_of(ts, h, look, g[0], depth)
        } else {
            seq![]
        };
        let rest = tree::rows_below(ts, h, look, n, rest_g, depth);
        let all = tree::rows_below(ts, h, look, n, g, depth);
        lemma_rows_below_by_order(ts, h, look, n, rest_g, parent, depth);
        forest::lemma_sorted_distinct(ts, rest_g);
        lemma_rows_below(ts, h, look, n, rest_g, parent, depth);
        if h(ts[g[0]].id) < n {
            lemma_rows_of_by_order(ts, h, look, g[0], depth);
            lemma_rows_of(ts, h, look, g[0], depth);
        }
        assert forall|p: int, q: int|
            0 <= p < q < all.len() && ts[(#[trigger] all[p]).task_index].parent_id == ts[(
            #[trigger] all[q]).task_index].parent_id implies ts[all[p].task_index].display_order
            <= ts[all[q].task_index].display_order by {
            let m = first.len() as int;
            if q < m {
                assert(all[p] == first[p] && all[q] == first[q]);
            } else if p >= m {
                assert(all[p] == rest[p - m] && all[q] == rest[q - m]);
            } else {
                let x = all[p].task_index;
                let y = all[q].task_index;
                assert(first[p].task_index == x);
                assert(has_row(first, x));
                assert(rest[q - m].task_index == y);
                assert(has_row(rest, y));
                assert(forest::preorder(ts, h, g[0]).contains(x));
                assert(forest::preorder_all(ts, h, n, rest_g).contains(y));
                let b = forest::lemma_from_preorder_all(ts, h, n, rest_g, y);
                assert(rest_g[b] == g[b + 1]);
                assert(forest::sibling_order(ts)(g[0], g[b + 1]));
                lemma_same_parent_across(ts, h, g[0], g[b + 1], x, y);
            }
        }
    }
}

/// Of two siblings among the rows the one with the lower display order comes
/// first.
pub proof fn sibling_rows_come_by_display_order(
    ts: Seq<TaskV>,
    look: Look,
    zoom_root: Option<i64>,
    p: int,
    q: int,
)
    requires
        forest::acyclic(ts),
        order::unique_ids(ts),
        0 <= p < q < tree::visible_rows(ts, look, zoom_root).len(),
    ensures
        ({
            let rows = tree::visible_rows(ts, look, zoom_root);
            let a = ts[rows[p].task_index];
            let b = ts[rows[q].task_index];
            a.parent_id == b.parent_id ==> a.display_order <= b.display_order
        }),
{
    let h = forest::heights(ts);
    let g = forest::group(ts, zoom_root);
    let n = (forest::top(ts, h, ts.len() as int) + 1) as nat;
    forest::lemma_group_exists(ts, zoom_root);
    assert forall|j: int| 0 <= j < g.len() implies h(ts[#[trigger] g[j]].id) < n by {
        forest::lemma_top(ts, h, ts.len() as int, g[j]);
    }
    lemma_rows_top(ts, look, g, n);
    lemma_rows_below_by_order(ts, h, look, n, g, zoom_root, 0);
}

} // verus!

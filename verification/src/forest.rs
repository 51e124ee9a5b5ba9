//! The tree that parent links make of a list of tasks: sibling groups and
//! the depth-first walk (parents before children, siblings by display
//! order). Tasks are referred to by their index in the list.
use vstd::prelude::*;

use crate::order;
use crate::task;
use crate::task::{Task, TaskV};

verus! {

/// Sibling order of the tasks at two indices: by display order, ties by
/// position in the list.
pub open spec fn sibling_before(ts: Seq<TaskV>, i: int, j: int) -> bool {
    ts[i].display_order < ts[j].display_order || (ts[i].display_order == ts[j].display_order && i
        < j)
}

pub open spec fn sibling_order(ts: Seq<TaskV>) -> spec_fn(int, int) -> bool {
    |i: int, j: int| sibling_before(ts, i, j)
}

pub open spec fn is_group(g: Seq<int>, ts: Seq<TaskV>, parent: Option<i64>) -> bool {
    &&& order::sorted(g, sibling_order(ts))
    &&& forall|k: int|
        0 <= k < g.len() ==> 0 <= #[trigger] g[k] < ts.len() && ts[g[k]].parent_id == parent
    &&& forall|i: int| 0 <= i < ts.len() && (#[trigger] ts[i]).parent_id == parent ==> g.contains(i)
}

/// The tasks with this parent, in sibling order.
pub open spec fn group(ts: Seq<TaskV>, parent: Option<i64>) -> Seq<int> {
    choose|g: Seq<int>| is_group(g, ts, parent)
}

/// There is only one such sequence.
pub proof fn lemma_group_unique(g: Seq<int>, ts: Seq<TaskV>, parent: Option<i64>)
    requires
        is_group(g, ts, parent),
    ensures
        g == group(ts, parent),
{
    let c = group(ts, parent);
    assert(is_group(c, ts, parent));
    assert forall|i: int| 0 <= i < g.len() implies c.contains(#[trigger] g[i]) by {
        assert(ts[g[i]].parent_id == parent);
    }
    assert forall|i: int| 0 <= i < c.len() implies g.contains(#[trigger] c[i]) by {
        assert(ts[c[i]].parent_id == parent);
    }
    order::lemma_sorted_unique(g, c, sibling_order(ts));
}

/// Every list of tasks has its sibling groups.
pub proof fn lemma_group_exists(ts: Seq<TaskV>, parent: Option<i64>)
    ensures
        is_group(group(ts, parent), ts, parent),
{
    lemma_prefix_group(ts, parent, ts.len() as int);
}

/// Whether `g` is the group among the first `n` tasks.
spec fn is_prefix_group(g: Seq<int>, ts: Seq<TaskV>, parent: Option<i64>, n: int) -> bool {
    &&& order::sorted(g, sibling_order(ts))
    &&& forall|k: int|
        0 <= k < g.len() ==> 0 <= #[trigger] g[k] < n && ts[g[k]].parent_id == parent
    &&& forall|i: int| 0 <= i < n && (#[trigger] ts[i]).parent_id == parent ==> g.contains(i)
}

proof fn lemma_prefix_group(ts: Seq<TaskV>, parent: Option<i64>, n: int)
    requires
        0 <= n <= ts.len(),
    ensures
        exists|g: Seq<int>| is_prefix_group(g, ts, parent, n),
        n == ts.len() ==> is_group(group(ts, parent), ts, parent),
    decreases n,
{
    if n == 0 {
        assert(is_prefix_group(Seq::empty(), ts, parent, 0));
    } else {
        let m = n - 1;
        lemma_prefix_group(ts, parent, m);
        let g = choose|g: Seq<int>| is_prefix_group(g, ts, parent, m);
        if ts[n - 1].parent_id == parent {
            let k = place(g, ts, n - 1, g.len() as int);
            lemma_place(g, ts, n - 1, g.len() as int);
            lemma_insert_in_group(g, ts, parent, n - 1, k);
            assert(is_prefix_group(g.insert(k, n - 1), ts, parent, n));
        } else {
            assert(is_prefix_group(g, ts, parent, n));
        }
    }
    if n == ts.len() {
        let g = choose|g: Seq<int>| is_prefix_group(g, ts, parent, n);
        assert(is_group(g, ts, parent));
    }
}

/// Where the task at index `x` goes among the first `k` of a group.
spec fn place(g: Seq<int>, ts: Seq<TaskV>, x: int, k: int) -> int
    decreases k,
{
    if k > 0 && ts[x].display_order < ts[g[k - 1]].display_order {
        place(g, ts, x, k - 1)
    } else {
        k
    }
}

proof fn lemma_place(g: Seq<int>, ts: Seq<TaskV>, x: int, k: int)
    requires
        0 <= k <= g.len(),
    ensures
        0 <= place(g, ts, x, k) <= k,
        forall|i: int|
            place(g, ts, x, k) <= i < k ==> ts[x].display_order < ts[#[trigger] g[i]].display_order,
        place(g, ts, x, k) > 0 ==> ts[g[place(g, ts, x, k) - 1]].display_order
            <= ts[x].display_order,
    decreases k,
{
    if k > 0 && ts[x].display_order < ts[g[k - 1]].display_order {
        lemma_place(g, ts, x, k - 1);
    }
}

/// Inserting the next task at its place keeps a group a group.
proof fn lemma_insert_in_group(g: Seq<int>, ts: Seq<TaskV>, parent: Option<i64>, x: int, k: int)
    requires
        is_prefix_group(g, ts, parent, x),
        0 <= x < ts.len(),
        ts[x].parent_id == parent,
        0 <= k <= g.len(),
        forall|i: int| k <= i < g.len() ==> ts[x].display_order < ts[#[trigger] g[i]].display_order,
        k > 0 ==> ts[g[k - 1]].display_order <= ts[x].display_order,
    ensures
        is_prefix_group(g.insert(k, x), ts, parent, x + 1),
{
    let r = g.insert(k, x);
    assert forall|i: int, j: int| 0 <= i < j < r.len() implies #[trigger] sibling_order(ts)(
        r[i],
        r[j],
    ) by {
        if i < k {
            if k > 0 && i < k - 1 {
                assert(sibling_order(ts)(g[i], g[k - 1]));
            }
            assert(0 <= g[i] < x);
        }
        if i < k && j > k {
            assert(sibling_order(ts)(g[i], g[j - 1]));
        } else if i < k && j < k {
            assert(sibling_order(ts)(g[i], g[j]));
        } else if i > k {
            assert(sibling_order(ts)(g[i - 1], g[j - 1]));
        }
    }
    assert forall|i: int| 0 <= i < x + 1 && (#[trigger] ts[i]).parent_id == parent implies r.contains(
        i,
    ) by {
        if i == x {
            assert(r[k] == x);
        } else {
            assert(g.contains(i));
            let q = choose|q: int| 0 <= q < g.len() && g[q] == i;
            let p = if q < k {
                q
            } else {
                q + 1
            };
            assert(r[p] == i);
        }
    }
}

/// `h` falls along every parent link.
pub open spec fn descends(ts: Seq<TaskV>, h: spec_fn(i64) -> nat) -> bool {
    forall|i: int|
        0 <= i < ts.len() && (#[trigger] ts[i]).parent_id is Some ==> h(ts[i].id) < h(
            ts[i].parent_id->Some_0,
        )
}

/// The parent links close no cycle: some measure falls along all of them.
pub open spec fn acyclic(ts: Seq<TaskV>) -> bool {
    exists|h: spec_fn(i64) -> nat| descends(ts, h)
}

/// A measure that falls along the parent links.
pub open spec fn heights(ts: Seq<TaskV>) -> spec_fn(i64) -> nat {
    choose|h: spec_fn(i64) -> nat| descends(ts, h)
}

/// The depth-first walk of the subtree of the task at index `i`, with `h`
/// bounding its depth.
pub open spec fn preorder(ts: Seq<TaskV>, h: spec_fn(i64) -> nat, i: int) -> Seq<int>
    decreases h(ts[i].id) + 1, 0nat,
{
    seq![i] + preorder_all(ts, h, h(ts[i].id), group(ts, Some(ts[i].id)))
}

/// The walks of the subtrees of `g`, one after the other. Only subtrees
/// below the bound `n` are entered.
pub open spec fn preorder_all(
    ts: Seq<TaskV>,
    h: spec_fn(i64) -> nat,
    n: nat,
    g: Seq<int>,
) -> Seq<int>
    decreases n, g.len(),
{
    if g.len() == 0 {
        seq![]
    } else if h(ts[g[0]].id) < n {
        preorder(ts, h, g[0]) + preorder_all(ts, h, n, g.drop_first())
    } else {
        preorder_all(ts, h, n, g.drop_first())
    }
}

/// The subtree of the task at index `i`, root first and every parent before
/// its descendants.
pub open spec fn subtree(ts: Seq<TaskV>, i: int) -> Seq<int> {
    preorder(ts, heights(ts), i)
}

/// Every member of a subtree is a task of the list.
pub proof fn lemma_preorder_bounds(ts: Seq<TaskV>, h: spec_fn(i64) -> nat, i: int)
    requires
        0 <= i < ts.len(),
    ensures
        preorder(ts, h, i).contains(i),
        forall|k: int| 0 <= k < preorder(ts, h, i).len() ==> 0 <= #[trigger] preorder(ts, h, i)[k] < ts.len(),
        forall|k: int|
            0 <= k < preorder(ts, h, i).len() ==> h(ts[#[trigger] preorder(ts, h, i)[k]].id) <= h(
                ts[i].id,
            ),
    decreases h(ts[i].id) + 1, 0nat,
{
    let g = group(ts, Some(ts[i].id));
    lemma_group_exists(ts, Some(ts[i].id));
    lemma_preorder_all_bounds(ts, h, h(ts[i].id), g);
    assert(preorder(ts, h, i)[0] == i);
}

/// The same for several subtrees.
pub proof fn lemma_preorder_all_bounds(
    ts: Seq<TaskV>,
    h: spec_fn(i64) -> nat,
    n: nat,
    g: Seq<int>,
)
    requires
        forall|k: int| 0 <= k < g.len() ==> 0 <= #[trigger] g[k] < ts.len(),
    ensures
        forall|k: int|
            0 <= k < preorder_all(ts, h, n, g).len() ==> 0 <= #[trigger] preorder_all(ts, h, n, g)[k]
                < ts.len(),
        forall|k: int|
            0 <= k < preorder_all(ts, h, n, g).len() ==> h(
                ts[#[trigger] preorder_all(ts, h, n, g)[k]].id,
            ) < n,
    decreases n, g.len(),
{
    if g.len() > 0 {
        lemma_preorder_all_bounds(ts, h, n, g.drop_first());
        if h(ts[g[0]].id) < n {
            lemma_preorder_bounds(ts, h, g[0]);
        }
    }
}

/// The walk does not depend on the measure that bounds it.
pub proof fn lemma_preorder_any_height(
    ts: Seq<TaskV>,
    h: spec_fn(i64) -> nat,
    h2: spec_fn(i64) -> nat,
    i: int,
)
    requires
        descends(ts, h),
        descends(ts, h2),
        0 <= i < ts.len(),
    ensures
        preorder(ts, h, i) == preorder(ts, h2, i),
    decreases h(ts[i].id) + 1, 0nat,
{
    let g = group(ts, Some(ts[i].id));
    lemma_group_exists(ts, Some(ts[i].id));
    assert forall|k: int| 0 <= k < g.len() implies h(ts[#[trigger] g[k]].id) < h(ts[i].id) && h2(
        ts[g[k]].id,
    ) < h2(ts[i].id) by {
        assert(ts[g[k]].parent_id == Some(ts[i].id));
    }
    lemma_preorder_all_any_height(ts, h, h2, h(ts[i].id), h2(ts[i].id), g);
}

/// The same for several subtrees.
pub proof fn lemma_preorder_all_any_height(
    ts: Seq<TaskV>,
    h: spec_fn(i64) -> nat,
    h2: spec_fn(i64) -> nat,
    n: nat,
    n2: nat,
    g: Seq<int>,
)
    requires
        descends(ts, h),
        descends(ts, h2),
        forall|k: int|
            0 <= k < g.len() ==> 0 <= #[trigger] g[k] < ts.len() && h(ts[g[k]].id) < n && h2(
                ts[g[k]].id,
            ) < n2,
    ensures
        preorder_all(ts, h, n, g) == preorder_all(ts, h2, n2, g),
    decreases n, g.len(),
{
    if g.len() > 0 {
        assert(0 <= g[0] < ts.len());
        lemma_preorder_any_height(ts, h, h2, g[0]);
        assert forall|k: int| 0 <= k < g.drop_first().len() implies 0 <= #[trigger] g.drop_first()[k]
            < ts.len() && h(ts[g.drop_first()[k]].id) < n && h2(ts[g.drop_first()[k]].id) < n2 by {
            assert(g.drop_first()[k] == g[k + 1]);
        }
        lemma_preorder_all_any_height(ts, h, h2, n, n2, g.drop_first());
    }
}

/// Where a subtree among several holds a task, all of them together do.
pub proof fn lemma_in_preorder_all(
    ts: Seq<TaskV>,
    h: spec_fn(i64) -> nat,
    n: nat,
    g: Seq<int>,
    q: int,
    x: int,
)
    requires
        0 <= q < g.len(),
        h(ts[g[q]].id) < n,
        preorder(ts, h, g[q]).contains(x),
    ensures
        preorder_all(ts, h, n, g).contains(x),
    decreases g.len(),
{
    let rest = preorder_all(ts, h, n, g.drop_first());
    if q == 0 {
        let k = choose|k: int| 0 <= k < preorder(ts, h, g[0]).len() && preorder(ts, h, g[0])[k] == x;
        assert((preorder(ts, h, g[0]) + rest)[k] == x);
    } else {
        assert(g.drop_first()[q - 1] == g[q]);
        lemma_in_preorder_all(ts, h, n, g.drop_first(), q - 1, x);
        let k = choose|k: int| 0 <= k < rest.len() && rest[k] == x;
        if h(ts[g[0]].id) < n {
            assert((preorder(ts, h, g[0]) + rest)[preorder(ts, h, g[0]).len() + k] == x);
        }
    }
}

/// A task in several subtrees together is in one of them.
pub proof fn lemma_from_preorder_all(
    ts: Seq<TaskV>,
    h: spec_fn(i64) -> nat,
    n: nat,
    g: Seq<int>,
    x: int,
) -> (q: int)
    requires
        preorder_all(ts, h, n, g).contains(x),
    ensures
        0 <= q < g.len(),
        h(ts[g[q]].id) < n,
        preorder(ts, h, g[q]).contains(x),
    decreases g.len(),
{
    let all = preorder_all(ts, h, n, g);
    let k = choose|k: int| 0 <= k < all.len() && all[k] == x;
    if g.len() == 0 {
        assert(false);
        0
    } else {
        let rest = preorder_all(ts, h, n, g.drop_first());
        if h(ts[g[0]].id) < n {
            let first = preorder(ts, h, g[0]);
            if k < first.len() {
                assert(first[k] == x);
                0
            } else {
                assert(rest[k - first.len()] == x);
                let q = lemma_from_preorder_all(ts, h, n, g.drop_first(), x);
                assert(g.drop_first()[q] == g[q + 1]);
                q + 1
            }
        } else {
            let q = lemma_from_preorder_all(ts, h, n, g.drop_first(), x);
            assert(g.drop_first()[q] == g[q + 1]);
            q + 1
        }
    }
}

/// A subtree is closed under children.
pub proof fn lemma_child_in_subtree(
    ts: Seq<TaskV>,
    h: spec_fn(i64) -> nat,
    root: int,
    x: int,
    c: int,
)
    requires
        descends(ts, h),
        0 <= root < ts.len(),
        0 <= c < ts.len(),
        preorder(ts, h, root).contains(x),
        ts[c].parent_id == Some(ts[x].id),
    ensures
        preorder(ts, h, root).contains(c),
    decreases h(ts[root].id),
{
    let g = group(ts, Some(ts[root].id));
    lemma_group_exists(ts, Some(ts[root].id));
    let all = preorder_all(ts, h, h(ts[root].id), g);
    let k = choose|k: int| 0 <= k < preorder(ts, h, root).len() && preorder(ts, h, root)[k] == x;
    let q = if x == root {
        assert(g.contains(c));
        let q = choose|q: int| 0 <= q < g.len() && g[q] == c;
        assert(ts[g[q]].parent_id is Some);
        lemma_preorder_bounds(ts, h, c);
        q
    } else {
        assert(all[k - 1] == x);
        let q = lemma_from_preorder_all(ts, h, h(ts[root].id), g, x);
        lemma_child_in_subtree(ts, h, g[q], x, c);
        q
    };
    lemma_in_preorder_all(ts, h, h(ts[root].id), g, q, c);
    let j = choose|j: int| 0 <= j < all.len() && all[j] == c;
    assert(preorder(ts, h, root)[j + 1] == c);
}

/// A member of a subtree other than its root has its parent there too.
pub proof fn lemma_parent_in_subtree(
    ts: Seq<TaskV>,
    h: spec_fn(i64) -> nat,
    root: int,
    x: int,
) -> (p: int)
    requires
        descends(ts, h),
        0 <= root < ts.len(),
        preorder(ts, h, root).contains(x),
        x != root,
    ensures
        0 <= p < ts.len(),
        0 <= x < ts.len(),
        ts[x].parent_id == Some(ts[p].id),
        preorder(ts, h, root).contains(p),
    decreases h(ts[root].id),
{
    let g = group(ts, Some(ts[root].id));
    lemma_group_exists(ts, Some(ts[root].id));
    let all = preorder_all(ts, h, h(ts[root].id), g);
    let k = choose|k: int| 0 <= k < preorder(ts, h, root).len() && preorder(ts, h, root)[k] == x;
    assert(all[k - 1] == x);
    let q = lemma_from_preorder_all(ts, h, h(ts[root].id), g, x);
    if x == g[q] {
        assert(ts[g[q]].parent_id == Some(ts[root].id));
        assert(preorder(ts, h, root)[0] == root);
        root
    } else {
        let p = lemma_parent_in_subtree(ts, h, g[q], x);
        lemma_in_preorder_all(ts, h, h(ts[root].id), g, q, p);
        let j = choose|j: int| 0 <= j < all.len() && all[j] == p;
        assert(preorder(ts, h, root)[j + 1] == p);
        p
    }
}

/// Of two subtrees that share a task, one lies in the other.
proof fn lemma_comparable(ts: Seq<TaskV>, h: spec_fn(i64) -> nat, a: int, b: int, x: int)
    requires
        descends(ts, h),
        order::unique_ids(ts),
        0 <= a < ts.len(),
        0 <= b < ts.len(),
        preorder(ts, h, a).contains(x),
        preorder(ts, h, b).contains(x),
    ensures
        preorder(ts, h, a).contains(b) || preorder(ts, h, b).contains(a),
    decreases h(ts[a].id) - h(ts[x].id),
{
    lemma_preorder_bounds(ts, h, a);
    if x != a && x != b {
        let p = lemma_parent_in_subtree(ts, h, a, x);
        let p2 = lemma_parent_in_subtree(ts, h, b, x);
        assert(ts[p].id == ts[p2].id);
        assert(h(ts[x].id) < h(ts[p].id));
        let k = choose|k: int| 0 <= k < preorder(ts, h, a).len() && preorder(ts, h, a)[k] == p;
        assert(h(ts[preorder(ts, h, a)[k]].id) <= h(ts[a].id));
        lemma_comparable(ts, h, a, b, p);
    }
}

/// Subtrees of different siblings share nothing.
pub proof fn lemma_siblings_disjoint(ts: Seq<TaskV>, h: spec_fn(i64) -> nat, a: int, b: int, x: int)
    requires
        descends(ts, h),
        order::unique_ids(ts),
        0 <= a < ts.len(),
        0 <= b < ts.len(),
        a != b,
        ts[a].parent_id == ts[b].parent_id,
        preorder(ts, h, a).contains(x),
    ensures
        !preorder(ts, h, b).contains(x),
{
    if preorder(ts, h, b).contains(x) {
        lemma_comparable(ts, h, a, b, x);
        if preorder(ts, h, a).contains(b) {
            let p = lemma_parent_in_subtree(ts, h, a, b);
            lemma_preorder_bounds(ts, h, a);
            let k = choose|k: int| 0 <= k < preorder(ts, h, a).len() && preorder(ts, h, a)[k] == p;
            assert(h(ts[preorder(ts, h, a)[k]].id) <= h(ts[a].id));
        } else {
            let p = lemma_parent_in_subtree(ts, h, b, a);
            lemma_preorder_bounds(ts, h, b);
            let k = choose|k: int| 0 <= k < preorder(ts, h, b).len() && preorder(ts, h, b)[k] == p;
            assert(h(ts[preorder(ts, h, b)[k]].id) <= h(ts[b].id));
        }
    }
}

/// A walk visits no task twice.
pub proof fn lemma_preorder_no_duplicates(ts: Seq<TaskV>, h: spec_fn(i64) -> nat, i: int)
    requires
        descends(ts, h),
        order::unique_ids(ts),
        0 <= i < ts.len(),
    ensures
        preorder(ts, h, i).no_duplicates(),
    decreases h(ts[i].id) + 1, 0nat,
{
    let g = group(ts, Some(ts[i].id));
    let n = h(ts[i].id);
    lemma_group_exists(ts, Some(ts[i].id));
    lemma_sorted_distinct(ts, g);
    lemma_preorder_all_no_duplicates(ts, h, n, g, Some(ts[i].id));
    lemma_preorder_all_bounds(ts, h, n, g);
    let all = preorder_all(ts, h, n, g);
    let whole = preorder(ts, h, i);
    assert forall|a: int, b: int| 0 <= a < whole.len() && 0 <= b < whole.len() && a != b implies whole[a]
        != whole[b] by {
        if a > 0 {
            assert(whole[a] == all[a - 1]);
        }
        if b > 0 {
            assert(whole[b] == all[b - 1]);
        }
    }
}

pub proof fn lemma_sorted_distinct(ts: Seq<TaskV>, g: Seq<int>)
    requires
        order::sorted(g, sibling_order(ts)),
    ensures
        g.no_duplicates(),
{
    assert forall|a: int, b: int| 0 <= a < g.len() && 0 <= b < g.len() && a != b implies g[a]
        != g[b] by {
        if a < b {
            assert(sibling_order(ts)(g[a], g[b]));
        } else {
            assert(sibling_order(ts)(g[b], g[a]));
        }
    }
}

/// The same for the subtrees of several siblings.
pub proof fn lemma_preorder_all_no_duplicates(
    ts: Seq<TaskV>,
    h: spec_fn(i64) -> nat,
    n: nat,
    g: Seq<int>,
    parent: Option<i64>,
)
    requires
        descends(ts, h),
        order::unique_ids(ts),
        g.no_duplicates(),
        forall|k: int|
            0 <= k < g.len() ==> 0 <= #[trigger] g[k] < ts.len() && ts[g[k]].parent_id == parent,
    ensures
        preorder_all(ts, h, n, g).no_duplicates(),
    decreases n, g.len(),
{
    if g.len() > 0 {
        let rest_g = g.drop_first();
        assert forall|k: int| 0 <= k < rest_g.len() implies 0 <= #[trigger] rest_g[k] < ts.len()
            && ts[rest_g[k]].parent_id == parent by {
            assert(rest_g[k] == g[k + 1]);
        }
        lemma_preorder_all_no_duplicates(ts, h, n, rest_g, parent);
        if h(ts[g[0]].id) < n {
            lemma_preorder_no_duplicates(ts, h, g[0]);
            let first = preorder(ts, h, g[0]);
            let rest = preorder_all(ts, h, n, rest_g);
            let all = first + rest;
            assert forall|a: int, b: int|
                0 <= a < all.len() && 0 <= b < all.len() && a != b implies all[a] != all[b] by {
                if a < first.len() && b >= first.len() && all[a] == all[b] {
                    lemma_groups_disjoint(ts, h, n, g, parent, a, b);
                } else if b < first.len() && a >= first.len() && all[a] == all[b] {
                    lemma_groups_disjoint(ts, h, n, g, parent, b, a);
                } else if a < first.len() {
                    assert(all[a] == first[a] && all[b] == first[b] || b >= first.len());
                } else {
                    assert(all[a] == rest[a - first.len()]);
                    assert(all[b] == rest[b - first.len()] || b < first.len());
                }
            }
        }
    }
}

proof fn lemma_groups_disjoint(
    ts: Seq<TaskV>,
    h: spec_fn(i64) -> nat,
    n: nat,
    g: Seq<int>,
    parent: Option<i64>,
    a: int,
    b: int,
)
    requires
        descends(ts, h),
        order::unique_ids(ts),
        g.len() > 0,
        g.no_duplicates(),
        h(ts[g[0]].id) < n,
        forall|k: int|
            0 <= k < g.len() ==> 0 <= #[trigger] g[k] < ts.len() && ts[g[k]].parent_id == parent,
        0 <= a < preorder(ts, h, g[0]).len(),
        preorder(ts, h, g[0]).len() <= b < (preorder(ts, h, g[0]) + preorder_all(
            ts,
            h,
            n,
            g.drop_first(),
        )).len(),
    ensures
        preorder(ts, h, g[0])[a] != preorder_all(ts, h, n, g.drop_first())[b - preorder(
            ts,
            h,
            g[0],
        ).len()],
{
    let first = preorder(ts, h, g[0]);
    let rest = preorder_all(ts, h, n, g.drop_first());
    let x = first[a];
    if x == rest[b - first.len()] {
        assert(rest.contains(x));
        let q = lemma_from_preorder_all(ts, h, n, g.drop_first(), x);
        assert(g.drop_first()[q] == g[q + 1]);
        assert(first.contains(x));
        lemma_siblings_disjoint(ts, h, g[0], g[q + 1], x);
    }
}

/// Indices as integers.
pub open spec fn ints(v: Seq<usize>) -> Seq<int> {
    v.map_values(|u: usize| u as int)
}

/// The indices of the tasks with this parent, in sibling order.
pub fn group_of(ts: &Vec<Task>, parent: Option<i64>) -> (r: Vec<usize>)
    ensures
        ints(r@) == group(task::tasks_view(ts@), parent),
        is_group(ints(r@), task::tasks_view(ts@), parent),
{
    let mut r: Vec<usize> = Vec::new();
    let mut i: usize = 0;
    let ghost src = task::tasks_view(ts@);
    while i < ts.len()
        invariant
            i <= ts.len(),
            src == task::tasks_view(ts@),
            is_prefix_group(ints(r@), src, parent, i as int),
        decreases ts.len() - i,
    {
        let ghost g = ints(r@);
        assert(src[i as int] == ts@[i as int]@);
        let here = match (ts[i].parent_id, parent) {
            (None, None) => true,
            (Some(x), Some(y)) => x == y,
            _ => false,
        };
        if here {
            let mut k: usize = r.len();
            while k > 0 && ts[i].display_order < ts[r[k - 1]].display_order
                invariant
                    k <= r.len(),
                    i < ts.len(),
                    g == ints(r@),
                    src == task::tasks_view(ts@),
                    is_prefix_group(g, src, parent, i as int),
                    k > 0 ==> r@[k - 1] == g[k - 1] && g[k - 1] < ts.len(),
                    forall|q: int|
                        k <= q < g.len() ==> src[i as int].display_order < src[#[trigger] g[q]].display_order,
                decreases k,
            {
                k = k - 1;
                if k > 0 {
                    assert(g[k - 1] == r@[k - 1] as int);
                }
            }
            proof {
                if k > 0 {
                    assert(src[g[k - 1]] == ts@[r@[k - 1] as int]@);
                }
                lemma_insert_in_group(g, src, parent, i as int, k as int);
            }
            r.insert(k, i);
            assert(ints(r@) =~= g.insert(k as int, i as int));
        }
        i = i + 1;
    }
    proof {
        lemma_group_unique(ints(r@), src, parent);
    }
    r
}

/// The walks still owed by a stack of subtrees, its top first.
spec fn walk(ts: Seq<TaskV>, h: spec_fn(i64) -> nat, stack: Seq<int>) -> Seq<int>
    decreases stack.len(),
{
    if stack.len() == 0 {
        seq![]
    } else {
        preorder(ts, h, stack.last()) + walk(ts, h, stack.drop_last())
    }
}

proof fn lemma_walk_push(
    ts: Seq<TaskV>,
    h: spec_fn(i64) -> nat,
    n: nat,
    stack: Seq<int>,
    g: Seq<int>,
)
    requires
        forall|k: int| 0 <= k < g.len() ==> h(ts[#[trigger] g[k]].id) < n,
    ensures
        walk(ts, h, stack + g.reverse()) == preorder_all(ts, h, n, g) + walk(ts, h, stack),
    decreases g.len(),
{
    let whole = stack + g.reverse();
    if g.len() == 0 {
        assert(whole =~= stack);
        assert(preorder_all(ts, h, n, g) + walk(ts, h, stack) =~= walk(ts, h, stack));
    } else {
        let rest = g.drop_first();
        assert(whole.last() == g[0]);
        assert(whole.drop_last() =~= stack + rest.reverse());
        assert forall|k: int| 0 <= k < rest.len() implies h(ts[#[trigger] rest[k]].id) < n by {
            assert(rest[k] == g[k + 1]);
        }
        lemma_walk_push(ts, h, n, stack, rest);
        assert(walk(ts, h, whole) =~= preorder_all(ts, h, n, g) + walk(ts, h, stack));
    }
}

/// Collects the subtree of the task at index `root`. Walks with an explicit
/// stack because tree depth is unbounded and recursion would tie stack usage
/// to user data.
pub fn collect_subtree(ts: &Vec<Task>, root: usize) -> (r: Vec<usize>)
    requires
        root < ts.len(),
        acyclic(task::tasks_view(ts@)),
    ensures
        ints(r@) == subtree(task::tasks_view(ts@), root as int),
{
    let mut stack: Vec<usize> = Vec::new();
    stack.push(root);
    let ghost src = task::tasks_view(ts@);
    proof {
        assert(ints(stack@) =~= seq![root as int]);
        reveal_with_fuel(walk, 2);
        assert(walk(src, heights(src), ints(stack@)) =~= subtree(src, root as int));
    }
    let r = walk_stack(ts, stack);
    r
}

/// Every task reachable from a root, in depth-first order.
pub open spec fn tree_order(ts: Seq<TaskV>) -> Seq<int> {
    roots_walk(ts, group(ts, None))
}

/// The walks of several roots.
pub open spec fn roots_walk(ts: Seq<TaskV>, g: Seq<int>) -> Seq<int>
    decreases g.len(),
{
    if g.len() == 0 {
        seq![]
    } else {
        subtree(ts, g[0]) + roots_walk(ts, g.drop_first())
    }
}

fn walk_stack(ts: &Vec<Task>, start: Vec<usize>) -> (r: Vec<usize>)
    requires
        acyclic(task::tasks_view(ts@)),
        forall|k: int| 0 <= k < start@.len() ==> (#[trigger] start@[k]) < ts@.len(),
    ensures
        ints(r@) == walk(task::tasks_view(ts@), heights(task::tasks_view(ts@)), ints(start@)),
{
    let mut stack = start;
    let mut r: Vec<usize> = Vec::new();
    let ghost src = task::tasks_view(ts@);
    let ghost h = heights(src);
    let ghost total = walk(src, h, ints(stack@));
    assert(ints(r@) + walk(src, h, ints(stack@)) =~= total);
    while stack.len() > 0
        invariant
            src == task::tasks_view(ts@),
            descends(src, h),
            forall|k: int| 0 <= k < stack@.len() ==> (#[trigger] stack@[k]) < ts@.len(),
            ints(r@) + walk(src, h, ints(stack@)) == total,
        decreases total.len() - r@.len(),
    {
        let ghost before = ints(stack@);
        let ghost done = ints(r@);
        let ghost top = stack@.last();
        assert(stack@[stack@.len() - 1] < ts@.len());
        assert(before.last() == top as int);
        match stack.pop() {
            Some(current) => {
                assert(ints(stack@) =~= before.drop_last());
                r.push(current);
                assert(ints(r@) =~= done.push(current as int));
                let group_rows = group_of(ts, Some(ts[current].id));
                let ghost g = ints(group_rows@);
                let ghost rest = ints(stack@);
                assert(src[current as int] == ts@[current as int]@);
                let mut k: usize = group_rows.len();
                while k > 0
                    invariant
                        k <= group_rows.len(),
                        g == ints(group_rows@),
                        src == task::tasks_view(ts@),
                        is_group(g, src, Some(src[current as int].id)),
                        forall|q: int| 0 <= q < stack@.len() ==> (#[trigger] stack@[q]) < ts@.len(),
                        ints(stack@) == rest + g.skip(k as int).reverse(),
                    decreases k,
                {
                    k = k - 1;
                    assert(g[k as int] == group_rows@[k as int] as int);
                    let ghost held = ints(stack@);
                    stack.push(group_rows[k]);
                    assert(ints(stack@) =~= held.push(g[k as int]));
                    assert(rest + g.skip(k as int).reverse() =~= held.push(g[k as int]));
                }
                proof {
                    assert(g.skip(0) =~= g);
                    assert forall|q: int| 0 <= q < g.len() implies h(src[#[trigger] g[q]].id) < h(
                        src[current as int].id,
                    ) by {
                        assert(src[g[q]].parent_id == Some(src[current as int].id));
                    }
                    lemma_walk_push(src, h, h(src[current as int].id), rest, g);
                    assert(ints(r@) + walk(src, h, ints(stack@)) =~= done + (preorder(
                        src,
                        h,
                        current as int,
                    ) + walk(src, h, rest)));
                }
            },
            None => {},
        }
    }
    assert(walk(src, h, ints(stack@)) =~= seq![]);
    assert(ints(r@) =~= total);
    r
}

/// Every reachable task, in depth-first order.
pub fn collect_tree(ts: &Vec<Task>) -> (r: Vec<usize>)
    requires
        acyclic(task::tasks_view(ts@)),
    ensures
        ints(r@) == tree_order(task::tasks_view(ts@)),
{
    let roots = group_of(ts, None);
    let ghost src = task::tasks_view(ts@);
    let ghost g = ints(roots@);
    let mut stack: Vec<usize> = Vec::new();
    let mut k: usize = roots.len();
    while k > 0
        invariant
            k <= roots.len(),
            g == ints(roots@),
            src == task::tasks_view(ts@),
            is_group(g, src, None),
            forall|q: int| 0 <= q < stack@.len() ==> (#[trigger] stack@[q]) < ts@.len(),
            ints(stack@) == g.skip(k as int).reverse(),
        decreases k,
    {
        k = k - 1;
        assert(g[k as int] == roots@[k as int] as int);
        let ghost held = ints(stack@);
        stack.push(roots[k]);
        assert(ints(stack@) =~= held.push(g[k as int]));
        assert(g.skip(k as int).reverse() =~= held.push(g[k as int]));
    }
    proof {
        assert(g.skip(0) =~= g);
        lemma_roots_walk(src, g);
    }
    walk_stack(ts, stack)
}

proof fn lemma_roots_walk(ts: Seq<TaskV>, g: Seq<int>)
    ensures
        walk(ts, heights(ts), g.reverse()) == roots_walk(ts, g),
    decreases g.len(),
{
    if g.len() > 0 {
        assert(g.reverse().last() == g[0]);
        assert(g.reverse().drop_last() =~= g.drop_first().reverse());
        lemma_roots_walk(ts, g.drop_first());
    }
}

/// The walks of several roots are walks below a height that bounds them all.
proof fn lemma_roots_bounded(ts: Seq<TaskV>, g: Seq<int>, n: nat)
    requires
        forall|k: int| 0 <= k < g.len() ==> heights(ts)(ts[#[trigger] g[k]].id) < n,
    ensures
        roots_walk(ts, g) == preorder_all(ts, heights(ts), n, g),
    decreases g.len(),
{
    if g.len() > 0 {
        let rest = g.drop_first();
        assert forall|k: int| 0 <= k < rest.len() implies heights(ts)(ts[#[trigger] rest[k]].id)
            < n by {
            assert(rest[k] == g[k + 1]);
        }
        assert(heights(ts)(ts[g[0]].id) < n);
        lemma_roots_bounded(ts, rest, n);
    }
}

/// The walk of the whole tree meets every task exactly once.
pub proof fn the_walk_meets_every_task_once(ts: Seq<TaskV>)
    requires
        acyclic(ts),
        order::unique_ids(ts),
        parents_listed(ts),
    ensures
        tree_order(ts).no_duplicates(),
        forall|i: int| tree_order(ts).contains(i) <==> 0 <= i < ts.len(),
{
    let h = heights(ts);
    let g = group(ts, None);
    let n = (top(ts, h, ts.len() as int) + 1) as nat;
    lemma_group_exists(ts, None);
    assert forall|k: int| 0 <= k < g.len() implies h(ts[#[trigger] g[k]].id) < n by {
        lemma_top(ts, h, ts.len() as int, g[k]);
    }
    lemma_roots_bounded(ts, g, n);
    lemma_sorted_distinct(ts, g);
    lemma_preorder_all_no_duplicates(ts, h, n, g, None);
    lemma_preorder_all_bounds(ts, h, n, g);
    assert forall|i: int| 0 <= i < ts.len() implies tree_order(ts).contains(i) by {
        lemma_walk_meets(ts, i);
    }
}

proof fn lemma_walk_meets(ts: Seq<TaskV>, i: int)
    requires
        acyclic(ts),
        parents_listed(ts),
        0 <= i < ts.len(),
    ensures
        tree_order(ts).contains(i),
    decreases top(ts, heights(ts), ts.len() as int) - heights(ts)(ts[i].id),
{
    let h = heights(ts);
    let g = group(ts, None);
    let n = (top(ts, h, ts.len() as int) + 1) as nat;
    lemma_group_exists(ts, None);
    assert forall|k: int| 0 <= k < g.len() implies h(ts[#[trigger] g[k]].id) < n by {
        lemma_top(ts, h, ts.len() as int, g[k]);
    }
    lemma_roots_bounded(ts, g, n);
    lemma_top(ts, h, ts.len() as int, i);
    match ts[i].parent_id {
        None => {
            assert(g.contains(i));
            let q = choose|q: int| 0 <= q < g.len() && g[q] == i;
            lemma_preorder_bounds(ts, h, i);
            lemma_in_preorder_all(ts, h, n, g, q, i);
        },
        Some(p) => {
            assert(listed(ts, p));
            let j = choose|j: int| 0 <= j < ts.len() && (#[trigger] ts[j]).id == p;
            lemma_top(ts, h, ts.len() as int, j);
            assert(h(ts[i].id) < h(ts[j].id));
            lemma_walk_meets(ts, j);
            let q = lemma_from_preorder_all(ts, h, n, g, j);
            lemma_child_in_subtree(ts, h, g[q], j, i);
            lemma_in_preorder_all(ts, h, n, g, q, i);
        },
    }
}

/// Some task of the list has this id.
pub open spec fn listed(ts: Seq<TaskV>, id: i64) -> bool {
    exists|i: int| 0 <= i < ts.len() && (#[trigger] ts[i]).id == id
}

/// Every parent is a task of the list.
pub open spec fn parents_listed(ts: Seq<TaskV>) -> bool {
    forall|i: int|
        0 <= i < ts.len() && (#[trigger] ts[i]).parent_id is Some ==> listed(
            ts,
            ts[i].parent_id->Some_0,
        )
}

/// The position of the task with this id.
pub fn position_of(ts: &Vec<Task>, id: i64) -> (r: Option<usize>)
    ensures
        match r {
            Some(i) => i < ts@.len() && ts@[i as int]@.id == id && forall|j: int|
                0 <= j < i ==> (#[trigger] ts@[j])@.id != id,
            None => !listed(task::tasks_view(ts@), id),
        },
{
    let ghost v = task::tasks_view(ts@);
    let mut i: usize = 0;
    while i < ts.len()
        invariant
            i <= ts.len(),
            v == task::tasks_view(ts@),
            forall|j: int| 0 <= j < i ==> (#[trigger] ts@[j])@.id != id,
        decreases ts.len() - i,
    {
        if ts[i].id == id {
            return Some(i);
        }
        i = i + 1;
    }
    proof {
        assert forall|j: int| 0 <= j < v.len() implies (#[trigger] v[j]).id != id by {
            assert(v[j] == ts@[j]@);
        }
    }
    None
}

/// The largest height among the first `n` tasks.
pub open spec fn top(ts: Seq<TaskV>, h: spec_fn(i64) -> nat, n: int) -> nat
    decreases n,
{
    if n <= 0 {
        0
    } else if h(ts[n - 1].id) > top(ts, h, n - 1) {
        h(ts[n - 1].id)
    } else {
        top(ts, h, n - 1)
    }
}

pub proof fn lemma_top(ts: Seq<TaskV>, h: spec_fn(i64) -> nat, n: int, i: int)
    requires
        0 <= i < n <= ts.len(),
    ensures
        h(ts[i].id) <= top(ts, h, n),
    decreases n,
{
    if i < n - 1 {
        lemma_top(ts, h, n - 1, i);
    }
}

/// Tasks that all have their parent among themselves close a cycle.
proof fn lemma_stuck(ts: Seq<TaskV>, marked: Seq<bool>, h: spec_fn(i64) -> nat, i: int)
    requires
        marked.len() == ts.len(),
        0 <= i < ts.len(),
        !marked[i],
        forall|k: int|
            0 <= k < ts.len() && !marked[k] ==> (#[trigger] ts[k]).parent_id is Some && exists|j: int|
                0 <= j < ts.len() && !marked[j] && (#[trigger] ts[j]).id
                    == ts[k].parent_id->Some_0,
    ensures
        !descends(ts, h),
    decreases top(ts, h, ts.len() as int) - h(ts[i].id),
{
    assert(ts[i].parent_id is Some);
    let j = choose|j: int|
        0 <= j < ts.len() && !marked[j] && (#[trigger] ts[j]).id == ts[i].parent_id->Some_0;
    if descends(ts, h) {
        lemma_top(ts, h, ts.len() as int, i);
        lemma_top(ts, h, ts.len() as int, j);
        lemma_stuck(ts, marked, h, j);
    }
}

/// Whether the parent links close no cycle. Marks tasks from the roots
/// downwards until no more can be marked.
pub fn is_forest(ts: &Vec<Task>) -> (r: bool)
    requires
        order::unique_ids(task::tasks_view(ts@)),
        parents_listed(task::tasks_view(ts@)),
    ensures
        r == acyclic(task::tasks_view(ts@)),
{
    let ghost v = task::tasks_view(ts@);
    let n: usize = ts.len();
    let mut marked: Vec<bool> = Vec::new();
    while marked.len() < n
        invariant
            marked@.len() <= n,
            forall|k: int| 0 <= k < marked@.len() ==> !marked@[k],
            marks(marked@) == 0,
        decreases n - marked.len(),
    {
        let ghost before = marked@;
        marked.push(false);
        assert(marked@.drop_last() =~= before);
    }
    let mut count: usize = 0;
    let ghost mut rank: Map<i64, nat> = Map::empty();
    let mut progress = true;
    while progress
        invariant
            n == ts@.len(),
            v == task::tasks_view(ts@),
            order::unique_ids(v),
            parents_listed(v),
            marked@.len() == n,
            count <= n,
            forall|k: int|
                0 <= k < n ==> (marked@[k] <==> rank.dom().contains((#[trigger] v[k]).id)),
            forall|k: int|
                0 <= k < n && marked@[k] ==> rank[(#[trigger] v[k]).id] < count && (
                v[k].parent_id is Some ==> rank.dom().contains(v[k].parent_id->Some_0)
                    && rank[v[k].parent_id->Some_0] < rank[v[k].id]),
            count == marks(marked@),
            !progress ==> forall|k: int|
                0 <= k < n && !marked@[k] ==> (#[trigger] v[k]).parent_id is Some && exists|j: int|
                    0 <= j < n && !marked@[j] && (#[trigger] v[j]).id == v[k].parent_id->Some_0,
        decreases n - count,
            if progress {
                1int
            } else {
                0int
            },
    {
        progress = false;
        let ghost start = marked@;
        let mut i: usize = 0;
        let ghost count0 = count;
        while i < n
            invariant
                i <= n,
                n == ts@.len(),
                v == task::tasks_view(ts@),
                order::unique_ids(v),
                parents_listed(v),
                marked@.len() == n,
                count <= n,
                count0 <= count,
                progress ==> count0 < count,
                forall|k: int|
                    0 <= k < n ==> (marked@[k] <==> rank.dom().contains((#[trigger] v[k]).id)),
                forall|k: int|
                    0 <= k < n && marked@[k] ==> rank[(#[trigger] v[k]).id] < count && (
                    v[k].parent_id is Some ==> rank.dom().contains(v[k].parent_id->Some_0)
                        && rank[v[k].parent_id->Some_0] < rank[v[k].id]),
                count == marks(marked@),
                !progress ==> marked@ == start,
                !progress ==> forall|k: int|
                    0 <= k < i && !marked@[k] ==> (#[trigger] v[k]).parent_id is Some
                        && exists|j: int|
                        0 <= j < n && !marked@[j] && (#[trigger] v[j]).id
                            == v[k].parent_id->Some_0,
            decreases n - i,
        {
            assert(v[i as int] == ts@[i as int]@);
            if !marked[i] {
                let ready = match ts[i].parent_id {
                    None => true,
                    Some(p) => match position_of(ts, p) {
                        Some(j) => {
                            assert(v[j as int] == ts@[j as int]@);
                            marked[j]
                        },
                        None => false,
                    },
                };
                if ready {
                    proof {
                        lemma_mark(marked@, i as int);
                        rank = rank.insert(v[i as int].id, count as nat);
                        assert forall|k: int| 0 <= k < n && k != i implies (#[trigger] v[k]).id
                            != v[i as int].id by {}
                        lemma_marks_bound(marked@.update(i as int, true));
                    }
                    marked.set(i, true);
                    count = count + 1;
                    progress = true;
                }
            }
            i = i + 1;
        }
    }
    if count == n {
        proof {
            assert forall|k: int| 0 <= k < n implies marked@[k] by {
                if !marked@[k] {
                    lemma_marks_full(marked@, k);
                }
            }
            let h = |x: i64|
                if rank.dom().contains(x) {
                    (n - rank[x]) as nat
                } else {
                    (n + 1) as nat
                };
            assert forall|k: int| 0 <= k < v.len() && (#[trigger] v[k]).parent_id is Some implies h(
                v[k].id,
            ) < h(v[k].parent_id->Some_0) by {
                assert(marked@[k]);
            }
            assert(descends(v, h));
        }
        true
    } else {
        proof {
            let k = lemma_marks_missing(marked@);
            assert forall|h: spec_fn(i64) -> nat| !descends(v, h) by {
                lemma_stuck(v, marked@, h, k);
            }
        }
        false
    }
}

/// How many are marked.
spec fn marks(m: Seq<bool>) -> nat
    decreases m.len(),
{
    if m.len() == 0 {
        0
    } else {
        marks(m.drop_last()) + if m.last() {
            1nat
        } else {
            0nat
        }
    }
}

proof fn lemma_marks_bound(m: Seq<bool>)
    ensures
        marks(m) <= m.len(),
    decreases m.len(),
{
    if m.len() > 0 {
        lemma_marks_bound(m.drop_last());
    }
}

/// Marking one more raises the count by one.
proof fn lemma_mark(m: Seq<bool>, i: int)
    requires
        0 <= i < m.len(),
        !m[i],
    ensures
        marks(m.update(i, true)) == marks(m) + 1,
    decreases m.len(),
{
    let u = m.update(i, true);
    if i == m.len() - 1 {
        assert(u.drop_last() =~= m.drop_last());
    } else {
        lemma_mark(m.drop_last(), i);
        assert(u.drop_last() =~= m.drop_last().update(i, true));
    }
}

/// With one unmarked the count is not full.
proof fn lemma_marks_full(m: Seq<bool>, k: int)
    requires
        0 <= k < m.len(),
        !m[k],
    ensures
        marks(m) < m.len(),
{
    lemma_mark(m, k);
    lemma_marks_bound(m.update(k, true));
}

/// Where the count is not full, one is unmarked.
proof fn lemma_marks_missing(m: Seq<bool>) -> (k: int)
    requires
        marks(m) < m.len(),
    ensures
        0 <= k < m.len(),
        !m[k],
    decreases m.len(),
{
    if !m.last() {
        m.len() - 1
    } else {
        lemma_marks_missing(m.drop_last())
    }
}

/// One task is met before another.
pub open spec fn met_before(walk: Seq<int>, x: int, y: int) -> bool {
    exists|i: int, j: int| 0 <= i < j < walk.len() && #[trigger] walk[i] == x && #[trigger] walk[j] == y
}

proof fn lemma_met_in_part(a: Seq<int>, part: Seq<int>, b: Seq<int>, x: int, y: int)
    requires
        met_before(part, x, y),
    ensures
        met_before(a + part + b, x, y),
{
    let (i, j) = choose|i: int, j: int|
        0 <= i < j < part.len() && #[trigger] part[i] == x && #[trigger] part[j] == y;
    let w = a + part + b;
    assert(w[a.len() + i] == x && w[a.len() + j] == y);
}

proof fn lemma_met_across(a: Seq<int>, b: Seq<int>, x: int, y: int)
    requires
        a.contains(x),
        b.contains(y),
    ensures
        met_before(a + b, x, y),
{
    let i = choose|i: int| 0 <= i < a.len() && a[i] == x;
    let j = choose|j: int| 0 <= j < b.len() && b[j] == y;
    let w = a + b;
    assert(w[i] == x && w[a.len() + j] == y);
}

/// What one subtree among several meets in order, they meet in that order.
proof fn lemma_met_in_all(
    ts: Seq<TaskV>,
    h: spec_fn(i64) -> nat,
    n: nat,
    g: Seq<int>,
    q: int,
    x: int,
    y: int,
)
    requires
        0 <= q < g.len(),
        h(ts[g[q]].id) < n,
        met_before(preorder(ts, h, g[q]), x, y),
    ensures
        met_before(preorder_all(ts, h, n, g), x, y),
    decreases g.len(),
{
    let all = preorder_all(ts, h, n, g);
    let rest = preorder_all(ts, h, n, g.drop_first());
    if q == 0 {
        let first = preorder(ts, h, g[0]);
        lemma_met_in_part(seq![], first, rest, x, y);
        assert(seq![] + first + rest =~= all);
    } else {
        assert(g.drop_first()[q - 1] == g[q]);
        lemma_met_in_all(ts, h, n, g.drop_first(), q - 1, x, y);
        let first = if h(ts[g[0]].id) < n {
            preorder(ts, h, g[0])
        } else {
            seq![]
        };
        lemma_met_in_part(first, rest, seq![], x, y);
        assert(first + rest + seq![] =~= all);
    }
}

/// The subtree of an earlier sibling is met before that of a later one.
proof fn lemma_met_among(
    ts: Seq<TaskV>,
    h: spec_fn(i64) -> nat,
    n: nat,
    g: Seq<int>,
    p: int,
    q: int,
    x: int,
    y: int,
)
    requires
        0 <= p < q < g.len(),
        h(ts[g[p]].id) < n,
        h(ts[g[q]].id) < n,
        preorder(ts, h, g[p]).contains(x),
        preorder(ts, h, g[q]).contains(y),
    ensures
        met_before(preorder_all(ts, h, n, g), x, y),
    decreases g.len(),
{
    let all = preorder_all(ts, h, n, g);
    let rest_g = g.drop_first();
    let rest = preorder_all(ts, h, n, rest_g);
    assert(rest_g[q - 1] == g[q]);
    if p == 0 {
        lemma_in_preorder_all(ts, h, n, rest_g, q - 1, y);
        lemma_met_across(preorder(ts, h, g[0]), rest, x, y);
    } else {
        assert(rest_g[p - 1] == g[p]);
        lemma_met_among(ts, h, n, rest_g, p - 1, q - 1, x, y);
        let first = if h(ts[g[0]].id) < n {
            preorder(ts, h, g[0])
        } else {
            seq![]
        };
        lemma_met_in_part(first, rest, seq![], x, y);
        assert(first + rest + seq![] =~= all);
    }
}

/// What the subtree of a task meets in order, the walk of the whole tree
/// meets in that order.
proof fn lemma_met_in_tree(ts: Seq<TaskV>, p: int, x: int, y: int)
    requires
        acyclic(ts),
        parents_listed(ts),
        0 <= p < ts.len(),
        met_before(subtree(ts, p), x, y),
    ensures
        met_before(tree_order(ts), x, y),
    decreases top(ts, heights(ts), ts.len() as int) - heights(ts)(ts[p].id),
{
    let h = heights(ts);
    lemma_top(ts, h, ts.len() as int, p);
    match ts[p].parent_id {
        None => {
            let g = group(ts, None);
            let n = (top(ts, h, ts.len() as int) + 1) as nat;
            lemma_group_exists(ts, None);
            assert forall|k: int| 0 <= k < g.len() implies h(ts[#[trigger] g[k]].id) < n by {
                lemma_top(ts, h, ts.len() as int, g[k]);
            }
            lemma_roots_bounded(ts, g, n);
            assert(g.contains(p));
            let q = choose|q: int| 0 <= q < g.len() && g[q] == p;
            lemma_met_in_all(ts, h, n, g, q, x, y);
        },
        Some(id) => {
            assert(listed(ts, id));
            let j = choose|j: int| 0 <= j < ts.len() && (#[trigger] ts[j]).id == id;
            lemma_top(ts, h, ts.len() as int, j);
            let g = group(ts, Some(id));
            lemma_group_exists(ts, Some(id));
            assert(g.contains(p));
            let q = choose|q: int| 0 <= q < g.len() && g[q] == p;
            assert(h(ts[p].id) < h(id));
            lemma_met_in_all(ts, h, h(id), g, q, x, y);
            let all = preorder_all(ts, h, h(id), g);
            lemma_met_in_part(seq![j], all, seq![], x, y);
            assert(seq![j] + all + seq![] =~= subtree(ts, j));
            lemma_met_in_tree(ts, j, x, y);
        },
    }
}

/// The walk of the whole tree meets a task before everything below it.
pub proof fn the_walk_meets_parents_first(ts: Seq<TaskV>, a: int, x: int)
    requires
        acyclic(ts),
        parents_listed(ts),
        0 <= a < ts.len(),
        subtree(ts, a).contains(x),
        x != a,
    ensures
        met_before(tree_order(ts), a, x),
{
    let w = subtree(ts, a);
    let k = choose|k: int| 0 <= k < w.len() && w[k] == x;
    assert(w[0] == a);
    assert(met_before(w, a, x)) by {
        assert(w[0] == a && w[k] == x);
    }
    lemma_met_in_tree(ts, a, a, x);
}

/// The walk of the whole tree meets a task and all below it before a sibling
/// that is further behind, and all below that.
pub proof fn the_walk_goes_by_sibling_order(ts: Seq<TaskV>, a: int, b: int, x: int, y: int)
    requires
        acyclic(ts),
        parents_listed(ts),
        0 <= a < ts.len(),
        0 <= b < ts.len(),
        ts[a].parent_id == ts[b].parent_id,
        ts[a].display_order < ts[b].display_order,
        subtree(ts, a).contains(x),
        subtree(ts, b).contains(y),
    ensures
        met_before(tree_order(ts), x, y),
{
    let h = heights(ts);
    let parent = ts[a].parent_id;
    let g = group(ts, parent);
    lemma_group_exists(ts, parent);
    assert(g.contains(a) && g.contains(b));
    let p = choose|p: int| 0 <= p < g.len() && g[p] == a;
    let q = choose|q: int| 0 <= q < g.len() && g[q] == b;
    if q < p {
        assert(sibling_order(ts)(g[q], g[p]));
    }
    assert(p < q);
    match parent {
        None => {
            let n = (top(ts, h, ts.len() as int) + 1) as nat;
            assert forall|k: int| 0 <= k < g.len() implies h(ts[#[trigger] g[k]].id) < n by {
                lemma_top(ts, h, ts.len() as int, g[k]);
            }
            lemma_roots_bounded(ts, g, n);
            assert(h(ts[g[p]].id) < n && h(ts[g[q]].id) < n);
            lemma_met_among(ts, h, n, g, p, q, x, y);
        },
        Some(id) => {
            assert(listed(ts, id));
            let j = choose|j: int| 0 <= j < ts.len() && (#[trigger] ts[j]).id == id;
            assert(h(ts[a].id) < h(id) && h(ts[b].id) < h(id));
            lemma_met_among(ts, h, h(id), g, p, q, x, y);
            let all = preorder_all(ts, h, h(id), g);
            lemma_met_in_part(seq![j], all, seq![], x, y);
            assert(seq![j] + all + seq![] =~= subtree(ts, j));
            lemma_met_in_tree(ts, j, x, y);
        },
    }
}

} // verus!

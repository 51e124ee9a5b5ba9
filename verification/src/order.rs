//! Orders on tasks and statuses, and the listings they define. A listing is
//! fixed by its elements and its order, so it is specified as the one
//! sequence that is strictly sorted and has exactly these elements.
use vstd::prelude::*;

use crate::status;
use crate::status::{Status, StatusV};
use crate::task;
use crate::task::{Task, TaskV};
use crate::text;

verus! {

/// Strictly sorted under `before`.
pub open spec fn sorted<T>(s: Seq<T>, before: spec_fn(T, T) -> bool) -> bool {
    forall|i: int, j: int| 0 <= i < j < s.len() ==> #[trigger] before(s[i], s[j])
}

/// The two sequences hold the same elements.
pub open spec fn same_elements<T>(a: Seq<T>, b: Seq<T>) -> bool {
    &&& forall|i: int| 0 <= i < a.len() ==> b.contains(#[trigger] a[i])
    &&& forall|i: int| 0 <= i < b.len() ==> a.contains(#[trigger] b[i])
}

/// A sorted sequence is determined by its elements, where no two of them
/// precede each other.
pub proof fn lemma_sorted_unique<T>(a: Seq<T>, b: Seq<T>, before: spec_fn(T, T) -> bool)
    requires
        sorted(a, before),
        sorted(b, before),
        same_elements(a, b),
        forall|i: int, j: int|
            0 <= i < a.len() && 0 <= j < a.len() && #[trigger] before(a[i], a[j]) ==> !before(
                a[j],
                a[i],
            ),
    ensures
        a == b,
{
    lemma_sorted_prefix(a, b, before, a.len() as int);
    if b.len() > a.len() {
        let x = b[a.len() as int];
        assert(a.contains(x));
        let k = choose|k: int| 0 <= k < a.len() && a[k] == x;
        assert(b[k] == x);
        assert(before(b[k], b[a.len() as int]));
        assert(before(a[k], a[k]));
    }
    assert(a =~= b);
}

proof fn lemma_sorted_prefix<T>(a: Seq<T>, b: Seq<T>, before: spec_fn(T, T) -> bool, n: int)
    requires
        sorted(a, before),
        sorted(b, before),
        same_elements(a, b),
        forall|i: int, j: int|
            0 <= i < a.len() && 0 <= j < a.len() && #[trigger] before(a[i], a[j]) ==> !before(
                a[j],
                a[i],
            ),
        0 <= n <= a.len(),
    ensures
        n <= b.len(),
        forall|i: int| 0 <= i < n ==> a[i] == b[i],
    decreases n,
{
    if n > 0 {
        lemma_sorted_prefix(a, b, before, n - 1);
        let i = n - 1;
        assert(b.contains(a[i]));
        let j = choose|j: int| 0 <= j < b.len() && b[j] == a[i];
        if j < i {
            assert(a[j] == a[i]);
            assert(before(a[j], a[i]));
        }
        assert(i <= j);
        assert(a.contains(b[i]));
        let k = choose|k: int| 0 <= k < a.len() && a[k] == b[i];
        if k < i {
            assert(b[k] == b[i]);
            assert(before(b[k], b[i]));
            assert(before(a[k], a[k]));
        }
        if j > i && k > i {
            assert(before(b[i], b[j]));
            assert(before(a[k], a[i]));
            assert(before(a[i], a[k]));
        }
    }
}

/// The orders tasks are listed in. Each breaks ties by id.
#[derive(Clone, Copy, PartialEq, Eq, Structural)]
pub enum Order {
    /// By id alone.
    Id,
    /// By sibling group (the roots first) and display order within it.
    Group,
    /// Earliest due date first, tasks without one last.
    Due,
    /// Most recently updated first.
    Updated,
    /// Most recently created first.
    Created,
    /// By title.
    Title,
}

pub open spec fn parent_lt(a: Option<i64>, b: Option<i64>) -> bool {
    match (a, b) {
        (None, Some(_)) => true,
        (Some(x), Some(y)) => x < y,
        _ => false,
    }
}

pub open spec fn due_lt(a: Option<Seq<char>>, b: Option<Seq<char>>) -> bool {
    match (a, b) {
        (Some(_), None) => true,
        (Some(x), Some(y)) => text::text_lt(x, y),
        _ => false,
    }
}

/// Whether `a` is listed before `b`.
pub open spec fn task_before(o: Order, a: TaskV, b: TaskV) -> bool {
    match o {
        Order::Id => a.id < b.id,
        Order::Group => parent_lt(a.parent_id, b.parent_id) || (a.parent_id == b.parent_id && (
        a.display_order < b.display_order || (a.display_order == b.display_order && a.id < b.id))),
        Order::Due => due_lt(a.due, b.due) || (a.due == b.due && a.id < b.id),
        Order::Updated => text::text_lt(b.updated_at, a.updated_at) || (a.updated_at
            == b.updated_at && a.id < b.id),
        Order::Created => text::text_lt(b.created_at, a.created_at) || (a.created_at
            == b.created_at && a.id < b.id),
        Order::Title => text::text_lt(a.title, b.title) || (a.title == b.title && a.id < b.id),
    }
}

/// Where the last element belongs among sorted ones.
spec fn slot<T>(s: Seq<T>, x: T, before: spec_fn(T, T) -> bool, k: int) -> int
    decreases s.len() - k,
{
    if k >= s.len() || !before(s[k], x) {
        k
    } else {
        slot(s, x, before, k + 1)
    }
}

proof fn lemma_slot<T>(s: Seq<T>, x: T, before: spec_fn(T, T) -> bool, k: int)
    requires
        0 <= k <= s.len(),
    ensures
        k <= slot(s, x, before, k) <= s.len(),
        forall|j: int| k <= j < slot(s, x, before, k) ==> before(#[trigger] s[j], x),
        slot(s, x, before, k) < s.len() ==> !before(s[slot(s, x, before, k)], x),
    decreases s.len() - k,
{
    if k < s.len() && before(s[k], x) {
        lemma_slot(s, x, before, k + 1);
    }
}

/// Elements that are pairwise ordered can be sorted.
pub proof fn lemma_can_be_sorted<T>(ts: Seq<T>, before: spec_fn(T, T) -> bool) -> (s: Seq<T>)
    requires
        forall|i: int, j: int|
            0 <= i < j < ts.len() ==> before(#[trigger] ts[i], #[trigger] ts[j]) || before(
                ts[j],
                ts[i],
            ),
        forall|a: T, b: T, c: T| #[trigger]
            before(a, b) && #[trigger] before(b, c) ==> before(a, c),
    ensures
        sorted(s, before),
        same_elements(s, ts),
        s.len() == ts.len(),
    decreases ts.len(),
{
    if ts.len() == 0 {
        ts
    } else {
        let front = ts.drop_last();
        let x = ts.last();
        assert forall|i: int, j: int| 0 <= i < j < front.len() implies before(
            #[trigger] front[i],
            #[trigger] front[j],
        ) || before(front[j], front[i]) by {
            assert(front[i] == ts[i] && front[j] == ts[j]);
        }
        let s = lemma_can_be_sorted(front, before);
        lemma_slot(s, x, before, 0);
        let k = slot(s, x, before, 0);
        let r = s.take(k) + seq![x] + s.skip(k);
        if k < s.len() {
            assert(front.contains(s[k]));
            let q = choose|q: int| 0 <= q < front.len() && front[q] == s[k];
            assert(ts[q] == s[k]);
            assert(before(ts[q], ts[ts.len() - 1]) || before(ts[ts.len() - 1], ts[q]));
            assert(before(x, s[k]));
        }
        assert forall|j: int| k <= j < s.len() implies before(x, #[trigger] s[j]) by {
            if j > k {
                assert(before(s[k], s[j]));
            }
        }
        assert forall|i: int, j: int| 0 <= i < j < r.len() implies #[trigger] before(r[i], r[j]) by {
            let a = if i < k {
                i
            } else {
                i - 1
            };
            let b = if j < k {
                j
            } else {
                j - 1
            };
            if i != k && j != k {
                assert(r[i] == s[a] && r[j] == s[b]);
                assert(before(s[a], s[b]));
            } else if i == k {
                assert(r[j] == s[b]);
            } else {
                assert(r[i] == s[a]);
            }
        }
        assert forall|i: int| 0 <= i < r.len() implies ts.contains(#[trigger] r[i]) by {
            if i == k {
                assert(ts[ts.len() - 1] == x);
            } else {
                let a = if i < k {
                    i
                } else {
                    i - 1
                };
                assert(r[i] == s[a]);
                assert(front.contains(s[a]));
                let q = choose|q: int| 0 <= q < front.len() && front[q] == s[a];
                assert(ts[q] == s[a]);
            }
        }
        assert forall|i: int| 0 <= i < ts.len() implies r.contains(#[trigger] ts[i]) by {
            if i == ts.len() - 1 {
                assert(r[k] == x);
            } else {
                assert(front[i] == ts[i]);
                assert(s.contains(front[i]));
                let q = choose|q: int| 0 <= q < s.len() && s[q] == front[i];
                assert(r[if q < k { q } else { q + 1 }] == s[q]);
            }
        }
        r
    }
}

/// `task_before` as a relation.
pub open spec fn task_order(o: Order) -> spec_fn(TaskV, TaskV) -> bool {
    |a: TaskV, b: TaskV| task_before(o, a, b)
}

/// Each order is asymmetric.
pub proof fn lemma_task_before_asymmetric(o: Order, a: TaskV, b: TaskV)
    requires
        task_before(o, a, b),
    ensures
        !task_before(o, b, a),
{
    lemma_text_asymmetric(a.title, b.title);
    lemma_text_asymmetric(a.updated_at, b.updated_at);
    lemma_text_asymmetric(a.created_at, b.created_at);
    text::lemma_text_lt_irreflexive(a.title);
    text::lemma_text_lt_irreflexive(a.updated_at);
    text::lemma_text_lt_irreflexive(a.created_at);
    if a.due is Some && b.due is Some {
        lemma_text_asymmetric(a.due->Some_0, b.due->Some_0);
        text::lemma_text_lt_irreflexive(a.due->Some_0);
    }
}

proof fn lemma_text_asymmetric(a: Seq<char>, b: Seq<char>)
    ensures
        !(text::text_lt(a, b) && text::text_lt(b, a)),
{
    if text::text_lt(a, b) && text::text_lt(b, a) {
        text::lemma_text_lt_transitive(a, b, a);
        text::lemma_text_lt_irreflexive(a);
    }
}

/// Each order is transitive.
pub proof fn lemma_task_before_transitive(o: Order, a: TaskV, b: TaskV, c: TaskV)
    requires
        task_before(o, a, b),
        task_before(o, b, c),
    ensures
        task_before(o, a, c),
{
    match o {
        Order::Due => {
            if due_lt(a.due, b.due) && due_lt(b.due, c.due) && c.due is Some {
                text::lemma_text_lt_transitive(a.due->Some_0, b.due->Some_0, c.due->Some_0);
            }
        },
        Order::Updated => {
            if a.updated_at != b.updated_at && b.updated_at != c.updated_at {
                text::lemma_text_lt_transitive(c.updated_at, b.updated_at, a.updated_at);
            }
        },
        Order::Created => {
            if a.created_at != b.created_at && b.created_at != c.created_at {
                text::lemma_text_lt_transitive(c.created_at, b.created_at, a.created_at);
            }
        },
        Order::Title => {
            if a.title != b.title && b.title != c.title {
                text::lemma_text_lt_transitive(a.title, b.title, c.title);
            }
        },
        _ => {},
    }
}

/// Tasks with different ids are always ordered.
pub proof fn lemma_task_before_total(o: Order, a: TaskV, b: TaskV)
    requires
        a.id != b.id,
    ensures
        task_before(o, a, b) || task_before(o, b, a),
{
    if a.title != b.title {
        text::lemma_text_lt_total(a.title, b.title);
    }
    if a.updated_at != b.updated_at {
        text::lemma_text_lt_total(a.updated_at, b.updated_at);
    }
    if a.created_at != b.created_at {
        text::lemma_text_lt_total(a.created_at, b.created_at);
    }
    if a.due is Some && b.due is Some && a.due != b.due {
        text::lemma_text_lt_total(a.due->Some_0, b.due->Some_0);
    }
}

/// No two tasks share an id.
pub open spec fn unique_ids(ts: Seq<TaskV>) -> bool {
    forall|i: int, j: int| 0 <= i < ts.len() && 0 <= j < ts.len() && ts[i].id == ts[j].id ==> i == j
}

pub open spec fn is_listing(s: Seq<TaskV>, ts: Seq<TaskV>, o: Order) -> bool {
    sorted(s, task_order(o)) && same_elements(s, ts)
}

/// The given tasks in order.
pub open spec fn listing(ts: Seq<TaskV>, o: Order) -> Seq<TaskV> {
    choose|s: Seq<TaskV>| is_listing(s, ts, o)
}

/// Tasks with different ids can be listed in any order.
pub proof fn lemma_listing_exists(ts: Seq<TaskV>, o: Order)
    requires
        unique_ids(ts),
    ensures
        is_listing(listing(ts, o), ts, o),
        unique_ids(listing(ts, o)),
{
    let before = task_order(o);
    assert forall|i: int, j: int| 0 <= i < j < ts.len() implies before(
        #[trigger] ts[i],
        #[trigger] ts[j],
    ) || before(ts[j], ts[i]) by {
        lemma_task_before_total(o, ts[i], ts[j]);
    }
    assert forall|a: TaskV, b: TaskV, c: TaskV| #[trigger]
        before(a, b) && #[trigger] before(b, c) implies before(a, c) by {
        lemma_task_before_transitive(o, a, b, c);
    }
    let s = lemma_can_be_sorted(ts, before);
    assert(is_listing(s, ts, o));
    lemma_listing_unique(s, ts, o);
    assert forall|i: int, j: int| 0 <= i < s.len() && 0 <= j < s.len() && s[i].id == s[j].id implies i
        == j by {
        assert(ts.contains(s[i]) && ts.contains(s[j]));
        if i < j {
            assert(before(s[i], s[j]));
            lemma_task_before_asymmetric(o, s[i], s[j]);
        } else if j < i {
            assert(before(s[j], s[i]));
            lemma_task_before_asymmetric(o, s[j], s[i]);
        }
    }
}

/// There is only one listing.
pub proof fn lemma_listing_unique(s: Seq<TaskV>, ts: Seq<TaskV>, o: Order)
    requires
        is_listing(s, ts, o),
    ensures
        s == listing(ts, o),
{
    let l = listing(ts, o);
    assert(is_listing(l, ts, o));
    assert forall|i: int, j: int|
        0 <= i < s.len() && 0 <= j < s.len() && #[trigger] task_order(o)(
            s[i],
            s[j],
        ) implies !task_order(o)(s[j], s[i]) by {
        lemma_task_before_asymmetric(o, s[i], s[j]);
    }
    assert forall|i: int| 0 <= i < s.len() implies l.contains(#[trigger] s[i]) by {
        assert(ts.contains(s[i]));
        let k = choose|k: int| 0 <= k < ts.len() && ts[k] == s[i];
        assert(l.contains(ts[k]));
    }
    assert forall|i: int| 0 <= i < l.len() implies s.contains(#[trigger] l[i]) by {
        assert(ts.contains(l[i]));
        let k = choose|k: int| 0 <= k < ts.len() && ts[k] == l[i];
        assert(s.contains(ts[k]));
    }
    lemma_sorted_unique(s, l, task_order(o));
}

fn parent_before(a: Option<i64>, b: Option<i64>) -> (r: bool)
    ensures
        r == parent_lt(a, b),
{
    match (a, b) {
        (None, Some(_)) => true,
        (Some(x), Some(y)) => x < y,
        _ => false,
    }
}

fn due_before(a: &Option<String>, b: &Option<String>) -> (r: bool)
    ensures
        r == due_lt(task::text_option(*a), task::text_option(*b)),
{
    match (a, b) {
        (Some(_), None) => true,
        (Some(x), Some(y)) => text::lt(x.as_str(), y.as_str()),
        _ => false,
    }
}

fn same_due(a: &Option<String>, b: &Option<String>) -> (r: bool)
    ensures
        r == (task::text_option(*a) == task::text_option(*b)),
{
    match (a, b) {
        (None, None) => true,
        (Some(x), Some(y)) => text::same(x.as_str(), y.as_str()),
        _ => false,
    }
}

fn parent_same(a: Option<i64>, b: Option<i64>) -> (r: bool)
    ensures
        r == (a == b),
{
    match (a, b) {
        (None, None) => true,
        (Some(x), Some(y)) => x == y,
        _ => false,
    }
}

/// Whether `a` is listed before `b`.
pub fn precedes(o: Order, a: &Task, b: &Task) -> (r: bool)
    ensures
        r == task_before(o, a@, b@),
{
    match o {
        Order::Id => a.id < b.id,
        Order::Group => parent_before(a.parent_id, b.parent_id) || (parent_same(
            a.parent_id,
            b.parent_id,
        ) && (a.display_order < b.display_order || (a.display_order == b.display_order && a.id
            < b.id))),
        Order::Due => due_before(&a.due, &b.due) || (same_due(&a.due, &b.due) && a.id < b.id),
        Order::Updated => text::lt(b.updated_at.as_str(), a.updated_at.as_str()) || (text::same(
            a.updated_at.as_str(),
            b.updated_at.as_str(),
        ) && a.id < b.id),
        Order::Created => text::lt(b.created_at.as_str(), a.created_at.as_str()) || (text::same(
            a.created_at.as_str(),
            b.created_at.as_str(),
        ) && a.id < b.id),
        Order::Title => text::lt(a.title.as_str(), b.title.as_str()) || (text::same(
            a.title.as_str(),
            b.title.as_str(),
        ) && a.id < b.id),
    }
}

/// Puts a task at its place in a sorted list.
pub fn insert_task(v: &mut Vec<Task>, t: Task, o: Order)
    requires
        sorted(task::tasks_view(old(v)@), task_order(o)),
        forall|i: int| 0 <= i < old(v)@.len() ==> (#[trigger] old(v)@[i]).id != t.id,
    ensures
        sorted(task::tasks_view(final(v)@), task_order(o)),
        exists|k: int| 0 <= k <= old(v)@.len() && final(v)@ == #[trigger] old(v)@.insert(k, t),
{
    let ghost before = task::tasks_view(v@);
    let mut k: usize = v.len();
    while k > 0 && precedes(o, &t, &v[k - 1])
        invariant
            k <= v.len(),
            *v == *old(v),
            before == task::tasks_view(v@),
            forall|i: int| k <= i < v.len() ==> task_before(o, t@, #[trigger] before[i]),
        decreases k,
    {
        k = k - 1;
        assert(before[k as int] == v@[k as int]@);
    }
    let ghost x = t@;
    let ghost source = v@;
    v.insert(k, t);
    proof {
        let after = task::tasks_view(v@);
        assert(v@ == source.insert(k as int, t));
        assert(after =~= before.insert(k as int, x));
        assert forall|i: int| 0 <= i < k implies task_before(o, #[trigger] before[i], x) by {
            assert(before[k - 1] == source[k - 1]@);
            assert(source[k - 1].id != t.id);
            lemma_task_before_total(o, before[k - 1], x);
            if i < k - 1 {
                assert(task_order(o)(before[i], before[k - 1]));
                lemma_task_before_transitive(o, before[i], before[k - 1], x);
            }
        }
        assert forall|i: int, j: int| 0 <= i < j < after.len() implies #[trigger] task_order(o)(
            after[i],
            after[j],
        ) by {
            if i < k && j > k {
                assert(task_order(o)(before[i], before[j - 1]));
            } else if i < k && j < k {
                assert(task_order(o)(before[i], before[j]));
            } else if i > k {
                assert(task_order(o)(before[i - 1], before[j - 1]));
            }
        }
    }
}

/// The given tasks, listed in order.
pub fn list_tasks(ts: &Vec<Task>, o: Order) -> (r: Vec<Task>)
    requires
        unique_ids(task::tasks_view(ts@)),
    ensures
        task::tasks_view(r@) == listing(task::tasks_view(ts@), o),
        is_listing(task::tasks_view(r@), task::tasks_view(ts@), o),
{
    let mut r: Vec<Task> = Vec::new();
    let mut i: usize = 0;
    let ghost src = task::tasks_view(ts@);
    while i < ts.len()
        invariant
            i <= ts.len(),
            src == task::tasks_view(ts@),
            unique_ids(src),
            sorted(task::tasks_view(r@), task_order(o)),
            same_elements(task::tasks_view(r@), src.take(i as int)),
        decreases ts.len() - i,
    {
        let ghost before = task::tasks_view(r@);
        let ghost done = src.take(i as int);
        proof {
            assert forall|k: int| 0 <= k < r@.len() implies (#[trigger] r@[k]).id != ts@[i as int].id by {
                assert(before[k] == r@[k]@);
                assert(done.contains(before[k]));
                let n = choose|n: int| 0 <= n < done.len() && done[n] == before[k];
                assert(src[n].id == r@[k].id);
                assert(src[i as int].id == ts@[i as int].id);
            }
        }
        let ghost rows = r@;
        let t = ts[i].clone();
        insert_task(&mut r, t, o);
        proof {
            let k = choose|k: int| 0 <= k <= rows.len() && r@ == #[trigger] rows.insert(k, t);
            let after = task::tasks_view(r@);
            let next = src.take(i + 1);
            assert(after =~= before.insert(k, src[i as int]));
            assert(next =~= done.push(src[i as int]));
            assert forall|n: int| 0 <= n < after.len() implies next.contains(#[trigger] after[n]) by {
                if n == k {
                    assert(next[i as int] == after[n]);
                } else {
                    let b = if n < k {
                        n
                    } else {
                        n - 1
                    };
                    assert(done.contains(before[b]));
                    let q = choose|q: int| 0 <= q < done.len() && done[q] == before[b];
                    assert(next[q] == after[n]);
                }
            }
            assert forall|n: int| 0 <= n < next.len() implies after.contains(#[trigger] next[n]) by {
                if n == i {
                    assert(after[k] == next[n]);
                } else {
                    assert(done[n] == next[n]);
                    assert(before.contains(done[n]));
                    let q = choose|q: int| 0 <= q < before.len() && before[q] == done[n];
                    let p = if q < k {
                        q
                    } else {
                        q + 1
                    };
                    assert(after[p] == next[n]);
                }
            }
        }
        i = i + 1;
    }
    proof {
        assert(src.take(i as int) =~= src);
        lemma_listing_unique(task::tasks_view(r@), src, o);
    }
    r
}

/// The order statuses are shown in.
pub open spec fn status_before(a: StatusV, b: StatusV) -> bool {
    a.display_order < b.display_order || (a.display_order == b.display_order && a.id < b.id)
}

pub open spec fn status_order() -> spec_fn(StatusV, StatusV) -> bool {
    |a: StatusV, b: StatusV| status_before(a, b)
}

pub open spec fn unique_status_ids(ss: Seq<StatusV>) -> bool {
    forall|i: int, j: int| 0 <= i < ss.len() && 0 <= j < ss.len() && ss[i].id == ss[j].id ==> i == j
}

pub open spec fn is_status_listing(s: Seq<StatusV>, ss: Seq<StatusV>) -> bool {
    sorted(s, status_order()) && same_elements(s, ss)
}

/// The given statuses in display order.
pub open spec fn status_listing(ss: Seq<StatusV>) -> Seq<StatusV> {
    choose|s: Seq<StatusV>| is_status_listing(s, ss)
}

/// There is only one status listing.
pub proof fn lemma_status_listing_unique(s: Seq<StatusV>, ss: Seq<StatusV>)
    requires
        is_status_listing(s, ss),
    ensures
        s == status_listing(ss),
{
    let l = status_listing(ss);
    assert(is_status_listing(l, ss));
    assert forall|i: int| 0 <= i < s.len() implies l.contains(#[trigger] s[i]) by {
        assert(ss.contains(s[i]));
        let k = choose|k: int| 0 <= k < ss.len() && ss[k] == s[i];
        assert(l.contains(ss[k]));
    }
    assert forall|i: int| 0 <= i < l.len() implies s.contains(#[trigger] l[i]) by {
        assert(ss.contains(l[i]));
        let k = choose|k: int| 0 <= k < ss.len() && ss[k] == l[i];
        assert(s.contains(ss[k]));
    }
    lemma_sorted_unique(s, l, status_order());
}

fn insert_status(v: &mut Vec<Status>, t: Status)
    requires
        sorted(status::statuses_view(old(v)@), status_order()),
        forall|i: int| 0 <= i < old(v)@.len() ==> (#[trigger] old(v)@[i]).id != t.id,
    ensures
        sorted(status::statuses_view(final(v)@), status_order()),
        exists|k: int| 0 <= k <= old(v)@.len() && final(v)@ == #[trigger] old(v)@.insert(k, t),
{
    let ghost before = status::statuses_view(v@);
    let mut k: usize = v.len();
    while k > 0 && (t.display_order < v[k - 1].display_order || (t.display_order
        == v[k - 1].display_order && t.id < v[k - 1].id))
        invariant
            k <= v.len(),
            *v == *old(v),
            before == status::statuses_view(v@),
            forall|i: int| k <= i < v.len() ==> status_before(t@, #[trigger] before[i]),
        decreases k,
    {
        k = k - 1;
        assert(before[k as int] == v@[k as int]@);
    }
    let ghost x = t@;
    let ghost source = v@;
    v.insert(k, t);
    proof {
        let after = status::statuses_view(v@);
        assert(v@ == source.insert(k as int, t));
        assert(after =~= before.insert(k as int, x));
        assert forall|i: int| 0 <= i < k implies status_before(#[trigger] before[i], x) by {
            assert(before[k - 1] == source[k - 1]@);
            assert(source[k - 1].id != t.id);
            if i < k - 1 {
                assert(status_order()(before[i], before[k - 1]));
            }
        }
        assert forall|i: int, j: int| 0 <= i < j < after.len() implies #[trigger] status_order()(
            after[i],
            after[j],
        ) by {
            if i < k && j > k {
                assert(status_order()(before[i], before[j - 1]));
            } else if i < k && j < k {
                assert(status_order()(before[i], before[j]));
            } else if i > k {
                assert(status_order()(before[i - 1], before[j - 1]));
            }
        }
    }
}

/// The given statuses, in display order.
pub fn list_statuses(ts: &Vec<Status>) -> (r: Vec<Status>)
    requires
        unique_status_ids(status::statuses_view(ts@)),
    ensures
        status::statuses_view(r@) == status_listing(status::statuses_view(ts@)),
        is_status_listing(status::statuses_view(r@), status::statuses_view(ts@)),
{
    let mut r: Vec<Status> = Vec::new();
    let mut i: usize = 0;
    let ghost src = status::statuses_view(ts@);
    while i < ts.len()
        invariant
            i <= ts.len(),
            src == status::statuses_view(ts@),
            unique_status_ids(src),
            sorted(status::statuses_view(r@), status_order()),
            same_elements(status::statuses_view(r@), src.take(i as int)),
        decreases ts.len() - i,
    {
        let ghost before = status::statuses_view(r@);
        let ghost done = src.take(i as int);
        proof {
            assert forall|k: int| 0 <= k < r@.len() implies (#[trigger] r@[k]).id != ts@[i as int].id by {
                assert(before[k] == r@[k]@);
                assert(done.contains(before[k]));
                let n = choose|n: int| 0 <= n < done.len() && done[n] == before[k];
                assert(src[n].id == r@[k].id);
                assert(src[i as int].id == ts@[i as int].id);
            }
        }
        let ghost rows = r@;
        let t = ts[i].clone();
        insert_status(&mut r, t);
        proof {
            let k = choose|k: int| 0 <= k <= rows.len() && r@ == #[trigger] rows.insert(k, t);
            let after = status::statuses_view(r@);
            let next = src.take(i + 1);
            assert(after =~= before.insert(k, src[i as int]));
            assert(next =~= done.push(src[i as int]));
            assert forall|n: int| 0 <= n < after.len() implies next.contains(#[trigger] after[n]) by {
                if n == k {
                    assert(next[i as int] == after[n]);
                } else {
                    let b = if n < k {
                        n
                    } else {
                        n - 1
                    };
                    assert(done.contains(before[b]));
                    let q = choose|q: int| 0 <= q < done.len() && done[q] == before[b];
                    assert(next[q] == after[n]);
                }
            }
            assert forall|n: int| 0 <= n < next.len() implies after.contains(#[trigger] next[n]) by {
                if n == i {
                    assert(after[k] == next[n]);
                } else {
                    assert(done[n] == next[n]);
                    assert(before.contains(done[n]));
                    let q = choose|q: int| 0 <= q < before.len() && before[q] == done[n];
                    let p = if q < k {
                        q
                    } else {
                        q + 1
                    };
                    assert(after[p] == next[n]);
                }
            }
        }
        i = i + 1;
    }
    proof {
        assert(src.take(i as int) =~= src);
        lemma_status_listing_unique(status::statuses_view(r@), src);
    }
    r
}

} // verus!

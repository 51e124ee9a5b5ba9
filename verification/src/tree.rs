//! The tree view: its visible rows, and where edits in it lead.
use std::collections::HashSet;

use vstd::prelude::*;

use crate::db::passes;
use crate::forest;
use crate::order;
use crate::plans;
use crate::query;
use crate::query::Filter;
use crate::status;
use crate::status::{Status, StatusKind, StatusV};
use crate::status_cycle;
use crate::task;
use crate::task::{Task, TaskV};
use crate::text;

verus! {

broadcast use vstd::std_specs::hash::group_hash_axioms;

/// One visible line of the tree view, referring back into the task list the
/// view was built from.
#[derive(Debug, Clone, Copy, PartialEq, Eq, Structural)]
pub struct Row {
    pub task_index: usize,
    pub depth: usize,
    pub has_children: bool,
}

/// A row as mathematical values.
#[verifier::ext_equal]
pub struct RowV {
    pub task_index: int,
    pub depth: nat,
    pub has_children: bool,
}

impl View for Row {
    type V = RowV;

    open spec fn view(&self) -> RowV {
        RowV {
            task_index: self.task_index as int,
            depth: self.depth as nat,
            has_children: self.has_children,
        }
    }
}

pub open spec fn rows_view(v: Seq<Row>) -> Seq<RowV> {
    v.map_values(|r: Row| r@)
}

/// Whether a task may be shown; without a set every task may.
pub open spec fn shown(visible: Option<Set<i64>>, id: i64) -> bool {
    visible matches Some(ids) ==> ids.contains(id)
}

/// What decides which rows a tree has.
pub struct Look {
    pub expanded: Set<i64>,
    pub visible: Option<Set<i64>>,
}

/// The rows of the task at index `i` and, where it is expanded, of what is
/// shown below it.
pub open spec fn rows_of(
    ts: Seq<TaskV>,
    h: spec_fn(i64) -> nat,
    look: Look,
    i: int,
    depth: nat,
) -> Seq<RowV>
    decreases h(ts[i].id) + 1, 0nat,
{
    let g = forest::group(ts, Some(ts[i].id));
    let own = seq![RowV { task_index: i, depth, has_children: g.len() > 0 }];
    if look.expanded.contains(ts[i].id) {
        own + rows_below(ts, h, look, h(ts[i].id), g, depth + 1)
    } else {
        own
    }
}

/// The rows of several siblings below the height `n`, one after the other.
pub open spec fn rows_below(
    ts: Seq<TaskV>,
    h: spec_fn(i64) -> nat,
    look: Look,
    n: nat,
    g: Seq<int>,
    depth: nat,
) -> Seq<RowV>
    decreases n, g.len(),
{
    if g.len() == 0 {
        seq![]
    } else {
        let first = if shown(look.visible, ts[g[0]].id) && h(ts[g[0]].id) < n {
            rows_of(ts, h, look, g[0], depth)
        } else {
            seq![]
        };
        first + rows_below(ts, h, look, n, g.drop_first(), depth)
    }
}

/// The rows of the top-level siblings.
pub open spec fn rows_top(ts: Seq<TaskV>, look: Look, g: Seq<int>) -> Seq<RowV>
    decreases g.len(),
{
    if g.len() == 0 {
        seq![]
    } else {
        let first = if shown(look.visible, ts[g[0]].id) {
            rows_of(ts, forest::heights(ts), look, g[0], 0)
        } else {
            seq![]
        };
        first + rows_top(ts, look, g.drop_first())
    }
}

/// The visible rows of the tree: the roots, or the children of the zoom
/// root, with the children of each expanded task beneath it.
pub open spec fn visible_rows(ts: Seq<TaskV>, look: Look, zoom_root: Option<i64>) -> Seq<RowV> {
    rows_top(ts, look, forest::group(ts, zoom_root))
}

/// The rows still owed by a stack of tasks and depths, its top first.
spec fn owed(
    ts: Seq<TaskV>,
    h: spec_fn(i64) -> nat,
    look: Look,
    stack: Seq<(usize, usize)>,
) -> Seq<RowV>
    decreases stack.len(),
{
    if stack.len() == 0 {
        seq![]
    } else {
        let (i, depth) = stack.last();
        let first = if shown(look.visible, ts[i as int].id) {
            rows_of(ts, h, look, i as int, depth as nat)
        } else {
            seq![]
        };
        first + owed(ts, h, look, stack.drop_last())
    }
}

/// The group pushed on a stack so that its first task comes off first.
spec fn stacked(g: Seq<usize>, depth: usize) -> Seq<(usize, usize)> {
    Seq::new(g.len(), |k: int| (g[g.len() - 1 - k], depth))
}

proof fn lemma_owed_push(
    ts: Seq<TaskV>,
    h: spec_fn(i64) -> nat,
    look: Look,
    n: nat,
    stack: Seq<(usize, usize)>,
    g: Seq<usize>,
    depth: usize,
)
    requires
        forall|k: int| 0 <= k < g.len() ==> h(ts[(#[trigger] g[k]) as int].id) < n,
    ensures
        owed(ts, h, look, stack + stacked(g, depth)) == rows_below(
            ts,
            h,
            look,
            n,
            forest::ints(g),
            depth as nat,
        ) + owed(ts, h, look, stack),
    decreases g.len(),
{
    let whole = stack + stacked(g, depth);
    if g.len() == 0 {
        assert(whole =~= stack);
        assert(forest::ints(g) =~= seq![]);
        assert(rows_below(ts, h, look, n, forest::ints(g), depth as nat) + owed(ts, h, look, stack)
            =~= owed(ts, h, look, stack));
    } else {
        let rest = g.drop_first();
        assert(whole.last() == (g[0], depth));
        assert(whole.drop_last() =~= stack + stacked(rest, depth));
        assert(forest::ints(g).drop_first() =~= forest::ints(rest));
        assert(forest::ints(g)[0] == g[0] as int);
        assert forall|k: int| 0 <= k < rest.len() implies h(ts[(#[trigger] rest[k]) as int].id) < n by {
            assert(rest[k] == g[k + 1]);
        }
        lemma_owed_push(ts, h, look, n, stack, rest, depth);
        assert(h(ts[g[0] as int].id) < n);
        assert(owed(ts, h, look, whole) =~= rows_below(
            ts,
            h,
            look,
            n,
            forest::ints(g),
            depth as nat,
        ) + owed(ts, h, look, stack));
    }
}

proof fn lemma_owed_top(ts: Seq<TaskV>, look: Look, g: Seq<usize>)
    ensures
        owed(ts, forest::heights(ts), look, stacked(g, 0)) == rows_top(ts, look, forest::ints(g)),
    decreases g.len(),
{
    let h = forest::heights(ts);
    let whole = stacked(g, 0);
    if g.len() == 0 {
        assert(forest::ints(g) =~= seq![]);
    } else {
        let rest = g.drop_first();
        assert(whole.last() == (g[0], 0usize));
        assert(whole.drop_last() =~= stacked(rest, 0));
        assert(forest::ints(g).drop_first() =~= forest::ints(rest));
        assert(forest::ints(g)[0] == g[0] as int);
        lemma_owed_top(ts, look, rest);
    }
}

fn push_group(stack: &mut Vec<(usize, usize)>, g: &Vec<usize>, depth: usize)
    ensures
        final(stack)@ == old(stack)@ + stacked(g@, depth),
{
    let ghost before = stack@;
    let mut k: usize = g.len();
    assert(before + stacked(g@.skip(k as int), depth) =~= before);
    while k > 0
        invariant
            k <= g.len(),
            stack@ == before + stacked(g@.skip(k as int), depth),
        decreases k,
    {
        k = k - 1;
        stack.push((g[k], depth));
        assert(stack@ =~= before + stacked(g@.skip(k as int), depth));
    }
    assert(g@.skip(0) =~= g@);
}

/// The sets that decide which rows a tree has.
pub open spec fn look_of(expanded: Set<i64>, visible: Option<&HashSet<i64>>) -> Look {
    Look {
        expanded,
        visible: match visible {
            Some(ids) => Some(ids@),
            None => None,
        },
    }
}

/// Flattens the task tree into visible rows: roots in display order, with
/// the children of each expanded task interleaved beneath it. Subtrees under
/// a collapsed task stay hidden even if their own expansion flags are set.
///
/// With `zoom_root` set, only that task's subtree is shown: its children
/// become depth-0 rows (the zoom root itself gets no row) so deep nesting
/// never squeezes the view to the right.
///
/// With `visible` set, tasks outside it are skipped along with their whole
/// subtrees (the set already contains the ancestors of everything it wants
/// shown, so nothing below a skipped task can be in it).
///
/// Traversal uses an explicit stack because tree depth is unbounded and a
/// recursive walk would tie stack usage to user data.
pub fn build_visible_rows(
    tasks: &Vec<Task>,
    expanded: &HashSet<i64>,
    zoom_root: Option<i64>,
    visible: Option<&HashSet<i64>>,
) -> (r: Vec<Row>)
    requires
        forest::acyclic(task::tasks_view(tasks@)),
    ensures
        rows_view(r@) == visible_rows(
            task::tasks_view(tasks@),
            look_of(expanded@, visible),
            zoom_root,
        ),
        forall|k: int| 0 <= k < r@.len() ==> (#[trigger] r@[k]).task_index < tasks@.len(),
{
    let ghost ts = task::tasks_view(tasks@);
    let ghost h = forest::heights(ts);
    let ghost look = look_of(expanded@, visible);
    let top = forest::group_of(tasks, zoom_root);
    let mut stack: Vec<(usize, usize)> = Vec::new();
    push_group(&mut stack, &top, 0);
    let mut rows: Vec<Row> = Vec::new();
    let ghost total = visible_rows(ts, look, zoom_root);
    proof {
        assert(stack@ =~= stacked(top@, 0));
        lemma_owed_top(ts, look, top@);
        assert(rows_view(rows@) =~= seq![]);
        assert(rows_view(rows@) + owed(ts, h, look, stack@) =~= total);
        assert forall|k: int| 0 <= k < stack@.len() implies (#[trigger] stack@[k]).0 < tasks@.len()
            && stack@[k].1 <= 0 by {
            let q = top@.len() - 1 - k;
            assert(stack@[k].0 == top@[q]);
            assert(forest::ints(top@)[q] == top@[q] as int);
        }
    }
    while stack.len() > 0
        invariant
            ts == task::tasks_view(tasks@),
            forest::descends(ts, h),
            look == look_of(expanded@, visible),
            forall|k: int|
                0 <= k < stack@.len() ==> (#[trigger] stack@[k]).0 < tasks@.len() && stack@[k].1
                    <= rows@.len(),
            forall|k: int| 0 <= k < rows@.len() ==> (#[trigger] rows@[k]).task_index < tasks@.len(),
            rows_view(rows@) + owed(ts, h, look, stack@) == total,
        decreases total.len() - rows@.len(), stack@.len(),
    {
        let ghost before = stack@;
        let ghost done = rows_view(rows@);
        assert(before[before.len() - 1].0 < tasks@.len());
        match stack.pop() {
            Some((task_index, depth)) => {
                assert(stack@ =~= before.drop_last());
                assert(before.last() == (task_index, depth));
                assert(ts[task_index as int] == tasks@[task_index as int]@);
                let id = tasks[task_index].id;
                let hidden = match visible {
                    Some(ids) => !ids.contains(&id),
                    None => false,
                };
                if hidden {
                    assert(owed(ts, h, look, before) =~= owed(ts, h, look, stack@));
                } else {
                    let group = forest::group_of(tasks, Some(id));
                    let row = Row { task_index, depth, has_children: group.len() > 0 };
                    rows.push(row);
                    assert(rows_view(rows@) =~= done.push(row@));
                    let shown_rows: usize = rows.len();
                    assert(depth < shown_rows);
                    let ghost rest = stack@;
                    if expanded.contains(&id) {
                        push_group(&mut stack, &group, depth + 1);
                        proof {
                            let g = forest::ints(group@);
                            assert forall|k: int| 0 <= k < group@.len() implies h(
                                ts[(#[trigger] group@[k]) as int].id,
                            ) < h(ts[task_index as int].id) by {
                                assert(g[k] == group@[k] as int);
                                assert(ts[g[k]].parent_id == Some(ts[task_index as int].id));
                            }
                            lemma_owed_push(
                                ts,
                                h,
                                look,
                                h(ts[task_index as int].id),
                                rest,
                                group@,
                                (depth + 1) as usize,
                            );
                            assert forall|k: int| 0 <= k < stack@.len() implies (
                            #[trigger] stack@[k]).0 < tasks@.len() && stack@[k].1 <= rows@.len() by {
                                if k < rest.len() {
                                    assert(stack@[k] == before[k]);
                                } else {
                                    let q = group@.len() - 1 - (k - rest.len());
                                    assert(stack@[k] == (group@[q], (depth + 1) as usize));
                                    assert(g[q] == group@[q] as int);
                                    assert(0 <= g[q] < ts.len());
                                }
                            }
                        }
                    }
                    assert(rows_view(rows@) + owed(ts, h, look, stack@) =~= done + (rows_of(
                        ts,
                        h,
                        look,
                        task_index as int,
                        depth as nat,
                    ) + owed(ts, h, look, rest)));
                }
            },
            None => {},
        }
    }
    assert(rows_view(rows@) + owed(ts, h, look, stack@) =~= rows_view(rows@));
    rows
}

/// The kind of a task's status. A status id matching no definition (possible
/// only through outside edits of the database file) is treated as open so
/// broken data stays visible instead of vanishing.
pub open spec fn kind_of(statuses: Seq<StatusV>, id: i64) -> StatusKind {
    let i = status_cycle::position(statuses, id);
    if i < statuses.len() {
        statuses[i].kind
    } else {
        StatusKind::Open
    }
}

/// Whether a task itself satisfies a filter.
pub open spec fn matches_filter(
    t: TaskV,
    statuses: Seq<StatusV>,
    filter: Filter,
    today: Seq<char>,
) -> bool {
    query::passes_filter(t, kind_of(statuses, t.status_id), filter, today)
}

fn task_matches_filter(task: &Task, statuses: &Vec<Status>, filter: Filter, today: &str) -> (r:
    bool)
    ensures
        r == matches_filter(task@, status::statuses_view(statuses@), filter, today@),
{
    let kind = match status_cycle::position_of(statuses, task.status_id) {
        Some(i) => statuses[i].kind,
        None => StatusKind::Open,
    };
    proof {
        if let Some(i) = Some(status_cycle::position(status::statuses_view(statuses@), task.status_id)) {
            if i < statuses@.len() {
                assert(status::statuses_view(statuses@)[i] == statuses@[i]@);
            }
        }
    }
    passes(task, kind, filter, today)
}

/// The parent of the task with this id.
pub open spec fn parent_of(ts: Seq<TaskV>, id: i64) -> Option<i64> {
    let i = plans::index_of(ts, id);
    if 0 <= i < ts.len() {
        ts[i].parent_id
    } else {
        None
    }
}

/// The chain of parents that starts with `from`, upwards.
pub open spec fn upwards(ts: Seq<TaskV>, h: spec_fn(i64) -> nat, from: Option<i64>) -> Seq<i64>
    decreases
            if from is Some && plans::index_of(ts, from->Some_0) >= 0 && h(from->Some_0)
                <= forest::top(ts, h, ts.len() as int) {
                forest::top(ts, h, ts.len() as int) - h(from->Some_0) + 1
            } else {
                0
            },
    via upwards_end
{
    match from {
        None => seq![],
        Some(id) => {
            let next = parent_of(ts, id);
            if forest::descends(ts, h) && next is Some {
                seq![id] + upwards(ts, h, next)
            } else {
                seq![id]
            }
        },
    }
}

#[via_fn]
proof fn upwards_end(ts: Seq<TaskV>, h: spec_fn(i64) -> nat, from: Option<i64>) {
    if from is Some && forest::descends(ts, h) && parent_of(ts, from->Some_0) is Some {
        let id = from->Some_0;
        let i = plans::index_of(ts, id);
        lemma_index(ts, id);
        forest::lemma_top(ts, h, ts.len() as int, i);
        let p = ts[i].parent_id->Some_0;
        let j = plans::index_of(ts, p);
        lemma_index(ts, p);
        if 0 <= j < ts.len() {
            forest::lemma_top(ts, h, ts.len() as int, j);
        }
    }
}

proof fn lemma_index(ts: Seq<TaskV>, id: i64)
    ensures
        -1 <= plans::index_of(ts, id) < ts.len(),
        plans::index_of(ts, id) >= 0 ==> ts[plans::index_of(ts, id)].id == id,
        plans::index_of(ts, id) < 0 ==> !forest::listed(ts, id),
    decreases ts.len(),
{
    if ts.len() > 0 {
        lemma_index(ts.drop_last(), id);
        if ts.last().id != id && plans::index_of(ts.drop_last(), id) < 0 {
            assert forall|i: int| 0 <= i < ts.len() implies (#[trigger] ts[i]).id != id by {
                if i < ts.len() - 1 {
                    assert(ts.drop_last()[i] == ts[i]);
                }
            }
        }
    }
}

/// The ancestors of a task, nearest parent first.
pub open spec fn ancestors(ts: Seq<TaskV>, id: i64) -> Seq<i64> {
    upwards(ts, forest::heights(ts), parent_of(ts, id))
}

/// The position of the last task with this id.
fn find_last(tasks: &Vec<Task>, id: i64) -> (r: Option<usize>)
    ensures
        match r {
            Some(i) => i < tasks@.len() && i == plans::index_of(task::tasks_view(tasks@), id)
                && tasks@[i as int].id == id,
            None => plans::index_of(task::tasks_view(tasks@), id) < 0,
        },
{
    let ghost ts = task::tasks_view(tasks@);
    let mut i: usize = tasks.len();
    assert(ts.take(i as int) =~= ts);
    while i > 0
        invariant
            i <= tasks.len(),
            ts == task::tasks_view(tasks@),
            plans::index_of(ts, id) == plans::index_of(ts.take(i as int), id),
        decreases i,
    {
        i = i - 1;
        assert(ts.take(i + 1).last() == tasks@[i as int]@);
        assert(ts.take(i + 1).drop_last() =~= ts.take(i as int));
        if tasks[i].id == id {
            return Some(i);
        }
    }
    None
}

fn parent_id_of(tasks: &Vec<Task>, id: i64) -> (r: Option<i64>)
    ensures
        r == parent_of(task::tasks_view(tasks@), id),
{
    match find_last(tasks, id) {
        Some(i) => {
            assert(task::tasks_view(tasks@)[i as int] == tasks@[i as int]@);
            tasks[i].parent_id
        },
        None => None,
    }
}

/// Ids of `id`'s ancestors, nearest parent first. Expanding all of them
/// makes the task visible in the tree. Walks parent links iteratively
/// because tree depth is unbounded. Empty for roots and unknown ids.
pub fn ancestors_of(tasks: &Vec<Task>, id: i64) -> (r: Vec<i64>)
    requires
        forest::acyclic(task::tasks_view(tasks@)),
    ensures
        r@ == ancestors(task::tasks_view(tasks@), id),
{
    let ghost ts = task::tasks_view(tasks@);
    let ghost h = forest::heights(ts);
    let ghost all = ancestors(ts, id);
    let mut r: Vec<i64> = Vec::new();
    let mut current: Option<i64> = parent_id_of(tasks, id);
    assert(r@ + upwards(ts, h, current) =~= all);
    loop
        invariant
            ts == task::tasks_view(tasks@),
            forest::descends(ts, h),
            r@ + upwards(ts, h, current) == all,
        ensures
            r@ == all,
        decreases all.len() - r@.len(),
    {
        match current {
            Some(parent) => {
                let ghost before = r@;
                r.push(parent);
                let next = parent_id_of(tasks, parent);
                assert(r@ + upwards(ts, h, next) =~= before + upwards(ts, h, current));
                current = next;
            },
            None => {
                assert(r@ + upwards(ts, h, current) =~= r@);
                break ;
            },
        }
    }
    r
}

/// The titles of a task and its ancestors, upwards.
pub open spec fn titles_up(ts: Seq<TaskV>, ids: Seq<i64>) -> Seq<Seq<char>>
    decreases ids.len(),
{
    if ids.len() == 0 || !(0 <= plans::index_of(ts, ids[0]) < ts.len()) {
        seq![]
    } else {
        seq![ts[plans::index_of(ts, ids[0])].title] + titles_up(ts, ids.drop_first())
    }
}

/// The header path for a zoomed view: ancestor titles down to the zoom root
/// itself.
pub open spec fn path_text(ts: Seq<TaskV>, zoom_root: i64) -> Seq<char> {
    text::joined(
        titles_up(ts, upwards(ts, forest::heights(ts), Some(zoom_root))).reverse(),
        " › "@,
    )
}

/// Renders the header path for a zoomed view: ancestor titles down to the
/// zoom root itself, e.g. `work › project X › design`. Walks parent links
/// iteratively because tree depth is unbounded.
pub fn breadcrumb(tasks: &Vec<Task>, zoom_root: i64) -> (r: String)
    requires
        forest::acyclic(task::tasks_view(tasks@)),
    ensures
        r@ == path_text(task::tasks_view(tasks@), zoom_root),
{
    let ghost ts = task::tasks_view(tasks@);
    let ghost h = forest::heights(ts);
    let ghost chain = upwards(ts, h, Some(zoom_root));
    let ghost all = titles_up(ts, chain);
    let mut titles: Vec<String> = Vec::new();
    let mut current: Option<i64> = Some(zoom_root);
    assert(text::texts(titles@) =~= seq![]);
    assert(text::texts(titles@) + titles_up(ts, chain) =~= all);
    loop
        invariant
            ts == task::tasks_view(tasks@),
            forest::descends(ts, h),
            text::texts(titles@) + titles_up(ts, upwards(ts, h, current)) == all,
        ensures
            text::texts(titles@) == all,
        decreases all.len() - titles@.len(),
    {
        let ghost ids = upwards(ts, h, current);
        match current {
            Some(id) => match find_last(tasks, id) {
                Some(i) => {
                    let ghost before = text::texts(titles@);
                    let title = tasks[i].title.clone();
                    titles.push(title);
                    proof {
                        assert(ts[i as int] == tasks@[i as int]@);
                        assert(text::texts(titles@) =~= before.push(title@));
                        assert(ids[0] == id);
                        let next = ts[i as int].parent_id;
                        assert(ids.drop_first() =~= upwards(ts, h, next));
                        assert(before.push(title@) + titles_up(ts, upwards(ts, h, next)) =~= before
                            + titles_up(ts, ids));
                    }
                    current = tasks[i].parent_id;
                },
                None => {
                    assert(ids[0] == id);
                    assert(titles_up(ts, ids) =~= seq![]);
                    assert(text::texts(titles@) + titles_up(ts, ids) =~= text::texts(titles@));
                    break ;
                },
            },
            None => {
                assert(titles_up(ts, ids) =~= seq![]);
                assert(text::texts(titles@) + titles_up(ts, ids) =~= text::texts(titles@));
                break ;
            },
        }
    }
    let mut parts: Vec<String> = Vec::new();
    let mut k: usize = titles.len();
    assert(text::texts(parts@) =~= all.skip(k as int).reverse());
    while k > 0
        invariant
            k <= titles.len(),
            all == text::texts(titles@),
            text::texts(parts@) == all.skip(k as int).reverse(),
        decreases k,
    {
        k = k - 1;
        let ghost before = text::texts(parts@);
        let part = titles[k].clone();
        assert(part@ == all[k as int]);
        parts.push(part);
        assert(text::texts(parts@) =~= before.push(part@));
        assert(text::texts(parts@) =~= all.skip(k as int).reverse());
    }
    assert(all.skip(0) =~= all);
    text::join(&parts, " › ")
}

/// The ids the tree may show under a filter: those of the tasks that match
/// and of all their ancestors.
pub open spec fn filter_ids(
    ts: Seq<TaskV>,
    statuses: Seq<StatusV>,
    filter: Filter,
    today: Seq<char>,
) -> Set<i64> {
    Set::new(
        |x: i64|
            exists|i: int|
                0 <= i < ts.len() && matches_filter(#[trigger] ts[i], statuses, filter, today) && (x
                    == ts[i].id || ancestors(ts, ts[i].id).contains(x)),
    )
}

pub open spec fn visible_ids(
    ts: Seq<TaskV>,
    statuses: Seq<StatusV>,
    filter: Filter,
    today: Seq<char>,
) -> Option<Set<i64>> {
    if filter == Filter::All {
        None
    } else {
        Some(filter_ids(ts, statuses, filter, today))
    }
}

pub proof fn lemma_own_index(ts: Seq<TaskV>, i: int)
    requires
        order::unique_ids(ts),
        0 <= i < ts.len(),
    ensures
        plans::index_of(ts, ts[i].id) == i,
{
    lemma_index(ts, ts[i].id);
}

/// With a task, its parent belongs to the ids shown.
pub proof fn lemma_filter_closed(
    ts: Seq<TaskV>,
    statuses: Seq<StatusV>,
    filter: Filter,
    today: Seq<char>,
    x: i64,
)
    requires
        forest::acyclic(ts),
        order::unique_ids(ts),
        filter_ids(ts, statuses, filter, today).contains(x),
        parent_of(ts, x) is Some,
    ensures
        filter_ids(ts, statuses, filter, today).contains(parent_of(ts, x)->Some_0),
{
    let i = choose|i: int|
        0 <= i < ts.len() && matches_filter(#[trigger] ts[i], statuses, filter, today) && (x
            == ts[i].id || ancestors(ts, ts[i].id).contains(x));
    let h = forest::heights(ts);
    let p = parent_of(ts, x)->Some_0;
    if x == ts[i].id {
        assert(upwards(ts, h, Some(p))[0] == p);
        assert(ancestors(ts, ts[i].id).contains(p));
    } else {
        lemma_chain_closed(ts, h, parent_of(ts, ts[i].id), x);
    }
}

proof fn lemma_chain_closed(ts: Seq<TaskV>, h: spec_fn(i64) -> nat, from: Option<i64>, x: i64)
    requires
        forest::descends(ts, h),
        upwards(ts, h, from).contains(x),
        parent_of(ts, x) is Some,
    ensures
        upwards(ts, h, from).contains(parent_of(ts, x)->Some_0),
    decreases upwards(ts, h, from).len(),
{
    let c = upwards(ts, h, from);
    let k = choose|k: int| 0 <= k < c.len() && c[k] == x;
    let next = parent_of(ts, from->Some_0);
    let p = parent_of(ts, x)->Some_0;
    if x == from->Some_0 {
        assert(upwards(ts, h, next)[0] == p);
        assert(c[1] == p);
    } else {
        let rest = upwards(ts, h, next);
        assert(rest[k - 1] == x);
        lemma_chain_closed(ts, h, next, x);
        let q = choose|q: int| 0 <= q < rest.len() && rest[q] == p;
        assert(c[q + 1] == p);
    }
}

/// A set that is closed under parents and holds the start of a chain holds
/// the chain.
pub proof fn lemma_chain_within(
    ts: Seq<TaskV>,
    h: spec_fn(i64) -> nat,
    from: Option<i64>,
    ids: Set<i64>,
)
    requires
        forest::descends(ts, h),
        from is Some ==> ids.contains(from->Some_0),
        forall|x: i64| #[trigger]
            ids.contains(x) && parent_of(ts, x) is Some ==> ids.contains(
                parent_of(ts, x)->Some_0,
            ),
    ensures
        forall|k: int|
            0 <= k < upwards(ts, h, from).len() ==> ids.contains(#[trigger] upwards(ts, h, from)[k]),
    decreases upwards(ts, h, from).len(),
{
    if from is Some {
        let next = parent_of(ts, from->Some_0);
        if next is Some {
            let c = upwards(ts, h, from);
            let rest = upwards(ts, h, next);
            assert(c.len() == rest.len() + 1);
            lemma_chain_within(ts, h, next, ids);
            assert forall|k: int| 0 <= k < c.len() implies ids.contains(#[trigger] c[k]) by {
                if k > 0 {
                    assert(c[k] == rest[k - 1]);
                }
            }
        }
    }
}

/// Every id of the set whose parent is missing from it is still ahead.
spec fn closed_but(ts: Seq<TaskV>, ids: Set<i64>, k: int) -> bool {
    forall|x: i64| #[trigger]
        ids.contains(x) && parent_of(ts, x) is Some ==> ids.contains(parent_of(ts, x)->Some_0) || (
        exists|j: int| k <= j < ts.len() && (#[trigger] ts[j]).id == x)
}

/// Computes which tasks the tree may show under `filter`: every task that
/// matches it, plus all their ancestors — hiding a done parent must not
/// hide its still-open children. None means "show everything" (Filter::All
/// needs no set at all). `today` (as `YYYY-MM-DD`) is passed in so the
/// overdue check stays a pure function of its inputs.
pub fn filter_visible_ids(
    tasks: &Vec<Task>,
    statuses: &Vec<Status>,
    filter: Filter,
    today: &str,
) -> (r: Option<HashSet<i64>>)
    requires
        forest::acyclic(task::tasks_view(tasks@)),
        order::unique_ids(task::tasks_view(tasks@)),
    ensures
        (match r {
            Some(ids) => Some(ids@),
            None => None,
        }) == visible_ids(
            task::tasks_view(tasks@),
            status::statuses_view(statuses@),
            filter,
            today@,
        ),
{
    if filter == Filter::All {
        return None;
    }
    let ghost ts = task::tasks_view(tasks@);
    let ghost ss = status::statuses_view(statuses@);
    let ghost wanted = filter_ids(ts, ss, filter, today@);
    let ghost h = forest::heights(ts);
    let mut visible: HashSet<i64> = HashSet::new();
    let mut i: usize = 0;
    while i < tasks.len()
        invariant
            i <= tasks.len(),
            ts == task::tasks_view(tasks@),
            ss == status::statuses_view(statuses@),
            forall|j: int|
                0 <= j < i && matches_filter(#[trigger] ts[j], ss, filter, today@)
                    ==> visible@.contains(ts[j].id),
            forall|x: i64| #[trigger]
                visible@.contains(x) ==> exists|j: int|
                    0 <= j < i && matches_filter(#[trigger] ts[j], ss, filter, today@) && ts[j].id
                        == x,
        decreases tasks.len() - i,
    {
        assert(ts[i as int] == tasks@[i as int]@);
        if task_matches_filter(&tasks[i], statuses, filter, today) {
            visible.insert(tasks[i].id);
        }
        i = i + 1;
    }
    let ghost matched = visible@;
    proof {
        assert forall|x: i64| #[trigger] visible@.contains(x) implies wanted.contains(x) by {
            let j = choose|j: int|
                0 <= j < i && matches_filter(#[trigger] ts[j], ss, filter, today@) && ts[j].id == x;
            assert(matches_filter(ts[j], ss, filter, today@));
        }
        assert forall|x: i64| #[trigger] visible@.contains(x) implies exists|j: int|
            0 <= j < ts.len() && (#[trigger] ts[j]).id == x by {
            let j = choose|j: int|
                0 <= j < i && matches_filter(#[trigger] ts[j], ss, filter, today@) && ts[j].id == x;
            assert(ts[j].id == x);
        }
        assert(closed_but(ts, visible@, 0));
    }
    let mut k: usize = 0;
    while k < tasks.len()
        invariant
            k <= tasks.len(),
            ts == task::tasks_view(tasks@),
            ss == status::statuses_view(statuses@),
            forest::acyclic(ts),
            forest::descends(ts, h),
            order::unique_ids(ts),
            wanted == filter_ids(ts, ss, filter, today@),
            matched.subset_of(visible@),
            visible@.subset_of(wanted),
            closed_but(ts, visible@, k as int),
        decreases tasks.len() - k,
    {
        assert(ts[k as int] == tasks@[k as int]@);
        let here = tasks[k].id;
        if visible.contains(&here) {
            let ghost start = visible@;
            let mut current: Option<i64> = tasks[k].parent_id;
            let ghost mut last = here;
            proof {
                lemma_own_index(ts, k as int);
            }
            let ghost chain = upwards(ts, h, current);
            let ghost mut walked: int = 0;
            loop
                invariant
                    k < tasks.len(),
                    ts == task::tasks_view(tasks@),
                    ss == status::statuses_view(statuses@),
                    here == ts[k as int].id,
                    forest::acyclic(ts),
                    forest::descends(ts, h),
                    order::unique_ids(ts),
                    wanted == filter_ids(ts, ss, filter, today@),
                    start.subset_of(visible@),
                    visible@.subset_of(wanted),
                    visible@.contains(last),
                    parent_of(ts, last) == current,
                    0 <= walked <= chain.len(),
                    upwards(ts, h, current) == chain.skip(walked),
                    forall|x: i64| #[trigger]
                        visible@.contains(x) && x != last && parent_of(ts, x) is Some
                            ==> visible@.contains(parent_of(ts, x)->Some_0) || (exists|j: int|
                            k < j < ts.len() && (#[trigger] ts[j]).id == x),
                ensures
                    start.subset_of(visible@),
                    visible@.subset_of(wanted),
                    closed_but(ts, visible@, k + 1),
                decreases chain.len() - walked,
            {
                match current {
                    Some(parent) => {
                        let ghost before = visible@;
                        proof {
                            lemma_filter_closed(ts, ss, filter, today@, last);
                            assert(chain.skip(walked)[0] == parent);
                        }
                        let fresh = visible.insert(parent);
                        assert(visible@ == before.insert(parent));
                        if !fresh {
                            proof {
                                assert(visible@ =~= before);
                            }
                            break ;
                        }
                        current = parent_id_of(tasks, parent);
                        proof {
                            assert forall|x: i64| #[trigger]
                                visible@.contains(x) && x != parent && parent_of(
                                    ts,
                                    x,
                                ) is Some implies visible@.contains(parent_of(ts, x)->Some_0) || (
                            exists|j: int| k < j < ts.len() && (#[trigger] ts[j]).id == x) by {
                                assert(before.contains(x));
                            }
                            let c = chain.skip(walked);
                            assert(upwards(ts, h, current) =~= c.skip(1));
                            assert(c.skip(1) =~= chain.skip(walked + 1));
                            last = parent;
                            walked = walked + 1;
                        }
                    },
                    None => {
                        break ;
                    },
                }
            }
        } else {
            proof {
                assert forall|x: i64| #[trigger]
                    visible@.contains(x) && parent_of(ts, x) is Some implies visible@.contains(
                    parent_of(ts, x)->Some_0,
                ) || (exists|j: int| k + 1 <= j < ts.len() && (#[trigger] ts[j]).id == x) by {
                    if !visible@.contains(parent_of(ts, x)->Some_0) {
                        let j = choose|j: int| k <= j < ts.len() && (#[trigger] ts[j]).id == x;
                        assert(j != k);
                        assert(ts[j].id == x);
                    }
                }
            }
        }
        k = k + 1;
    }
    proof {
        assert forall|x: i64| #[trigger] wanted.contains(x) implies visible@.contains(x) by {
            let j = choose|j: int|
                0 <= j < ts.len() && matches_filter(#[trigger] ts[j], ss, filter, today@) && (x
                    == ts[j].id || ancestors(ts, ts[j].id).contains(x));
            assert(matched.contains(ts[j].id));
            assert(visible@.contains(ts[j].id));
            if x != ts[j].id {
                let from = parent_of(ts, ts[j].id);
                lemma_chain_within(ts, h, from, visible@);
                let c = upwards(ts, h, from);
                let q = choose|q: int| 0 <= q < c.len() && c[q] == x;
                assert(visible@.contains(c[q]));
            }
        }
        assert(visible@ =~= wanted);
    }
    Some(visible)
}

/// Where a task created from the current selection should go. Decided when
/// input starts, so the submit path no longer cares which key opened it.
#[derive(Debug, Clone, Copy, PartialEq, Eq, Structural)]
pub struct CreateTarget {
    pub parent_id: Option<i64>,
    /// Insert right after this sibling display_order; None appends at the
    /// tail of the sibling group.
    pub after: Option<i64>,
}

pub open spec fn sibling_place(
    ts: Seq<TaskV>,
    rows: Seq<RowV>,
    selected: int,
    zoom_root: Option<i64>,
) -> CreateTarget {
    if 0 <= selected < rows.len() {
        let t = ts[rows[selected].task_index];
        CreateTarget { parent_id: t.parent_id, after: Some(t.display_order) }
    } else {
        CreateTarget { parent_id: zoom_root, after: None }
    }
}

/// Target for creating a sibling right below the selected row. With no
/// visible row (empty view) the task goes to the tail under the zoom root,
/// or to the root tail when not zoomed.
pub fn sibling_target(
    tasks: &Vec<Task>,
    rows: &Vec<Row>,
    selected: usize,
    zoom_root: Option<i64>,
) -> (r: CreateTarget)
    requires
        selected < rows@.len() ==> rows@[selected as int].task_index < tasks@.len(),
    ensures
        r == sibling_place(
            task::tasks_view(tasks@),
            rows_view(rows@),
            selected as int,
            zoom_root,
        ),
{
    if selected < rows.len() {
        let i = rows[selected].task_index;
        assert(rows_view(rows@)[selected as int] == rows@[selected as int]@);
        assert(task::tasks_view(tasks@)[i as int] == tasks@[i as int]@);
        CreateTarget { parent_id: tasks[i].parent_id, after: Some(tasks[i].display_order) }
    } else {
        CreateTarget { parent_id: zoom_root, after: None }
    }
}

pub open spec fn child_place(
    ts: Seq<TaskV>,
    rows: Seq<RowV>,
    selected: int,
    zoom_root: Option<i64>,
) -> CreateTarget {
    CreateTarget {
        parent_id: if 0 <= selected < rows.len() {
            Some(ts[rows[selected].task_index].id)
        } else {
            zoom_root
        },
        after: None,
    }
}

/// Target for creating a child at the tail of the selected row's children.
/// With no visible row (empty view) this degrades to creation under the
/// zoom root, or at the root level when not zoomed.
pub fn child_target(
    tasks: &Vec<Task>,
    rows: &Vec<Row>,
    selected: usize,
    zoom_root: Option<i64>,
) -> (r: CreateTarget)
    requires
        selected < rows@.len() ==> rows@[selected as int].task_index < tasks@.len(),
    ensures
        r == child_place(task::tasks_view(tasks@), rows_view(rows@), selected as int, zoom_root),
{
    if selected < rows.len() {
        let i = rows[selected].task_index;
        assert(rows_view(rows@)[selected as int] == rows@[selected as int]@);
        assert(task::tasks_view(tasks@)[i as int] == tasks@[i as int]@);
        CreateTarget { parent_id: Some(tasks[i].id), after: None }
    } else {
        CreateTarget { parent_id: zoom_root, after: None }
    }
}

/// Where a re-parented task should be attached.
#[derive(Debug, Clone, Copy, PartialEq, Eq, Structural)]
pub struct ReparentTarget {
    pub new_parent: Option<i64>,
    /// Land right after this sibling display_order; None appends at the
    /// tail of the new sibling group.
    pub after: Option<i64>,
}

/// The position of the first task with this id, or the length.
pub open spec fn first_with(ts: Seq<TaskV>, id: i64) -> int
    decreases ts.len(),
{
    if ts.len() == 0 || ts[0].id == id {
        0
    } else {
        1 + first_with(ts.drop_first(), id)
    }
}

/// The position of the first task with this id.
pub fn find_first(tasks: &Vec<Task>, id: i64) -> (r: Option<usize>)
    ensures
        match r {
            Some(i) => i < tasks@.len() && i == first_with(task::tasks_view(tasks@), id)
                && tasks@[i as int].id == id,
            None => first_with(task::tasks_view(tasks@), id) == tasks@.len(),
        },
{
    let ghost ts = task::tasks_view(tasks@);
    let mut i: usize = 0;
    assert(ts.skip(0) =~= ts);
    while i < tasks.len()
        invariant
            i <= tasks.len(),
            ts == task::tasks_view(tasks@),
            first_with(ts, id) == i + first_with(ts.skip(i as int), id),
        decreases tasks.len() - i,
    {
        assert(ts.skip(i as int)[0] == tasks@[i as int]@);
        if tasks[i].id == id {
            return Some(i);
        }
        assert(ts.skip(i as int).drop_first() =~= ts.skip(i + 1));
        i = i + 1;
    }
    None
}

/// Another member of the sibling group of `t`.
pub open spec fn is_sibling(s: TaskV, t: TaskV) -> bool {
    s.parent_id == t.parent_id && s.id != t.id
}

/// Among the first `n` tasks, the sibling before `t` with the largest
/// display order, the last of equals.
pub open spec fn preceding(ts: Seq<TaskV>, t: TaskV, n: int) -> Option<TaskV>
    decreases n,
{
    if n <= 0 {
        None
    } else {
        let best = preceding(ts, t, n - 1);
        let s = ts[n - 1];
        if is_sibling(s, t) && s.display_order < t.display_order && (best matches Some(b)
            ==> s.display_order >= b.display_order) {
            Some(s)
        } else {
            best
        }
    }
}

/// Among the first `n` tasks, the sibling after `t` with the smallest
/// display order, the first of equals.
pub open spec fn following(ts: Seq<TaskV>, t: TaskV, n: int) -> Option<TaskV>
    decreases n,
{
    if n <= 0 {
        None
    } else {
        let best = following(ts, t, n - 1);
        let s = ts[n - 1];
        if is_sibling(s, t) && s.display_order > t.display_order && (best matches Some(b)
            ==> s.display_order < b.display_order) {
            Some(s)
        } else {
            best
        }
    }
}

fn sibling(s: &Task, t: &Task) -> (r: bool)
    ensures
        r == is_sibling(s@, t@),
{
    let same_parent = match (s.parent_id, t.parent_id) {
        (None, None) => true,
        (Some(a), Some(b)) => a == b,
        _ => false,
    };
    same_parent && s.id != t.id
}

pub open spec fn task_at(ts: Seq<TaskV>, i: Option<usize>) -> Option<TaskV> {
    match i {
        Some(k) => Some(ts[k as int]),
        None => None,
    }
}

/// The sibling right before the task at index `at`.
fn preceding_of(tasks: &Vec<Task>, at: usize) -> (r: Option<usize>)
    requires
        at < tasks@.len(),
    ensures
        r matches Some(i) ==> i < tasks@.len(),
        task_at(task::tasks_view(tasks@), r) == preceding(
            task::tasks_view(tasks@),
            tasks@[at as int]@,
            tasks@.len() as int,
        ),
{
    let ghost ts = task::tasks_view(tasks@);
    let mut best: Option<usize> = None;
    let mut i: usize = 0;
    while i < tasks.len()
        invariant
            i <= tasks.len(),
            at < tasks@.len(),
            ts == task::tasks_view(tasks@),
            best matches Some(k) ==> k < tasks@.len(),
            task_at(ts, best) == preceding(ts, tasks@[at as int]@, i as int),
        decreases tasks.len() - i,
    {
        assert(ts[i as int] == tasks@[i as int]@);
        if sibling(&tasks[i], &tasks[at]) && tasks[i].display_order < tasks[at].display_order {
            let better = match best {
                Some(k) => {
                    assert(ts[k as int] == tasks@[k as int]@);
                    tasks[i].display_order >= tasks[k].display_order
                },
                None => true,
            };
            if better {
                best = Some(i);
            }
        }
        i = i + 1;
    }
    best
}

/// The sibling right after the task at index `at`.
fn following_of(tasks: &Vec<Task>, at: usize) -> (r: Option<usize>)
    requires
        at < tasks@.len(),
    ensures
        r matches Some(i) ==> i < tasks@.len(),
        task_at(task::tasks_view(tasks@), r) == following(
            task::tasks_view(tasks@),
            tasks@[at as int]@,
            tasks@.len() as int,
        ),
{
    let ghost ts = task::tasks_view(tasks@);
    let mut best: Option<usize> = None;
    let mut i: usize = 0;
    while i < tasks.len()
        invariant
            i <= tasks.len(),
            at < tasks@.len(),
            ts == task::tasks_view(tasks@),
            best matches Some(k) ==> k < tasks@.len(),
            task_at(ts, best) == following(ts, tasks@[at as int]@, i as int),
        decreases tasks.len() - i,
    {
        assert(ts[i as int] == tasks@[i as int]@);
        if sibling(&tasks[i], &tasks[at]) && tasks[i].display_order > tasks[at].display_order {
            let better = match best {
                Some(k) => {
                    assert(ts[k as int] == tasks@[k as int]@);
                    tasks[i].display_order < tasks[k].display_order
                },
                None => true,
            };
            if better {
                best = Some(i);
            }
        }
        i = i + 1;
    }
    best
}

/// The new parent for indenting a task.
pub open spec fn indent_parent(ts: Seq<TaskV>, id: i64) -> Option<i64> {
    let i = first_with(ts, id);
    if i < ts.len() {
        match preceding(ts, ts[i], ts.len() as int) {
            Some(s) => Some(s.id),
            None => None,
        }
    } else {
        None
    }
}

/// New parent for indenting `task_id`: its preceding sibling by
/// display_order (not by visible row, which may belong to another subtree).
/// None for the first sibling — there is nothing to indent under.
pub fn indent_new_parent(tasks: &Vec<Task>, task_id: i64) -> (r: Option<i64>)
    ensures
        r == indent_parent(task::tasks_view(tasks@), task_id),
{
    match find_first(tasks, task_id) {
        Some(i) => {
            assert(task::tasks_view(tasks@)[i as int] == tasks@[i as int]@);
            match preceding_of(tasks, i) {
                Some(k) => {
                    assert(task::tasks_view(tasks@)[k as int] == tasks@[k as int]@);
                    Some(tasks[k].id)
                },
                None => None,
            }
        },
        None => None,
    }
}

/// Where outdenting a task attaches it.
pub open spec fn outdent_place(ts: Seq<TaskV>, id: i64, zoom_root: Option<i64>) -> Option<
    ReparentTarget,
> {
    let i = first_with(ts, id);
    if i < ts.len() && ts[i].parent_id is Some && zoom_root != ts[i].parent_id {
        let p = first_with(ts, ts[i].parent_id->Some_0);
        if p < ts.len() {
            Some(
                ReparentTarget { new_parent: ts[p].parent_id, after: Some(ts[p].display_order) },
            )
        } else {
            None
        }
    } else {
        None
    }
}

/// Target for outdenting `task_id`: it becomes its parent's next sibling.
/// None when the task is already at the root level, or when its parent is
/// the zoom root (outdenting would move it outside the zoomed view).
pub fn outdent_target(tasks: &Vec<Task>, task_id: i64, zoom_root: Option<i64>) -> (r: Option<
    ReparentTarget,
>)
    ensures
        r == outdent_place(task::tasks_view(tasks@), task_id, zoom_root),
{
    let i = match find_first(tasks, task_id) {
        Some(i) => i,
        None => {
            return None;
        },
    };
    assert(task::tasks_view(tasks@)[i as int] == tasks@[i as int]@);
    let parent_id = match tasks[i].parent_id {
        Some(p) => p,
        None => {
            return None;
        },
    };
    if let Some(zoom) = zoom_root {
        if zoom == parent_id {
            return None;
        }
    }
    match find_first(tasks, parent_id) {
        Some(p) => {
            assert(task::tasks_view(tasks@)[p as int] == tasks@[p as int]@);
            Some(
                ReparentTarget {
                    new_parent: tasks[p].parent_id,
                    after: Some(tasks[p].display_order),
                },
            )
        },
        None => None,
    }
}

/// The task the cursor goes to when a subtree is deleted.
pub open spec fn after_delete(ts: Seq<TaskV>, id: i64) -> Option<i64> {
    let i = first_with(ts, id);
    if i < ts.len() {
        match following(ts, ts[i], ts.len() as int) {
            Some(s) => Some(s.id),
            None => match preceding(ts, ts[i], ts.len() as int) {
                Some(s) => Some(s.id),
                None => ts[i].parent_id,
            },
        }
    } else {
        None
    }
}

/// Which task the cursor should land on after `deleted_id`'s subtree is
/// removed: next sibling, else previous sibling, else parent. None when the
/// last root task is deleted.
pub fn selection_after_delete(tasks: &Vec<Task>, deleted_id: i64) -> (r: Option<i64>)
    ensures
        r == after_delete(task::tasks_view(tasks@), deleted_id),
{
    let i = match find_first(tasks, deleted_id) {
        Some(i) => i,
        None => {
            return None;
        },
    };
    assert(task::tasks_view(tasks@)[i as int] == tasks@[i as int]@);
    match following_of(tasks, i) {
        Some(k) => {
            assert(task::tasks_view(tasks@)[k as int] == tasks@[k as int]@);
            Some(tasks[k].id)
        },
        None => match preceding_of(tasks, i) {
            Some(k) => {
                assert(task::tasks_view(tasks@)[k as int] == tasks@[k as int]@);
                Some(tasks[k].id)
            },
            None => tasks[i].parent_id,
        },
    }
}

/// The marker of a row: open or closed for a task with children, blank for a
/// leaf.
pub open spec fn marker(has_children: bool, is_expanded: bool) -> Seq<char> {
    if !has_children {
        "  "@
    } else if is_expanded {
        "▾ "@
    } else {
        "▸ "@
    }
}

pub open spec fn prefix_text(depth: nat, has_children: bool, is_expanded: bool) -> Seq<char> {
    text::blanks(2 * depth) + marker(has_children, is_expanded)
}

/// Renders the indentation and expansion marker preceding a row title.
/// Leaves get a marker-width blank so titles align across sibling rows.
pub fn row_prefix(depth: usize, has_children: bool, is_expanded: bool) -> (r: String)
    ensures
        r@ == prefix_text(depth as nat, has_children, is_expanded),
{
    let mut r = String::new();
    let mut i: usize = 0;
    while i < depth
        invariant
            i <= depth,
            r@ == text::blanks(2 * i as nat),
        decreases depth - i,
    {
        r.push(' ');
        r.push(' ');
        i = i + 1;
        assert(r@ =~= text::blanks(2 * i as nat));
    }
    if !has_children {
        r.append("  ");
    } else if is_expanded {
        r.append("▾ ");
    } else {
        r.append("▸ ");
    }
    r
}

} // verus!

//! The rows in memory, and transactions over them. A transaction works on a
//! copy and logs every row change; only committing it changes the store.
use vstd::prelude::*;

use crate::order;
use crate::order::Order;
use crate::status;
use crate::status::{Status, StatusV};
use crate::tables;
use crate::tables::{ChangeV, Tables};
use crate::task;
use crate::task::{Task, TaskV};

verus! {

/// A change of one row: an insert has no row before, a delete none after.
#[allow(inconsistent_fields)]
#[derive(Debug, PartialEq, Eq)]
pub enum Change {
    Task { id: i64, before: Option<Task>, after: Option<Task> },
    Status { id: i64, before: Option<Status>, after: Option<Status> },
}

pub open spec fn task_option(o: Option<Task>) -> Option<TaskV> {
    match o {
        Some(t) => Some(t@),
        None => None,
    }
}

pub open spec fn status_option(o: Option<Status>) -> Option<StatusV> {
    match o {
        Some(t) => Some(t@),
        None => None,
    }
}

impl View for Change {
    type V = ChangeV;

    open spec fn view(&self) -> ChangeV {
        match *self {
            Change::Task { id, before, after } => ChangeV::Task {
                id,
                before: task_option(before),
                after: task_option(after),
            },
            Change::Status { id, before, after } => ChangeV::Status {
                id,
                before: status_option(before),
                after: status_option(after),
            },
        }
    }
}

/// The views of a list of changes.
pub open spec fn changes_view(v: Seq<Change>) -> Seq<ChangeV> {
    v.map_values(|c: Change| c@)
}

fn clone_task(o: &Option<Task>) -> (r: Option<Task>)
    ensures
        r == *o,
{
    match o {
        Some(t) => Some(t.clone()),
        None => None,
    }
}

fn clone_status(o: &Option<Status>) -> (r: Option<Status>)
    ensures
        r == *o,
{
    match o {
        Some(t) => Some(t.clone()),
        None => None,
    }
}

impl Clone for Change {
    fn clone(&self) -> (r: Self)
        ensures
            r == *self,
    {
        match self {
            Change::Task { id, before, after } => Change::Task {
                id: *id,
                before: clone_task(before),
                after: clone_task(after),
            },
            Change::Status { id, before, after } => Change::Status {
                id: *id,
                before: clone_status(before),
                after: clone_status(after),
            },
        }
    }
}

/// A copy of a list of changes.
pub fn clone_changes(v: &Vec<Change>) -> (r: Vec<Change>)
    ensures
        r@ == v@,
{
    let mut r: Vec<Change> = Vec::new();
    let mut i: usize = 0;
    while i < v.len()
        invariant
            i <= v.len(),
            r@ == v@.take(i as int),
        decreases v.len() - i,
    {
        r.push(v[i].clone());
        i = i + 1;
        assert(r@ =~= v@.take(i as int));
    }
    assert(r@ =~= v@);
    r
}

/// What undoes a change.
pub fn invert(c: &Change) -> (r: Change)
    ensures
        r@ == tables::inverse(c@),
{
    match c {
        Change::Task { id, before, after } => Change::Task {
            id: *id,
            before: clone_task(after),
            after: clone_task(before),
        },
        Change::Status { id, before, after } => Change::Status {
            id: *id,
            before: clone_status(after),
            after: clone_status(before),
        },
    }
}

/// What undoes a list of changes: their inverses, newest first.
pub fn invert_all(v: &Vec<Change>) -> (r: Vec<Change>)
    ensures
        changes_view(r@) == tables::inverse_all(changes_view(v@)),
{
    let mut r: Vec<Change> = Vec::new();
    let ghost all = tables::inverse_all(changes_view(v@));
    let mut i: usize = v.len();
    while i > 0
        invariant
            i <= v.len(),
            all == tables::inverse_all(changes_view(v@)),
            r@.len() == v@.len() - i,
            changes_view(r@) == all.take(v@.len() - i),
        decreases i,
    {
        i = i - 1;
        let ghost before = changes_view(r@);
        let c = invert(&v[i]);
        r.push(c);
        assert(changes_view(r@) =~= before.push(c@));
        assert(changes_view(r@) =~= all.take(v@.len() - i));
    }
    assert(all.take(v@.len() as int) =~= all);
    r
}

/// The ids of the tasks the changes touch, each once, in order.
pub fn affected_ids(v: &Vec<Change>) -> (r: Vec<i64>)
    ensures
        r@ == tables::affected(changes_view(v@)),
{
    let mut r: Vec<i64> = Vec::new();
    let mut i: usize = 0;
    while i < v.len()
        invariant
            i <= v.len(),
            r@ == tables::affected(changes_view(v@).take(i as int)),
        decreases v.len() - i,
    {
        let ghost next = changes_view(v@).take(i + 1);
        assert(next.drop_last() =~= changes_view(v@).take(i as int));
        assert(next.last() == v@[i as int]@);
        match &v[i] {
            Change::Task { id, before, after } => {
                if !contains_id(&r, *id) {
                    r.push(*id);
                }
            },
            Change::Status { id, before, after } => {},
        }
        i = i + 1;
    }
    assert(changes_view(v@).take(i as int) =~= changes_view(v@));
    r
}

/// Whether the list holds the id.
pub fn contains_id(v: &Vec<i64>, id: i64) -> (r: bool)
    ensures
        r == v@.contains(id),
{
    let mut i: usize = 0;
    while i < v.len()
        invariant
            i <= v.len(),
            forall|j: int| 0 <= j < i ==> v@[j] != id,
        decreases v.len() - i,
    {
        if v[i] == id {
            assert(v@[i as int] == id);
            return true;
        }
        i = i + 1;
    }
    false
}

proof fn lemma_rows_insert(s: Seq<TaskV>, m: Map<i64, TaskV>, k: int, x: TaskV)
    requires
        tables::is_rows(s, m),
        !m.dom().contains(x.id),
        0 <= k <= s.len(),
        forall|i: int| 0 <= i < k ==> (#[trigger] s[i]).id < x.id,
        forall|i: int| k <= i < s.len() ==> x.id < (#[trigger] s[i]).id,
    ensures
        tables::is_rows(s.insert(k, x), m.insert(x.id, x)),
{
    let r = s.insert(k, x);
    let n = m.insert(x.id, x);
    assert forall|i: int, j: int| 0 <= i < j < r.len() implies #[trigger] order::task_order(
        Order::Id,
    )(r[i], r[j]) by {
        let a = if i < k {
            i
        } else {
            i - 1
        };
        let b = if j < k {
            j
        } else {
            j - 1
        };
        if i != k && j != k {
            assert(order::task_order(Order::Id)(s[a], s[b]));
        }
    }
    assert forall|i: int| 0 <= i < r.len() implies n.contains_pair(r[i].id, #[trigger] r[i]) by {
        if i != k {
            let a = if i < k {
                i
            } else {
                i - 1
            };
            assert(m.contains_pair(s[a].id, s[a]));
        }
    }
    assert forall|id: i64| #[trigger] n.dom().contains(id) implies n[id].id == id && r.contains(
        n[id],
    ) by {
        if id == x.id {
            assert(r[k] == x);
        } else {
            assert(m.dom().contains(id));
            let q = choose|q: int| 0 <= q < s.len() && s[q] == m[id];
            let p = if q < k {
                q
            } else {
                q + 1
            };
            assert(r[p] == m[id]);
        }
    }
}

proof fn lemma_rows_update(s: Seq<TaskV>, m: Map<i64, TaskV>, k: int, x: TaskV)
    requires
        tables::is_rows(s, m),
        0 <= k < s.len(),
        s[k].id == x.id,
    ensures
        tables::is_rows(s.update(k, x), m.insert(x.id, x)),
        m.dom().contains(x.id),
        m[x.id] == s[k],
{
    let r = s.update(k, x);
    let n = m.insert(x.id, x);
    assert(m.contains_pair(s[k].id, s[k]));
    assert forall|i: int, j: int| 0 <= i < j < r.len() implies #[trigger] order::task_order(
        Order::Id,
    )(r[i], r[j]) by {
        assert(order::task_order(Order::Id)(s[i], s[j]));
    }
    assert forall|i: int| 0 <= i < r.len() implies n.contains_pair(r[i].id, #[trigger] r[i]) by {
        if i != k {
            assert(m.contains_pair(s[i].id, s[i]));
            if i < k {
                assert(order::task_order(Order::Id)(s[i], s[k]));
            } else {
                assert(order::task_order(Order::Id)(s[k], s[i]));
            }
        }
    }
    assert forall|id: i64| #[trigger] n.dom().contains(id) implies n[id].id == id && r.contains(
        n[id],
    ) by {
        if id == x.id {
            assert(r[k] == x);
        } else {
            assert(m.dom().contains(id));
            let q = choose|q: int| 0 <= q < s.len() && s[q] == m[id];
            assert(r[q] == m[id]);
        }
    }
}

proof fn lemma_rows_remove(s: Seq<TaskV>, m: Map<i64, TaskV>, k: int)
    requires
        tables::is_rows(s, m),
        0 <= k < s.len(),
    ensures
        tables::is_rows(s.remove(k), m.remove(s[k].id)),
        m.dom().contains(s[k].id),
        m[s[k].id] == s[k],
{
    let r = s.remove(k);
    let n = m.remove(s[k].id);
    assert(m.contains_pair(s[k].id, s[k]));
    assert forall|i: int, j: int| 0 <= i < j < r.len() implies #[trigger] order::task_order(
        Order::Id,
    )(r[i], r[j]) by {
        let a = if i < k {
            i
        } else {
            i + 1
        };
        let b = if j < k {
            j
        } else {
            j + 1
        };
        assert(order::task_order(Order::Id)(s[a], s[b]));
    }
    assert forall|i: int| 0 <= i < r.len() implies n.contains_pair(r[i].id, #[trigger] r[i]) by {
        let a = if i < k {
            i
        } else {
            i + 1
        };
        assert(m.contains_pair(s[a].id, s[a]));
        if a < k {
            assert(order::task_order(Order::Id)(s[a], s[k]));
        } else {
            assert(order::task_order(Order::Id)(s[k], s[a]));
        }
    }
    assert forall|id: i64| #[trigger] n.dom().contains(id) implies n[id].id == id && r.contains(
        n[id],
    ) by {
        assert(m.dom().contains(id));
        let q = choose|q: int| 0 <= q < s.len() && s[q] == m[id];
        assert(q != k);
        let p = if q < k {
            q
        } else {
            q - 1
        };
        assert(r[p] == m[id]);
    }
}

proof fn lemma_status_rows_insert(s: Seq<StatusV>, m: Map<i64, StatusV>, k: int, x: StatusV)
    requires
        tables::is_status_rows(s, m),
        !m.dom().contains(x.id),
        0 <= k <= s.len(),
        forall|i: int| 0 <= i < k ==> (#[trigger] s[i]).id < x.id,
        forall|i: int| k <= i < s.len() ==> x.id < (#[trigger] s[i]).id,
    ensures
        tables::is_status_rows(s.insert(k, x), m.insert(x.id, x)),
{
    let r = s.insert(k, x);
    let n = m.insert(x.id, x);
    assert forall|i: int, j: int| 0 <= i < j < r.len() implies #[trigger] tables::id_order()(
        r[i],
        r[j],
    ) by {
        let a = if i < k {
            i
        } else {
            i - 1
        };
        let b = if j < k {
            j
        } else {
            j - 1
        };
        if i != k && j != k {
            assert(tables::id_order()(s[a], s[b]));
        }
    }
    assert forall|i: int| 0 <= i < r.len() implies n.contains_pair(r[i].id, #[trigger] r[i]) by {
        if i != k {
            let a = if i < k {
                i
            } else {
                i - 1
            };
            assert(m.contains_pair(s[a].id, s[a]));
        }
    }
    assert forall|id: i64| #[trigger] n.dom().contains(id) implies n[id].id == id && r.contains(
        n[id],
    ) by {
        if id == x.id {
            assert(r[k] == x);
        } else {
            assert(m.dom().contains(id));
            let q = choose|q: int| 0 <= q < s.len() && s[q] == m[id];
            let p = if q < k {
                q
            } else {
                q + 1
            };
            assert(r[p] == m[id]);
        }
    }
}

proof fn lemma_status_rows_update(s: Seq<StatusV>, m: Map<i64, StatusV>, k: int, x: StatusV)
    requires
        tables::is_status_rows(s, m),
        0 <= k < s.len(),
        s[k].id == x.id,
    ensures
        tables::is_status_rows(s.update(k, x), m.insert(x.id, x)),
        m.dom().contains(x.id),
        m[x.id] == s[k],
{
    let r = s.update(k, x);
    let n = m.insert(x.id, x);
    assert(m.contains_pair(s[k].id, s[k]));
    assert forall|i: int, j: int| 0 <= i < j < r.len() implies #[trigger] tables::id_order()(
        r[i],
        r[j],
    ) by {
        assert(tables::id_order()(s[i], s[j]));
    }
    assert forall|i: int| 0 <= i < r.len() implies n.contains_pair(r[i].id, #[trigger] r[i]) by {
        if i != k {
            assert(m.contains_pair(s[i].id, s[i]));
            if i < k {
                assert(tables::id_order()(s[i], s[k]));
            } else {
                assert(tables::id_order()(s[k], s[i]));
            }
        }
    }
    assert forall|id: i64| #[trigger] n.dom().contains(id) implies n[id].id == id && r.contains(
        n[id],
    ) by {
        if id == x.id {
            assert(r[k] == x);
        } else {
            assert(m.dom().contains(id));
            let q = choose|q: int| 0 <= q < s.len() && s[q] == m[id];
            assert(r[q] == m[id]);
        }
    }
}

proof fn lemma_status_rows_remove(s: Seq<StatusV>, m: Map<i64, StatusV>, k: int)
    requires
        tables::is_status_rows(s, m),
        0 <= k < s.len(),
    ensures
        tables::is_status_rows(s.remove(k), m.remove(s[k].id)),
        m.dom().contains(s[k].id),
        m[s[k].id] == s[k],
{
    let r = s.remove(k);
    let n = m.remove(s[k].id);
    assert(m.contains_pair(s[k].id, s[k]));
    assert forall|i: int, j: int| 0 <= i < j < r.len() implies #[trigger] tables::id_order()(
        r[i],
        r[j],
    ) by {
        let a = if i < k {
            i
        } else {
            i + 1
        };
        let b = if j < k {
            j
        } else {
            j + 1
        };
        assert(tables::id_order()(s[a], s[b]));
    }
    assert forall|i: int| 0 <= i < r.len() implies n.contains_pair(r[i].id, #[trigger] r[i]) by {
        let a = if i < k {
            i
        } else {
            i + 1
        };
        assert(m.contains_pair(s[a].id, s[a]));
        if a < k {
            assert(tables::id_order()(s[a], s[k]));
        } else {
            assert(tables::id_order()(s[k], s[a]));
        }
    }
    assert forall|id: i64| #[trigger] n.dom().contains(id) implies n[id].id == id && r.contains(
        n[id],
    ) by {
        assert(m.dom().contains(id));
        let q = choose|q: int| 0 <= q < s.len() && s[q] == m[id];
        assert(q != k);
        let p = if q < k {
            q
        } else {
            q - 1
        };
        assert(r[p] == m[id]);
    }
}

/// The rows of both tables, each in order of id.
pub struct Store {
    pub tasks: Vec<Task>,
    pub statuses: Vec<Status>,
    pub tables: Ghost<Tables>,
}

impl View for Store {
    type V = Tables;

    open spec fn view(&self) -> Tables {
        self.tables@
    }
}

impl Store {
    /// The rows are those of the tables.
    pub open spec fn wf(&self) -> bool {
        &&& tables::is_rows(task::tasks_view(self.tasks@), self@.tasks)
        &&& tables::is_status_rows(status::statuses_view(self.statuses@), self@.statuses)
    }

    pub proof fn lemma_wf(&self)
        requires
            self.wf(),
        ensures
            tables::keyed(self@),
            task::tasks_view(self.tasks@) == tables::rows(self@.tasks),
            status::statuses_view(self.statuses@) == tables::status_rows(self@.statuses),
            order::unique_ids(task::tasks_view(self.tasks@)),
            order::unique_status_ids(status::statuses_view(self.statuses@)),
    {
        tables::lemma_rows_unique(task::tasks_view(self.tasks@), self@.tasks);
        tables::lemma_status_rows_unique(status::statuses_view(self.statuses@), self@.statuses);
    }

    pub fn empty() -> (r: Self)
        ensures
            r.wf(),
            r@ == (Tables { tasks: Map::empty(), statuses: Map::empty() }),
    {
        Store {
            tasks: Vec::new(),
            statuses: Vec::new(),
            tables: Ghost(Tables { tasks: Map::empty(), statuses: Map::empty() }),
        }
    }

    pub fn copy(&self) -> (r: Self)
        ensures
            r.tasks@ == self.tasks@,
            r.statuses@ == self.statuses@,
            r.tables == self.tables,
    {
        let mut tasks: Vec<Task> = Vec::new();
        let mut i: usize = 0;
        while i < self.tasks.len()
            invariant
                i <= self.tasks.len(),
                tasks@ == self.tasks@.take(i as int),
            decreases self.tasks.len() - i,
        {
            tasks.push(self.tasks[i].clone());
            i = i + 1;
            assert(tasks@ =~= self.tasks@.take(i as int));
        }
        let mut statuses: Vec<Status> = Vec::new();
        let mut j: usize = 0;
        while j < self.statuses.len()
            invariant
                j <= self.statuses.len(),
                statuses@ == self.statuses@.take(j as int),
            decreases self.statuses.len() - j,
        {
            statuses.push(self.statuses[j].clone());
            j = j + 1;
            assert(statuses@ =~= self.statuses@.take(j as int));
        }
        assert(tasks@ =~= self.tasks@);
        assert(statuses@ =~= self.statuses@);
        Store { tasks, statuses, tables: Ghost(self.tables@) }
    }

    /// The position of a task row.
    pub fn find_task(&self, id: i64) -> (r: Option<usize>)
        requires
            self.wf(),
        ensures
            match r {
                Some(i) => i < self.tasks@.len() && self.tasks@[i as int].id == id
                    && self@.tasks.dom().contains(id) && self@.tasks[id] == self.tasks@[i as int]@,
                None => !self@.tasks.dom().contains(id),
            },
    {
        let ghost s = task::tasks_view(self.tasks@);
        let mut i: usize = 0;
        while i < self.tasks.len()
            invariant
                i <= self.tasks.len(),
                s == task::tasks_view(self.tasks@),
                self.wf(),
                forall|j: int| 0 <= j < i ==> (#[trigger] s[j]).id != id,
            decreases self.tasks.len() - i,
        {
            assert(s[i as int] == self.tasks@[i as int]@);
            if self.tasks[i].id == id {
                assert(self@.tasks.contains_pair(s[i as int].id, s[i as int]));
                return Some(i);
            }
            i = i + 1;
        }
        proof {
            if self@.tasks.dom().contains(id) {
                let k = choose|k: int| 0 <= k < s.len() && s[k] == self@.tasks[id];
                assert(s[k].id == id);
            }
        }
        None
    }

    /// The position of a status row.
    pub fn find_status(&self, id: i64) -> (r: Option<usize>)
        requires
            self.wf(),
        ensures
            match r {
                Some(i) => i < self.statuses@.len() && self.statuses@[i as int].id == id
                    && self@.statuses.dom().contains(id) && self@.statuses[id]
                    == self.statuses@[i as int]@,
                None => !self@.statuses.dom().contains(id),
            },
    {
        let ghost s = status::statuses_view(self.statuses@);
        let mut i: usize = 0;
        while i < self.statuses.len()
            invariant
                i <= self.statuses.len(),
                s == status::statuses_view(self.statuses@),
                self.wf(),
                forall|j: int| 0 <= j < i ==> (#[trigger] s[j]).id != id,
            decreases self.statuses.len() - i,
        {
            assert(s[i as int] == self.statuses@[i as int]@);
            if self.statuses[i].id == id {
                assert(self@.statuses.contains_pair(s[i as int].id, s[i as int]));
                return Some(i);
            }
            i = i + 1;
        }
        proof {
            if self@.statuses.dom().contains(id) {
                let k = choose|k: int| 0 <= k < s.len() && s[k] == self@.statuses[id];
                assert(s[k].id == id);
            }
        }
        None
    }

    /// Puts a task row under an id, or removes it, and hands back what was
    /// there.
    pub fn put_task(&mut self, id: i64, after: Option<Task>) -> (before: Option<Task>)
        requires
            old(self).wf(),
            after is Some ==> after->Some_0.id == id,
        ensures
            final(self).wf(),
            final(self)@.tasks == tables::put(old(self)@.tasks, id, task_option(after)),
            final(self)@.statuses == old(self)@.statuses,
            task_option(before) == tables::lookup(old(self)@.tasks, id),
    {
        let ghost s = task::tasks_view(self.tasks@);
        let ghost m = self@.tasks;
        let mut k: usize = 0;
        while k < self.tasks.len() && self.tasks[k].id < id
            invariant
                k <= self.tasks.len(),
                *self == *old(self),
                s == task::tasks_view(self.tasks@),
                forall|j: int| 0 <= j < k ==> (#[trigger] s[j]).id < id,
            decreases self.tasks.len() - k,
        {
            assert(s[k as int] == self.tasks@[k as int]@);
            k = k + 1;
        }
        proof {
            if k < s.len() {
                assert(s[k as int] == self.tasks@[k as int]@);
            }
            assert forall|i: int| k < i < s.len() implies id < (#[trigger] s[i]).id by {
                assert(order::task_order(Order::Id)(s[k as int], s[i]));
            }
        }
        let found = k < self.tasks.len() && self.tasks[k].id == id;
        proof {
            if !found && m.dom().contains(id) {
                let q = choose|q: int| 0 <= q < s.len() && s[q] == m[id];
                assert(s[q].id == id);
            }
        }
        let before: Option<Task>;
        match after {
            Some(t) => {
                if found {
                    let old_row = self.tasks[k].clone();
                    self.tasks.set(k, t);
                    proof {
                        lemma_rows_update(s, m, k as int, t@);
                        assert(task::tasks_view(self.tasks@) =~= s.update(k as int, t@));
                    }
                    before = Some(old_row);
                } else {
                    self.tasks.insert(k, t);
                    proof {
                        lemma_rows_insert(s, m, k as int, t@);
                        assert(task::tasks_view(self.tasks@) =~= s.insert(k as int, t@));
                    }
                    before = None;
                }
            },
            None => {
                if found {
                    let old_row = self.tasks.remove(k);
                    proof {
                        lemma_rows_remove(s, m, k as int);
                        assert(task::tasks_view(self.tasks@) =~= s.remove(k as int));
                    }
                    before = Some(old_row);
                } else {
                    assert(m.remove(id) =~= m);
                    before = None;
                }
            },
        }
        self.tables = Ghost(
            Tables {
                tasks: tables::put(m, id, task_option(after)),
                statuses: old(self)@.statuses,
            },
        );
        before
    }

    /// Puts a status row under an id, or removes it, and hands back what was
    /// there.
    pub fn put_status(&mut self, id: i64, after: Option<Status>) -> (before: Option<Status>)
        requires
            old(self).wf(),
            after is Some ==> after->Some_0.id == id,
        ensures
            final(self).wf(),
            final(self)@.statuses == tables::put(old(self)@.statuses, id, status_option(after)),
            final(self)@.tasks == old(self)@.tasks,
            status_option(before) == tables::lookup(old(self)@.statuses, id),
    {
        let ghost s = status::statuses_view(self.statuses@);
        let ghost m = self@.statuses;
        let mut k: usize = 0;
        while k < self.statuses.len() && self.statuses[k].id < id
            invariant
                k <= self.statuses.len(),
                *self == *old(self),
                s == status::statuses_view(self.statuses@),
                forall|j: int| 0 <= j < k ==> (#[trigger] s[j]).id < id,
            decreases self.statuses.len() - k,
        {
            assert(s[k as int] == self.statuses@[k as int]@);
            k = k + 1;
        }
        proof {
            if k < s.len() {
                assert(s[k as int] == self.statuses@[k as int]@);
            }
            assert forall|i: int| k < i < s.len() implies id < (#[trigger] s[i]).id by {
                assert(tables::id_order()(s[k as int], s[i]));
            }
        }
        let found = k < self.statuses.len() && self.statuses[k].id == id;
        proof {
            if !found && m.dom().contains(id) {
                let q = choose|q: int| 0 <= q < s.len() && s[q] == m[id];
                assert(s[q].id == id);
            }
        }
        let before: Option<Status>;
        match after {
            Some(t) => {
                if found {
                    let old_row = self.statuses[k].clone();
                    self.statuses.set(k, t);
                    proof {
                        lemma_status_rows_update(s, m, k as int, t@);
                        assert(status::statuses_view(self.statuses@) =~= s.update(k as int, t@));
                    }
                    before = Some(old_row);
                } else {
                    self.statuses.insert(k, t);
                    proof {
                        lemma_status_rows_insert(s, m, k as int, t@);
                        assert(status::statuses_view(self.statuses@) =~= s.insert(k as int, t@));
                    }
                    before = None;
                }
            },
            None => {
                if found {
                    let old_row = self.statuses.remove(k);
                    proof {
                        lemma_status_rows_remove(s, m, k as int);
                        assert(status::statuses_view(self.statuses@) =~= s.remove(k as int));
                    }
                    before = Some(old_row);
                } else {
                    assert(m.remove(id) =~= m);
                    before = None;
                }
            },
        }
        self.tables = Ghost(
            Tables {
                tasks: old(self)@.tasks,
                statuses: tables::put(m, id, status_option(after)),
            },
        );
        before
    }

    /// Applies changes that start from what the store holds.
    pub fn apply_all(&mut self, changes: &Vec<Change>)
        requires
            old(self).wf(),
            tables::runs(old(self)@, changes_view(changes@)),
        ensures
            final(self).wf(),
            final(self)@ == tables::run(old(self)@, changes_view(changes@)),
    {
        let ghost cs = changes_view(changes@);
        let mut i: usize = 0;
        assert(cs.take(0) =~= seq![]);
        while i < changes.len()
            invariant
                i <= changes.len(),
                cs == changes_view(changes@),
                self.wf(),
                tables::runs(old(self)@, cs),
                self@ == tables::run(old(self)@, cs.take(i as int)),
            decreases changes.len() - i,
        {
            proof {
                lemma_runs_prefix(old(self)@, cs, i + 1);
                assert(cs.take(i + 1).drop_last() =~= cs.take(i as int));
                assert(cs.take(i + 1).last() == changes@[i as int]@);
            }
            match &changes[i] {
                Change::Task { id, before, after } => {
                    self.put_task(*id, clone_task(after));
                },
                Change::Status { id, before, after } => {
                    self.put_status(*id, clone_status(after));
                },
            }
            i = i + 1;
            assert(self@ =~= tables::run(old(self)@, cs.take(i as int)));
        }
        assert(cs.take(i as int) =~= cs);
    }
}

/// A run of changes that fits does so up to any point.
proof fn lemma_runs_prefix(t: Tables, cs: Seq<ChangeV>, n: int)
    requires
        tables::runs(t, cs),
        0 <= n <= cs.len(),
    ensures
        tables::runs(t, cs.take(n)),
    decreases cs.len(),
{
    if n == cs.len() {
        assert(cs.take(n) =~= cs);
    } else {
        lemma_runs_prefix(t, cs.drop_last(), n);
        assert(cs.drop_last().take(n) =~= cs.take(n));
    }
}

/// A transaction: a copy of the rows and the log of what it changed.
pub struct Tx {
    pub store: Store,
    pub log: Vec<Change>,
    pub start: Ghost<Tables>,
}

impl Tx {
    /// The log leads from the start to the current rows.
    pub open spec fn wf(&self) -> bool {
        &&& self.store.wf()
        &&& tables::runs(self.start@, changes_view(self.log@))
        &&& tables::run(self.start@, changes_view(self.log@)) == self.store@
    }

    pub fn begin(store: &Store) -> (r: Self)
        requires
            store.wf(),
        ensures
            r.wf(),
            r.start@ == store@,
            r.store@ == store@,
            r.log@.len() == 0,
            changes_view(r.log@) == Seq::<ChangeV>::empty(),
    {
        let r = Tx { store: store.copy(), log: Vec::new(), start: Ghost(store@) };
        assert(changes_view(r.log@) =~= Seq::<ChangeV>::empty());
        r
    }

    pub fn put_task(&mut self, id: i64, after: Option<Task>)
        requires
            old(self).wf(),
            after is Some ==> after->Some_0.id == id,
        ensures
            final(self).wf(),
            final(self).start == old(self).start,
            final(self).store@.tasks == tables::put(
                old(self).store@.tasks,
                id,
                task_option(after),
            ),
            final(self).store@.statuses == old(self).store@.statuses,
            changes_view(final(self).log@) == changes_view(old(self).log@).push(
                ChangeV::Task {
                    id,
                    before: tables::lookup(old(self).store@.tasks, id),
                    after: task_option(after),
                },
            ),
    {
        let ghost log = changes_view(self.log@);
        let logged = clone_task(&after);
        let before = self.store.put_task(id, after);
        let change = Change::Task { id, before, after: logged };
        self.log.push(change);
        proof {
            assert(changes_view(self.log@) =~= log.push(change@));
            tables::lemma_run_push(self.start@, log, change@);
        }
    }

    pub fn put_status(&mut self, id: i64, after: Option<Status>)
        requires
            old(self).wf(),
            after is Some ==> after->Some_0.id == id,
        ensures
            final(self).wf(),
            final(self).start == old(self).start,
            final(self).store@.statuses == tables::put(
                old(self).store@.statuses,
                id,
                status_option(after),
            ),
            final(self).store@.tasks == old(self).store@.tasks,
            changes_view(final(self).log@) == changes_view(old(self).log@).push(
                ChangeV::Status {
                    id,
                    before: tables::lookup(old(self).store@.statuses, id),
                    after: status_option(after),
                },
            ),
    {
        let ghost log = changes_view(self.log@);
        let logged = clone_status(&after);
        let before = self.store.put_status(id, after);
        let change = Change::Status { id, before, after: logged };
        self.log.push(change);
        proof {
            assert(changes_view(self.log@) =~= log.push(change@));
            tables::lemma_run_push(self.start@, log, change@);
        }
    }
}

} // verus!

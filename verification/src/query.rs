//! Search, filter and sort requests.
use vstd::prelude::*;

use crate::status::StatusKind;
use crate::task;
use crate::task::TaskV;
use crate::text;

verus! {

/// Which tasks a search or the tree view lets through. The default shows
/// everything; hiding finished work is one keystroke away (`f`, then `o`).
#[derive(Debug, Clone, Copy, PartialEq, Eq, Structural)]
pub enum Filter {
    /// Only tasks whose status kind is open.
    Open,
    All,
    /// Only tasks carrying exactly this status.
    Status(i64),
    /// Only open tasks whose due date has passed.
    Overdue,
}

impl Default for Filter {
    fn default() -> (r: Self)
        ensures
            r == Filter::All,
    {
        Filter::All
    }
}

/// Result order of a search. Everything except TreeOrder produces a flat,
/// attribute-ordered list.
#[derive(Debug, Clone, Copy, PartialEq, Eq, Structural)]
pub enum Sort {
    /// The tree's own order: parents before children, siblings by their
    /// manual display order.
    TreeOrder,
    /// Earliest due date first; tasks without one come last.
    Due,
    /// Most recently updated first.
    Updated,
    /// Most recently created first.
    Created,
    Title,
}

impl Default for Sort {
    fn default() -> (r: Self)
        ensures
            r == Sort::TreeOrder,
    {
        Sort::TreeOrder
    }
}

/// One search/filter/sort request, kept independent of any UI state so
/// conditions can later be named and saved.
#[derive(Debug, PartialEq, Eq)]
pub struct Query {
    /// Substring to look for in titles and notes; None matches everything.
    pub text: Option<String>,
    pub filter: Filter,
    pub sort: Sort,
}

/// A request as plain values.
#[verifier::ext_equal]
pub struct QueryV {
    pub text: Option<Seq<char>>,
    pub filter: Filter,
    pub sort: Sort,
}

impl View for Query {
    type V = QueryV;

    open spec fn view(&self) -> QueryV {
        QueryV { text: task::text_option(self.text), filter: self.filter, sort: self.sort }
    }
}

impl Default for Query {
    fn default() -> (r: Self)
        ensures
            r@ == (QueryV { text: None, filter: Filter::All, sort: Sort::TreeOrder }),
    {
        Query { text: None, filter: Filter::All, sort: Sort::TreeOrder }
    }
}

/// Whether a task under a status of kind `kind` passes `filter`. Only tasks
/// that can still be worked on count as overdue; a finished task's past due
/// date is history. Stored dates are canonical fixed-width texts, so the
/// text order is the date order.
pub open spec fn passes_filter(t: TaskV, kind: StatusKind, filter: Filter, today: Seq<char>) -> bool {
    match filter {
        Filter::All => true,
        Filter::Open => kind == StatusKind::Open,
        Filter::Status(id) => t.status_id == id,
        Filter::Overdue => kind == StatusKind::Open && t.due is Some && text::text_lt(
            t.due->Some_0,
            today,
        ),
    }
}

/// Whether title or note hold the search text, ASCII letters compared
/// without case. The text is literal: no character of it is a wildcard.
pub open spec fn passes_text(t: TaskV, text: Option<Seq<char>>) -> bool {
    match text {
        None => true,
        Some(needle) => text::contains_text(text::ascii_lower(t.title), text::ascii_lower(needle)) || text::contains_text(
            text::ascii_lower(t.note),
            text::ascii_lower(needle),
        ),
    }
}

} // verus!

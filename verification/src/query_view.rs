//! Builders and view state for the flat search-result view.
use vstd::prelude::*;

use crate::forest;
use crate::input;
use crate::input::{Editor, EditorV};
use crate::query::{Filter, Query, QueryV, Sort};
use crate::render;
use crate::status;
use crate::status::{Status, StatusV};
use crate::status_cycle;
use crate::status_manage;
use crate::style;
use crate::style::{Line, Span, SpanV, Style};
use crate::task;
use crate::task::{Task, TaskV};
use crate::text;
use crate::tree;
use crate::width;

verus! {

/// Display columns a note snippet may occupy in a result line.
pub const SNIPPET_WIDTH: usize = 60;

/// One-key choices of the sort menu, in the order the menu lists them.
/// Single source for both the menu display and the key resolution, so they
/// can never drift apart.
pub open spec fn sort_menu() -> Seq<(char, Sort)> {
    seq![
        ('d', Sort::Due),
        ('u', Sort::Updated),
        ('c', Sort::Created),
        ('t', Sort::Title),
        ('-', Sort::TreeOrder),
    ]
}

pub fn sort_keys() -> (r: Vec<(char, Sort)>)
    ensures
        r@ == sort_menu(),
{
    let mut r: Vec<(char, Sort)> = Vec::new();
    r.push(('d', Sort::Due));
    r.push(('u', Sort::Updated));
    r.push(('c', Sort::Created));
    r.push(('t', Sort::Title));
    r.push(('-', Sort::TreeOrder));
    assert(r@ =~= sort_menu());
    r
}

/// The first choice of a menu with this key.
pub open spec fn choice_of(menu: Seq<(char, Sort)>, key: char) -> Option<Sort>
    decreases menu.len(),
{
    if menu.len() == 0 {
        None
    } else if menu[0].0 == key {
        Some(menu[0].1)
    } else {
        choice_of(menu.drop_first(), key)
    }
}

/// Resolves a sort-menu key press. None for keys the menu does not offer.
pub fn sort_from_key(key: char) -> (r: Option<Sort>)
    ensures
        r == choice_of(sort_menu(), key),
{
    let menu = sort_keys();
    let mut i: usize = 0;
    assert(menu@.skip(0) =~= menu@);
    while i < menu.len()
        invariant
            i <= menu.len(),
            menu@ == sort_menu(),
            choice_of(menu@, key) == choice_of(menu@.skip(i as int), key),
        decreases menu.len() - i,
    {
        assert(menu@.skip(i as int)[0] == menu@[i as int]);
        if menu[i].0 == key {
            return Some(menu[i].1);
        }
        assert(menu@.skip(i as int).drop_first() =~= menu@.skip(i + 1));
        i = i + 1;
    }
    None
}

/// The position of the first status with this key, or the length.
pub open spec fn with_key(statuses: Seq<StatusV>, key: char) -> int
    decreases statuses.len(),
{
    if statuses.len() == 0 || statuses[0].key == key {
        0
    } else {
        1 + with_key(statuses.drop_first(), key)
    }
}

/// The position of the first status with this key.
pub fn find_key(statuses: &Vec<Status>, key: char) -> (r: Option<usize>)
    ensures
        match r {
            Some(i) => i < statuses@.len() && i == with_key(status::statuses_view(statuses@), key),
            None => with_key(status::statuses_view(statuses@), key) == statuses@.len(),
        },
{
    let ghost v = status::statuses_view(statuses@);
    let mut i: usize = 0;
    assert(v.skip(0) =~= v);
    while i < statuses.len()
        invariant
            i <= statuses.len(),
            v == status::statuses_view(statuses@),
            with_key(v, key) == i + with_key(v.skip(i as int), key),
        decreases statuses.len() - i,
    {
        assert(v.skip(i as int)[0] == statuses@[i as int]@);
        if statuses[i].key == key {
            return Some(i);
        }
        assert(v.skip(i as int).drop_first() =~= v.skip(i + 1));
        i = i + 1;
    }
    None
}

/// The filter a menu key stands for.
pub open spec fn filter_choice(statuses: Seq<StatusV>, key: char) -> Option<Filter> {
    if key == 'a' {
        Some(Filter::All)
    } else if key == 'o' {
        Some(Filter::Open)
    } else if key == '!' {
        Some(Filter::Overdue)
    } else {
        let i = with_key(statuses, key);
        if i < statuses.len() {
            Some(Filter::Status(statuses[i].id))
        } else {
            None
        }
    }
}

/// Resolves a filter-menu key press: the fixed choices first, then one key
/// per status (from the status definitions, like the status-select menu).
/// The fixed keys win over a status that happens to use the same letter,
/// matching the order the menu displays them in. None for unbound keys.
pub fn filter_from_key(statuses: &Vec<Status>, key: char) -> (r: Option<Filter>)
    ensures
        r == filter_choice(status::statuses_view(statuses@), key),
{
    if key == 'a' {
        Some(Filter::All)
    } else if key == 'o' {
        Some(Filter::Open)
    } else if key == '!' {
        Some(Filter::Overdue)
    } else {
        match find_key(statuses, key) {
            Some(i) => {
                assert(status::statuses_view(statuses@)[i as int] == statuses@[i as int]@);
                Some(Filter::Status(statuses[i].id))
            },
            None => None,
        }
    }
}

/// Which part of the query view currently receives keys.
#[derive(Debug, Clone, Copy, PartialEq, Eq, Structural)]
pub enum Focus {
    /// The search text is being typed; every keystroke re-runs the search.
    Edit,
    /// Moving through the results.
    Browse,
    /// The one-key sort menu is open.
    SortMenu,
    /// The one-key filter menu is open (over the query view).
    FilterMenu,
}

/// View state of the query view. The filter is deliberately not here: it is
/// shared with the tree view and lives in the app.
pub struct QueryState {
    /// Holds the search text at all times; only focused while editing.
    pub editor: Editor,
    pub focus: Focus,
    pub sort: Sort,
    pub results: Vec<Task>,
    /// Index into `results` (per item, not per display line).
    pub selected: usize,
}

/// A query view as plain values.
#[verifier::ext_equal]
pub struct QueryStateV {
    pub editor: EditorV,
    pub focus: Focus,
    pub sort: Sort,
    pub results: Seq<TaskV>,
    pub selected: usize,
}

impl View for QueryState {
    type V = QueryStateV;

    open spec fn view(&self) -> QueryStateV {
        QueryStateV {
            editor: self.editor@,
            focus: self.focus,
            sort: self.sort,
            results: task::tasks_view(self.results@),
            selected: self.selected,
        }
    }
}

/// The query view as it opens: an empty search, ready for typing.
pub open spec fn opened() -> QueryStateV {
    QueryStateV {
        editor: input::prefilled(seq![]),
        focus: Focus::Edit,
        sort: Sort::TreeOrder,
        results: seq![],
        selected: 0,
    }
}

/// The request a search text, filter and sort make. An empty text matches
/// everything.
pub open spec fn request(text: Seq<char>, filter: Filter, sort: Sort) -> QueryV {
    QueryV {
        text: if text.len() > 0 {
            Some(text)
        } else {
            None
        },
        filter,
        sort,
    }
}

impl QueryState {
    pub fn new() -> (r: Self)
        ensures
            r@ == opened(),
            r.editor.wf(),
    {
        let r = QueryState {
            editor: Editor::new(),
            focus: Focus::Edit,
            sort: Sort::TreeOrder,
            results: Vec::new(),
            selected: 0,
        };
        assert(r@ =~= opened());
        r
    }

    /// The search request this view currently describes. An empty text means
    /// "match everything": the view then shows all tasks flat, which is how
    /// a filter or sort is applied without searching.
    pub fn query(&self, filter: Filter) -> (r: Query)
        ensures
            r@ == request(self@.editor.text, filter, self.sort),
    {
        let text = self.editor.text();
        let wanted = if text::chars_of(text).len() > 0 {
            Some(text.to_owned())
        } else {
            None
        };
        Query { text: wanted, filter, sort: self.sort }
    }

    /// Keeps the selection on an existing result after the list changed
    /// (typing, sort or filter changes can shrink it).
    pub fn clamp_selection(&mut self)
        ensures
            *final(self) == (QueryState {
                selected: status_manage::clamped(old(self).selected, old(self).results.len()),
                ..*old(self)
            }),
    {
        let last: usize = self.results.len().saturating_sub(1);
        if self.selected > last {
            self.selected = last;
        }
    }
}

impl Default for QueryState {
    fn default() -> (r: Self)
        ensures
            r@ == opened(),
            r.editor.wf(),
    {
        QueryState::new()
    }
}

/// The display name of a filter.
pub open spec fn filter_text(filter: Filter, statuses: Seq<StatusV>) -> Seq<char> {
    match filter {
        Filter::Open => "open"@,
        Filter::All => "all"@,
        Filter::Overdue => "overdue"@,
        Filter::Status(id) => {
            let i = status_cycle::position(statuses, id);
            if i < statuses.len() {
                statuses[i].label
            } else {
                text::decimal(id as int)
            }
        },
    }
}

/// Display name of a filter, e.g. for the query header. A status filter
/// shows the status label; an undefined status id (possible only through
/// outside edits of the database file) shows the raw id.
pub fn filter_name(filter: Filter, statuses: &Vec<Status>) -> (r: String)
    ensures
        r@ == filter_text(filter, status::statuses_view(statuses@)),
{
    match filter {
        Filter::Open => "open".to_owned(),
        Filter::All => "all".to_owned(),
        Filter::Overdue => "overdue".to_owned(),
        Filter::Status(id) => match status_cycle::position_of(statuses, id) {
            Some(i) => {
                assert(status::statuses_view(statuses@)[i as int] == statuses@[i as int]@);
                statuses[i].label.clone()
            },
            None => text::number(id),
        },
    }
}

pub open spec fn sort_text(sort: Sort) -> Seq<char> {
    match sort {
        Sort::TreeOrder => "tree order"@,
        Sort::Due => "due"@,
        Sort::Updated => "updated"@,
        Sort::Created => "created"@,
        Sort::Title => "title"@,
    }
}

/// Display name of a sort order, e.g. for the query header and sort menu.
pub fn sort_name(sort: Sort) -> (r: &'static str)
    ensures
        r@ == sort_text(sort),
{
    match sort {
        Sort::TreeOrder => "tree order",
        Sort::Due => "due",
        Sort::Updated => "updated",
        Sort::Created => "created",
        Sort::Title => "title",
    }
}

pub open spec fn header_line(
    search: Seq<char>,
    sort: Sort,
    filter: Filter,
    statuses: Seq<StatusV>,
) -> Seq<char> {
    "search: "@ + search + " | sort: "@ + sort_text(sort) + " | filter: "@ + filter_text(
        filter,
        statuses,
    )
}

/// Builds the one-line query header, e.g.
/// `search: 設計 | sort: due | filter: open`.
pub fn header(search: &str, sort: Sort, filter: Filter, statuses: &Vec<Status>) -> (r: String)
    ensures
        r@ == header_line(search@, sort, filter, status::statuses_view(statuses@)),
{
    let mut r = text::concat5("search: ", search, " | sort: ", sort_name(sort), " | filter: ");
    r.append(filter_name(filter, statuses).as_str());
    r
}

/// The part of a note line surrounding a search hit, split so the hit can be
/// highlighted. Sides that were cut to fit carry a leading/trailing `…`, where
/// there is a column left for it.
#[derive(Debug, PartialEq, Eq)]
pub struct Snippet {
    pub before: String,
    pub matched: String,
    pub after: String,
}

#[verifier::ext_equal]
pub struct SnippetV {
    pub before: Seq<char>,
    pub matched: Seq<char>,
    pub after: Seq<char>,
}

impl View for Snippet {
    type V = SnippetV;

    open spec fn view(&self) -> SnippetV {
        SnippetV { before: self.before@, matched: self.matched@, after: self.after@ }
    }
}

/// The first of the lines that holds the needle (in lower case), and where.
pub open spec fn first_hit(lines: Seq<Seq<char>>, needle: Seq<char>) -> Option<(Seq<char>, int)>
    decreases lines.len(),
{
    if lines.len() == 0 {
        None
    } else {
        match text::first_at(text::ascii_lower(lines[0]), needle) {
            Some(i) => Some((lines[0], i)),
            None => first_hit(lines.drop_first(), needle),
        }
    }
}

/// Splits the columns left over by the match evenly, then lets a side that
/// does not need its half donate the rest to the other side.
pub open spec fn budgets(remaining: nat, before: nat, after: nat) -> (nat, nat) {
    let half = remaining / 2;
    let other = (remaining - half) as nat;
    if before <= half {
        (before, (remaining - before) as nat)
    } else if after <= other {
        ((remaining - after) as nat, after)
    } else {
        (half, other)
    }
}

pub fn split_budget(remaining: usize, before: usize, after: usize) -> (r: (usize, usize))
    ensures
        (r.0 as nat, r.1 as nat) == budgets(remaining as nat, before as nat, after as nat),
{
    let half: usize = remaining / 2;
    let other: usize = remaining - half;
    if before <= half {
        (before, remaining - before)
    } else if after <= other {
        (remaining - after, after)
    } else {
        (half, other)
    }
}

/// The start of a text within a budget, a cut end marked by `…`, given the
/// text's own width and that of its characters. Without a column for the mark
/// nothing is left.
pub open spec fn head_by(text: Seq<char>, own: nat, widths: Seq<usize>, budget: nat) -> Seq<char> {
    if own <= budget {
        text
    } else if budget == 0 {
        seq![]
    } else {
        text.take(width::fit(widths, (budget - 1) as nat)).push('…')
    }
}

/// The end of a text within a budget, a cut start marked by `…`, given the
/// text's own width and that of its characters from the end. Without a column
/// for the mark nothing is left.
pub open spec fn tail_by(text: Seq<char>, own: nat, widths: Seq<usize>, budget: nat) -> Seq<char> {
    if own <= budget {
        text
    } else if budget == 0 {
        seq![]
    } else {
        seq!['…'] + text.skip(text.len() - width::fit(widths, (budget - 1) as nat))
    }
}

pub open spec fn head_of(text: Seq<char>, budget: nat) -> Seq<char> {
    width::trimmed_end(
        head_by(text, width::text_columns(text) as nat, width::columns_of(text), budget),
        budget,
    )
}

pub open spec fn tail_of(text: Seq<char>, budget: nat) -> Seq<char> {
    width::trimmed_start(
        tail_by(text, width::text_columns(text) as nat, width::columns_of(text.reverse()), budget),
        budget,
    )
}

pub fn take_head_by(text: &str, own: usize, widths: &Vec<usize>, budget: usize) -> (r: String)
    requires
        widths@.len() == text@.len(),
    ensures
        r@ == head_by(text@, own as nat, widths@, budget as nat),
{
    if own <= budget {
        return text.to_owned();
    }
    if budget == 0 {
        let r = String::new();
        assert(r@ =~= seq![]);
        return r;
    }
    let n = width::count_fitting(widths, budget - 1);
    let chars = text::chars_of(text);
    let mut r = text::string_from(&chars, 0, n);
    r.push('…');
    r
}

pub fn take_tail_by(text: &str, own: usize, widths: &Vec<usize>, budget: usize) -> (r: String)
    requires
        widths@.len() == text@.len(),
    ensures
        r@ == tail_by(text@, own as nat, widths@, budget as nat),
{
    if own <= budget {
        return text.to_owned();
    }
    if budget == 0 {
        let r = String::new();
        assert(r@ =~= seq![]);
        return r;
    }
    let n = width::count_fitting(widths, budget - 1);
    let chars = text::chars_of(text);
    let mut r = String::new();
    r.push('…');
    let rest = text::string_from(&chars, chars.len() - n, chars.len());
    r.append(rest.as_str());
    assert(rest@ =~= text@.skip(text@.len() - n));
    assert(r@ =~= seq!['…'] + rest@);
    r
}

/// Keeps the end of `text` within `budget` display columns, marking a cut
/// start with `…` (which spends one of the columns, if there is one).
fn take_tail(text: &str, budget: usize) -> (r: String)
    ensures
        r@ == tail_of(text@, budget as nat),
        width::text_columns(r@) <= budget,
{
    let chars = text::chars_of(text);
    let mut reversed: Vec<char> = Vec::new();
    let mut i: usize = chars.len();
    while i > 0
        invariant
            i <= chars.len(),
            reversed@ == chars@.skip(i as int).reverse(),
        decreases i,
    {
        i = i - 1;
        reversed.push(chars[i]);
        assert(reversed@ =~= chars@.skip(i as int).reverse());
    }
    assert(chars@.skip(0) =~= chars@);
    let widths = width::widths_of(&reversed);
    width::trim_start(take_tail_by(text, width::text_width(text), &widths, budget), budget)
}

/// Keeps the start of `text` within `budget` display columns, marking a cut
/// end with `…` (which spends one of the columns, if there is one).
fn take_head(text: &str, budget: usize) -> (r: String)
    ensures
        r@ == head_of(text@, budget as nat),
        width::text_columns(r@) <= budget,
{
    let widths = width::widths_of(&text::chars_of(text));
    width::trim_end(take_head_by(text, width::text_width(text), &widths, budget), budget)
}

/// A line split around a hit and cut to a width.
pub open spec fn snippet_at(line: Seq<char>, start: int, len: nat, max_width: nat) -> SnippetV {
    let before = line.take(start);
    let matched = line.subrange(start, start + len);
    let after = line.skip(start + len);
    let own = width::text_columns(matched) as nat;
    let remaining = if max_width >= own {
        (max_width - own) as nat
    } else {
        0
    };
    let (b, a) = budgets(
        remaining,
        width::text_columns(before) as nat,
        width::text_columns(after) as nat,
    );
    SnippetV { before: tail_of(before, b), matched, after: head_of(after, a) }
}

pub open spec fn snippet(note: Seq<char>, needle: Seq<char>, max_width: nat) -> Option<SnippetV> {
    if needle.len() == 0 {
        None
    } else {
        match first_hit(text::lines_of(note), text::ascii_lower(needle)) {
            Some((line, start)) => Some(snippet_at(line, start, needle.len(), max_width)),
            None => None,
        }
    }
}

pub open spec fn snippet_option(o: Option<Snippet>) -> Option<SnippetV> {
    match o {
        Some(s) => Some(s@),
        None => None,
    }
}

/// The first of the lines that holds the needle, and where.
fn find_hit(lines: &Vec<String>, needle: &Vec<char>) -> (r: Option<(usize, usize)>)
    ensures
        match r {
            Some((i, start)) => i < lines@.len() && first_hit(text::texts(lines@), needle@) == Some(
                (lines@[i as int]@, start as int),
            ) && start + needle@.len() <= lines@[i as int]@.len(),
            None => first_hit(text::texts(lines@), needle@) is None,
        },
{
    let ghost all = text::texts(lines@);
    let mut i: usize = 0;
    assert(all.skip(0) =~= all);
    while i < lines.len()
        invariant
            i <= lines.len(),
            all == text::texts(lines@),
            first_hit(all, needle@) == first_hit(all.skip(i as int), needle@),
        decreases lines.len() - i,
    {
        assert(all.skip(i as int)[0] == lines@[i as int]@);
        let lower = text::lower_chars(&text::chars_of(lines[i].as_str()));
        if let Some(start) = text::find(&lower, needle) {
            return Some((i, start));
        }
        assert(all.skip(i as int).drop_first() =~= all.skip(i + 1));
        i = i + 1;
    }
    None
}

/// Extracts a snippet for `needle` from the first note line containing it,
/// fitting the whole snippet into `max_width` display columns. Matching is
/// ASCII case-insensitive, mirroring how the search found the hit. None
/// when the note has no hit (e.g. the title matched instead).
pub fn note_snippet(note: &str, needle: &str, max_width: usize) -> (r: Option<Snippet>)
    ensures
        snippet_option(r) == snippet(note@, needle@, max_width as nat),
        r matches Some(s) ==> width::text_columns(s.matched@) <= max_width ==> width::text_columns(
            s.before@,
        ) + width::text_columns(s.matched@) + width::text_columns(s.after@) <= max_width,
{
    let wanted = text::chars_of(needle);
    if wanted.len() == 0 {
        return None;
    }
    let lines = text::lines(note);
    match find_hit(&lines, &text::lower_chars(&wanted)) {
        Some((i, start)) => {
            let line = text::chars_of(lines[i].as_str());
            assert(start + wanted@.len() <= line.len());
            let end: usize = start + wanted.len();
            let before = text::string_from(&line, 0, start);
            let matched = text::string_from(&line, start, end);
            let after = text::string_from(&line, end, line.len());
            assert(before@ =~= line@.take(start as int));
            assert(after@ =~= line@.skip(end as int));
            let remaining = max_width.saturating_sub(width::text_width(matched.as_str()));
            let (b, a) = split_budget(
                remaining,
                width::text_width(before.as_str()),
                width::text_width(after.as_str()),
            );
            Some(
                Snippet {
                    before: take_tail(before.as_str(), b),
                    matched,
                    after: take_head(after.as_str(), a),
                },
            )
        },
        None => None,
    }
}

/// The first line of a result: the task line and its ancestor path.
pub open spec fn result_line(
    t: TaskV,
    statuses: Seq<StatusV>,
    all: Seq<TaskV>,
    today: Seq<char>,
) -> Seq<SpanV> {
    let base = render::task_spans(seq![], t, statuses, today);
    match t.parent_id {
        Some(p) => base.push(style::span("  "@ + tree::path_text(all, p), style::dimmed())),
        None => base,
    }
}

/// The snippet line of a result.
pub open spec fn snippet_line(s: SnippetV) -> Seq<SpanV> {
    seq![
        style::raw("  "@),
        style::span(s.before, style::dimmed()),
        style::raw(s.matched),
        style::span(s.after, style::dimmed()),
    ]
}

pub open spec fn result_lines(
    t: TaskV,
    statuses: Seq<StatusV>,
    all: Seq<TaskV>,
    search: Seq<char>,
    today: Seq<char>,
) -> Seq<Seq<SpanV>> {
    let first = seq![result_line(t, statuses, all, today)];
    match snippet(t.note, search, SNIPPET_WIDTH as nat) {
        Some(s) => first.push(snippet_line(s)),
        None => first,
    }
}

/// Builds the one or two display lines of a search result: the task line
/// (title, status, due) followed by its ancestor path dimmed, and — only
/// when the note contains the search text — a dimmed snippet line with the
/// hit left undimmed so it stands out.
pub fn result_item(
    task: &Task,
    statuses: &Vec<Status>,
    all_tasks: &Vec<Task>,
    search_text: &str,
    today: &str,
) -> (r: Vec<Line>)
    requires
        forest::acyclic(task::tasks_view(all_tasks@)),
    ensures
        style::lines_view(r@) == result_lines(
            task@,
            status::statuses_view(statuses@),
            task::tasks_view(all_tasks@),
            search_text@,
            today@,
        ),
{
    let empty = String::new();
    assert(empty@ =~= seq![]);
    let mut line = render::task_line(empty, task, statuses, today);
    if let Some(parent) = task.parent_id {
        let mut path = "  ".to_owned();
        path.append(tree::breadcrumb(all_tasks, parent).as_str());
        line.push(Span::styled(path, Style::dim()));
    }
    let mut lines: Vec<Line> = Vec::new();
    lines.push(line);
    assert(style::lines_view(lines@) =~= seq![line@]);
    if let Some(s) = note_snippet(task.note.as_str(), search_text, SNIPPET_WIDTH) {
        let ghost v = s@;
        let mut second = Line::empty();
        second.push(Span::raw("  ".to_owned()));
        second.push(Span::styled(s.before, Style::dim()));
        second.push(Span::raw(s.matched));
        second.push(Span::styled(s.after, Style::dim()));
        assert(second@ =~= snippet_line(v));
        lines.push(second);
        assert(style::lines_view(lines@) =~= seq![line@, second@]);
        assert(seq![line@].push(second@) =~= seq![line@, second@]);
    }
    lines
}

/// The first line that is hit holds the needle, and one is found wherever a
/// line holds it.
proof fn lemma_first_hit(lines: Seq<Seq<char>>, needle: Seq<char>)
    ensures
        match first_hit(lines, needle) {
            Some((line, start)) => lines.contains(line) && text::occurs_at(
                text::ascii_lower(line),
                needle,
                start,
            ),
            None => forall|k: int|
                0 <= k < lines.len() ==> !text::contains_text(
                    text::ascii_lower(#[trigger] lines[k]),
                    needle,
                ),
        },
    decreases lines.len(),
{
    if lines.len() > 0 {
        let rest = lines.drop_first();
        text::lemma_first_at(text::ascii_lower(lines[0]), needle);
        lemma_first_hit(rest, needle);
        match first_hit(lines, needle) {
            Some((line, start)) => {
                if text::first_at(text::ascii_lower(lines[0]), needle) is Some {
                    assert(lines[0] == line);
                } else {
                    let k = choose|k: int| 0 <= k < rest.len() && rest[k] == line;
                    assert(lines[k + 1] == line);
                }
            },
            None => {
                assert forall|k: int| 0 <= k < lines.len() implies !text::contains_text(
                    text::ascii_lower(#[trigger] lines[k]),
                    needle,
                ) by {
                    if k > 0 {
                        assert(rest[k - 1] == lines[k]);
                    }
                }
            },
        }
    }
}

/// A snippet shows the searched text as the note spells it, and there is one
/// exactly where some line of the note holds the text.
pub proof fn a_snippet_shows_the_searched_text(note: Seq<char>, needle: Seq<char>, max_width: nat)
    requires
        needle.len() > 0,
    ensures
        snippet(note, needle, max_width) matches Some(s) ==> text::ascii_lower(s.matched)
            == text::ascii_lower(needle),
        snippet(note, needle, max_width) is Some <==> exists|k: int|
            0 <= k < text::lines_of(note).len() && text::contains_text(
                text::ascii_lower(#[trigger] text::lines_of(note)[k]),
                text::ascii_lower(needle),
            ),
{
    let lines = text::lines_of(note);
    let wanted = text::ascii_lower(needle);
    lemma_first_hit(lines, wanted);
    if let Some((line, start)) = first_hit(lines, wanted) {
        let matched = line.subrange(start, start + needle.len());
        assert(text::ascii_lower(line).subrange(start, start + wanted.len()) =~= text::ascii_lower(
            matched,
        ));
        let k = choose|k: int| 0 <= k < lines.len() && lines[k] == line;
        assert(text::contains_text(text::ascii_lower(lines[k]), wanted));
    }
}

/// A side of a snippet takes no more columns than its budget, by the widths
/// of its characters: what is kept of it and the mark of the cut fit.
pub proof fn a_cut_side_fits_its_budget(text: Seq<char>, widths: Seq<usize>, budget: nat)
    requires
        widths.len() == text.len(),
        width::total(widths) > budget,
    ensures
        ({
            let n = width::fit(widths, (budget - 1) as nat);
            let own = width::total(widths);
            if budget == 0 {
                head_by(text, own, widths, budget) == Seq::<char>::empty() && tail_by(
                    text,
                    own,
                    widths,
                    budget,
                ) == Seq::<char>::empty()
            } else {
                &&& head_by(text, own, widths, budget) == text.take(n).push('…')
                &&& tail_by(text, own, widths, budget) == seq!['…'] + text.skip(text.len() - n)
                &&& width::total(widths.take(n)) + 1 <= budget
            }
        }),
{
    if budget > 0 {
        width::lemma_fit_exists(widths, (budget - 1) as nat);
    }
}

/// How many columns a side takes by the widths of its characters, with a mark
/// of one column where it was cut.
pub open spec fn side_columns(widths: Seq<usize>, budget: nat) -> nat {
    if width::total(widths) <= budget {
        width::total(widths)
    } else if budget == 0 {
        0
    } else {
        width::total(widths.take(width::fit(widths, (budget - 1) as nat))) + 1
    }
}

/// A snippet fits wherever its match does, by the widths of the characters:
/// the match and what is kept of both sides take no more columns than there
/// are.
pub proof fn a_snippet_fits_where_its_match_does(
    before: Seq<usize>,
    matched: Seq<usize>,
    after: Seq<usize>,
    max_width: nat,
)
    requires
        width::total(matched) <= max_width,
    ensures
        ({
            let (b, a) = budgets(
                (max_width - width::total(matched)) as nat,
                width::total(before),
                width::total(after),
            );
            side_columns(before, b) + width::total(matched) + side_columns(after, a) <= max_width
        }),
{
    let (b, a) = budgets(
        (max_width - width::total(matched)) as nat,
        width::total(before),
        width::total(after),
    );
    if b > 0 {
        width::lemma_fit_exists(before, (b - 1) as nat);
    }
    if a > 0 {
        width::lemma_fit_exists(after, (a - 1) as nat);
    }
}

/// The sides of a snippet share the columns that the match leaves, and a
/// side is only cut where both together do not fit.
pub proof fn the_sides_share_what_is_left(remaining: nat, before: nat, after: nat)
    ensures
        budgets(remaining, before, after).0 + budgets(remaining, before, after).1 == remaining,
        before + after <= remaining ==> before <= budgets(remaining, before, after).0 && after
            <= budgets(remaining, before, after).1,
{
}

} // verus!

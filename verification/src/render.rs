//! Lines of the tree, the menus and the status table.
use vstd::prelude::*;

use crate::color;
use crate::query::{Filter, Sort};
use crate::query_view;
use crate::status;
use crate::status::{Status, StatusKind, StatusV};
use crate::status_cycle;
use crate::status_manage::Column;
use crate::style;
use crate::style::{Color, Line, Span, SpanV, Style};
use crate::task::{Task, TaskV};
use crate::text;
use crate::width;

verus! {

/// The status of a task as a tree row shows it.
pub open spec fn status_span(t: TaskV, statuses: Seq<StatusV>) -> SpanV {
    let i = status_cycle::position(statuses, t.status_id);
    let (name, color) = if i < statuses.len() {
        (statuses[i].label, color::color_of(statuses[i].color))
    } else {
        (text::decimal(t.status_id as int), Color::DarkGray)
    };
    style::span(" ["@ + name + "]"@, style::colored(color))
}

/// The due date has passed and the task can still be worked on.
pub open spec fn overdue(t: TaskV, statuses: Seq<StatusV>, today: Seq<char>) -> bool {
    let i = status_cycle::position(statuses, t.status_id);
    t.due is Some && text::text_lt(t.due->Some_0, today) && i < statuses.len() && statuses[i].kind
        == StatusKind::Open
}

/// One tree row: prefix, title, status and the due date if one is set.
pub open spec fn task_spans(
    prefix: Seq<char>,
    t: TaskV,
    statuses: Seq<StatusV>,
    today: Seq<char>,
) -> Seq<SpanV> {
    let base = seq![style::raw(prefix), style::raw(t.title), status_span(t, statuses)];
    match t.due {
        Some(due) => base.push(
            style::span(
                " "@ + due,
                if overdue(t, statuses, today) {
                    style::colored(Color::Red)
                } else {
                    style::dimmed()
                },
            ),
        ),
        None => base,
    }
}

/// Builds one tree row: tree prefix, title, the status as ` [label]` in the
/// status color, then the due date if one is set. A status id missing from
/// the list renders as the raw id in dark gray, keeping it visible instead
/// of hiding the data. `today` (as `YYYY-MM-DD`) is passed in so rendering
/// stays a pure function of its inputs.
pub fn task_line(prefix: String, task: &Task, statuses: &Vec<Status>, today: &str) -> (r: Line)
    ensures
        r@ == task_spans(prefix@, task@, status::statuses_view(statuses@), today@),
{
    let ghost ss = status::statuses_view(statuses@);
    let found = status_cycle::position_of(statuses, task.status_id);
    let mut line = Line::empty();
    line.push(Span::raw(prefix));
    line.push(Span::raw(task.title.clone()));
    let mut open = false;
    match found {
        Some(i) => {
            assert(ss[i as int] == statuses@[i as int]@);
            open = statuses[i].kind == StatusKind::Open;
            line.push(
                Span::styled(
                    text::concat3(" [", statuses[i].label.as_str(), "]"),
                    Style::fg(color::parse_color(statuses[i].color.as_str())),
                ),
            );
        },
        None => {
            line.push(
                Span::styled(
                    text::concat3(" [", text::number(task.status_id).as_str(), "]"),
                    Style::fg(Color::DarkGray),
                ),
            );
        },
    }
    assert(line@ =~= seq![style::raw(prefix@), style::raw(task@.title), status_span(task@, ss)]);
    match &task.due {
        Some(due) => {
            let style = if text::lt(due.as_str(), today) && open {
                Style::fg(Color::Red)
            } else {
                Style::dim()
            };
            let mut content = " ".to_owned();
            content.append(due.as_str());
            line.push(Span::styled(content, style));
        },
        None => {},
    }
    line
}

/// A menu choice: its key and what it stands for.
pub open spec fn choice(key: char, label: Seq<char>) -> Seq<char> {
    seq![key] + " "@ + label
}

pub open spec fn status_choices(statuses: Seq<StatusV>) -> Seq<Seq<char>> {
    statuses.map_values(|s: StatusV| choice(s.key, s.label))
}

fn menu_choice(key: char, label: &str) -> (r: String)
    ensures
        r@ == choice(key, label@),
{
    let mut r = String::new();
    r.push(key);
    r.append(" ");
    r.append(label);
    assert(r@ =~= choice(key, label@));
    r
}

fn push_status_choices(parts: &mut Vec<String>, statuses: &Vec<Status>)
    ensures
        text::texts(final(parts)@) == text::texts(old(parts)@) + status_choices(
            status::statuses_view(statuses@),
        ),
{
    let ghost ss = status::statuses_view(statuses@);
    let ghost front = text::texts(parts@);
    let ghost all = status_choices(ss);
    let mut i: usize = 0;
    assert(front + all.take(0) =~= front);
    while i < statuses.len()
        invariant
            i <= statuses.len(),
            ss == status::statuses_view(statuses@),
            all == status_choices(ss),
            text::texts(parts@) == front + all.take(i as int),
        decreases statuses.len() - i,
    {
        let ghost before = text::texts(parts@);
        let part = menu_choice(statuses[i].key, statuses[i].label.as_str());
        assert(ss[i as int] == statuses@[i as int]@);
        assert(part@ == all[i as int]);
        parts.push(part);
        assert(text::texts(parts@) =~= before.push(part@));
        i = i + 1;
        assert(text::texts(parts@) =~= front + all.take(i as int));
    }
    assert(all.take(i as int) =~= all);
}

/// Builds the status-select candidate line straight from the status list,
/// e.g. `t 未着手  r 着手可能  d 進行中`. The statuses are the single source
/// of truth for these keys, so the display can never drift from what the
/// keys actually do.
pub fn status_menu_line(statuses: &Vec<Status>) -> (r: String)
    ensures
        r@ == text::joined(status_choices(status::statuses_view(statuses@)), "  "@),
{
    let mut parts: Vec<String> = Vec::new();
    push_status_choices(&mut parts, statuses);
    assert(text::texts(parts@) =~= status_choices(status::statuses_view(statuses@)));
    text::join(&parts, "  ")
}

/// The fixed choices of the filter menu.
pub open spec fn fixed_filters() -> Seq<Seq<char>> {
    seq![choice('a', "all"@), choice('o', "open"@), choice('!', "overdue"@)]
}

/// Builds the filter menu: the fixed choices first, then one key per status.
pub fn filter_menu_line(statuses: &Vec<Status>) -> (r: String)
    ensures
        r@ == text::joined(
            fixed_filters() + status_choices(status::statuses_view(statuses@)),
            "  "@,
        ),
{
    let mut parts: Vec<String> = Vec::new();
    parts.push(menu_choice('a', "all"));
    parts.push(menu_choice('o', "open"));
    parts.push(menu_choice('!', "overdue"));
    assert(text::texts(parts@) =~= fixed_filters());
    push_status_choices(&mut parts, statuses);
    text::join(&parts, "  ")
}

pub open spec fn sort_choices() -> Seq<Seq<char>> {
    query_view::sort_menu().map_values(
        |c: (char, Sort)| choice(c.0, query_view::sort_text(c.1)),
    )
}

/// Builds the sort menu from the choices that resolve its keys.
pub fn sort_menu_line() -> (r: String)
    ensures
        r@ == text::joined(sort_choices(), "  "@),
{
    let keys = query_view::sort_keys();
    let mut parts: Vec<String> = Vec::new();
    let ghost all = sort_choices();
    let mut i: usize = 0;
    assert(text::texts(parts@) =~= all.take(0));
    while i < keys.len()
        invariant
            i <= keys.len(),
            keys@ == query_view::sort_menu(),
            all == sort_choices(),
            text::texts(parts@) == all.take(i as int),
        decreases keys.len() - i,
    {
        let ghost before = text::texts(parts@);
        let part = menu_choice(keys[i].0, query_view::sort_name(keys[i].1));
        parts.push(part);
        assert(text::texts(parts@) =~= before.push(part@));
        i = i + 1;
        assert(text::texts(parts@) =~= all.take(i as int));
    }
    assert(all.take(i as int) =~= all);
    text::join(&parts, "  ")
}

/// The tree's context line: the path of the zoom root and the filter in
/// force, where there is either.
pub open spec fn header_text(
    path: Option<Seq<char>>,
    filter: Filter,
    statuses: Seq<StatusV>,
) -> Option<Seq<char>> {
    let shown = "filter: "@ + query_view::filter_text(filter, statuses);
    match path {
        Some(p) => Some(
            if filter == Filter::All {
                p
            } else {
                p + " | "@ + shown
            },
        ),
        None => if filter == Filter::All {
            None
        } else {
            Some(shown)
        },
    }
}

/// Builds the tree's context line. None means there is nothing to say: no
/// zoom, and every task is shown.
pub fn tree_header(path: Option<String>, filter: Filter, statuses: &Vec<Status>) -> (r: Option<
    String,
>)
    ensures
        crate::task::text_option(r) == header_text(
            crate::task::text_option(path),
            filter,
            status::statuses_view(statuses@),
        ),
{
    let mut shown = "filter: ".to_owned();
    shown.append(query_view::filter_name(filter, statuses).as_str());
    match path {
        Some(p) => {
            if filter == Filter::All {
                Some(p)
            } else {
                Some(text::concat3(p.as_str(), " | ", shown.as_str()))
            }
        },
        None => {
            if filter == Filter::All {
                None
            } else {
                Some(shown)
            }
        },
    }
}

/// What stands between the columns of the status table.
pub open spec fn gap() -> Seq<char> {
    "  "@
}

/// The text of a cell.
pub open spec fn cell(s: StatusV, col: Column) -> Seq<char> {
    match col {
        Column::Label => s.label,
        Column::Kind => s.kind.text(),
        Column::Color => s.color,
        Column::Key => seq![s.key],
    }
}

/// The display widths of a column's cells.
pub open spec fn cell_widths(statuses: Seq<StatusV>, col: Column) -> Seq<usize> {
    statuses.map_values(|s: StatusV| width::text_columns(cell(s, col)))
}

pub open spec fn heading(col: Column) -> Seq<char> {
    match col {
        Column::Label => "Label"@,
        Column::Kind => "Kind"@,
        Column::Color => "Color"@,
        Column::Key => "Key"@,
    }
}

/// The width of a column: its widest cell or its heading. The key column is
/// as wide as its heading.
pub open spec fn table_width(statuses: Seq<StatusV>, col: Column) -> usize {
    let own = width::text_columns(heading(col));
    if col == Column::Key {
        own
    } else {
        width::widest(cell_widths(statuses, col), own)
    }
}

/// A text padded to the width of a column.
pub open spec fn padded_cell(content: Seq<char>, w: usize) -> Seq<char> {
    width::padded(content, width::text_columns(content) as nat, w as nat)
}

pub open spec fn table_header(statuses: Seq<StatusV>) -> Seq<SpanV> {
    seq![
        style::span(
            text::joined(
                seq![
                    padded_cell(heading(Column::Label), table_width(statuses, Column::Label)),
                    padded_cell(heading(Column::Kind), table_width(statuses, Column::Kind)),
                    padded_cell(heading(Column::Color), table_width(statuses, Column::Color)),
                    padded_cell(heading(Column::Key), table_width(statuses, Column::Key)),
                    "Default"@,
                ],
                gap(),
            ),
            style::dimmed(),
        ),
    ]
}

pub open spec fn cell_span(
    statuses: Seq<StatusV>,
    row: int,
    col: Column,
    selected: bool,
) -> SpanV {
    let base = if col == Column::Label {
        style::colored(color::color_of(statuses[row].color))
    } else {
        style::plain()
    };
    style::span(
        padded_cell(cell(statuses[row], col), table_width(statuses, col)),
        Style { reversed: selected, ..base },
    )
}

pub open spec fn table_row(
    statuses: Seq<StatusV>,
    row: int,
    selected_row: int,
    selected_col: Column,
) -> Seq<SpanV> {
    let here = row == selected_row;
    seq![
        cell_span(statuses, row, Column::Label, here && selected_col == Column::Label),
        style::raw(gap()),
        cell_span(statuses, row, Column::Kind, here && selected_col == Column::Kind),
        style::raw(gap()),
        cell_span(statuses, row, Column::Color, here && selected_col == Column::Color),
        style::raw(gap()),
        cell_span(statuses, row, Column::Key, here && selected_col == Column::Key),
        style::raw(gap()),
        style::raw(
            if statuses[row].is_default {
                "*"@
            } else {
                ""@
            },
        ),
    ]
}

/// The status table: a heading and one line per status.
pub open spec fn table(
    statuses: Seq<StatusV>,
    selected_row: int,
    selected_col: Column,
) -> Seq<Seq<SpanV>> {
    seq![table_header(statuses)] + Seq::new(
        statuses.len(),
        |row: int| table_row(statuses, row, selected_row, selected_col),
    )
}

fn cell_text(s: &Status, col: Column) -> (r: String)
    ensures
        r@ == cell(s@, col),
{
    match col {
        Column::Label => s.label.clone(),
        Column::Kind => s.kind.as_str().to_owned(),
        Column::Color => s.color.clone(),
        Column::Key => {
            let mut r = String::new();
            r.push(s.key);
            assert(r@ =~= seq![s.key]);
            r
        },
    }
}

fn heading_text(col: Column) -> (r: &'static str)
    ensures
        r@ == heading(col),
{
    match col {
        Column::Label => "Label",
        Column::Kind => "Kind",
        Column::Color => "Color",
        Column::Key => "Key",
    }
}

fn column_width(statuses: &Vec<Status>, col: Column) -> (r: usize)
    ensures
        r == table_width(status::statuses_view(statuses@), col),
{
    let ghost ss = status::statuses_view(statuses@);
    let own = width::text_width(heading_text(col));
    if col == Column::Key {
        return own;
    }
    let ghost all = cell_widths(ss, col);
    let mut widths: Vec<usize> = Vec::new();
    let mut i: usize = 0;
    while i < statuses.len()
        invariant
            i <= statuses.len(),
            ss == status::statuses_view(statuses@),
            all == cell_widths(ss, col),
            widths@ == all.take(i as int),
        decreases statuses.len() - i,
    {
        assert(ss[i as int] == statuses@[i as int]@);
        widths.push(width::text_width(cell_text(&statuses[i], col).as_str()));
        i = i + 1;
        assert(widths@ =~= all.take(i as int));
    }
    assert(all.take(i as int) =~= all);
    width::largest(&widths, own)
}

/// Pads with trailing spaces to `width` display columns, so multibyte
/// labels line up with the ASCII cells around them.
fn pad(content: &str, w: usize) -> (r: String)
    ensures
        r@ == padded_cell(content@, w),
{
    width::pad_to(content, width::text_width(content), w)
}

fn styled_cell(statuses: &Vec<Status>, row: usize, col: Column, w: usize, selected: bool) -> (r:
    Span)
    requires
        row < statuses@.len(),
        w == table_width(status::statuses_view(statuses@), col),
    ensures
        r@ == cell_span(status::statuses_view(statuses@), row as int, col, selected),
{
    assert(status::statuses_view(statuses@)[row as int] == statuses@[row as int]@);
    let mut look = if col == Column::Label {
        Style::fg(color::parse_color(statuses[row].color.as_str()))
    } else {
        Style::default()
    };
    look.reversed = selected;
    Span::styled(pad(cell_text(&statuses[row], col).as_str(), w), look)
}

/// Builds the status-management table: a dim header plus one line per
/// status. The label cell is drawn in the status's own color, which doubles
/// as the color preview; the selected cell is drawn reversed.
pub fn manage_table_lines(statuses: &Vec<Status>, selected_row: usize, selected_col: Column) -> (r:
    Vec<Line>)
    ensures
        style::lines_view(r@) == table(
            status::statuses_view(statuses@),
            selected_row as int,
            selected_col,
        ),
{
    let ghost ss = status::statuses_view(statuses@);
    let label_width = column_width(statuses, Column::Label);
    let kind_width = column_width(statuses, Column::Kind);
    let color_width = column_width(statuses, Column::Color);
    let key_width = column_width(statuses, Column::Key);
    let mut headings: Vec<String> = Vec::new();
    headings.push(pad("Label", label_width));
    headings.push(pad("Kind", kind_width));
    headings.push(pad("Color", color_width));
    headings.push(pad("Key", key_width));
    headings.push("Default".to_owned());
    assert(text::texts(headings@) =~= seq![
        padded_cell(heading(Column::Label), table_width(ss, Column::Label)),
        padded_cell(heading(Column::Kind), table_width(ss, Column::Kind)),
        padded_cell(heading(Column::Color), table_width(ss, Column::Color)),
        padded_cell(heading(Column::Key), table_width(ss, Column::Key)),
        "Default"@,
    ]);
    let mut lines: Vec<Line> = Vec::new();
    lines.push(Line::of(Span::styled(text::join(&headings, "  "), Style::dim())));
    let ghost all = table(ss, selected_row as int, selected_col);
    assert(style::lines_view(lines@) =~= all.take(1));
    let mut row: usize = 0;
    while row < statuses.len()
        invariant
            row <= statuses.len(),
            ss == status::statuses_view(statuses@),
            all == table(ss, selected_row as int, selected_col),
            label_width == table_width(ss, Column::Label),
            kind_width == table_width(ss, Column::Kind),
            color_width == table_width(ss, Column::Color),
            key_width == table_width(ss, Column::Key),
            style::lines_view(lines@) == all.take(row + 1),
        decreases statuses.len() - row,
    {
        let here = row == selected_row;
        let mut line = Line::empty();
        line.push(
            styled_cell(
                statuses,
                row,
                Column::Label,
                label_width,
                here && selected_col == Column::Label,
            ),
        );
        line.push(Span::raw("  ".to_owned()));
        line.push(
            styled_cell(
                statuses,
                row,
                Column::Kind,
                kind_width,
                here && selected_col == Column::Kind,
            ),
        );
        line.push(Span::raw("  ".to_owned()));
        line.push(
            styled_cell(
                statuses,
                row,
                Column::Color,
                color_width,
                here && selected_col == Column::Color,
            ),
        );
        line.push(Span::raw("  ".to_owned()));
        line.push(
            styled_cell(
                statuses,
                row,
                Column::Key,
                key_width,
                here && selected_col == Column::Key,
            ),
        );
        line.push(Span::raw("  ".to_owned()));
        let mark = if statuses[row].is_default {
            "*"
        } else {
            ""
        };
        line.push(Span::raw(mark.to_owned()));
        assert(ss[row as int] == statuses@[row as int]@);
        assert(line@ =~= table_row(ss, row as int, selected_row as int, selected_col));
        let ghost before = style::lines_view(lines@);
        lines.push(line);
        assert(style::lines_view(lines@) =~= before.push(line@));
        row = row + 1;
        assert(style::lines_view(lines@) =~= all.take(row + 1));
    }
    assert(all.take(row + 1) =~= all);
    lines
}

} // verus!

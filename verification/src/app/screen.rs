//! What the session shows: the lines of each part of the screen. Placing
//! them on a terminal is left to whoever owns one.
use vstd::prelude::*;

use crate::app;
use crate::app::model;
use crate::app::model::{AppV, ModeV};
use crate::app::{App, Mode};
use crate::command;
use crate::footer;
use crate::help;
use crate::input::{Editor, EditorV};
use crate::note;
use crate::overlay;
use crate::query_view;
use crate::render;
use crate::status_manage::{Column, Editing, EditingV};
use crate::style;
use crate::style::{Line, Span, SpanV, Style};
use crate::task;
use crate::task::TaskV;
use crate::text;
use crate::tree;

verus! {

broadcast use vstd::std_specs::hash::group_hash_axioms;

/// Bounds for the note pane: it may grow to a third of the screen but never
/// squeezes the task list out, and small terminals still get a useful pane.
pub const NOTE_PANE_MIN_LINES: usize = 8;

pub const NOTE_PANE_MAX_LINES: usize = 20;

/// Share of the screen a modal popup covers, matching the proportions of
/// typical editor pickers.
pub const POPUP_WIDTH_PCT: u16 = 80;

pub const POPUP_HEIGHT_PCT: u16 = 80;

/// The base layer of the screen, from top to bottom.
pub struct Screen {
    /// The zoom path and the filter, where there is something to say.
    pub header: Option<String>,
    /// One line per visible task.
    pub rows: Vec<Line>,
    /// The highlighted row.
    pub selected: Option<usize>,
    /// The line above the footer: the text input or a one-key menu. The
    /// modal views carry their own prompt inside the popup instead.
    pub input: Option<Line>,
    pub message: Option<String>,
    /// The note pane with its heading; empty where there is none.
    pub note: Vec<Line>,
    pub footer: Option<String>,
}

/// A screen as plain values.
#[verifier::ext_equal]
pub struct ScreenV {
    pub header: Option<Seq<char>>,
    pub rows: Seq<Seq<SpanV>>,
    pub selected: Option<usize>,
    pub input: Option<Seq<SpanV>>,
    pub message: Option<Seq<char>>,
    pub note: Seq<Seq<SpanV>>,
    pub footer: Option<Seq<char>>,
}

pub open spec fn line_option(o: Option<Line>) -> Option<Seq<SpanV>> {
    match o {
        Some(line) => Some(line@),
        None => None,
    }
}

impl View for Screen {
    type V = ScreenV;

    open spec fn view(&self) -> ScreenV {
        ScreenV {
            header: task::text_option(self.header),
            rows: style::lines_view(self.rows@),
            selected: self.selected,
            input: line_option(self.input),
            message: task::text_option(self.message),
            note: style::lines_view(self.note@),
            footer: task::text_option(self.footer),
        }
    }
}

/// One row where there is something to show.
pub open spec fn row_for(present: bool) -> nat {
    if present {
        1
    } else {
        0
    }
}

/// The rows that the other parts of a screen leave for the task list.
pub open spec fn rows_left(screen: ScreenV, height: u16) -> nat {
    let others = row_for(screen.header is Some) + row_for(screen.input is Some) + row_for(
        screen.message is Some,
    ) + screen.note.len() + row_for(screen.footer is Some);
    if height >= others {
        (height - others) as nat
    } else {
        0
    }
}

/// The rows inside a popup's border, less a prompt and the divider below it.
pub open spec fn popup_rows_left(popup_height: u16, prompt: bool) -> nat {
    let others: nat = if prompt {
        4
    } else {
        2
    };
    if popup_height >= others {
        (popup_height - others) as nat
    } else {
        0
    }
}

impl Screen {
    /// How many rows the task list gets on a screen of this height: each
    /// other part takes its rows first. Sizes the half-page jumps of the tree.
    pub fn list_rows(&self, height: u16) -> (r: usize)
        ensures
            r == rows_left(self@, height),
    {
        assert(self@.note.len() == self.note@.len());
        let mut left: usize = height as usize;
        if self.header.is_some() {
            left = left.saturating_sub(1);
        }
        if self.input.is_some() {
            left = left.saturating_sub(1);
        }
        if self.message.is_some() {
            left = left.saturating_sub(1);
        }
        if self.footer.is_some() {
            left = left.saturating_sub(1);
        }
        left.saturating_sub(self.note.len())
    }
}

/// How many rows a popup of this height has for its list: inside the border,
/// below the prompt and the divider where it captures text. Sizes the
/// half-page jumps of the popup views.
pub fn popup_rows(popup_height: u16, prompt: bool) -> (r: usize)
    ensures
        r == popup_rows_left(popup_height, prompt),
{
    let inner: usize = (popup_height as usize).saturating_sub(2);
    if prompt {
        inner.saturating_sub(2)
    } else {
        inner
    }
}

/// What a popup lists.
pub enum Content {
    Empty,
    /// A dimmed remark in place of a list.
    Notice(&'static str),
    /// Lines, the first `offset` of them scrolled away.
    Lines { lines: Vec<Line>, offset: usize },
    /// Items of one or more lines, one of them highlighted.
    Items { items: Vec<Vec<Line>>, selected: usize },
}

/// A popup's content as plain values.
#[verifier::ext_equal]
pub enum ContentV {
    Empty,
    Notice(Seq<char>),
    Lines { lines: Seq<Seq<SpanV>>, offset: usize },
    Items { items: Seq<Seq<Seq<SpanV>>>, selected: usize },
}

impl View for Content {
    type V = ContentV;

    open spec fn view(&self) -> ContentV {
        match *self {
            Content::Empty => ContentV::Empty,
            Content::Notice(s) => ContentV::Notice(s@),
            Content::Lines { lines, offset } => ContentV::Lines {
                lines: style::lines_view(lines@),
                offset,
            },
            Content::Items { items, selected } => ContentV::Items {
                items: items_view(items@),
                selected,
            },
        }
    }
}

pub open spec fn items_view(v: Seq<Vec<Line>>) -> Seq<Seq<Seq<SpanV>>> {
    v.map_values(|item: Vec<Line>| style::lines_view(item@))
}

/// Whether the mode is shown as a popup over the task tree.
pub open spec fn modal(mode: ModeV) -> bool {
    mode is StatusManage || mode is Help || mode is Query
}

/// The input field with a block cursor on the character at the cursor, or on
/// a blank at the end.
pub open spec fn input_spans(prompt: Seq<char>, e: EditorV) -> Seq<SpanV> {
    let at = e.at as int;
    seq![
        style::raw(prompt),
        style::raw(e.text.take(at)),
        style::span(
            if at < e.text.len() {
                e.text.subrange(at, at + 1)
            } else {
                " "@
            },
            style::reversed(),
        ),
        style::raw(
            if at < e.text.len() {
                e.text.skip(at + 1)
            } else {
                seq![]
            },
        ),
    ]
}

/// The line above the footer.
pub open spec fn bottom_line(a: AppV) -> Option<Seq<SpanV>> {
    match a.mode {
        ModeV::Input { editor, action } => Some(input_spans(app::prompt_text(action), editor)),
        ModeV::StatusSelect { task_id } => Some(
            seq![style::raw(text::joined(render::status_choices(a.statuses), "  "@))],
        ),
        ModeV::FilterSelect => Some(filter_line(a)),
        ModeV::Query(state) => match state.focus {
            query_view::Focus::SortMenu => Some(
                seq![style::raw(text::joined(render::sort_choices(), "  "@))],
            ),
            query_view::Focus::FilterMenu => Some(filter_line(a)),
            _ => None,
        },
        _ => None,
    }
}

pub open spec fn filter_line(a: AppV) -> Seq<SpanV> {
    seq![
        style::raw(
            text::joined(
                render::fixed_filters() + render::status_choices(a.statuses),
                "  "@,
            ),
        ),
    ]
}

/// How many note lines a screen of this height has room for.
pub open spec fn note_budget(height: u16) -> usize {
    let third = (height / 3) as usize;
    if third < NOTE_PANE_MIN_LINES {
        NOTE_PANE_MIN_LINES
    } else if third > NOTE_PANE_MAX_LINES {
        NOTE_PANE_MAX_LINES
    } else {
        third
    }
}

/// The selected task's note. A popup covers the middle of the screen, so a
/// note pane under it would only compete for attention.
pub open spec fn note_text(a: AppV, height: u16) -> Seq<Seq<char>> {
    if modal(a.mode) {
        seq![]
    } else {
        match model::selected_task(a) {
            Some(t) => note::pane(t.note, note_budget(height) as nat),
            None => seq![],
        }
    }
}

pub open spec fn raw_lines(lines: Seq<Seq<char>>) -> Seq<Seq<SpanV>> {
    lines.map_values(|line: Seq<char>| seq![style::raw(line)])
}

pub open spec fn note_lines(a: AppV, height: u16) -> Seq<Seq<SpanV>> {
    let lines = note_text(a, height);
    if lines.len() == 0 {
        seq![]
    } else {
        seq![seq![style::span("note"@, style::dimmed())]] + raw_lines(lines)
    }
}

/// One visible row.
pub open spec fn row_line(a: AppV, k: int, today: Seq<char>) -> Seq<SpanV> {
    let row = a.rows[k];
    let t = a.tasks[row.task_index];
    render::task_spans(
        tree::prefix_text(row.depth, row.has_children, a.expanded.contains(t.id)),
        t,
        a.statuses,
        today,
    )
}

pub open spec fn row_lines(a: AppV, today: Seq<char>) -> Seq<Seq<SpanV>> {
    Seq::new(a.rows.len(), |k: int| row_line(a, k, today))
}

/// The base layer.
pub open spec fn screen_of(a: AppV, width: u16, height: u16, today: Seq<char>) -> ScreenV {
    ScreenV {
        header: render::header_text(
            match a.zoom_root {
                Some(id) => Some(tree::path_text(a.tasks, id)),
                None => None,
            },
            a.filter,
            a.statuses,
        ),
        rows: row_lines(a, today),
        selected: if a.rows.len() > 0 {
            Some(a.selected)
        } else {
            None
        },
        input: bottom_line(a),
        message: a.status_line,
        note: note_lines(a, height),
        footer: if a.show_footer {
            Some(
                footer::footer_text(
                    command::command_table(),
                    a.bindings,
                    model::context_of(a.mode),
                    width as nat,
                ),
            )
        } else {
            None
        },
    }
}

/// The popup's title before it is cut. The search text, sort and filter
/// belong together and have no other place in the popup; a confirmed help
/// filter has nowhere else to show once the prompt row is gone.
pub open spec fn title_text(a: AppV) -> Seq<char> {
    match a.mode {
        ModeV::Query(state) => query_view::header_line(
            state.editor.text,
            state.sort,
            a.filter,
            a.statuses,
        ),
        ModeV::Help(state) => if state.editor.text.len() == 0 {
            "help"@
        } else {
            "help: "@ + state.editor.text
        },
        ModeV::StatusManage(_) => "manage statuses"@,
        _ => seq![],
    }
}

/// The columns a popup's border has for the title: all but two corners and
/// the blank on each side of the title.
pub open spec fn title_budget(popup_width: u16) -> nat {
    if popup_width >= 4 {
        (popup_width - 4) as nat
    } else {
        0
    }
}

/// The popup's prompt line, if the view is currently capturing input.
pub open spec fn prompt_line(a: AppV) -> Option<Seq<SpanV>> {
    match a.mode {
        ModeV::Query(state) => if state.focus == query_view::Focus::Edit {
            Some(input_spans("Search: "@, state.editor))
        } else {
            None
        },
        ModeV::Help(state) => if state.focus == help::Focus::Edit {
            Some(input_spans("Filter: "@, state.editor))
        } else {
            None
        },
        ModeV::StatusManage(state) => match state.editing {
            EditingV::Cell(editor) => Some(
                input_spans(
                    match state.col {
                        Column::Label => "Label: "@,
                        Column::Color => "Color: "@,
                        _ => "Edit: "@,
                    },
                    editor,
                ),
            ),
            EditingV::NewStatus(editor) => Some(input_spans("New status: "@, editor)),
            EditingV::KeyCapture => Some(
                seq![style::raw("Press a key for this status (Esc cancels)"@)],
            ),
            EditingV::Nothing => None,
        },
        _ => None,
    }
}

/// The search results, two lines each where the note matched.
pub open spec fn result_items(
    results: Seq<TaskV>,
    a: AppV,
    search: Seq<char>,
    today: Seq<char>,
) -> Seq<Seq<Seq<SpanV>>> {
    results.map_values(
        |t: TaskV| query_view::result_lines(t, a.statuses, a.tasks, search, today),
    )
}

/// What the open popup lists, in an area of this height. The status table's
/// cursor row is one below its status because of the table's own header
/// line, which scrolls away with the rows.
pub open spec fn content_of(a: AppV, height: usize, today: Seq<char>) -> ContentV {
    match a.mode {
        ModeV::StatusManage(state) => ContentV::Lines {
            lines: render::table(a.statuses, state.row as int, state.col),
            offset: overlay::scroll_for((state.row + 1) as nat, height as nat) as usize,
        },
        ModeV::Help(state) => {
            let lines = help::displayed(
                help::filtered(
                    help::all_lines(command::command_table(), a.bindings),
                    state.editor.text,
                ),
            );
            if state.scroll >= lines.len() {
                ContentV::Notice("no matching bindings"@)
            } else {
                ContentV::Lines { lines, offset: state.scroll }
            }
        },
        ModeV::Query(state) => if state.results.len() == 0 {
            ContentV::Notice("no matches"@)
        } else {
            ContentV::Items {
                items: result_items(state.results, a, state.editor.text, today),
                selected: state.selected,
            }
        },
        _ => ContentV::Empty,
    }
}

/// Whether the mode is shown as a popup over the task tree.
pub fn is_modal(mode: &Mode) -> (r: bool)
    ensures
        r == modal(mode@),
{
    match mode {
        Mode::StatusManage(_) => true,
        Mode::Help(_) => true,
        Mode::Query(_) => true,
        _ => false,
    }
}

/// Renders the input field with a block cursor. Highlighting the char at the
/// cursor avoids display-width math for positioning a real terminal cursor.
pub fn input_line(prompt: &str, editor: &Editor) -> (r: Line)
    requires
        editor.wf(),
    ensures
        r@ == input_spans(prompt@, editor@),
{
    let v = text::chars_of(editor.text());
    let at: usize = editor.position();
    let before = text::string_from(&v, 0, at);
    assert(before@ =~= editor@.text.take(at as int));
    let cursor = if at < v.len() {
        text::string_from(&v, at, at + 1)
    } else {
        " ".to_owned()
    };
    let rest = if at < v.len() {
        text::string_from(&v, at + 1, v.len())
    } else {
        String::new()
    };
    proof {
        if at < v.len() {
            assert(cursor@ =~= editor@.text.subrange(at as int, at + 1));
            assert(rest@ =~= editor@.text.skip(at + 1));
        } else {
            assert(rest@ =~= seq![]);
        }
    }
    let mut line = Line::of(Span::raw(prompt.to_owned()));
    line.push(Span::raw(before));
    line.push(Span::styled(cursor, Style::reverse()));
    line.push(Span::raw(rest));
    assert(line@ =~= input_spans(prompt@, editor@));
    line
}

fn plain_line(content: String) -> (r: Line)
    ensures
        r@ == seq![style::raw(content@)],
{
    Line::of(Span::raw(content))
}

fn pane_budget(height: u16) -> (r: usize)
    ensures
        r == note_budget(height),
{
    let third: usize = (height / 3) as usize;
    if third < NOTE_PANE_MIN_LINES {
        NOTE_PANE_MIN_LINES
    } else if third > NOTE_PANE_MAX_LINES {
        NOTE_PANE_MAX_LINES
    } else {
        third
    }
}

impl App {
    fn bottom(&self) -> (r: Option<Line>)
        requires
            model::valid(self@),
        ensures
            line_option(r) == bottom_line(self@),
    {
        match &self.mode {
            Mode::Input { editor, action } => Some(input_line(action.prompt(), editor)),
            Mode::StatusSelect { task_id } => Some(
                plain_line(render::status_menu_line(&self.statuses)),
            ),
            Mode::FilterSelect => Some(plain_line(render::filter_menu_line(&self.statuses))),
            Mode::Query(state) => match state.focus {
                query_view::Focus::SortMenu => Some(plain_line(render::sort_menu_line())),
                query_view::Focus::FilterMenu => Some(
                    plain_line(render::filter_menu_line(&self.statuses)),
                ),
                _ => None,
            },
            _ => None,
        }
    }

    fn note_pane(&self, height: u16) -> (r: Vec<Line>)
        requires
            model::valid(self@),
        ensures
            style::lines_view(r@) == note_lines(self@, height),
    {
        let ghost wanted = note_text(self@, height);
        let mut r: Vec<Line> = Vec::new();
        assert(style::lines_view(r@) =~= seq![]);
        if is_modal(&self.mode) {
            return r;
        }
        let lines = match self.selected_index() {
            Some(i) => note::pane_lines(self.tasks[i].note.as_str(), pane_budget(height)),
            None => Vec::new(),
        };
        assert(text::texts(lines@) =~= wanted);
        assert(lines@.len() == wanted.len());
        if lines.len() == 0 {
            return r;
        }
        let heading = Line::of(Span::styled("note".to_owned(), Style::dim()));
        r.push(heading);
        let ghost head = seq![seq![style::span("note"@, style::dimmed())]];
        assert(style::lines_view(r@) =~= head + raw_lines(wanted).take(0));
        let mut k: usize = 0;
        while k < lines.len()
            invariant
                k <= lines.len(),
                text::texts(lines@) == wanted,
                lines@.len() == wanted.len(),
                style::lines_view(r@) == head + raw_lines(wanted).take(k as int),
            decreases lines.len() - k,
        {
            let ghost before = style::lines_view(r@);
            let line = plain_line(lines[k].clone());
            assert(line@ == raw_lines(wanted)[k as int]);
            r.push(line);
            assert(style::lines_view(r@) =~= before.push(line@));
            k = k + 1;
            assert(style::lines_view(r@) =~= head + raw_lines(wanted).take(k as int));
        }
        assert(raw_lines(wanted).take(k as int) =~= raw_lines(wanted));
        r
    }

    fn task_lines(&self, today: &str) -> (r: Vec<Line>)
        requires
            model::valid(self@),
        ensures
            style::lines_view(r@) == row_lines(self@, today@),
    {
        let ghost wanted = row_lines(self@, today@);
        let mut r: Vec<Line> = Vec::new();
        let mut k: usize = 0;
        assert(style::lines_view(r@) =~= wanted.take(0));
        while k < self.rows.len()
            invariant
                k <= self.rows.len(),
                model::valid(self@),
                wanted == row_lines(self@, today@),
                style::lines_view(r@) == wanted.take(k as int),
            decreases self.rows.len() - k,
        {
            assert(self@.rows[k as int] == self.rows@[k as int]@);
            let row = self.rows[k];
            let task = &self.tasks[row.task_index];
            assert(self@.tasks[row.task_index as int] == task@);
            let prefix = tree::row_prefix(
                row.depth,
                row.has_children,
                self.expanded.contains(&task.id),
            );
            let line = render::task_line(prefix, task, &self.statuses, today);
            let ghost before = style::lines_view(r@);
            r.push(line);
            assert(style::lines_view(r@) =~= before.push(line@));
            k = k + 1;
            assert(style::lines_view(r@) =~= wanted.take(k as int));
        }
        assert(wanted.take(k as int) =~= wanted);
        r
    }

    /// The base layer of a screen of the given size. The tree stays the base
    /// layer even under a popup, so its context line stays meaningful.
    pub fn screen(&self, width: u16, height: u16, today: &str) -> (r: Screen)
        requires
            model::valid(self@),
        ensures
            r@ == screen_of(self@, width, height, today@),
    {
        let path = match self.zoom_root {
            Some(id) => Some(tree::breadcrumb(&self.tasks, id)),
            None => None,
        };
        let r = Screen {
            header: render::tree_header(path, self.filter, &self.statuses),
            rows: self.task_lines(today),
            selected: if self.rows.len() > 0 {
                Some(self.selected)
            } else {
                None
            },
            input: self.bottom(),
            message: task::clone_text_option(&self.status_line),
            note: self.note_pane(height),
            footer: if self.show_footer {
                Some(
                    footer::footer_line(
                        &command::commands(),
                        &self.keymap,
                        self.context(),
                        width as usize,
                    ),
                )
            } else {
                None
            },
        };
        assert(r@ =~= screen_of(self@, width, height, today@));
        r
    }

    /// The popup's border title, cut to what the border can show.
    pub fn popup_title(&self, popup_width: u16) -> (r: String)
        ensures
            r@ == " "@ + overlay::truncated(title_text(self@), title_budget(popup_width)) + " "@,
    {
        let title = match &self.mode {
            Mode::Query(state) => query_view::header(
                state.editor.text(),
                state.sort,
                self.filter,
                &self.statuses,
            ),
            Mode::Help(state) => {
                if text::chars_of(state.editor.text()).len() == 0 {
                    "help".to_owned()
                } else {
                    let mut s = "help: ".to_owned();
                    s.append(state.editor.text());
                    s
                }
            },
            Mode::StatusManage(_) => "manage statuses".to_owned(),
            _ => String::new(),
        };
        assert(title@ =~= title_text(self@));
        let budget: usize = if popup_width >= 4 {
            (popup_width - 4) as usize
        } else {
            0
        };
        text::concat3(" ", overlay::truncate_to_width(title.as_str(), budget).as_str(), " ")
    }

    /// The popup's prompt line, if the view is currently capturing input. It
    /// is drawn above the list in every view: reading order goes from what
    /// is typed to what it acts on.
    pub fn popup_prompt(&self) -> (r: Option<Line>)
        requires
            model::valid(self@),
        ensures
            line_option(r) == prompt_line(self@),
    {
        match &self.mode {
            Mode::Query(state) => {
                if state.focus == query_view::Focus::Edit {
                    Some(input_line("Search: ", &state.editor))
                } else {
                    None
                }
            },
            Mode::Help(state) => {
                if state.focus == help::Focus::Edit {
                    Some(input_line("Filter: ", &state.editor))
                } else {
                    None
                }
            },
            Mode::StatusManage(state) => match &state.editing {
                Editing::Cell(editor) => {
                    let prompt = match state.col {
                        Column::Label => "Label: ",
                        Column::Color => "Color: ",
                        _ => "Edit: ",
                    };
                    Some(input_line(prompt, editor))
                },
                Editing::NewStatus(editor) => Some(input_line("New status: ", editor)),
                Editing::KeyCapture => Some(
                    plain_line("Press a key for this status (Esc cancels)".to_owned()),
                ),
                Editing::Nothing => None,
            },
            _ => None,
        }
    }

    /// What the open popup lists, in an area of the given height, scrolled
    /// so the cursor stays visible.
    pub fn popup_content(&self, height: usize, today: &str) -> (r: Content)
        requires
            model::valid(self@),
        ensures
            r@ == content_of(self@, height, today@),
    {
        match &self.mode {
            Mode::StatusManage(state) => {
                let len: usize = self.statuses.len();
                assert(state.row < len);
                Content::Lines {
                    lines: render::manage_table_lines(&self.statuses, state.row, state.col),
                    offset: overlay::scroll_to_show(state.row + 1, height),
                }
            },
            Mode::Help(state) => {
                let lines = help::display_lines(
                    &help::filter_lines(
                        help::lines(&command::commands(), &self.keymap),
                        state.editor.text(),
                    ),
                );
                assert(style::lines_view(lines@).len() == lines@.len());
                if state.scroll >= lines.len() {
                    Content::Notice("no matching bindings")
                } else {
                    Content::Lines { lines, offset: state.scroll }
                }
            },
            Mode::Query(state) => {
                if state.results.len() == 0 {
                    return Content::Notice("no matches");
                }
                let ghost results = task::tasks_view(state.results@);
                let ghost wanted = result_items(results, self@, state@.editor.text, today@);
                let mut items: Vec<Vec<Line>> = Vec::new();
                let mut k: usize = 0;
                assert(items_view(items@) =~= wanted.take(0));
                while k < state.results.len()
                    invariant
                        k <= state.results.len(),
                        model::valid(self@),
                        results == task::tasks_view(state.results@),
                        wanted == result_items(results, self@, state@.editor.text, today@),
                        items_view(items@) == wanted.take(k as int),
                    decreases state.results.len() - k,
                {
                    assert(results[k as int] == state.results@[k as int]@);
                    let item = query_view::result_item(
                        &state.results[k],
                        &self.statuses,
                        &self.tasks,
                        state.editor.text(),
                        today,
                    );
                    let ghost before = items_view(items@);
                    let ghost shown = style::lines_view(item@);
                    items.push(item);
                    assert(items_view(items@) =~= before.push(shown));
                    k = k + 1;
                    assert(items_view(items@) =~= wanted.take(k as int));
                }
                assert(wanted.take(k as int) =~= wanted);
                Content::Items { items, selected: state.selected }
            },
            _ => Content::Empty,
        }
    }
}

} // verus!

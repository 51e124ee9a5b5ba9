use ratatui::layout::{Constraint, Layout, Rect};
use ratatui::style::{Color, Modifier, Style};
use ratatui::symbols;
use ratatui::text::{Line, Span, Text};
use ratatui::widgets::{Block, Clear, List, ListState, Paragraph};
use ratatui::Frame;
use stask::app::screen::{is_modal, popup_rows, Content, POPUP_HEIGHT_PCT, POPUP_WIDTH_PCT};
use stask::app::{App, Mode};
use stask::db::Db;
use stask::help;
use stask::key::Key;
use stask::overlay;
use stask::style;
use stask::task::Task;
use unicode_width::UnicodeWidthStr;

fn dim() -> Style {
    Style::default().add_modifier(Modifier::DIM)
}

fn color(c: style::Color) -> Color {
    match c {
        style::Color::Reset => Color::Reset,
        style::Color::Black => Color::Black,
        style::Color::Red => Color::Red,
        style::Color::Green => Color::Green,
        style::Color::Yellow => Color::Yellow,
        style::Color::Blue => Color::Blue,
        style::Color::Magenta => Color::Magenta,
        style::Color::Cyan => Color::Cyan,
        style::Color::Gray => Color::Gray,
        style::Color::DarkGray => Color::DarkGray,
        style::Color::LightRed => Color::LightRed,
        style::Color::LightGreen => Color::LightGreen,
        style::Color::LightYellow => Color::LightYellow,
        style::Color::LightBlue => Color::LightBlue,
        style::Color::LightMagenta => Color::LightMagenta,
        style::Color::LightCyan => Color::LightCyan,
        style::Color::White => Color::White,
        style::Color::Rgb(r, g, b) => Color::Rgb(r, g, b),
    }
}

fn styled(s: style::Style) -> Style {
    let mut r = Style::default();
    if let Some(fg) = s.fg {
        r = r.fg(color(fg));
    }
    if s.dim {
        r = r.add_modifier(Modifier::DIM);
    }
    if s.reversed {
        r = r.add_modifier(Modifier::REVERSED);
    }
    r
}

fn line(l: style::Line) -> Line<'static> {
    Line::from(
        l.spans
            .into_iter()
            .map(|span| Span::styled(span.content, styled(span.style)))
            .collect::<Vec<_>>(),
    )
}

fn lines(ls: Vec<style::Line>) -> Vec<Line<'static>> {
    ls.into_iter().map(line).collect()
}

fn draw(frame: &mut Frame, app: &mut App) {
    // The one clock read for rendering.
    let today = App::today();
    let area = frame.area();
    let screen = app.screen(area.width, area.height, &today);
    // Remembered for the half-page jump commands, which need to know how
    // many rows the list shows.
    app.list_height = screen.list_rows(area.height);
    let [header_area, list_area, input_area, message_area, note_area, footer_area] =
        Layout::vertical([
            Constraint::Length(u16::from(screen.header.is_some())),
            Constraint::Min(0),
            Constraint::Length(u16::from(screen.input.is_some())),
            Constraint::Length(u16::from(screen.message.is_some())),
            Constraint::Length(screen.note.len() as u16),
            // Hiding the footer frees its line for the list.
            Constraint::Length(u16::from(screen.footer.is_some())),
        ])
        .areas(area);
    if let Some(header) = screen.header {
        frame.render_widget(Paragraph::new(header).style(dim()), header_area);
    }
    let list = List::new(lines(screen.rows))
        .highlight_style(Style::default().add_modifier(Modifier::REVERSED));
    let mut list_state = ListState::default();
    list_state.select(screen.selected);
    frame.render_stateful_widget(list, list_area, &mut list_state);

    if is_modal(&app.mode) {
        // Remembered for the half-page jump commands of the popup views.
        app.popup_height = draw_popup(frame, app, &today);
    }
    if let Some(input) = screen.input {
        frame.render_widget(Paragraph::new(line(input)), input_area);
    }
    if let Some(message) = screen.message {
        frame.render_widget(Paragraph::new(message), message_area);
    }
    if !screen.note.is_empty() {
        frame.render_widget(Paragraph::new(lines(screen.note)), note_area);
    }
    if let Some(footer) = screen.footer {
        frame.render_widget(Paragraph::new(footer).style(dim()), footer_area);
    }
}

/// Blanks the base-layer characters whose second half the popup's left edge
/// covers. A terminal draws such a character in full, so its right half
/// would bleed over the popup border — CJK titles make this the common case.
fn blank_chars_split_by(frame: &mut Frame, popup_area: Rect) {
    if popup_area.x == 0 || popup_area.width == 0 {
        return;
    }
    let column = popup_area.x - 1;
    let buffer = frame.buffer_mut();
    for y in popup_area.y..popup_area.bottom() {
        if buffer[(column, y)].symbol().width() > 1 {
            buffer[(column, y)].set_symbol(" ");
        }
    }
}

/// The part of the screen a popup covers. A screen reaches no further than
/// the coordinates can count.
fn popup_rect(area: Rect) -> Rect {
    let popup = overlay::centered_rect(
        style::Rect::new(area.x, area.y, area.width, area.height),
        POPUP_WIDTH_PCT,
        POPUP_HEIGHT_PCT,
    );
    Rect::new(popup.x, popup.y, popup.width, popup.height)
}

/// Draws the current modal view as a centered, bordered popup over the task
/// tree: while text is being captured, a prompt row and a divider lead the
/// list. Returns the rows of the popup's list area, which sizes the
/// half-page jumps of the popup views.
fn draw_popup(frame: &mut Frame, app: &App, today: &str) -> usize {
    let popup_area = popup_rect(frame.area());
    let block = Block::bordered().title(app.popup_title(popup_area.width));
    let inner = block.inner(popup_area);
    // The tree underneath would otherwise show through the popup.
    frame.render_widget(Clear, popup_area);
    blank_chars_split_by(frame, popup_area);
    frame.render_widget(block, popup_area);

    let prompt = app.popup_prompt();
    let rows = popup_rows(popup_area.height, prompt.is_some());
    let row = Constraint::Length(u16::from(prompt.is_some()));
    let [prompt_area, divider_area, content_area] =
        Layout::vertical([row, row, Constraint::Min(0)]).areas(inner);

    draw_popup_content(frame, app, today, content_area, rows);
    if let Some(prompt) = prompt {
        draw_divider(frame, popup_area, divider_area);
        frame.render_widget(Paragraph::new(line(prompt)), prompt_area);
    }
    rows
}

fn draw_popup_content(frame: &mut Frame, app: &App, today: &str, area: Rect, rows: usize) {
    match app.popup_content(rows, today) {
        Content::Empty => {}
        Content::Notice(text) => {
            frame.render_widget(Paragraph::new(text).style(dim()), area);
        }
        Content::Lines { lines: ls, offset } => {
            let shown: Vec<Line> = lines(ls).into_iter().skip(offset).collect();
            frame.render_widget(Paragraph::new(shown), area);
        }
        Content::Items { items, selected } => {
            let list = List::new(items.into_iter().map(|item| Text::from(lines(item))))
                .highlight_style(Style::default().add_modifier(Modifier::REVERSED));
            let mut list_state = ListState::default();
            list_state.select(Some(selected));
            frame.render_stateful_widget(list, area, &mut list_state);
        }
    }
}

/// Separates the popup's list from its prompt row, joined to the border so
/// the box does not look broken open.
fn draw_divider(frame: &mut Frame, popup_area: Rect, area: Rect) {
    if area.width == 0 || area.height == 0 {
        return;
    }
    let divider = symbols::line::HORIZONTAL.repeat(area.width as usize);
    frame.render_widget(Paragraph::new(divider).style(dim()), area);
    let buffer = frame.buffer_mut();
    buffer[(popup_area.x, area.y)].set_symbol(symbols::line::VERTICAL_RIGHT);
    buffer[(popup_area.right() - 1, area.y)].set_symbol(symbols::line::VERTICAL_LEFT);
}

fn task(id: i64, parent_id: Option<i64>, display_order: i64) -> Task {
    Task {
        id,
        parent_id,
        display_order,
        title: format!("task {id}"),
        status_id: 1,
        due: None,
        note: String::new(),
        created_at: String::new(),
        updated_at: String::new(),
    }
}

fn default_status(db: &Db) -> i64 {
    db.default_status_id().unwrap()
}

/// Builds an App wired to `db`'s statuses, mirroring startup.
fn app_for(db: &Db, tasks: Vec<Task>) -> App {
    App::new(
        tasks,
        db.list_statuses().unwrap(),
        db.default_status_id().unwrap(),
    )
}

/// Builds an App over plain task fixtures; statuses come from a fresh
/// seeded database because they always originate there.
fn test_app(tasks: Vec<Task>) -> App {
    app_for(&Db::open_in_memory().unwrap(), tasks)
}

fn open_manage(app: &mut App, db: &mut Db) {
    app.handle_key(db, Key::Char('S')).unwrap();
}

fn press(app: &mut App, db: &mut Db, keys: &str) {
    for c in keys.chars() {
        app.handle_key(db, Key::Char(c)).unwrap();
    }
}

/// Renders one frame into an off-screen terminal and returns its rows as
/// plain strings, so layout assertions can read the screen as text.
fn rendered_rows(app: &mut App, width: u16, height: u16) -> Vec<String> {
    let backend = ratatui::backend::TestBackend::new(width, height);
    let mut terminal = ratatui::Terminal::new(backend).unwrap();
    terminal.draw(|frame| draw(frame, app)).unwrap();
    let buffer = terminal.backend().buffer().clone();
    (0..height)
        .map(|y| {
            (0..width)
                .map(|x| buffer[(x, y)].symbol().to_string())
                .collect()
        })
        .collect()
}

// Tests that a modal view is drawn as a popup over the task tree.
// Given: two root tasks and the help view open, on a 60x20 terminal
// When: a frame is rendered
// Then: the popup is a bordered box centered at 80% of the screen, the
//       task tree is still visible above it, and the footer keeps the
//       bottom line
#[test]
fn modal_is_drawn_as_a_bordered_popup_over_the_tree() {
    let mut app = test_app(vec![task(1, None, 0), task(2, None, 1)]);
    app.mode = Mode::Help(help::HelpState::new());

    let rows = rendered_rows(&mut app, 60, 20);

    assert!(rows[0].contains("task 1"), "row 0 was: {}", rows[0]);
    assert!(rows[1].contains("task 2"), "row 1 was: {}", rows[1]);
    // 80% of 60x20, centered: 48x16 at (6, 2).
    assert_eq!(rows[2].chars().nth(6), Some('\u{250c}'));
    assert_eq!(rows[2].chars().nth(53), Some('\u{2510}'));
    assert_eq!(rows[17].chars().nth(6), Some('\u{2514}'));
    assert_eq!(rows[17].chars().nth(53), Some('\u{2518}'));
    assert!(rows[2].contains("help"), "title was: {}", rows[2]);
    assert!(!rows[19].trim().is_empty(), "the footer must stay visible");
}

// Tests that the search prompt moves inside the popup, above its results.
// Given: the query view open with search text being typed, on a 60x20
//        terminal whose popup spans rows 2..17
// When: a frame is rendered
// Then: the popup title carries the search header, and the prompt sits
//       on the popup's first inner line over a divider joined to the
//       border
#[test]
fn query_popup_carries_the_header_and_a_prompt_above_the_results() {
    let mut db = Db::open_in_memory().unwrap();
    let mut app = app_for(&db, vec![]);
    press(&mut app, &mut db, "/design");

    let rows = rendered_rows(&mut app, 60, 20);

    assert!(
        rows[2].contains("search: design | sort:"),
        "title was: {}",
        rows[2]
    );
    assert!(
        rows[3].contains("Search: design"),
        "prompt row was: {}",
        rows[3]
    );
    assert_eq!(rows[4].chars().nth(6), Some('\u{251c}'));
    assert_eq!(rows[4].chars().nth(53), Some('\u{2524}'));
    assert!(
        rows[4][9..30].chars().all(|c| c == '\u{2500}'),
        "divider was: {}",
        rows[4]
    );
}

// Tests that the help filter prompt sits above the bindings it narrows.
// Given: the help view with "zoom" being typed into the filter, on a
//        60x20 terminal whose popup spans rows 2..17
// When: a frame is rendered
// Then: the prompt is the popup's first inner row, a divider joined to
//       the border follows it, and the matching bindings come below
#[test]
fn help_filter_prompt_sits_above_the_bindings() {
    let mut db = Db::open_in_memory().unwrap();
    let mut app = app_for(&db, vec![]);
    press(&mut app, &mut db, "?/zoom");

    let rows = rendered_rows(&mut app, 60, 20);

    assert!(
        rows[3].contains("Filter: zoom"),
        "prompt row was: {}",
        rows[3]
    );
    assert_eq!(rows[4].chars().nth(6), Some('\u{251c}'));
    assert_eq!(rows[4].chars().nth(53), Some('\u{2524}'));
    // The title also echoes the filter, so only the list rows are read.
    let list_rows = &rows[5..17];
    assert!(
        list_rows.iter().any(|row| row.contains("zoom")),
        "matching bindings must follow the divider, list was: {list_rows:#?}"
    );
}

// Tests that a cell editor puts its input at the popup's top, like the
// query and help prompts, so every modal reads from input to list.
// Given: the status management modal with a label edit open, on a 60x20
//        terminal whose popup spans rows 2..17
// When: a frame is rendered
// Then: the prompt is the popup's first inner row, a divider joined to
//       the border follows, and the table header sits below it
#[test]
fn status_cell_editor_keeps_its_prompt_above_the_table() {
    let mut db = Db::open_in_memory().unwrap();
    let mut app = app_for(&db, vec![]);
    open_manage(&mut app, &mut db);
    app.handle_key(&mut db, Key::Enter).unwrap();

    let rows = rendered_rows(&mut app, 60, 20);

    assert!(rows[3].contains("Label: "), "prompt row was: {}", rows[3]);
    assert_eq!(rows[4].chars().nth(6), Some('\u{251c}'));
    assert_eq!(rows[4].chars().nth(53), Some('\u{2524}'));
    assert!(
        rows[5].contains("Label ") && rows[5].contains("Color"),
        "table header row was: {}",
        rows[5]
    );
}

// Tests that the status popup names itself as a management screen.
// Given: the status management modal open
// When: the popup title is built with room to spare
// Then: it reads as an action, not just a list of statuses
#[test]
fn status_manage_popup_title_names_the_screen() {
    let mut db = Db::open_in_memory().unwrap();
    let mut app = app_for(&db, vec![]);
    open_manage(&mut app, &mut db);

    assert_eq!(app.popup_title(40), " manage statuses ");
}

// Tests that a popup title too long for the border is cut.
// Given: the query view with a long search text and a narrow popup
// When: the title is built
// Then: it fits inside the border and ends with an ellipsis
#[test]
fn popup_title_is_cut_to_the_border_width() {
    let mut db = Db::open_in_memory().unwrap();
    let mut app = app_for(&db, vec![]);
    press(&mut app, &mut db, "/a very long search text indeed");

    let title = app.popup_title(20);

    assert_eq!(unicode_width::UnicodeWidthStr::width(title.as_str()), 18);
    assert!(title.ends_with("\u{2026} "), "title was: {title}");
}

// Tests that the status table scrolls with its cursor.
// Given: more statuses than fit in a short popup, cursor on the last row
// When: the popup content is laid out
// Then: the offset scrolls the table just far enough to show the cursor
//       row, counting the table's own header line
#[test]
fn status_table_scrolls_to_keep_the_cursor_visible() {
    let selected_row = 9;
    let popup_height = 5;

    let offset = overlay::scroll_to_show(selected_row + 1, popup_height);

    assert_eq!(offset, 6);
}

// Tests that the popup edge cannot cut a double-width character in half.
// Given: tasks whose titles place a CJK character across the popup's
//        left border, with the help view open
// When: a frame is rendered
// Then: the character left of the border is blanked, so the terminal
//       cannot draw its right half over the border
#[test]
fn popup_edge_blanks_a_half_covered_wide_char() {
    let mut db = Db::open_in_memory().unwrap();
    for _ in 0..5 {
        // "  a" puts the third character across columns 5 and 6, and the
        // popup border sits at column 6 on a 60 column screen.
        db.create_task(None, "a\u{3042}\u{3044}\u{3046}", None, default_status(&db))
            .unwrap();
    }
    let mut app = app_for(&db, db.list_all().unwrap());
    press(&mut app, &mut db, "?");

    let rows = rendered_rows(&mut app, 60, 20);

    // Cells map one to one onto characters here: the right half of a
    // wide character is stored as a space and only its left half is
    // drawn.
    assert_eq!(rows[3].chars().nth(5), Some(' '), "row 3 was: {}", rows[3]);
    assert_eq!(rows[3].chars().nth(6), Some('\u{2502}'));
}

// Tests that a confirmed help filter stays visible while browsing.
// Given: the help view filtered by "zoom" and confirmed back to browse,
//        where the prompt row is hidden
// When: a frame is rendered
// Then: the popup title shows the active filter
#[test]
fn help_popup_title_shows_the_active_filter() {
    let mut db = Db::open_in_memory().unwrap();
    let mut app = app_for(&db, vec![]);
    press(&mut app, &mut db, "?/zoom");
    app.handle_key(&mut db, Key::Enter).unwrap();

    let rows = rendered_rows(&mut app, 60, 20);

    assert!(rows[2].contains("help: zoom"), "title was: {}", rows[2]);
}

// Tests that a long result list scrolls inside the popup.
// Given: 20 matching tasks with the cursor on the last one, on a 70x12
//        terminal whose popup fits only seven result rows
// When: a frame is rendered
// Then: the selected result is the popup's last content row and the
//       earlier results have scrolled out of the popup
#[test]
fn query_results_scroll_inside_the_popup() {
    let mut db = Db::open_in_memory().unwrap();
    for i in 0..20 {
        db.create_task(None, &format!("task {i}"), None, default_status(&db))
            .unwrap();
    }
    let mut app = app_for(&db, db.list_all().unwrap());
    press(&mut app, &mut db, "/task");
    app.handle_key(&mut db, Key::Enter).unwrap();
    press(&mut app, &mut db, &"j".repeat(19));

    let rows = rendered_rows(&mut app, 70, 12);

    // 80% of 70x12, centered: the popup spans rows 1..9, so its content
    // rows are 2..8.
    assert!(rows[8].contains("task 19"), "row 8 was: {}", rows[8]);
    assert!(!rows[2].contains("task 0 "), "row 2 was: {}", rows[2]);
}

// Tests that drawing records the heights that size half-page jumps.
// Given: a 60x20 terminal, first showing the bare tree, then the help
//        popup over it
// When: a frame is rendered in each state
// Then: the tree records its list rows (19: the screen minus the
//       footer line) and the popup its inner rows (14: the 80%-high
//       popup of 16 rows minus its two border rows)
#[test]
fn draw_records_list_and_popup_heights() {
    let mut db = Db::open_in_memory().unwrap();
    let mut app = app_for(&db, vec![]);

    rendered_rows(&mut app, 60, 20);
    assert_eq!(app.list_height, 19);

    app.handle_key(&mut db, Key::Char('?')).unwrap();
    rendered_rows(&mut app, 60, 20);
    assert_eq!(app.popup_height, 14);
}

